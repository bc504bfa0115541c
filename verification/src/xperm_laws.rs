//! What a list of ioctl ranges allows: a complement list allows every
//! command except those it lists, however many ranges it holds.

use vstd::prelude::*;

use crate::policy::{
    fold_classes, fold_perms, fold_rules, fold_targets, xp_plan, xp_rule,
};
use crate::properties::{xp_allows, law_xperm_complement};
use crate::sepol::{
    avtab_key, policy_valid, xperms_kinds, xperms_unique, AvNode, PolicyView,
    AVTAB_XPERMS_IOCTLDRIVER, AVTAB_XPERMS_IOCTLFUNCTION, POLICYDB_VERSION_XPERMS_IOCTL,
};
use crate::sepol_impl::{
    all_bits, bit_range, is_any_func_node, is_driver_node, is_func_node, is_func_node_in,
    new_driver_node, new_func_node, with_perms, xp_add_rule, xp_exclude, class_lookup,
    keys_for_source, keys_for_target, rule_keys, type_lookup, xp_add_rules, xp_excludes,
    xp_operands,
};
use crate::seqs::{find_first, lemma_find_first, lemma_find_first_at, lemma_find_first_none};
use crate::xperm::Xperm;

verus! {

// ---- searching after a change ----

proof fn lemma_find_update_other<A>(s: Seq<A>, i: int, x: A, pred: spec_fn(A) -> bool)
    requires
        0 <= i < s.len(),
        !pred(s[i]),
        !pred(x),
    ensures
        find_first(s.update(i, x), pred) == find_first(s, pred),
{
    lemma_find_first(s, pred);
    let u = s.update(i, x);
    match find_first(s, pred) {
        Some(k) => {
            assert forall|j: int| 0 <= j < k implies !pred(#[trigger] u[j]) by {
                if j != i {
                    assert(u[j] == s[j]);
                }
            }
            assert(u[k] == s[k]);
            lemma_find_first_at(u, pred, k);
        },
        None => {
            assert forall|j: int| 0 <= j < u.len() implies !pred(#[trigger] u[j]) by {
                if j != i {
                    assert(u[j] == s[j]);
                }
            }
            lemma_find_first_none(u, pred);
        },
    }
}

proof fn lemma_find_update_same<A>(s: Seq<A>, i: int, x: A, pred: spec_fn(A) -> bool)
    requires
        find_first(s, pred) == Some(i),
        pred(x),
    ensures
        find_first(s.update(i, x), pred) == Some(i),
{
    lemma_find_first(s, pred);
    assert forall|j: int| 0 <= j < i implies !pred(#[trigger] s.update(i, x)[j]) by {
        assert(s.update(i, x)[j] == s[j]);
    }
    lemma_find_first_at(s.update(i, x), pred, i);
}

proof fn lemma_find_push_other<A>(s: Seq<A>, x: A, pred: spec_fn(A) -> bool)
    requires
        !pred(x),
    ensures
        find_first(s.push(x), pred) == find_first(s, pred),
{
    lemma_find_first(s, pred);
    let u = s.push(x);
    match find_first(s, pred) {
        Some(k) => {
            assert forall|j: int| 0 <= j < k implies !pred(#[trigger] u[j]) by {
                assert(u[j] == s[j]);
            }
            assert(u[k] == s[k]);
            lemma_find_first_at(u, pred, k);
        },
        None => {
            assert forall|j: int| 0 <= j < u.len() implies !pred(#[trigger] u[j]) by {
                if j < s.len() {
                    assert(u[j] == s[j]);
                }
            }
            lemma_find_first_none(u, pred);
        },
    }
}

proof fn lemma_find_push_new<A>(s: Seq<A>, x: A, pred: spec_fn(A) -> bool)
    requires
        find_first(s, pred) is None,
        pred(x),
    ensures
        find_first(s.push(x), pred) == Some(s.len() as int),
{
    lemma_find_first(s, pred);
    assert forall|j: int| 0 <= j < s.len() implies !pred(#[trigger] s.push(x)[j]) by {
        assert(s.push(x)[j] == s[j]);
    }
    lemma_find_first_at(s.push(x), pred, s.len() as int);
}

// ---- filtering ----

pub proof fn lemma_filter_members<A>(s: Seq<A>, p: spec_fn(A) -> bool)
    ensures
        forall|k: int|
            0 <= k < s.filter(p).len() ==> exists|b: int|
                0 <= b < s.len() && s[b] == #[trigger] s.filter(p)[k],
        forall|k: int| 0 <= k < s.filter(p).len() ==> p(#[trigger] s.filter(p)[k]),
        forall|b: int|
            0 <= b < s.len() && p(#[trigger] s[b]) ==> exists|k: int|
                0 <= k < s.filter(p).len() && s.filter(p)[k] == s[b],
    decreases s.len(),
{
    reveal(Seq::filter);
    if s.len() > 0 {
        let d = s.drop_last();
        lemma_filter_members(d, p);
        let f = d.filter(p);
        let g = s.filter(p);
        assert(g == if p(s.last()) {
            f.push(s.last())
        } else {
            f
        });
        assert forall|k: int| 0 <= k < g.len() implies exists|b: int|
            0 <= b < s.len() && s[b] == #[trigger] g[k] by {
            if k < f.len() {
                let b = choose|b: int| 0 <= b < d.len() && d[b] == f[k];
                assert(s[b] == d[b]);
                assert(g[k] == f[k]);
            } else {
                assert(s[s.len() - 1] == g[k]);
            }
        }
        assert forall|k: int| 0 <= k < g.len() implies p(#[trigger] g[k]) by {
            if k < f.len() {
                assert(g[k] == f[k]);
            }
        }
        assert forall|b: int| 0 <= b < s.len() && p(#[trigger] s[b]) implies exists|k: int|
            0 <= k < g.len() && g[k] == s[b] by {
            if b < d.len() {
                assert(s[b] == d[b]);
                assert(p(d[b]));
                let k = choose|k: int| 0 <= k < f.len() && f[k] == d[b];
                assert(g[k] == f[k]);
            } else {
                assert(g[g.len() - 1] == s[b]);
            }
        }
    }
}

// ---- keeping the table's extended permissions well shaped ----

/// The extended permission rules of a table are well shaped.
pub open spec fn xperms_ok(av: Seq<AvNode>) -> bool {
    xperms_unique(av) && xperms_kinds(av)
}

proof fn lemma_ok_update(av: Seq<AvNode>, k: int, n: AvNode)
    requires
        xperms_ok(av),
        0 <= k < av.len(),
        av[k].xperms is Some,
        n.key == av[k].key,
        n.xperms is Some,
        n.xperms.unwrap().specified == av[k].xperms.unwrap().specified,
        n.xperms.unwrap().driver == av[k].xperms.unwrap().driver,
    ensures
        xperms_ok(av.update(k, n)),
{
    let r = av.update(k, n);
    assert forall|i: int, j: int|
        0 <= i < j < r.len() && (#[trigger] r[i]).key == (#[trigger] r[j]).key && r[i].xperms
            is Some && r[j].xperms is Some implies {
        let a = r[i].xperms.unwrap();
        let b = r[j].xperms.unwrap();
        a.specified != b.specified || (a.specified == AVTAB_XPERMS_IOCTLFUNCTION && a.driver
            != b.driver)
    } by {
        assert(av[i].key == r[i].key && av[j].key == r[j].key);
        assert(av[i].xperms is Some && av[j].xperms is Some);
    }
    assert forall|i: int| 0 <= i < r.len() implies ((#[trigger] r[i]).xperms matches Some(x) ==> (
    x.specified == AVTAB_XPERMS_IOCTLFUNCTION || x.specified == AVTAB_XPERMS_IOCTLDRIVER)) by {
        assert(r[i].xperms is Some ==> av[i].xperms is Some);
    }
}

proof fn lemma_ok_push(av: Seq<AvNode>, n: AvNode)
    requires
        xperms_ok(av),
        n.xperms is Some,
        n.xperms.unwrap().specified == AVTAB_XPERMS_IOCTLFUNCTION || n.xperms.unwrap().specified
            == AVTAB_XPERMS_IOCTLDRIVER,
        forall|j: int|
            0 <= j < av.len() && (#[trigger] av[j]).key == n.key && av[j].xperms is Some ==> {
                let a = av[j].xperms.unwrap();
                let b = n.xperms.unwrap();
                a.specified != b.specified || (a.specified == AVTAB_XPERMS_IOCTLFUNCTION
                    && a.driver != b.driver)
            },
    ensures
        xperms_ok(av.push(n)),
{
    let r = av.push(n);
    assert forall|i: int, j: int|
        0 <= i < j < r.len() && (#[trigger] r[i]).key == (#[trigger] r[j]).key && r[i].xperms
            is Some && r[j].xperms is Some implies {
        let a = r[i].xperms.unwrap();
        let b = r[j].xperms.unwrap();
        a.specified != b.specified || (a.specified == AVTAB_XPERMS_IOCTLFUNCTION && a.driver
            != b.driver)
    } by {
        assert(r[i] == av[i]);
        if j < av.len() {
            assert(r[j] == av[j]);
        }
    }
    assert forall|i: int| 0 <= i < r.len() implies ((#[trigger] r[i]).xperms matches Some(x) ==> (
    x.specified == AVTAB_XPERMS_IOCTLFUNCTION || x.specified == AVTAB_XPERMS_IOCTLDRIVER)) by {
        if i < av.len() {
            assert(r[i] == av[i]);
        }
    }
}

proof fn lemma_ok_filter(av: Seq<AvNode>, p: spec_fn(AvNode) -> bool)
    requires
        xperms_ok(av),
    ensures
        xperms_ok(av.filter(p)),
{
    crate::properties::lemma_filter_unique(av, p);
    lemma_filter_members(av, p);
    let f = av.filter(p);
    assert forall|i: int| 0 <= i < f.len() implies ((#[trigger] f[i]).xperms matches Some(x) ==> (
    x.specified == AVTAB_XPERMS_IOCTLFUNCTION || x.specified == AVTAB_XPERMS_IOCTLDRIVER)) by {
        let b = choose|b: int| 0 <= b < av.len() && av[b] == f[i];
        assert(av[b] == f[i]);
    }
}

// ---- what a table allows, read from its first rules ----

/// Whether the driver rule of `key` holds driver `d`.
pub open spec fn driver_bit(av: Seq<AvNode>, key: avtab_key, d: int) -> bool {
    match find_first(av, |n: AvNode| is_driver_node(n, key)) {
        Some(i) => av[i].xperms.unwrap().perms.contains(d),
        None => false,
    }
}

/// Whether the function rule of `key` for driver `d` holds function `f`.
pub open spec fn func_bit(av: Seq<AvNode>, key: avtab_key, d: int, f: int) -> bool {
    match find_first(av, |n: AvNode| is_func_node(n, key, d as u8)) {
        Some(j) => av[j].xperms.unwrap().perms.contains(f),
        None => false,
    }
}

/// In a well-shaped table a key has one driver rule and one function rule
/// per driver at most, so what it allows is read from the first of each.
proof fn lemma_allows_first(av: Seq<AvNode>, key: avtab_key, cmd: int)
    requires
        xperms_ok(av),
        0 <= cmd <= 0xFFFF,
    ensures
        xp_allows(av, key, cmd) <==> driver_bit(av, key, cmd / 256) || func_bit(
            av,
            key,
            cmd / 256,
            cmd % 256,
        ),
{
    let e = cmd / 256;
    let f = cmd % 256;
    let pd = |n: AvNode| is_driver_node(n, key);
    let pf = |n: AvNode| is_func_node(n, key, e as u8);
    lemma_find_first(av, pd);
    lemma_find_first(av, pf);
    assert((e as u8) as int == e);
    if xp_allows(av, key, cmd) {
        let j = choose|j: int|
            0 <= j < av.len() && #[trigger] av[j].key == key && (av[j].xperms matches Some(x) && ((
            x.specified == AVTAB_XPERMS_IOCTLDRIVER && x.perms.contains(cmd / 256)) || (x.specified
                == AVTAB_XPERMS_IOCTLFUNCTION && x.driver == cmd / 256 && x.perms.contains(
                cmd % 256,
            ))));
        let x = av[j].xperms.unwrap();
        if x.specified == AVTAB_XPERMS_IOCTLDRIVER && x.perms.contains(e) {
            assert(pd(av[j]));
            let i = find_first(av, pd).unwrap();
            if i != j {
                assert(i < j);
                assert(av[i].key == av[j].key);
            }
        } else {
            assert(pf(av[j]));
            let i = find_first(av, pf).unwrap();
            if i != j {
                assert(i < j);
                assert(av[i].key == av[j].key);
            }
        }
    }
    if driver_bit(av, key, e) {
        let i = find_first(av, pd).unwrap();
        assert(0 <= i < av.len() && av[i].key == key);
    }
    if func_bit(av, key, e, f) {
        let i = find_first(av, pf).unwrap();
        assert(0 <= i < av.len() && av[i].key == key);
    }
}

// ---- taking commands out ----

/// The commands a range names: those from `low` to `high` within one
/// driver; whole drivers for a range across drivers, as the ioctl rules
/// read such a range.
pub open spec fn xp_excluded(x: Xperm, cmd: int) -> bool {
    if x.low as int / 256 != x.high as int / 256 {
        x.low as int / 256 <= cmd / 256 <= x.high as int / 256
    } else {
        x.low <= cmd <= x.high
    }
}

/// Taking ioctl commands out keeps the extended permission rules well
/// shaped.
pub proof fn lemma_exclude_ok(av: Seq<AvNode>, key: avtab_key, low: u16, high: u16)
    requires
        xperms_ok(av),
    ensures
        xperms_ok(xp_exclude(av, key, low, high)),
{
    let dl = low as int / 256;
    let dh = high as int / 256;
    let fl = low as int % 256;
    let fh = high as int % 256;
    if dl != dh {
        let keep = |n: AvNode| !is_func_node_in(n, key, dl, dh);
        let av1 = av.filter(keep);
        lemma_ok_filter(av, keep);
        let pd = |n: AvNode| is_driver_node(n, key);
        lemma_find_first(av1, pd);
        match find_first(av1, pd) {
            Some(i) => {
                lemma_ok_update(
                    av1,
                    i,
                    with_perms(av1[i], av1[i].xperms.unwrap().perms.difference(bit_range(dl, dh))),
                );
            },
            None => {},
        }
    } else {
        let d = dl as u8;
        let pd = |n: AvNode| is_driver_node(n, key);
        lemma_find_first(av, pd);
        let drv = find_first(av, pd);
        let whole = drv matches Some(i) && av[i].xperms.unwrap().perms.contains(dl);
        let av1 = match drv {
            Some(i) => av.update(
                i,
                with_perms(av[i], av[i].xperms.unwrap().perms.difference(bit_range(dl, dl))),
            ),
            None => av,
        };
        match drv {
            Some(i) => {
                lemma_ok_update(
                    av,
                    i,
                    with_perms(av[i], av[i].xperms.unwrap().perms.difference(bit_range(dl, dl))),
                );
            },
            None => {},
        }
        let pf = |n: AvNode| is_func_node(n, key, d);
        lemma_find_first(av1, pf);
        match find_first(av1, pf) {
            Some(j) => {
                lemma_ok_update(
                    av1,
                    j,
                    with_perms(
                        av1[j],
                        (if whole {
                            all_bits()
                        } else {
                            av1[j].xperms.unwrap().perms
                        }).difference(bit_range(fl, fh)),
                    ),
                );
            },
            None => {
                if whole {
                    let nf = new_func_node(key, d);
                    assert forall|j: int|
                        0 <= j < av1.len() && (#[trigger] av1[j]).key == nf.key && av1[j].xperms
                            is Some implies {
                        let a = av1[j].xperms.unwrap();
                        let b = nf.xperms.unwrap();
                        a.specified != b.specified || (a.specified == AVTAB_XPERMS_IOCTLFUNCTION
                            && a.driver != b.driver)
                    } by {
                        assert(!pf(av1[j]));
                    }
                    lemma_ok_push(av1, nf);
                    let base = av1.push(nf);
                    lemma_ok_update(
                        base,
                        av1.len() as int,
                        with_perms(base[av1.len() as int], all_bits().difference(bit_range(fl, fh))),
                    );
                }
            },
        }
    }
}


/// A complement rule keeps the extended permission rules well shaped.
pub proof fn lemma_reset_ok(av: Seq<AvNode>, key: avtab_key, low: u16, high: u16)
    requires
        xperms_ok(av),
    ensures
        xperms_ok(xp_add_rule(av, key, low, high, true)),
{
    let dl = low as int / 256;
    let dh = high as int / 256;
    let fl = low as int % 256;
    let fh = high as int % 256;
    let nf = |n: AvNode| !is_any_func_node(n, key);
    let av1 = av.filter(nf);
    lemma_ok_filter(av, nf);
    lemma_filter_members(av, nf);
    let pd = |n: AvNode| is_driver_node(n, key);
    lemma_find_first(av1, pd);
    let found = find_first(av1, pd);
    let base = match found {
        Some(i) => av1,
        None => av1.push(new_driver_node(key)),
    };
    let i = match found {
        Some(i) => i,
        None => av1.len() as int,
    };
    if found is None {
        let nd = new_driver_node(key);
        assert forall|j: int|
            0 <= j < av1.len() && (#[trigger] av1[j]).key == nd.key && av1[j].xperms is Some implies {
            let a = av1[j].xperms.unwrap();
            let b = nd.xperms.unwrap();
            a.specified != b.specified || (a.specified == AVTAB_XPERMS_IOCTLFUNCTION && a.driver
                != b.driver)
        } by {
            assert(!pd(av1[j]));
        }
        lemma_ok_push(av1, nd);
    }
    assert(base[i].xperms is Some && base[i].key == key);
    if dl != dh {
        lemma_ok_update(base, i, with_perms(base[i], all_bits().difference(bit_range(dl, dh))));
    } else {
        let b2 = base.update(i, with_perms(base[i], all_bits().remove(dl)));
        lemma_ok_update(base, i, with_perms(base[i], all_bits().remove(dl)));
        let fnode = with_perms(new_func_node(key, dl as u8), all_bits().difference(bit_range(fl, fh)));
        assert forall|j: int|
            0 <= j < b2.len() && (#[trigger] b2[j]).key == fnode.key && b2[j].xperms is Some implies {
            let a = b2[j].xperms.unwrap();
            let b = fnode.xperms.unwrap();
            a.specified != b.specified || (a.specified == AVTAB_XPERMS_IOCTLFUNCTION && a.driver
                != b.driver)
        } by {
            if j != i {
                assert(b2[j] == base[j]);
                if j < av1.len() {
                    assert(b2[j] == av1[j]);
                    assert(nf(av1[j]));
                }
            }
        }
        lemma_ok_push(b2, fnode);
    }
}

/// Taking the commands of a range out of what a key allows leaves it
/// allowing exactly what it allowed before, less those commands.
#[verifier::spinoff_prover]
#[verifier::rlimit(40)]
pub proof fn law_xperm_exclude(av: Seq<AvNode>, key: avtab_key, low: u16, high: u16, cmd: int)
    requires
        xperms_ok(av),
        0 <= cmd <= 0xFFFF,
    ensures
        xp_allows(xp_exclude(av, key, low, high), key, cmd) <==> xp_allows(av, key, cmd)
            && !xp_excluded(Xperm { low, high, reset: true }, cmd),
{
    let r = xp_exclude(av, key, low, high);
    lemma_exclude_ok(av, key, low, high);
    lemma_allows_first(av, key, cmd);
    lemma_allows_first(r, key, cmd);
    let dl = low as int / 256;
    let dh = high as int / 256;
    let fl = low as int % 256;
    let fh = high as int % 256;
    let e = cmd / 256;
    let f = cmd % 256;
    let pd = |n: AvNode| is_driver_node(n, key);
    let pf = |n: AvNode| is_func_node(n, key, e as u8);
    assert((e as u8) as int == e);
    if dl != dh {
        let keep = |n: AvNode| !is_func_node_in(n, key, dl, dh);
        let av1 = av.filter(keep);
        lemma_ok_filter(av, keep);
        lemma_filter_members(av, keep);
        lemma_allows_first(av1, key, cmd);
        lemma_find_first(av1, pd);
        lemma_find_first(av1, pf);
        // what the filtered table allows
        if !(dl <= e <= dh) {
            if xp_allows(av, key, cmd) {
                let b = choose|b: int|
                    0 <= b < av.len() && #[trigger] av[b].key == key && (av[b].xperms matches Some(
                        x,
                    ) && ((x.specified == AVTAB_XPERMS_IOCTLDRIVER && x.perms.contains(cmd / 256))
                        || (x.specified == AVTAB_XPERMS_IOCTLFUNCTION && x.driver == cmd / 256
                        && x.perms.contains(cmd % 256))));
                assert(keep(av[b]));
                let k = choose|k: int| 0 <= k < av1.len() && av1[k] == av[b];
                assert(0 <= k < av1.len() && av1[k].key == key);
            }
            if xp_allows(av1, key, cmd) {
                let k = choose|k: int|
                    0 <= k < av1.len() && #[trigger] av1[k].key == key && (av1[k].xperms matches Some(
                        x,
                    ) && ((x.specified == AVTAB_XPERMS_IOCTLDRIVER && x.perms.contains(cmd / 256))
                        || (x.specified == AVTAB_XPERMS_IOCTLFUNCTION && x.driver == cmd / 256
                        && x.perms.contains(cmd % 256))));
                let b = choose|b: int| 0 <= b < av.len() && av[b] == av1[k];
                assert(0 <= b < av.len() && av[b].key == key);
            }
            assert(xp_allows(av1, key, cmd) == xp_allows(av, key, cmd));
        } else {
            // no function rule of the range's drivers is left
            lemma_find_first(av1, pf);
            match find_first(av1, pf) {
                Some(j) => {
                    assert(keep(av1[j]));
                },
                None => {},
            }
            assert(!func_bit(av1, key, e, f));
        }
        match find_first(av1, pd) {
            Some(i) => {
                let nd = with_perms(av1[i], av1[i].xperms.unwrap().perms.difference(bit_range(dl, dh)));
                assert(r == av1.update(i, nd));
                lemma_find_update_same(av1, i, nd, pd);
                lemma_find_update_other(av1, i, nd, pf);
                assert(driver_bit(r, key, e) == (driver_bit(av1, key, e) && !(dl <= e <= dh)));
                match find_first(av1, pf) {
                    Some(j) => {
                        assert(j != i);
                        assert(r[j] == av1[j]);
                    },
                    None => {},
                }
                assert(func_bit(r, key, e, f) == func_bit(av1, key, e, f));
            },
            None => {
                assert(r == av1);
            },
        }
    } else {
        let d = dl as u8;
        let pfd = |n: AvNode| is_func_node(n, key, d);
        lemma_find_first(av, pd);
        let drv = find_first(av, pd);
        let whole = drv matches Some(i) && av[i].xperms.unwrap().perms.contains(dl);
        assert(whole == driver_bit(av, key, dl));
        let av1 = match drv {
            Some(i) => av.update(
                i,
                with_perms(av[i], av[i].xperms.unwrap().perms.difference(bit_range(dl, dl))),
            ),
            None => av,
        };
        // the driver rule loses driver `dl` and nothing else changes
        match drv {
            Some(i) => {
                let nd = with_perms(av[i], av[i].xperms.unwrap().perms.difference(bit_range(dl, dl)));
                lemma_find_update_same(av, i, nd, pd);
                lemma_find_update_other(av, i, nd, pf);
                lemma_find_update_other(av, i, nd, pfd);
            },
            None => {},
        }
        assert(driver_bit(av1, key, e) == (driver_bit(av, key, e) && e != dl));
        assert(find_first(av1, pf) == find_first(av, pf));
        assert(find_first(av1, pfd) == find_first(av, pfd));
        lemma_find_first(av1, pfd);
        lemma_find_first(av1, pf);
        match find_first(av1, pfd) {
            Some(j) => {
                let nn = with_perms(
                    av1[j],
                    (if whole {
                        all_bits()
                    } else {
                        av1[j].xperms.unwrap().perms
                    }).difference(bit_range(fl, fh)),
                );
                assert(r == av1.update(j, nn));
                lemma_find_update_other(av1, j, nn, pd);
                if e == dl {
                    assert(pf == pfd);
                    lemma_find_update_same(av1, j, nn, pf);
                    match drv {
                        Some(i) => {
                            assert(i != j);
                            assert(av1[j] == av[j]);
                        },
                        None => {},
                    }
                } else {
                    lemma_find_update_other(av1, j, nn, pf);
                    match find_first(av1, pf) {
                        Some(k) => {
                            assert(k != j);
                            assert(r[k] == av1[k]);
                        },
                        None => {},
                    }
                }
            },
            None => {
                if whole {
                    let nf = new_func_node(key, d);
                    let base = av1.push(nf);
                    let n = av1.len() as int;
                    let nn = with_perms(base[n], all_bits().difference(bit_range(fl, fh)));
                    assert(r == base.update(n, nn));
                    lemma_find_push_other(av1, nf, pd);
                    lemma_find_update_other(base, n, nn, pd);
                    if e == dl {
                        assert(pf == pfd);
                        lemma_find_push_new(av1, nf, pf);
                        lemma_find_update_same(base, n, nn, pf);
                    } else {
                        lemma_find_push_other(av1, nf, pf);
                        lemma_find_update_other(base, n, nn, pf);
                        match find_first(av1, pf) {
                            Some(k) => {
                                assert(r[k] == av1[k]);
                            },
                            None => {},
                        }
                    }
                } else {
                    assert(r == av1);
                    if e == dl {
                        assert(pf == pfd);
                    }
                }
            },
        }
        match drv {
            Some(i) => {
                if e != dl {
                    match find_first(av, pf) {
                        Some(k) => {
                            assert(k != i);
                            assert(av1[k] == av[k]);
                        },
                        None => {},
                    }
                }
            },
            None => {},
        }
        if e == dl {
            assert(xp_excluded(Xperm { low, high, reset: true }, cmd) <==> fl <= f <= fh);
        } else {
            assert(!xp_excluded(Xperm { low, high, reset: true }, cmd));
        }
    }
}


// ---- complement lists ----

/// The table after a complement list on one key: its first range resets
/// what the key allows to all but that range, each further range is taken
/// out.
pub open spec fn xp_complement_list(av: Seq<AvNode>, key: avtab_key, rs: Seq<Xperm>) -> Seq<AvNode>
    decreases rs.len(),
{
    if rs.len() == 0 {
        av
    } else if rs.len() == 1 {
        xp_add_rule(av, key, rs[0].low, rs[0].high, true)
    } else {
        xp_exclude(xp_complement_list(av, key, rs.drop_last()), key, rs.last().low, rs.last().high)
    }
}

/// A complement list allows, on its key, every command except those its
/// ranges name, whatever the key allowed before.
pub proof fn law_xperm_complement_list(av: Seq<AvNode>, key: avtab_key, rs: Seq<Xperm>, cmd: int)
    requires
        rs.len() > 0,
        xperms_ok(av),
        0 <= cmd <= 0xFFFF,
    ensures
        xperms_ok(xp_complement_list(av, key, rs)),
        xp_allows(xp_complement_list(av, key, rs), key, cmd) <==> forall|i: int|
            0 <= i < rs.len() ==> !xp_excluded(#[trigger] rs[i], cmd),
    decreases rs.len(),
{
    if rs.len() == 1 {
        lemma_reset_ok(av, key, rs[0].low, rs[0].high);
        law_xperm_complement(av, key, rs[0].low, rs[0].high, cmd);
        if !xp_excluded(rs[0], cmd) {
            assert forall|i: int| 0 <= i < rs.len() implies !xp_excluded(#[trigger] rs[i], cmd) by {
                assert(i == 0);
            }
        }
    } else {
        let d = rs.drop_last();
        let x = rs.last();
        law_xperm_complement_list(av, key, d, cmd);
        let mid = xp_complement_list(av, key, d);
        lemma_exclude_ok(mid, key, x.low, x.high);
        law_xperm_exclude(mid, key, x.low, x.high, cmd);
        assert(xp_excluded(Xperm { low: x.low, high: x.high, reset: true }, cmd) == xp_excluded(x, cmd));
        assert(x == rs[rs.len() - 1]);
        if forall|i: int| 0 <= i < d.len() ==> !xp_excluded(#[trigger] d[i], cmd) {
            if !xp_excluded(x, cmd) {
                assert forall|i: int| 0 <= i < rs.len() implies !xp_excluded(#[trigger] rs[i], cmd) by {
                    if i < d.len() {
                        assert(rs[i] == d[i]);
                    }
                }
            }
        } else {
            let i = choose|i: int| 0 <= i < d.len() && xp_excluded(#[trigger] d[i], cmd);
            assert(rs[i] == d[i]);
        }
    }
}

/// The key of an ioctl rule of kind `effect` over a named source, target
/// and class.
pub open spec fn named_key(db: PolicyView, s: Seq<char>, t: Seq<char>, c: Seq<char>, effect: u16) -> avtab_key {
    avtab_key {
        source_type: db.types[type_lookup(db.types, s).unwrap()].value as u16,
        target_type: db.types[type_lookup(db.types, t).unwrap()].value as u16,
        target_class: db.classes[class_lookup(db.classes, c).unwrap()].value as u16,
        specified: effect,
    }
}

proof fn lemma_single_keys(a: u32, b: u32, c: u32, e: u16)
    ensures
        rule_keys(seq![a], seq![b], seq![c], e) == seq![
            avtab_key { source_type: a as u16, target_type: b as u16, target_class: c as u16, specified: e },
        ],
{
    let k = avtab_key { source_type: a as u16, target_type: b as u16, target_class: c as u16, specified: e };
    assert(seq![a].drop_last() =~= Seq::<u32>::empty());
    assert(seq![b].drop_last() =~= Seq::<u32>::empty());
    assert(keys_for_target(a, b, seq![c], e) =~= seq![k]);
    assert(keys_for_source(a, Seq::<u32>::empty(), seq![c], e) == Seq::<avtab_key>::empty());
    assert(keys_for_source(a, seq![b], seq![c], e) =~= seq![k]);
    assert(rule_keys(Seq::<u32>::empty(), seq![b], seq![c], e) == Seq::<avtab_key>::empty());
    assert(rule_keys(seq![a], seq![b], seq![c], e) =~= seq![k]);
}

proof fn lemma_fold_single<P>(db: PolicyView, s: Seq<char>, t: Seq<char>, c: Seq<char>, ps: Seq<P>, step: spec_fn(PolicyView, Seq<char>, Seq<char>, Seq<char>, P) -> PolicyView)
    ensures
        fold_rules(db, seq![s], seq![t], seq![c], ps, step) == fold_perms(db, s, t, c, ps, step),
{
    assert(seq![s].drop_last() =~= Seq::<Seq<char>>::empty());
    assert(seq![t].drop_last() =~= Seq::<Seq<char>>::empty());
    assert(seq![c].drop_last() =~= Seq::<Seq<char>>::empty());
    assert(fold_classes(db, s, t, Seq::<Seq<char>>::empty(), ps, step) == db);
    assert(fold_targets(db, s, Seq::<Seq<char>>::empty(), seq![c], ps, step) == db);
    assert(fold_rules(db, Seq::<Seq<char>>::empty(), seq![t], seq![c], ps, step) == db);
}

/// The ranges of a complement list as the steps of its plan.
spec fn complement_steps(p: Seq<Xperm>) -> Seq<(Xperm, bool)> {
    p.map(|i: int, x: Xperm| (x, i > 0))
}

#[verifier::spinoff_prover]
#[verifier::rlimit(30)]
proof fn lemma_fold_complement(db: PolicyView, s: Seq<char>, t: Seq<char>, c: Seq<char>, p: Seq<Xperm>, effect: u16)
    requires
        db.policyvers >= POLICYDB_VERSION_XPERMS_IOCTL,
        s.len() > 0,
        t.len() > 0,
        c.len() > 0,
        type_lookup(db.types, s) is Some,
        type_lookup(db.types, t) is Some,
        class_lookup(db.classes, c) is Some,
        p.len() > 0,
        forall|i: int| 0 <= i < p.len() ==> (#[trigger] p[i]).reset,
    ensures
        ({
            let r = fold_perms(db, s, t, c, complement_steps(p), xp_rule(effect));
            &&& r.avtab == xp_complement_list(db.avtab, named_key(db, s, t, c, effect), p)
            &&& r.types == db.types
            &&& r.classes == db.classes
            &&& r.policyvers == db.policyvers
        }),
    decreases p.len(),
{
    let key = named_key(db, s, t, c, effect);
    let step = xp_rule(effect);
    let q = complement_steps(p);
    let si = type_lookup(db.types, s).unwrap();
    let ti = type_lookup(db.types, t).unwrap();
    let ci = class_lookup(db.classes, c).unwrap();
    lemma_single_keys(db.types[si].value, db.types[ti].value, db.classes[ci].value, effect);
    let keys = seq![key];
    assert(keys.drop_last() =~= Seq::<avtab_key>::empty());
    assert(q.last() == (p.last(), p.len() > 1));
    if p.len() == 1 {
        assert(q.drop_last() =~= Seq::<(Xperm, bool)>::empty());
        assert(fold_perms(db, s, t, c, q.drop_last(), step) == db);
        assert(xp_operands(db, s, t, c) == Some((Some(si), Some(ti), Some(ci))));
        assert(p[0] == p.last());
        assert(keys.last() == key);
        assert(xp_add_rules(db.avtab, keys.drop_last(), p[0].low, p[0].high, true) == db.avtab);
        assert(xp_add_rules(db.avtab, keys, p[0].low, p[0].high, true) == xp_add_rule(
            db.avtab,
            key,
            p[0].low,
            p[0].high,
            true,
        ));
    } else {
        let d = p.drop_last();
        assert forall|i: int| 0 <= i < d.len() implies (#[trigger] d[i]).reset by {
            assert(d[i] == p[i]);
        }
        lemma_fold_complement(db, s, t, c, d, effect);
        assert(q.drop_last() =~= complement_steps(d));
        let mid = fold_perms(db, s, t, c, q.drop_last(), step);
        assert(named_key(mid, s, t, c, effect) == key);
        assert(xp_operands(mid, s, t, c) == Some((Some(si), Some(ti), Some(ci))));
        let x = p.last();
        assert(keys.last() == key);
        assert(xp_excludes(mid.avtab, keys.drop_last(), x.low, x.high) == mid.avtab);
        assert(xp_excludes(mid.avtab, keys, x.low, x.high) == xp_exclude(mid.avtab, key, x.low, x.high));
    }
}

/// An ioctl rule with a complement list over one named source, target and
/// class allows, for them, every command except those the list names:
/// `allowxperm s t c ioctl ~{ 0x8910 0x892A }` allows all but those two.
pub proof fn law_complement_list_allows(db: PolicyView, s: Seq<char>, t: Seq<char>, c: Seq<char>, p: Seq<Xperm>, effect: u16, cmd: int)
    requires
        policy_valid(db),
        db.policyvers >= POLICYDB_VERSION_XPERMS_IOCTL,
        s.len() > 0,
        t.len() > 0,
        c.len() > 0,
        type_lookup(db.types, s) is Some,
        type_lookup(db.types, t) is Some,
        class_lookup(db.classes, c) is Some,
        p.len() > 0,
        forall|i: int| 0 <= i < p.len() ==> (#[trigger] p[i]).reset,
        0 <= cmd <= 0xFFFF,
    ensures
        xp_allows(
            fold_rules(db, seq![s], seq![t], seq![c], xp_plan(p), xp_rule(effect)).avtab,
            named_key(db, s, t, c, effect),
            cmd,
        ) <==> forall|i: int| 0 <= i < p.len() ==> !xp_excluded(#[trigger] p[i], cmd),
{
    assert forall|i: int| 0 <= i < p.len() implies #[trigger] xp_plan(p)[i] == complement_steps(p)[i] by {
        if i > 0 {
            assert(p[i - 1].reset);
        }
    }
    assert(xp_plan(p) =~= complement_steps(p));
    lemma_fold_single(db, s, t, c, xp_plan(p), xp_rule(effect));
    lemma_fold_complement(db, s, t, c, p, effect);
    law_xperm_complement_list(db.avtab, named_key(db, s, t, c, effect), p, cmd);
}

} // verus!
