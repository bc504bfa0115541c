//! Which rules a statement over wildcards reaches, and what one rule does
//! to the bits of its key: a wildcard of a rule that grants, audits or
//! silences stands for the attributes, one of a rule that takes
//! permissions away for every type; a rule changes only the bit it names;
//! declaring a type makes it a member of the attributes it lists.

use vstd::prelude::*;

use crate::sepol::{
    avtab_key, avtab_shape, is_xperm_kind, policy_valid, AvNode, PolicyView, TypeView,
    AVTAB_ALLOWED, AVTAB_AUDITALLOW, AVTAB_AUDITDENY, TYPE_ATTRIB,
};
use crate::sepol_impl::{
    av_add_rule, av_add_rules, av_find, av_operands, av_rule_result, class_lookup, class_operand,
    is_driver_node, is_func_node, is_func_node_in, is_any_func_node, keys_for_source,
    keys_for_target, new_driver_node, new_func_node, perm_value, rule_keys, type_candidates,
    type_lookup, type_operand, with_perms, xp_add_rule, xp_add_rules, xp_exclude, xp_exclude_result,
    xp_excludes, xp_operands, xp_rule_result, all_bits, bit_range,
};
use crate::seqs::{find_first, lemma_find_first, lemma_find_first_at, lemma_find_first_none};
use crate::xperm_laws::lemma_filter_members;
use crate::properties::has_perm;

verus! {

// ---- the keys a rule reaches ----

/// Whether `v` is the value of an attribute.
pub open spec fn is_attr_value(types: Seq<TypeView>, v: u16) -> bool {
    exists|k: int| 0 <= k < types.len() && types[k].flavor == TYPE_ATTRIB && types[k].value as u16 == v
}

proof fn lemma_target_keys(s: u32, t: u32, cs: Seq<u32>, e: u16)
    ensures
        forall|i: int|
            0 <= i < keys_for_target(s, t, cs, e).len() ==> {
                let k = #[trigger] keys_for_target(s, t, cs, e)[i];
                &&& k.source_type == s as u16
                &&& k.target_type == t as u16
                &&& k.specified == e
                &&& exists|l: int| 0 <= l < cs.len() && k.target_class == cs[l] as u16
            },
        forall|l: int|
            0 <= l < cs.len() ==> keys_for_target(s, t, cs, e).contains(
                avtab_key {
                    source_type: s as u16,
                    target_type: t as u16,
                    target_class: #[trigger] cs[l] as u16,
                    specified: e,
                },
            ),
{
    let ks = keys_for_target(s, t, cs, e);
    assert forall|i: int| 0 <= i < ks.len() implies ({
        let k = #[trigger] ks[i];
        &&& k.source_type == s as u16
        &&& k.target_type == t as u16
        &&& k.specified == e
        &&& exists|l: int| 0 <= l < cs.len() && k.target_class == cs[l] as u16
    }) by {
        assert(ks[i].target_class == cs[i] as u16);
    }
    assert forall|l: int| 0 <= l < cs.len() implies ks.contains(
        avtab_key { source_type: s as u16, target_type: t as u16, target_class: #[trigger] cs[l] as u16, specified: e },
    ) by {
        assert(ks[l] == avtab_key { source_type: s as u16, target_type: t as u16, target_class: cs[l] as u16, specified: e });
    }
}

proof fn lemma_source_keys(s: u32, ts: Seq<u32>, cs: Seq<u32>, e: u16)
    ensures
        forall|i: int|
            0 <= i < keys_for_source(s, ts, cs, e).len() ==> {
                let k = #[trigger] keys_for_source(s, ts, cs, e)[i];
                &&& k.source_type == s as u16
                &&& k.specified == e
                &&& exists|j: int| 0 <= j < ts.len() && k.target_type == ts[j] as u16
            },
        forall|j: int, l: int|
            0 <= j < ts.len() && 0 <= l < cs.len() ==> keys_for_source(s, ts, cs, e).contains(
                avtab_key {
                    source_type: s as u16,
                    target_type: #[trigger] ts[j] as u16,
                    target_class: #[trigger] cs[l] as u16,
                    specified: e,
                },
            ),
    decreases ts.len(),
{
    if ts.len() > 0 {
        let d = ts.drop_last();
        lemma_source_keys(s, d, cs, e);
        lemma_target_keys(s, ts.last(), cs, e);
        let a = keys_for_source(s, d, cs, e);
        let b = keys_for_target(s, ts.last(), cs, e);
        let ks = keys_for_source(s, ts, cs, e);
        assert(ks == a + b);
        assert forall|i: int| 0 <= i < ks.len() implies ({
            let k = #[trigger] ks[i];
            &&& k.source_type == s as u16
            &&& k.specified == e
            &&& exists|j: int| 0 <= j < ts.len() && k.target_type == ts[j] as u16
        }) by {
            if i < a.len() {
                assert(ks[i] == a[i]);
                let j = choose|j: int| 0 <= j < d.len() && a[i].target_type == d[j] as u16;
                assert(ts[j] == d[j]);
            } else {
                assert(ks[i] == b[i - a.len()]);
                assert(ts[ts.len() - 1] == ts.last());
            }
        }
        assert forall|j: int, l: int| 0 <= j < ts.len() && 0 <= l < cs.len() implies ks.contains(
            avtab_key { source_type: s as u16, target_type: #[trigger] ts[j] as u16, target_class: #[trigger] cs[l] as u16, specified: e },
        ) by {
            let k = avtab_key { source_type: s as u16, target_type: ts[j] as u16, target_class: cs[l] as u16, specified: e };
            if j < d.len() {
                assert(d[j] == ts[j]);
                assert(a.contains(k));
                let m = choose|m: int| 0 <= m < a.len() && a[m] == k;
                assert(ks[m] == k);
            } else {
                assert(ts[j] == ts.last());
                assert(b.contains(k));
                let m = choose|m: int| 0 <= m < b.len() && b[m] == k;
                assert(ks[a.len() + m] == k);
            }
        }
    }
}

/// The keys of a rule over sources `ss`, targets `ts` and classes `cs` are
/// exactly those of a source of `ss` and a target of `ts`.
pub proof fn lemma_rule_keys(ss: Seq<u32>, ts: Seq<u32>, cs: Seq<u32>, e: u16)
    ensures
        forall|i: int|
            0 <= i < rule_keys(ss, ts, cs, e).len() ==> {
                let k = #[trigger] rule_keys(ss, ts, cs, e)[i];
                &&& k.specified == e
                &&& exists|a: int| 0 <= a < ss.len() && k.source_type == ss[a] as u16
                &&& exists|j: int| 0 <= j < ts.len() && k.target_type == ts[j] as u16
            },
        forall|a: int, j: int, l: int|
            0 <= a < ss.len() && 0 <= j < ts.len() && 0 <= l < cs.len() ==> rule_keys(ss, ts, cs, e).contains(
                avtab_key {
                    source_type: #[trigger] ss[a] as u16,
                    target_type: #[trigger] ts[j] as u16,
                    target_class: #[trigger] cs[l] as u16,
                    specified: e,
                },
            ),
    decreases ss.len(),
{
    if ss.len() > 0 {
        let d = ss.drop_last();
        lemma_rule_keys(d, ts, cs, e);
        lemma_source_keys(ss.last(), ts, cs, e);
        let a = rule_keys(d, ts, cs, e);
        let b = keys_for_source(ss.last(), ts, cs, e);
        let ks = rule_keys(ss, ts, cs, e);
        assert(ks == a + b);
        assert forall|i: int| 0 <= i < ks.len() implies ({
            let k = #[trigger] ks[i];
            &&& k.specified == e
            &&& exists|x: int| 0 <= x < ss.len() && k.source_type == ss[x] as u16
            &&& exists|j: int| 0 <= j < ts.len() && k.target_type == ts[j] as u16
        }) by {
            if i < a.len() {
                assert(ks[i] == a[i]);
                let x = choose|x: int| 0 <= x < d.len() && a[i].source_type == d[x] as u16;
                assert(ss[x] == d[x]);
            } else {
                assert(ks[i] == b[i - a.len()]);
                assert(ss[ss.len() - 1] == ss.last());
            }
        }
        assert forall|x: int, j: int, l: int|
            0 <= x < ss.len() && 0 <= j < ts.len() && 0 <= l < cs.len() implies ks.contains(
            avtab_key { source_type: #[trigger] ss[x] as u16, target_type: #[trigger] ts[j] as u16, target_class: #[trigger] cs[l] as u16, specified: e },
        ) by {
            let k = avtab_key { source_type: ss[x] as u16, target_type: ts[j] as u16, target_class: cs[l] as u16, specified: e };
            if x < d.len() {
                assert(d[x] == ss[x]);
                assert(a.contains(k));
                let m = choose|m: int| 0 <= m < a.len() && a[m] == k;
                assert(ks[m] == k);
            } else {
                assert(ss[x] == ss.last());
                assert(b.contains(k));
                let m = choose|m: int| 0 <= m < b.len() && b[m] == k;
                assert(ks[a.len() + m] == k);
            }
        }
    }
}

/// The values a wildcard stands for: attributes only, or every type.
pub proof fn lemma_candidates(types: Seq<TypeView>, all: bool)
    ensures
        !all ==> forall|i: int|
            0 <= i < type_candidates(types, all).len() ==> exists|k: int|
                0 <= k < types.len() && types[k].flavor == TYPE_ATTRIB && types[k].value
                    == #[trigger] type_candidates(types, all)[i],
        all ==> forall|k: int| 0 <= k < types.len() ==> type_candidates(types, all).contains(#[trigger] types[k].value),
    decreases types.len(),
{
    if types.len() > 0 {
        let d = types.drop_last();
        lemma_candidates(d, all);
        let rest = type_candidates(d, all);
        let tc = type_candidates(types, all);
        if !all {
            assert forall|i: int| 0 <= i < tc.len() implies exists|k: int|
                0 <= k < types.len() && types[k].flavor == TYPE_ATTRIB && types[k].value == #[trigger] tc[i] by {
                if i < rest.len() {
                    assert(tc[i] == rest[i]);
                    let k = choose|k: int| 0 <= k < d.len() && d[k].flavor == TYPE_ATTRIB && d[k].value == rest[i];
                    assert(types[k] == d[k]);
                } else {
                    assert(types[types.len() - 1] == types.last());
                }
            }
        } else {
            assert(tc == rest.push(types.last().value));
            assert forall|k: int| 0 <= k < types.len() implies tc.contains(#[trigger] types[k].value) by {
                if k < d.len() {
                    assert(types[k] == d[k]);
                    let m = choose|m: int| 0 <= m < rest.len() && rest[m] == d[k].value;
                    assert(tc[m] == rest[m]);
                } else {
                    assert(tc[rest.len() as int] == types[k].value);
                }
            }
        }
    }
}

// ---- what a rule touches ----

/// An access vector rule on `key` leaves every rule of the table as it was
/// but the one of `key`.
pub proof fn lemma_av_rule_touches(av: Seq<AvNode>, key: avtab_key, perm: Option<u32>, invert: bool)
    ensures
        ({
            let r = av_add_rule(av, key, perm, invert);
            forall|j: int| 0 <= j < r.len() ==> (#[trigger] r[j]).key == key || av.contains(r[j])
        }),
{
    let pred = |n: AvNode| n.key == key;
    lemma_find_first(av, pred);
    let r = av_add_rule(av, key, perm, invert);
    let found = av_find(av, key);
    let base = match found {
        Some(i) => av,
        None => av.push(crate::sepol::AvNode { key, data: crate::sepol_impl::initial_data(key.specified), xperms: None }),
    };
    assert forall|m: int| 0 <= m < base.len() implies (#[trigger] base[m]).key == key || av.contains(base[m]) by {
        if m < av.len() {
            assert(base[m] == av[m]);
        }
    }
    assert forall|j: int| 0 <= j < r.len() implies (#[trigger] r[j]).key == key || av.contains(r[j]) by {
        let i = match found {
            Some(i) => i,
            None => av.len() as int,
        };
        let d = crate::sepol_impl::rule_data(base[i].data, perm, invert);
        if crate::sepol_impl::is_redundant_spec(key, d) {
            if j < i {
                assert(r[j] == base[j]);
            } else {
                assert(r[j] == base[j + 1]);
            }
        } else if j != i {
            assert(r[j] == base[j]);
        } else {
            assert(base[i].key == key);
        }
    }
}

/// Access vector rules on `keys` leave every rule of the table as it was
/// but those of the keys.
pub proof fn lemma_av_rules_touch(av: Seq<AvNode>, keys: Seq<avtab_key>, perm: Option<u32>, invert: bool)
    ensures
        ({
            let r = av_add_rules(av, keys, perm, invert);
            forall|j: int| 0 <= j < r.len() ==> keys.contains((#[trigger] r[j]).key) || av.contains(r[j])
        }),
    decreases keys.len(),
{
    if keys.len() > 0 {
        let d = keys.drop_last();
        lemma_av_rules_touch(av, d, perm, invert);
        let mid = av_add_rules(av, d, perm, invert);
        lemma_av_rule_touches(mid, keys.last(), perm, invert);
        let r = av_add_rules(av, keys, perm, invert);
        assert forall|j: int| 0 <= j < r.len() implies keys.contains((#[trigger] r[j]).key) || av.contains(r[j]) by {
            if r[j].key == keys.last() {
                assert(keys[keys.len() - 1] == keys.last());
            } else {
                let m = choose|m: int| 0 <= m < mid.len() && mid[m] == r[j];
                if d.contains(mid[m].key) {
                    let x = choose|x: int| 0 <= x < d.len() && d[x] == mid[m].key;
                    assert(keys[x] == d[x]);
                }
            }
        }
    }
}


/// Every rule of `base` is one of `av` or has `key`.
pub open spec fn from_or_keyed(base: Seq<AvNode>, av: Seq<AvNode>, key: avtab_key) -> bool {
    forall|m: int| 0 <= m < base.len() ==> (#[trigger] base[m]).key == key || av.contains(base[m])
}

proof fn lemma_keyed_update(base: Seq<AvNode>, av: Seq<AvNode>, key: avtab_key, i: int, n: AvNode)
    requires
        from_or_keyed(base, av, key),
        0 <= i < base.len(),
        n.key == key,
    ensures
        from_or_keyed(base.update(i, n), av, key),
{
    assert forall|m: int| 0 <= m < base.update(i, n).len() implies (#[trigger] base.update(i, n)[m]).key
        == key || av.contains(base.update(i, n)[m]) by {
        if m != i {
            assert(base.update(i, n)[m] == base[m]);
        }
    }
}

proof fn lemma_keyed_push(base: Seq<AvNode>, av: Seq<AvNode>, key: avtab_key, n: AvNode)
    requires
        from_or_keyed(base, av, key),
        n.key == key,
    ensures
        from_or_keyed(base.push(n), av, key),
{
    assert forall|m: int| 0 <= m < base.push(n).len() implies (#[trigger] base.push(n)[m]).key == key
        || av.contains(base.push(n)[m]) by {
        if m < base.len() {
            assert(base.push(n)[m] == base[m]);
        }
    }
}

proof fn lemma_keyed_self(av: Seq<AvNode>, key: avtab_key)
    ensures
        from_or_keyed(av, av, key),
{
    assert forall|m: int| 0 <= m < av.len() implies (#[trigger] av[m]).key == key || av.contains(av[m]) by {
        assert(av.contains(av[m]));
    }
}

proof fn lemma_keyed_filter(av: Seq<AvNode>, key: avtab_key, p: spec_fn(AvNode) -> bool)
    ensures
        from_or_keyed(av.filter(p), av, key),
{
    lemma_filter_members(av, p);
    let f = av.filter(p);
    assert forall|m: int| 0 <= m < f.len() implies (#[trigger] f[m]).key == key || av.contains(f[m]) by {
        let b = choose|b: int| 0 <= b < av.len() && av[b] == f[m];
        assert(av[b] == f[m]);
    }
}

/// An ioctl rule on `key` leaves every rule of the table as it was but
/// those of `key`.
pub proof fn lemma_xp_rule_touches(av: Seq<AvNode>, key: avtab_key, low: u16, high: u16, reset: bool)
    ensures
        from_or_keyed(xp_add_rule(av, key, low, high, reset), av, key),
{
    let dl = low as int / 256;
    let dh = high as int / 256;
    let fl = low as int % 256;
    let fh = high as int % 256;
    lemma_keyed_self(av, key);
    if !reset {
        let pred = if dl != dh {
            |n: AvNode| is_driver_node(n, key)
        } else {
            |n: AvNode| is_func_node(n, key, dl as u8)
        };
        let nn = if dl != dh {
            new_driver_node(key)
        } else {
            new_func_node(key, dl as u8)
        };
        lemma_find_first(av, pred);
        let found = find_first(av, pred);
        let base = match found {
            Some(i) => av,
            None => av.push(nn),
        };
        let i = match found {
            Some(i) => i,
            None => av.len() as int,
        };
        if found is None {
            lemma_keyed_push(av, av, key, nn);
        }
        assert(base[i].key == key);
        let r = xp_add_rule(av, key, low, high, reset);
        if dl != dh {
            assert(r == base.update(i, with_perms(base[i], base[i].xperms.unwrap().perms.union(bit_range(dl, dh)))));
            lemma_keyed_update(base, av, key, i, with_perms(base[i], base[i].xperms.unwrap().perms.union(bit_range(dl, dh))));
        } else {
            assert(r == base.update(i, with_perms(base[i], base[i].xperms.unwrap().perms.union(bit_range(fl, fh)))));
            lemma_keyed_update(base, av, key, i, with_perms(base[i], base[i].xperms.unwrap().perms.union(bit_range(fl, fh))));
        }
    } else {
        let nf = |n: AvNode| !is_any_func_node(n, key);
        let av1 = av.filter(nf);
        lemma_keyed_filter(av, key, nf);
        let pred = |n: AvNode| is_driver_node(n, key);
        lemma_find_first(av1, pred);
        let found = find_first(av1, pred);
        let base = match found {
            Some(i) => av1,
            None => av1.push(new_driver_node(key)),
        };
        let i = match found {
            Some(i) => i,
            None => av1.len() as int,
        };
        if found is None {
            lemma_keyed_push(av1, av, key, new_driver_node(key));
        }
        assert(base[i].key == key);
        if dl != dh {
            lemma_keyed_update(base, av, key, i, with_perms(base[i], all_bits().difference(bit_range(dl, dh))));
        } else {
            let n1 = with_perms(base[i], all_bits().remove(dl));
            lemma_keyed_update(base, av, key, i, n1);
            lemma_keyed_push(
                base.update(i, n1),
                av,
                key,
                with_perms(new_func_node(key, dl as u8), all_bits().difference(bit_range(fl, fh))),
            );
        }
    }
}

/// Taking ioctl commands out on `key` leaves every rule of the table as it
/// was but those of `key`.
pub proof fn lemma_xp_exclude_touches(av: Seq<AvNode>, key: avtab_key, low: u16, high: u16)
    ensures
        from_or_keyed(xp_exclude(av, key, low, high), av, key),
{
    let dl = low as int / 256;
    let dh = high as int / 256;
    let fl = low as int % 256;
    let fh = high as int % 256;
    lemma_keyed_self(av, key);
    if dl != dh {
        let keep = |n: AvNode| !is_func_node_in(n, key, dl, dh);
        let av1 = av.filter(keep);
        lemma_keyed_filter(av, key, keep);
        let pd = |n: AvNode| is_driver_node(n, key);
        lemma_find_first(av1, pd);
        match find_first(av1, pd) {
            Some(i) => {
                lemma_keyed_update(av1, av, key, i, with_perms(av1[i], av1[i].xperms.unwrap().perms.difference(bit_range(dl, dh))));
            },
            None => {},
        }
    } else {
        let d = dl as u8;
        let pd = |n: AvNode| is_driver_node(n, key);
        lemma_find_first(av, pd);
        let drv = find_first(av, pd);
        let whole = drv matches Some(i) && av[i].xperms.unwrap().perms.contains(dl);
        let av1 = match drv {
            Some(i) => av.update(i, with_perms(av[i], av[i].xperms.unwrap().perms.difference(bit_range(dl, dl)))),
            None => av,
        };
        match drv {
            Some(i) => {
                lemma_keyed_update(av, av, key, i, with_perms(av[i], av[i].xperms.unwrap().perms.difference(bit_range(dl, dl))));
            },
            None => {},
        }
        let pf = |n: AvNode| is_func_node(n, key, d);
        lemma_find_first(av1, pf);
        match find_first(av1, pf) {
            Some(j) => {
                lemma_keyed_update(av1, av, key, j, with_perms(av1[j], (if whole {
                    all_bits()
                } else {
                    av1[j].xperms.unwrap().perms
                }).difference(bit_range(fl, fh))));
            },
            None => {
                if whole {
                    let base = av1.push(new_func_node(key, d));
                    lemma_keyed_push(av1, av, key, new_func_node(key, d));
                    lemma_keyed_update(base, av, key, av1.len() as int, with_perms(base[av1.len() as int], all_bits().difference(bit_range(fl, fh))));
                }
            },
        }
    }
}

/// Ioctl rules on `keys` leave every rule of the table as it was but those
/// of the keys.
pub proof fn lemma_xp_rules_touch(av: Seq<AvNode>, keys: Seq<avtab_key>, low: u16, high: u16, reset: bool)
    ensures
        ({
            let r = xp_add_rules(av, keys, low, high, reset);
            forall|j: int| 0 <= j < r.len() ==> keys.contains((#[trigger] r[j]).key) || av.contains(r[j])
        }),
    decreases keys.len(),
{
    if keys.len() > 0 {
        let d = keys.drop_last();
        lemma_xp_rules_touch(av, d, low, high, reset);
        let mid = xp_add_rules(av, d, low, high, reset);
        lemma_xp_rule_touches(mid, keys.last(), low, high, reset);
        let r = xp_add_rules(av, keys, low, high, reset);
        assert(r == xp_add_rule(mid, keys.last(), low, high, reset));
        assert forall|j: int| 0 <= j < r.len() implies keys.contains((#[trigger] r[j]).key) || av.contains(r[j]) by {
            assert(r[j].key == keys.last() || mid.contains(r[j]));
            if r[j].key == keys.last() {
                assert(keys[keys.len() - 1] == keys.last());
            } else {
                let m = choose|m: int| 0 <= m < mid.len() && mid[m] == r[j];
                if d.contains(mid[m].key) {
                    let x = choose|x: int| 0 <= x < d.len() && d[x] == mid[m].key;
                    assert(keys[x] == d[x]);
                }
            }
        }
    }
}

/// Taking ioctl commands out on `keys` leaves every rule of the table as it
/// was but those of the keys.
pub proof fn lemma_xp_excludes_touch(av: Seq<AvNode>, keys: Seq<avtab_key>, low: u16, high: u16)
    ensures
        ({
            let r = xp_excludes(av, keys, low, high);
            forall|j: int| 0 <= j < r.len() ==> keys.contains((#[trigger] r[j]).key) || av.contains(r[j])
        }),
    decreases keys.len(),
{
    if keys.len() > 0 {
        let d = keys.drop_last();
        lemma_xp_excludes_touch(av, d, low, high);
        let mid = xp_excludes(av, d, low, high);
        lemma_xp_exclude_touches(mid, keys.last(), low, high);
        let r = xp_excludes(av, keys, low, high);
        assert(r == xp_exclude(mid, keys.last(), low, high));
        assert forall|j: int| 0 <= j < r.len() implies keys.contains((#[trigger] r[j]).key) || av.contains(r[j]) by {
            assert(r[j].key == keys.last() || mid.contains(r[j]));
            if r[j].key == keys.last() {
                assert(keys[keys.len() - 1] == keys.last());
            } else {
                let m = choose|m: int| 0 <= m < mid.len() && mid[m] == r[j];
                if d.contains(mid[m].key) {
                    let x = choose|x: int| 0 <= x < d.len() && d[x] == mid[m].key;
                    assert(keys[x] == d[x]);
                }
            }
        }
    }
}


// ---- wildcards ----

/// The source (or target) of a rule key: the named type, or, for a
/// wildcard, an attribute.
pub open spec fn named_or_attribute(types: Seq<TypeView>, name: Seq<char>, v: u16) -> bool {
    if name.len() == 0 {
        is_attr_value(types, v)
    } else {
        type_lookup(types, name) matches Some(i) && v == types[i].value as u16
    }
}

proof fn lemma_operand_keys(types: Seq<TypeView>, ss: Seq<u32>, name: Seq<char>, idx: Option<int>, v: u16)
    requires
        ss == type_operand(types, idx, false),
        name.len() > 0 ==> idx == type_lookup(types, name) && idx is Some,
        name.len() == 0 ==> idx is None,
        exists|a: int| 0 <= a < ss.len() && v == ss[a] as u16,
    ensures
        named_or_attribute(types, name, v),
{
    let a = choose|a: int| 0 <= a < ss.len() && v == ss[a] as u16;
    if name.len() == 0 {
        lemma_candidates(types, false);
        let k = choose|k: int| 0 <= k < types.len() && types[k].flavor == TYPE_ATTRIB && types[k].value == ss[a];
        assert(types[k].value as u16 == v);
    }
}

/// A rule that grants, audits or silences permissions (allow, auditallow,
/// dontaudit) reaches only its named types, and for a wildcard the
/// attributes: every rule the table gains or changes has such a source and
/// target, and the rule's kind.
pub proof fn law_grant_wildcards_are_attributes(db: PolicyView, s: Seq<char>, t: Seq<char>, c: Seq<char>, p: Seq<char>, effect: u16, invert: bool)
    requires
        ((effect == AVTAB_ALLOWED || effect == AVTAB_AUDITALLOW) && !invert) || (effect == AVTAB_AUDITDENY
            && invert),
        av_rule_result(db, s, t, c, p, effect, invert) is Some,
    ensures
        ({
            let r = av_rule_result(db, s, t, c, p, effect, invert).unwrap();
            forall|j: int|
                0 <= j < r.len() && !db.avtab.contains(#[trigger] r[j]) ==> {
                    &&& named_or_attribute(db.types, s, r[j].key.source_type)
                    &&& named_or_attribute(db.types, t, r[j].key.target_type)
                    &&& r[j].key.specified == effect
                }
        }),
{
    let (src, tgt, cls, perm) = av_operands(db, s, t, c, p).unwrap();
    assert(!crate::sepol_impl::strips(effect, invert));
    let ss = type_operand(db.types, src, false);
    let ts = type_operand(db.types, tgt, false);
    let cs = class_operand(db.classes, cls);
    let keys = rule_keys(ss, ts, cs, effect);
    let r = av_rule_result(db, s, t, c, p, effect, invert).unwrap();
    assert(r == av_add_rules(db.avtab, keys, perm, invert));
    lemma_av_rules_touch(db.avtab, keys, perm, invert);
    lemma_rule_keys(ss, ts, cs, effect);
    assert forall|j: int| 0 <= j < r.len() && !db.avtab.contains(#[trigger] r[j]) implies {
        &&& named_or_attribute(db.types, s, r[j].key.source_type)
        &&& named_or_attribute(db.types, t, r[j].key.target_type)
        &&& r[j].key.specified == effect
    } by {
        let x = choose|x: int| 0 <= x < keys.len() && keys[x] == r[j].key;
        assert(keys[x].specified == effect);
        lemma_operand_keys(db.types, ss, s, src, keys[x].source_type);
        lemma_operand_keys(db.types, ts, t, tgt, keys[x].target_type);
    }
}

/// An ioctl rule, adding commands or taking them out, reaches only its
/// named types, and for a wildcard the attributes: every rule the table
/// gains or changes has such a source and target, and the rule's kind.
pub proof fn law_xperm_wildcards_are_attributes(db: PolicyView, s: Seq<char>, t: Seq<char>, c: Seq<char>, low: u16, high: u16, reset: bool, effect: u16, exclude: bool)
    requires
        exclude ==> xp_exclude_result(db, s, t, c, low, high, effect) is Some,
        !exclude ==> xp_rule_result(db, s, t, c, low, high, reset, effect) is Some,
    ensures
        ({
            let r = if exclude {
                xp_exclude_result(db, s, t, c, low, high, effect).unwrap()
            } else {
                xp_rule_result(db, s, t, c, low, high, reset, effect).unwrap()
            };
            forall|j: int|
                0 <= j < r.len() && !db.avtab.contains(#[trigger] r[j]) ==> {
                    &&& named_or_attribute(db.types, s, r[j].key.source_type)
                    &&& named_or_attribute(db.types, t, r[j].key.target_type)
                    &&& r[j].key.specified == effect
                }
        }),
{
    let (src, tgt, cls) = xp_operands(db, s, t, c).unwrap();
    let ss = type_operand(db.types, src, false);
    let ts = type_operand(db.types, tgt, false);
    let cs = class_operand(db.classes, cls);
    let keys = rule_keys(ss, ts, cs, effect);
    let r = if exclude {
        xp_exclude_result(db, s, t, c, low, high, effect).unwrap()
    } else {
        xp_rule_result(db, s, t, c, low, high, reset, effect).unwrap()
    };
    if exclude {
        assert(r == xp_excludes(db.avtab, keys, low, high));
        lemma_xp_excludes_touch(db.avtab, keys, low, high);
    } else {
        assert(r == xp_add_rules(db.avtab, keys, low, high, reset));
        lemma_xp_rules_touch(db.avtab, keys, low, high, reset);
    }
    lemma_rule_keys(ss, ts, cs, effect);
    assert forall|j: int| 0 <= j < r.len() && !db.avtab.contains(#[trigger] r[j]) implies {
        &&& named_or_attribute(db.types, s, r[j].key.source_type)
        &&& named_or_attribute(db.types, t, r[j].key.target_type)
        &&& r[j].key.specified == effect
    } by {
        assert(keys.contains(r[j].key));
        let x = choose|x: int| 0 <= x < keys.len() && keys[x] == r[j].key;
        assert(keys[x].specified == effect);
        lemma_operand_keys(db.types, ss, s, src, keys[x].source_type);
        lemma_operand_keys(db.types, ts, t, tgt, keys[x].target_type);
    }
}

// ---- the bits of one key ----

/// The permission bits a table holds for `key`: those of its rule, or,
/// without one, none (for `dontaudit`, whose bits list what is still
/// audited, all of them).
pub open spec fn rule_bits(av: Seq<AvNode>, key: avtab_key) -> u32 {
    match av_find(av, key) {
        Some(i) => av[i].data,
        None => if key.specified == AVTAB_AUDITDENY {
            0xFFFF_FFFFu32
        } else {
            0u32
        },
    }
}

/// One rule naming permission `pv` on a key, of which the table holds at
/// most one rule, changes that one bit of the key and no other: granting
/// turns it on, taking away (for `dontaudit`, silencing) turns it off.
pub proof fn law_av_rule_bits(av: Seq<AvNode>, key: avtab_key, pv: u32, invert: bool)
    requires
        1 <= pv <= 32,
        forall|i: int, j: int|
            0 <= i < av.len() && 0 <= j < av.len() && (#[trigger] av[i]).key == key && (#[trigger] av[j]).key
                == key ==> i == j,
    ensures
        rule_bits(av_add_rule(av, key, Some(pv), invert), key) == if invert {
            rule_bits(av, key) & !(1u32 << ((pv - 1) as u32))
        } else {
            rule_bits(av, key) | (1u32 << ((pv - 1) as u32))
        },
{
    let pred = |n: AvNode| n.key == key;
    lemma_find_first(av, pred);
    let r = av_add_rule(av, key, Some(pv), invert);
    let found = av_find(av, key);
    let node0 = AvNode { key, data: crate::sepol_impl::initial_data(key.specified), xperms: None };
    let base = match found {
        Some(i) => av,
        None => av.push(node0),
    };
    let i = match found {
        Some(i) => i,
        None => av.len() as int,
    };
    if found is None {
        crate::properties::lemma_find_after_push(av, node0, pred);
    }
    assert(base[i].data == rule_bits(av, key));
    let d = crate::sepol_impl::rule_data(base[i].data, Some(pv), invert);
    if crate::sepol_impl::is_redundant_spec(key, d) {
        assert(r == base.remove(i));
        assert forall|j: int| 0 <= j < r.len() implies !pred(#[trigger] r[j]) by {
            if j < i {
                assert(r[j] == base[j]);
                assert(j < av.len() && av[j] == base[j]);
            } else {
                assert(r[j] == base[j + 1]);
                assert(j + 1 < av.len() && av[j + 1] == base[j + 1]);
            }
        }
        lemma_find_first_none(r, pred);
    } else {
        let nn = AvNode { key: base[i].key, data: d, xperms: base[i].xperms };
        assert(r == base.update(i, nn));
        crate::properties::lemma_find_after_update(base, i, nn, pred);
    }
}


// ---- taking permissions away over a wildcard ----

proof fn lemma_shape_unique(av: Seq<AvNode>, key: avtab_key)
    requires
        avtab_shape(av),
        !is_xperm_kind(key.specified),
    ensures
        forall|i: int, j: int|
            0 <= i < av.len() && 0 <= j < av.len() && (#[trigger] av[i]).key == key && (#[trigger] av[j]).key
                == key ==> i == j,
{
    assert forall|i: int, j: int|
        0 <= i < av.len() && 0 <= j < av.len() && (#[trigger] av[i]).key == key && (#[trigger] av[j]).key
            == key implies i == j by {
        if i != j {
            assert(av[i].xperms is Some);
        }
    }
}

/// Taking permission `pv` away on every key of `ks` leaves no rule of any
/// of them holding it.
proof fn lemma_strip_keys(av: Seq<AvNode>, ks: Seq<avtab_key>, pv: u32, effect: u16)
    requires
        avtab_shape(av),
        1 <= pv <= 32,
        effect == AVTAB_ALLOWED || effect == AVTAB_AUDITALLOW,
        forall|x: int| 0 <= x < ks.len() ==> (#[trigger] ks[x]).specified == effect,
    ensures
        ({
            let r = av_add_rules(av, ks, Some(pv), true);
            &&& avtab_shape(r)
            &&& forall|x: int, i: int|
                0 <= x < ks.len() && 0 <= i < r.len() && (#[trigger] r[i]).key == #[trigger] ks[x]
                    ==> !has_perm(r[i].data, pv)
        }),
    decreases ks.len(),
{
    if ks.len() > 0 {
        let d = ks.drop_last();
        let last = ks.last();
        assert(last == ks[ks.len() - 1]);
        assert forall|x: int| 0 <= x < d.len() implies (#[trigger] d[x]).specified == effect by {
            assert(d[x] == ks[x]);
        }
        lemma_strip_keys(av, d, pv, effect);
        let mid = av_add_rules(av, d, Some(pv), true);
        let r = av_add_rules(av, ks, Some(pv), true);
        assert(r == av_add_rule(mid, last, Some(pv), true));
        crate::properties::lemma_av_rule_shape(mid, last, Some(pv), true);
        lemma_shape_unique(mid, last);
        crate::properties::law_deny_revokes(mid, last, pv);
        crate::properties::law_deny_exact(mid, last, pv);
        assert forall|x: int, i: int|
            0 <= x < ks.len() && 0 <= i < r.len() && (#[trigger] r[i]).key == #[trigger] ks[x] implies !has_perm(
            r[i].data,
            pv,
        ) by {
            if ks[x] != last {
                assert(r.contains(r[i]));
                let m = choose|m: int| 0 <= m < mid.len() && mid[m] == r[i];
                assert(x < d.len());
                assert(d[x] == ks[x]);
                assert(mid[m].key == d[x]);
            }
        }
    }
}

/// `deny` (or taking an audit away) with a wildcard source stands for
/// every type, attributes or not: afterwards no rule of any type on the
/// named target and class holds the permission.
pub proof fn law_strip_wildcard_every_type(db: PolicyView, t: Seq<char>, c: Seq<char>, p: Seq<char>, effect: u16)
    requires
        policy_valid(db),
        effect == AVTAB_ALLOWED || effect == AVTAB_AUDITALLOW,
        t.len() > 0,
        c.len() > 0,
        p.len() > 0,
        type_lookup(db.types, t) is Some,
        class_lookup(db.classes, c) is Some,
        perm_value(db.classes[class_lookup(db.classes, c).unwrap()], p) is Some,
    ensures
        av_rule_result(db, Seq::<char>::empty(), t, c, p, effect, true) is Some,
        ({
            let r = av_rule_result(db, Seq::<char>::empty(), t, c, p, effect, true).unwrap();
            let pv = perm_value(db.classes[class_lookup(db.classes, c).unwrap()], p).unwrap();
            let tv = db.types[type_lookup(db.types, t).unwrap()].value;
            let cv = db.classes[class_lookup(db.classes, c).unwrap()].value;
            forall|k: int, i: int|
                0 <= k < db.types.len() && 0 <= i < r.len() && (#[trigger] r[i]).key == (avtab_key {
                    source_type: (#[trigger] db.types[k]).value as u16,
                    target_type: tv as u16,
                    target_class: cv as u16,
                    specified: effect,
                }) ==> !has_perm(r[i].data, pv)
        }),
{
    let ti = type_lookup(db.types, t).unwrap();
    let ci = class_lookup(db.classes, c).unwrap();
    lemma_find_first(db.classes, |x: crate::sepol::ClassView| x.name == c);
    crate::properties::lemma_perm_value_range(db, ci, p);
    let pv = perm_value(db.classes[ci], p).unwrap();
    let s = Seq::<char>::empty();
    assert(av_operands(db, s, t, c, p) == Some((Option::<int>::None, Some(ti), Some(ci), Some(pv))));
    assert(crate::sepol_impl::strips(effect, true));
    let ss = type_operand(db.types, None, true);
    let ts = type_operand(db.types, Some(ti), true);
    let cs = class_operand(db.classes, Some(ci));
    let keys = rule_keys(ss, ts, cs, effect);
    let r = av_rule_result(db, s, t, c, p, effect, true).unwrap();
    assert(r == av_add_rules(db.avtab, keys, Some(pv), true));
    lemma_rule_keys(ss, ts, cs, effect);
    lemma_strip_keys(db.avtab, keys, pv, effect);
    lemma_candidates(db.types, true);
    let tv = db.types[ti].value;
    let cv = db.classes[ci].value;
    assert(ts[0] == tv && cs[0] == cv);
    assert forall|k: int, i: int|
        0 <= k < db.types.len() && 0 <= i < r.len() && (#[trigger] r[i]).key == (avtab_key {
            source_type: (#[trigger] db.types[k]).value as u16,
            target_type: tv as u16,
            target_class: cv as u16,
            specified: effect,
        }) implies !has_perm(r[i].data, pv) by {
        assert(ss.contains(db.types[k].value));
        let a = choose|a: int| 0 <= a < ss.len() && ss[a] == db.types[k].value;
        assert(keys.contains(avtab_key { source_type: ss[a] as u16, target_type: ts[0] as u16, target_class: cs[0] as u16, specified: effect }));
        let x = choose|x: int| 0 <= x < keys.len() && keys[x] == r[i].key;
    }
}


// ---- declaring a type with attributes ----

/// Type `ti` is a member of attribute `ai`: both maps record it.
pub open spec fn member_of(db: PolicyView, ti: int, ai: int) -> bool {
    db.attr_type_map[ai].contains(ti as u32) && db.type_attr_map[ti].contains(ai as u32)
}

/// Joining attributes keeps the types, the map sizes and every membership,
/// and makes type `ti` (not an attribute) a member of each of `attrs` that
/// names an attribute.
proof fn lemma_joins(d: PolicyView, name: Seq<char>, attrs: Seq<Seq<char>>, ti: int)
    requires
        type_lookup(d.types, name) == Some(ti),
        d.types[ti].flavor != TYPE_ATTRIB,
        d.type_attr_map.len() == d.types.len(),
        d.attr_type_map.len() == d.types.len(),
    ensures
        ({
            let f = crate::policy::fold_names(d, attrs, crate::policy::join_rule(name));
            &&& f.types == d.types
            &&& f.type_attr_map.len() == d.types.len()
            &&& f.attr_type_map.len() == d.types.len()
            &&& forall|i: int, x: u32|
                0 <= i < d.types.len() && #[trigger] d.attr_type_map[i].contains(x) ==> f.attr_type_map[i].contains(x)
            &&& forall|i: int, x: u32|
                0 <= i < d.types.len() && #[trigger] d.type_attr_map[i].contains(x) ==> f.type_attr_map[i].contains(x)
            &&& forall|x: int|
                0 <= x < attrs.len() && (type_lookup(d.types, #[trigger] attrs[x]) matches Some(ai)
                    && d.types[ai].flavor == TYPE_ATTRIB) ==> member_of(f, ti, type_lookup(d.types, attrs[x]).unwrap())
        }),
    decreases attrs.len(),
{
    lemma_find_first(d.types, |x: TypeView| x.name == name);
    if attrs.len() > 0 {
        let pre = attrs.drop_last();
        let a = attrs.last();
        lemma_joins(d, name, pre, ti);
        let m = crate::policy::fold_names(d, pre, crate::policy::join_rule(name));
        let f = crate::policy::fold_names(d, attrs, crate::policy::join_rule(name));
        assert(f == crate::policy::or_same(crate::sepol_impl::typeattribute_result(m, name, a), m));
        lemma_find_first(d.types, |x: TypeView| x.name == a);
        match crate::sepol_impl::typeattribute_result(m, name, a) {
            Some(v) => {
                let ai = type_lookup(m.types, a).unwrap();
                assert(f.attr_type_map == m.attr_type_map.update(ai, m.attr_type_map[ai].insert(ti as u32)));
                assert(f.type_attr_map == m.type_attr_map.update(ti, m.type_attr_map[ti].insert(ai as u32)));
            },
            None => {},
        }
        assert forall|x: int|
            0 <= x < attrs.len() && (type_lookup(d.types, #[trigger] attrs[x]) matches Some(ai)
                && d.types[ai].flavor == TYPE_ATTRIB) implies member_of(f, ti, type_lookup(d.types, attrs[x]).unwrap()) by {
            let ai = type_lookup(d.types, attrs[x]).unwrap();
            if x < pre.len() {
                assert(pre[x] == attrs[x]);
                assert(member_of(m, ti, ai));
                lemma_find_first(d.types, |y: TypeView| y.name == attrs[x]);
                assert(0 <= ai < d.types.len());
                match crate::sepol_impl::typeattribute_result(m, name, a) {
                    Some(v) => {
                        let aj = type_lookup(m.types, a).unwrap();
                        assert(crate::sepol_impl::typeattribute_operands(m, name, a) == Some((ti, aj)));
                        assert(f.attr_type_map == m.attr_type_map.update(aj, m.attr_type_map[aj].insert(ti as u32)));
                        assert(f.type_attr_map == m.type_attr_map.update(ti, m.type_attr_map[ti].insert(aj as u32)));
                        if ai == aj {
                            assert(f.attr_type_map[ai] == m.attr_type_map[ai].insert(ti as u32));
                        } else {
                            assert(f.attr_type_map[ai] == m.attr_type_map[ai]);
                        }
                        assert(f.type_attr_map[ti] == m.type_attr_map[ti].insert(aj as u32));
                    },
                    None => {},
                }
            } else {
                assert(attrs[x] == a);
                assert(m.types == d.types);
                assert(crate::sepol_impl::typeattribute_operands(m, name, a) == Some((ti, ai)));
                assert(f.attr_type_map == m.attr_type_map.update(ai, m.attr_type_map[ai].insert(ti as u32)));
                assert(f.type_attr_map == m.type_attr_map.update(ti, m.type_attr_map[ti].insert(ai as u32)));
                assert(f.attr_type_map[ai] == m.attr_type_map[ai].insert(ti as u32));
                assert(f.type_attr_map[ti] == m.type_attr_map[ti].insert(ai as u32));
            }
        }
    }
}

/// `type name { attrs }` makes `name` a member of every attribute of
/// `attrs` that exists, whether or not the type existed before: a new
/// type is declared first, an existing one is kept and still joins.
pub proof fn law_type_joins_attributes(db: PolicyView, name: Seq<char>, attrs: Seq<Seq<char>>)
    requires
        crate::sepol_impl::add_type_result(db, name, crate::sepol::TYPE_TYPE) is Some,
        type_lookup(db.types, name) matches Some(k) ==> db.types[k].flavor != TYPE_ATTRIB,
        db.type_attr_map.len() == db.types.len(),
        db.attr_type_map.len() == db.types.len(),
    ensures
        ({
            let r = crate::policy::new_type_step(db, name, attrs);
            &&& type_lookup(r.types, name) is Some
            &&& forall|x: int|
                0 <= x < attrs.len() && (type_lookup(db.types, #[trigger] attrs[x]) matches Some(ai)
                    && db.types[ai].flavor == TYPE_ATTRIB) ==> member_of(
                    r,
                    type_lookup(r.types, name).unwrap(),
                    type_lookup(db.types, attrs[x]).unwrap(),
                )
        }),
{
    let d0 = crate::sepol_impl::add_type_result(db, name, crate::sepol::TYPE_TYPE).unwrap();
    let pred = |x: TypeView| x.name == name;
    lemma_find_first(db.types, pred);
    let ti = match type_lookup(db.types, name) {
        Some(k) => k,
        None => db.types.len() as int,
    };
    if type_lookup(db.types, name) is None {
        let nt = TypeView { name, value: (db.types.len() + 1) as u32, flavor: crate::sepol::TYPE_TYPE };
        assert(d0.types == db.types.push(nt));
        crate::properties::lemma_find_after_push(db.types, nt, pred);
        assert forall|x: int|
            0 <= x < attrs.len() && (type_lookup(db.types, #[trigger] attrs[x]) matches Some(ai)
                && db.types[ai].flavor == TYPE_ATTRIB) implies type_lookup(d0.types, attrs[x]) == type_lookup(db.types, attrs[x])
            && d0.types[type_lookup(db.types, attrs[x]).unwrap()] == db.types[type_lookup(db.types, attrs[x]).unwrap()] by {
            let pa = |y: TypeView| y.name == attrs[x];
            lemma_find_first(db.types, pa);
            let ai = type_lookup(db.types, attrs[x]).unwrap();
            assert forall|j: int| 0 <= j < ai implies !pa(#[trigger] d0.types[j]) by {
                assert(d0.types[j] == db.types[j]);
            }
            assert(d0.types[ai] == db.types[ai]);
            lemma_find_first_at(d0.types, pa, ai);
        }
    } else {
        assert(d0 == db);
    }
    assert(type_lookup(d0.types, name) == Some(ti));
    lemma_joins(d0, name, attrs, ti);
    let r = crate::policy::new_type_step(db, name, attrs);
    assert(r == crate::policy::fold_names(d0, attrs, crate::policy::join_rule(name)));
    assert forall|x: int|
        0 <= x < attrs.len() && (type_lookup(db.types, #[trigger] attrs[x]) matches Some(ai)
            && db.types[ai].flavor == TYPE_ATTRIB) implies member_of(
            r,
            type_lookup(r.types, name).unwrap(),
            type_lookup(db.types, attrs[x]).unwrap(),
        ) by {
        assert(type_lookup(d0.types, attrs[x]) == type_lookup(db.types, attrs[x]));
    }
}

} // verus!
