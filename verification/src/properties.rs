//! What the rules promise: a granted permission is in the table and a
//! revoked one is not, taking a permission away undoes granting it, ioctl
//! ranges and complements allow exactly their commands, name-based
//! transitions and file system contexts are recorded, enforcing undoes
//! permissive, declaring a type twice changes nothing, rules over lists of
//! names are the rules over each name in order, every statement keeps the
//! shape of the table, and the texts of tokens and ranges read back.

use vstd::prelude::*;

use crate::policy::{
    av_rule, fold_classes, fold_names, fold_perms, fold_rules, fold_targets, state_rule,
    type_rule_step, xp_rule,
};
use crate::parser::{spec_xperm, spec_xperm_list, spec_xperm_range, spec_xperms};
use crate::xperm::{xperm_text, Xperm};
use crate::sepol::{
    avtab_key, avtab_shape, is_xperm_kind, policy_valid, ClassView, xperms_kinds, xperms_unique, AvNode, ContextView, FtChainView, FtDatumView,
    GenfsView, PolicyView, AVTAB_ALLOWED, AVTAB_AUDITDENY, AVTAB_XPERMS_IOCTLDRIVER,
    AVTAB_XPERMS_IOCTLFUNCTION, POLICYDB_VERSION_XPERMS_IOCTL,
};
use crate::sepol_impl::{
    add_type_result, all_bits, av_add_rule, av_add_rules, av_find, av_operands, bit_range,
    class_lookup, class_operand, ft_add, ft_decides, genfs_add, initial_data, is_any_func_node,
    is_driver_node, is_func_node, is_redundant_spec, keys_for_source, keys_for_target, new_driver_node, new_func_node,
    path_is, perm_lookup, perm_named, perm_value, rule_data, rule_keys, strips, type_lookup, type_operand,
    with_perms, xp_add_rule, xp_add_rules, xp_operands, xp_exclude, xp_excludes, is_func_node_in,
};
use crate::lexer::{all_hex, find_char, hex_number, hex_value, is_ws, lemma_find_char, parse_u16_hex};
use crate::token::{
    keyword_token, lemma_word_len_at, parse_xperm_hex_spec, statement_tokens, token_text,
    word_tokens, SpecToken,
};
use crate::seqs::{find_first, lemma_find_first, lemma_find_first_at, lemma_find_first_none};
use crate::text::{hex4, hex_digit};
use vstd::arithmetic::div_mod::{lemma_div_denominator, lemma_fundamental_div_mod};

verus! {

// ---- searching after a change ----

pub proof fn lemma_find_after_push<A>(s: Seq<A>, x: A, pred: spec_fn(A) -> bool)
    requires
        find_first(s, pred) is None,
        pred(x),
    ensures
        find_first(s.push(x), pred) == Some(s.len() as int),
{
    lemma_find_first(s, pred);
    assert forall|j: int| 0 <= j < s.len() implies !pred(#[trigger] s.push(x)[j]) by {
        assert(s.push(x)[j] == s[j]);
    }
    lemma_find_first_at(s.push(x), pred, s.len() as int);
}

pub proof fn lemma_find_after_update<A>(s: Seq<A>, i: int, x: A, pred: spec_fn(A) -> bool)
    requires
        find_first(s, pred) == Some(i),
        pred(x),
    ensures
        find_first(s.update(i, x), pred) == Some(i),
{
    lemma_find_first(s, pred);
    assert forall|j: int| 0 <= j < i implies !pred(#[trigger] s.update(i, x)[j]) by {
        assert(s.update(i, x)[j] == s[j]);
    }
    lemma_find_first_at(s.update(i, x), pred, i);
}

// ---- the shape of the table ----

proof fn lemma_shape_remove(av: Seq<AvNode>, k: int)
    requires
        avtab_shape(av),
        0 <= k < av.len(),
    ensures
        avtab_shape(av.remove(k)),
{
    let r = av.remove(k);
    assert forall|i: int| 0 <= i < r.len() implies ((#[trigger] r[i]).xperms is Some
        <==> is_xperm_kind(r[i].key.specified)) by {
        if i < k {
            assert(r[i] == av[i]);
        } else {
            assert(r[i] == av[i + 1]);
        }
    }
    assert forall|i: int, j: int|
        0 <= i < r.len() && 0 <= j < r.len() && i != j && (#[trigger] r[i]).key == (
        #[trigger] r[j]).key implies r[i].xperms is Some by {
        let ii = if i < k {
            i
        } else {
            i + 1
        };
        let jj = if j < k {
            j
        } else {
            j + 1
        };
        assert(r[i] == av[ii] && r[j] == av[jj]);
        assert(av[ii].key == av[jj].key);
    }
}

proof fn lemma_shape_set(av: Seq<AvNode>, k: int, n: AvNode)
    requires
        avtab_shape(av),
        0 <= k < av.len(),
        n.key == av[k].key,
        n.xperms is Some <==> av[k].xperms is Some,
    ensures
        avtab_shape(av.update(k, n)),
{
    let r = av.update(k, n);
    assert forall|i: int| 0 <= i < r.len() implies ((#[trigger] r[i]).xperms is Some
        <==> is_xperm_kind(r[i].key.specified)) by {
        assert(av[i].key == r[i].key);
    }
    assert forall|i: int, j: int|
        0 <= i < r.len() && 0 <= j < r.len() && i != j && (#[trigger] r[i]).key == (
        #[trigger] r[j]).key implies r[i].xperms is Some by {
        assert(av[i].key == r[i].key && av[j].key == r[j].key);
        assert(av[i].xperms is Some <==> r[i].xperms is Some);
    }
}

proof fn lemma_shape_push(av: Seq<AvNode>, n: AvNode)
    requires
        avtab_shape(av),
        n.xperms is Some <==> is_xperm_kind(n.key.specified),
        n.xperms is None ==> forall|j: int| 0 <= j < av.len() ==> (#[trigger] av[j]).key != n.key,
    ensures
        avtab_shape(av.push(n)),
{
    let r = av.push(n);
    assert forall|i: int| 0 <= i < r.len() implies ((#[trigger] r[i]).xperms is Some
        <==> is_xperm_kind(r[i].key.specified)) by {
        if i < av.len() {
            assert(r[i] == av[i]);
        }
    }
    assert forall|i: int, j: int|
        0 <= i < r.len() && 0 <= j < r.len() && i != j && (#[trigger] r[i]).key == (
        #[trigger] r[j]).key implies r[i].xperms is Some by {
        if i < av.len() && j < av.len() {
            assert(r[i] == av[i] && r[j] == av[j]);
        } else if i < av.len() {
            assert(r[i] == av[i]);
            if n.xperms is None {
                assert(av[i].key != n.key);
            } else {
                assert(is_xperm_kind(av[i].key.specified));
            }
        } else {
            assert(r[j] == av[j]);
            if n.xperms is None {
                assert(av[j].key != n.key);
            }
        }
    }
}

#[verifier::spinoff_prover]
proof fn lemma_shape_filter(av: Seq<AvNode>, p: spec_fn(AvNode) -> bool)
    requires
        avtab_shape(av),
    ensures
        avtab_shape(av.filter(p)),
    decreases av.len(),
{
    reveal(Seq::filter);
    if av.len() > 0 {
        let d = av.drop_last();
        lemma_shape_remove(av, av.len() - 1);
        assert(av.remove(av.len() - 1) =~= d);
        lemma_shape_filter(d, p);
        lemma_filter_keeps(d, p);
        let f = d.filter(p);
        if p(av.last()) {
            let last = av.last();
            assert(av.filter(p) == f.push(last));
            if last.xperms is None {
                assert forall|j: int| 0 <= j < f.len() implies (#[trigger] f[j]).key != last.key by {
                    let b = choose|b: int| 0 <= b < d.len() && d[b] == #[trigger] f[j];
                    assert(av[b] == f[j]);
                    assert(av[av.len() - 1] == last);
                    if f[j].key == last.key {
                        assert(av[av.len() - 1].xperms is Some);
                    }
                }
            }
            lemma_shape_push(f, last);
        }
    }
}

/// An access vector rule keeps the shape of the table.
pub proof fn lemma_av_rule_shape(av: Seq<AvNode>, key: avtab_key, perm: Option<u32>, invert: bool)
    requires
        avtab_shape(av),
        !is_xperm_kind(key.specified),
    ensures
        avtab_shape(av_add_rule(av, key, perm, invert)),
{
    let pred = |n: AvNode| n.key == key;
    lemma_find_first(av, pred);
    let node0 = AvNode { key, data: initial_data(key.specified), xperms: None };
    let base = match av_find(av, key) {
        Some(i) => av,
        None => av.push(node0),
    };
    let i = match av_find(av, key) {
        Some(i) => i,
        None => av.len() as int,
    };
    if av_find(av, key) is None {
        lemma_shape_push(av, node0);
    }
    assert(base[i].key == key);
    let d = rule_data(base[i].data, perm, invert);
    if is_redundant_spec(key, d) {
        lemma_shape_remove(base, i);
    } else {
        lemma_shape_set(base, i, AvNode { key: base[i].key, data: d, xperms: base[i].xperms });
    }
}

/// Access vector rules on keys of a kind other than the extended
/// permission ones keep the shape of the table.
pub proof fn lemma_av_rules_shape(av: Seq<AvNode>, keys: Seq<avtab_key>, perm: Option<u32>, invert: bool)
    requires
        avtab_shape(av),
        forall|k: int| 0 <= k < keys.len() ==> !is_xperm_kind(#[trigger] keys[k].specified),
    ensures
        avtab_shape(av_add_rules(av, keys, perm, invert)),
    decreases keys.len(),
{
    if keys.len() > 0 {
        lemma_av_rules_shape(av, keys.drop_last(), perm, invert);
        assert(keys.last() == keys[keys.len() - 1]);
        lemma_av_rule_shape(av_add_rules(av, keys.drop_last(), perm, invert), keys.last(), perm, invert);
    }
}

/// Every key of `rule_keys` has the given kind.
pub proof fn lemma_rule_keys_kind(ss: Seq<u32>, ts: Seq<u32>, cs: Seq<u32>, specified: u16)
    ensures
        forall|k: int|
            0 <= k < rule_keys(ss, ts, cs, specified).len() ==> (#[trigger] rule_keys(
                ss,
                ts,
                cs,
                specified,
            )[k]).specified == specified,
    decreases ss.len(),
{
    if ss.len() > 0 {
        lemma_rule_keys_kind(ss.drop_last(), ts, cs, specified);
        lemma_source_keys_kind(ss.last(), ts, cs, specified);
        let a = rule_keys(ss.drop_last(), ts, cs, specified);
        let b = keys_for_source(ss.last(), ts, cs, specified);
        assert forall|k: int| 0 <= k < (a + b).len() implies (#[trigger] (a + b)[k]).specified
            == specified by {
            if k < a.len() {
                assert((a + b)[k] == a[k]);
            } else {
                assert((a + b)[k] == b[k - a.len()]);
            }
        }
    }
}

proof fn lemma_source_keys_kind(s: u32, ts: Seq<u32>, cs: Seq<u32>, specified: u16)
    ensures
        forall|k: int|
            0 <= k < keys_for_source(s, ts, cs, specified).len() ==> (#[trigger] keys_for_source(
                s,
                ts,
                cs,
                specified,
            )[k]).specified == specified,
    decreases ts.len(),
{
    if ts.len() > 0 {
        lemma_source_keys_kind(s, ts.drop_last(), cs, specified);
        let a = keys_for_source(s, ts.drop_last(), cs, specified);
        let b = keys_for_target(s, ts.last(), cs, specified);
        assert forall|k: int| 0 <= k < (a + b).len() implies (#[trigger] (a + b)[k]).specified
            == specified by {
            if k < a.len() {
                assert((a + b)[k] == a[k]);
            } else {
                assert((a + b)[k] == b[k - a.len()]);
            }
        }
    }
}

/// An ioctl rule on a key of an extended permission kind keeps the shape
/// of the table.
#[verifier::spinoff_prover]
pub proof fn lemma_xp_rule_shape(av: Seq<AvNode>, key: avtab_key, low: u16, high: u16, reset: bool)
    requires
        avtab_shape(av),
        is_xperm_kind(key.specified),
    ensures
        avtab_shape(xp_add_rule(av, key, low, high, reset)),
{
    let dl = low as int / 256;
    let dh = high as int / 256;
    let fl = low as int % 256;
    let fh = high as int % 256;
    if !reset {
        if dl != dh {
            let pred = |n: AvNode| is_driver_node(n, key);
            lemma_find_first(av, pred);
            let found = find_first(av, pred);
            if found is None {
                lemma_shape_push(av, new_driver_node(key));
            }
            let base = match found {
                Some(i) => av,
                None => av.push(new_driver_node(key)),
            };
            let i = match found {
                Some(i) => i,
                None => av.len() as int,
            };
            lemma_shape_set(base, i, with_perms(base[i], base[i].xperms.unwrap().perms.union(bit_range(dl, dh))));
        } else {
            let pred = |n: AvNode| is_func_node(n, key, dl as u8);
            lemma_find_first(av, pred);
            let found = find_first(av, pred);
            if found is None {
                lemma_shape_push(av, new_func_node(key, dl as u8));
            }
            let base = match found {
                Some(i) => av,
                None => av.push(new_func_node(key, dl as u8)),
            };
            let i = match found {
                Some(i) => i,
                None => av.len() as int,
            };
            lemma_shape_set(base, i, with_perms(base[i], base[i].xperms.unwrap().perms.union(bit_range(fl, fh))));
        }
    } else {
        let nf = |n: AvNode| !is_any_func_node(n, key);
        let av1 = av.filter(nf);
        lemma_shape_filter(av, nf);
        let pred = |n: AvNode| is_driver_node(n, key);
        lemma_find_first(av1, pred);
        let found = find_first(av1, pred);
        if found is None {
            lemma_shape_push(av1, new_driver_node(key));
        }
        let base = match found {
            Some(i) => av1,
            None => av1.push(new_driver_node(key)),
        };
        let i = match found {
            Some(i) => i,
            None => av1.len() as int,
        };
        if dl != dh {
            lemma_shape_set(base, i, with_perms(base[i], all_bits().difference(bit_range(dl, dh))));
        } else {
            let b2 = base.update(i, with_perms(base[i], all_bits().remove(dl)));
            lemma_shape_set(base, i, with_perms(base[i], all_bits().remove(dl)));
            lemma_shape_push(
                b2,
                with_perms(new_func_node(key, dl as u8), all_bits().difference(bit_range(fl, fh))),
            );
        }
    }
}

/// Ioctl rules on keys of an extended permission kind keep the shape of
/// the table.
pub proof fn lemma_xp_rules_shape(av: Seq<AvNode>, keys: Seq<avtab_key>, low: u16, high: u16, reset: bool)
    requires
        avtab_shape(av),
        forall|k: int| 0 <= k < keys.len() ==> is_xperm_kind(#[trigger] keys[k].specified),
    ensures
        avtab_shape(xp_add_rules(av, keys, low, high, reset)),
    decreases keys.len(),
{
    if keys.len() > 0 {
        lemma_xp_rules_shape(av, keys.drop_last(), low, high, reset);
        assert(keys.last() == keys[keys.len() - 1]);
        lemma_xp_rule_shape(xp_add_rules(av, keys.drop_last(), low, high, reset), keys.last(), low, high, reset);
    }
}

/// Taking ioctl commands out on a key of an extended permission kind keeps
/// the shape of the table.
#[verifier::spinoff_prover]
pub proof fn lemma_xp_exclude_shape(av: Seq<AvNode>, key: avtab_key, low: u16, high: u16)
    requires
        avtab_shape(av),
        is_xperm_kind(key.specified),
    ensures
        avtab_shape(xp_exclude(av, key, low, high)),
{
    let dl = low as int / 256;
    let dh = high as int / 256;
    let fl = low as int % 256;
    let fh = high as int % 256;
    if dl != dh {
        let keep = |n: AvNode| !is_func_node_in(n, key, dl, dh);
        let av1 = av.filter(keep);
        lemma_shape_filter(av, keep);
        let pred = |n: AvNode| is_driver_node(n, key);
        lemma_find_first(av1, pred);
        match find_first(av1, pred) {
            Some(i) => {
                lemma_shape_set(av1, i, with_perms(av1[i], av1[i].xperms.unwrap().perms.difference(bit_range(dl, dh))));
            },
            None => {},
        }
    } else {
        let d = dl as u8;
        let pred = |n: AvNode| is_driver_node(n, key);
        lemma_find_first(av, pred);
        let drv = find_first(av, pred);
        let whole = drv matches Some(i) && av[i].xperms.unwrap().perms.contains(dl);
        let av1 = match drv {
            Some(i) => av.update(i, with_perms(av[i], av[i].xperms.unwrap().perms.difference(bit_range(dl, dl)))),
            None => av,
        };
        match drv {
            Some(i) => {
                lemma_shape_set(av, i, with_perms(av[i], av[i].xperms.unwrap().perms.difference(bit_range(dl, dl))));
            },
            None => {},
        }
        let fpred = |n: AvNode| is_func_node(n, key, d);
        lemma_find_first(av1, fpred);
        match find_first(av1, fpred) {
            Some(j) => {
                lemma_shape_set(av1, j, with_perms(av1[j], (if whole {
                    all_bits()
                } else {
                    av1[j].xperms.unwrap().perms
                }).difference(bit_range(fl, fh))));
            },
            None => {
                if whole {
                    lemma_shape_push(av1, new_func_node(key, d));
                    let base = av1.push(new_func_node(key, d));
                    lemma_shape_set(base, av1.len() as int, with_perms(base[av1.len() as int], all_bits().difference(bit_range(fl, fh))));
                }
            },
        }
    }
}

/// Taking ioctl commands out on keys of an extended permission kind keeps
/// the shape of the table.
pub proof fn lemma_xp_excludes_shape(av: Seq<AvNode>, keys: Seq<avtab_key>, low: u16, high: u16)
    requires
        avtab_shape(av),
        forall|k: int| 0 <= k < keys.len() ==> is_xperm_kind(#[trigger] keys[k].specified),
    ensures
        avtab_shape(xp_excludes(av, keys, low, high)),
    decreases keys.len(),
{
    if keys.len() > 0 {
        lemma_xp_excludes_shape(av, keys.drop_last(), low, high);
        assert(keys.last() == keys[keys.len() - 1]);
        lemma_xp_exclude_shape(xp_excludes(av, keys.drop_last(), low, high), keys.last(), low, high);
    }
}

/// A rule over lists of names keeps a property of the database that each
/// single rule keeps.
pub proof fn lemma_fold_rules_keeps<P>(db: PolicyView, ss: Seq<Seq<char>>, ts: Seq<Seq<char>>, cs: Seq<Seq<char>>, ps: Seq<P>, step: spec_fn(PolicyView, Seq<char>, Seq<char>, Seq<char>, P) -> PolicyView, inv: spec_fn(PolicyView) -> bool)
    requires
        inv(db),
        forall|d: PolicyView, s: Seq<char>, t: Seq<char>, c: Seq<char>, p: P|
            inv(d) ==> #[trigger] inv(step(d, s, t, c, p)),
    ensures
        inv(fold_rules(db, ss, ts, cs, ps, step)),
    decreases ss.len(),
{
    if ss.len() > 0 {
        lemma_fold_rules_keeps(db, ss.drop_last(), ts, cs, ps, step, inv);
        lemma_fold_targets_keeps(fold_rules(db, ss.drop_last(), ts, cs, ps, step), ss.last(), ts, cs, ps, step, inv);
    }
}

proof fn lemma_fold_targets_keeps<P>(db: PolicyView, s: Seq<char>, ts: Seq<Seq<char>>, cs: Seq<Seq<char>>, ps: Seq<P>, step: spec_fn(PolicyView, Seq<char>, Seq<char>, Seq<char>, P) -> PolicyView, inv: spec_fn(PolicyView) -> bool)
    requires
        inv(db),
        forall|d: PolicyView, s: Seq<char>, t: Seq<char>, c: Seq<char>, p: P|
            inv(d) ==> #[trigger] inv(step(d, s, t, c, p)),
    ensures
        inv(fold_targets(db, s, ts, cs, ps, step)),
    decreases ts.len(),
{
    if ts.len() > 0 {
        lemma_fold_targets_keeps(db, s, ts.drop_last(), cs, ps, step, inv);
        lemma_fold_classes_keeps(fold_targets(db, s, ts.drop_last(), cs, ps, step), s, ts.last(), cs, ps, step, inv);
    }
}

proof fn lemma_fold_classes_keeps<P>(db: PolicyView, s: Seq<char>, t: Seq<char>, cs: Seq<Seq<char>>, ps: Seq<P>, step: spec_fn(PolicyView, Seq<char>, Seq<char>, Seq<char>, P) -> PolicyView, inv: spec_fn(PolicyView) -> bool)
    requires
        inv(db),
        forall|d: PolicyView, s: Seq<char>, t: Seq<char>, c: Seq<char>, p: P|
            inv(d) ==> #[trigger] inv(step(d, s, t, c, p)),
    ensures
        inv(fold_classes(db, s, t, cs, ps, step)),
    decreases cs.len(),
{
    if cs.len() > 0 {
        lemma_fold_classes_keeps(db, s, t, cs.drop_last(), ps, step, inv);
        lemma_fold_perms_keeps(fold_classes(db, s, t, cs.drop_last(), ps, step), s, t, cs.last(), ps, step, inv);
    }
}

proof fn lemma_fold_perms_keeps<P>(db: PolicyView, s: Seq<char>, t: Seq<char>, c: Seq<char>, ps: Seq<P>, step: spec_fn(PolicyView, Seq<char>, Seq<char>, Seq<char>, P) -> PolicyView, inv: spec_fn(PolicyView) -> bool)
    requires
        inv(db),
        forall|d: PolicyView, s: Seq<char>, t: Seq<char>, c: Seq<char>, p: P|
            inv(d) ==> #[trigger] inv(step(d, s, t, c, p)),
    ensures
        inv(fold_perms(db, s, t, c, ps, step)),
    decreases ps.len(),
{
    if ps.len() > 0 {
        lemma_fold_perms_keeps(db, s, t, c, ps.drop_last(), step, inv);
    }
}

/// An operation on each of a list of names keeps a property of the
/// database that each single operation keeps.
pub proof fn lemma_fold_names_keeps(db: PolicyView, names: Seq<Seq<char>>, step: spec_fn(PolicyView, Seq<char>) -> PolicyView, inv: spec_fn(PolicyView) -> bool)
    requires
        inv(db),
        forall|d: PolicyView, n: Seq<char>| inv(d) ==> #[trigger] inv(step(d, n)),
    ensures
        inv(fold_names(db, names, step)),
    decreases names.len(),
{
    if names.len() > 0 {
        lemma_fold_names_keeps(db, names.drop_last(), step, inv);
    }
}

/// Whether the table of a database has the shape the statements build.
pub open spec fn shaped(db: PolicyView) -> bool {
    avtab_shape(db.avtab)
}

/// An access vector rule of a kind other than the extended permission
/// ones keeps the table's shape.
#[verifier::spinoff_prover]
pub proof fn lemma_av_step_shape(effect: u16, invert: bool)
    requires
        !is_xperm_kind(effect),
    ensures
        forall|d: PolicyView, s: Seq<char>, t: Seq<char>, c: Seq<char>, p: Seq<char>|
            shaped(d) ==> #[trigger] shaped((av_rule(effect, invert))(d, s, t, c, p)),
{
    assert forall|d: PolicyView, s: Seq<char>, t: Seq<char>, c: Seq<char>, p: Seq<char>|
        shaped(d) implies #[trigger] shaped((av_rule(effect, invert))(d, s, t, c, p)) by {
        match av_operands(d, s, t, c, p) {
            Some((src, tgt, cls, perm)) => {
                let all = strips(effect, invert);
                let ss = type_operand(d.types, src, all);
                let ts = type_operand(d.types, tgt, all);
                let cs = class_operand(d.classes, cls);
                lemma_rule_keys_kind(ss, ts, cs, effect);
                lemma_av_rules_shape(d.avtab, rule_keys(ss, ts, cs, effect), perm, invert);
            },
            None => {},
        }
    }
}

/// An ioctl rule of an extended permission kind keeps the table's shape,
/// whether it adds a range or takes one out.
#[verifier::spinoff_prover]
pub proof fn lemma_xp_step_shape(effect: u16)
    requires
        is_xperm_kind(effect),
    ensures
        forall|d: PolicyView, s: Seq<char>, t: Seq<char>, c: Seq<char>, op: (Xperm, bool)|
            shaped(d) ==> #[trigger] shaped((xp_rule(effect))(d, s, t, c, op)),
{
    assert forall|d: PolicyView, s: Seq<char>, t: Seq<char>, c: Seq<char>, op: (Xperm, bool)|
        shaped(d) implies #[trigger] shaped((xp_rule(effect))(d, s, t, c, op)) by {
        let x = op.0;
        if d.policyvers >= POLICYDB_VERSION_XPERMS_IOCTL {
            match xp_operands(d, s, t, c) {
                Some((src, tgt, cls)) => {
                    let ss = type_operand(d.types, src, false);
                    let ts = type_operand(d.types, tgt, false);
                    let cs = class_operand(d.classes, cls);
                    lemma_rule_keys_kind(ss, ts, cs, effect);
                    if op.1 {
                        lemma_xp_excludes_shape(d.avtab, rule_keys(ss, ts, cs, effect), x.low, x.high);
                    } else {
                        lemma_xp_rules_shape(d.avtab, rule_keys(ss, ts, cs, effect), x.low, x.high, x.reset);
                    }
                },
                None => {},
            }
        }
    }
}

/// A type rule of a kind other than the extended permission ones keeps
/// the table's shape.
pub proof fn lemma_type_rule_shape(d: PolicyView, s: Seq<char>, t: Seq<char>, c: Seq<char>, def: Seq<char>, effect: u16)
    requires
        shaped(d),
        !is_xperm_kind(effect),
    ensures
        shaped(type_rule_step(d, s, t, c, def, effect)),
{
    match (
        type_lookup(d.types, s),
        type_lookup(d.types, t),
        class_lookup(d.classes, c),
        type_lookup(d.types, def),
    ) {
        (Some(si), Some(ti), Some(ci), Some(di)) => {
            let key = avtab_key {
                source_type: d.types[si].value as u16,
                target_type: d.types[ti].value as u16,
                target_class: d.classes[ci].value as u16,
                specified: effect,
            };
            lemma_find_first(d.avtab, |n: AvNode| n.key == key);
            if av_find(d.avtab, key) is None {
                lemma_shape_push(d.avtab, AvNode { key, data: d.types[di].value, xperms: None });
            }
        },
        _ => {},
    }
}

// ---- access vector rules ----

/// Whether the bits `d` hold permission `pv` (bit `pv - 1`).
pub open spec fn has_perm(d: u32, pv: u32) -> bool {
    d & (1u32 << ((pv - 1) as u32)) != 0u32
}

proof fn lemma_grant_bit(d: u32, k: u32)
    requires
        k < 32,
    ensures
        (d | (1u32 << k)) & (1u32 << k) != 0u32,
        d | (1u32 << k) != 0u32,
{
    assert((d | (1u32 << k)) & (1u32 << k) != 0u32) by (bit_vector)
        requires
            k < 32,
    ;
    assert(d | (1u32 << k) != 0u32) by (bit_vector)
        requires
            k < 32,
    ;
}

proof fn lemma_revoke_bit(d: u32, k: u32)
    requires
        k < 32,
    ensures
        (d & !(1u32 << k)) & (1u32 << k) == 0u32,
{
    assert((d & !(1u32 << k)) & (1u32 << k) == 0u32) by (bit_vector)
        requires
            k < 32,
    ;
}

/// Granting a permission on a key leaves a rule for the key, the first
/// one, that holds the permission.
pub proof fn law_allow_grants(av: Seq<AvNode>, key: avtab_key, pv: u32)
    requires
        1 <= pv <= 32,
        key.specified != AVTAB_AUDITDENY,
    ensures
        ({
            let r = av_add_rule(av, key, Some(pv), false);
            match av_find(r, key) {
                Some(i) => has_perm(r[i].data, pv),
                None => false,
            }
        }),
{
    let pred = |n: AvNode| n.key == key;
    lemma_find_first(av, pred);
    lemma_grant_bit(initial_data(key.specified), (pv - 1) as u32);
    match av_find(av, key) {
        Some(i) => {
            let d = rule_data(av[i].data, Some(pv), false);
            lemma_grant_bit(av[i].data, (pv - 1) as u32);
            let n = AvNode { key: av[i].key, data: d, xperms: av[i].xperms };
            lemma_find_after_update(av, i, n, pred);
        },
        None => {
            let base = av.push(AvNode { key, data: initial_data(key.specified), xperms: None });
            lemma_find_after_push(av, AvNode { key, data: initial_data(key.specified), xperms: None }, pred);
            let d = rule_data(base[av.len() as int].data, Some(pv), false);
            let n = AvNode { key, data: d, xperms: None };
            lemma_find_after_update(base, av.len() as int, n, pred);
        },
    }
}

/// Taking a permission away on a key, when at most one rule has the key,
/// leaves no rule of the key that holds the permission.
pub proof fn law_deny_revokes(av: Seq<AvNode>, key: avtab_key, pv: u32)
    requires
        1 <= pv <= 32,
        key.specified != AVTAB_AUDITDENY,
        forall|i: int, j: int|
            0 <= i < av.len() && 0 <= j < av.len() && (#[trigger] av[i]).key == key && (#[trigger] av[j]).key
                == key ==> i == j,
    ensures
        ({
            let r = av_add_rule(av, key, Some(pv), true);
            forall|i: int| 0 <= i < r.len() && (#[trigger] r[i]).key == key ==> !has_perm(r[i].data, pv)
        }),
{
    let pred = |n: AvNode| n.key == key;
    lemma_find_first(av, pred);
    let r = av_add_rule(av, key, Some(pv), true);
    match av_find(av, key) {
        Some(i) => {
            lemma_revoke_bit(av[i].data, (pv - 1) as u32);
            assert forall|j: int| 0 <= j < r.len() && (#[trigger] r[j]).key == key implies !has_perm(
                r[j].data,
                pv,
            ) by {
                let d = rule_data(av[i].data, Some(pv), true);
                if d == 0u32 {
                    if j < i {
                        assert(r[j] == av[j]);
                    } else {
                        assert(r[j] == av[j + 1]);
                    }
                } else if j != i {
                    assert(r[j] == av[j]);
                }
            }
        },
        None => {
            assert(rule_data(initial_data(key.specified), Some(pv), true) == 0u32) by {
                lemma_revoke_bit(0u32, (pv - 1) as u32);
                assert(0u32 & !(1u32 << ((pv - 1) as u32)) == 0u32) by (bit_vector);
            }
            let base = av.push(AvNode { key, data: initial_data(key.specified), xperms: None });
            assert(r =~= av);
        },
    }
}

/// Taking away a permission just granted on a key that had no rule gives
/// back the table.
pub proof fn law_deny_undoes_allow(av: Seq<AvNode>, key: avtab_key, pv: u32)
    requires
        1 <= pv <= 32,
        key.specified != AVTAB_AUDITDENY,
        av_find(av, key) is None,
    ensures
        av_add_rule(av_add_rule(av, key, Some(pv), false), key, Some(pv), true) == av,
{
    let pred = |n: AvNode| n.key == key;
    let k = (pv - 1) as u32;
    let node0 = AvNode { key, data: initial_data(key.specified), xperms: None };
    lemma_find_after_push(av, node0, pred);
    let base = av.push(node0);
    let d = rule_data(0u32, Some(pv), false);
    lemma_grant_bit(0u32, k);
    let n1 = AvNode { key, data: d, xperms: None };
    lemma_find_after_update(base, av.len() as int, n1, pred);
    let r1 = base.update(av.len() as int, n1);
    assert(r1 == av_add_rule(av, key, Some(pv), false));
    assert(av_find(r1, key) == Some(av.len() as int));
    assert((d & !(1u32 << k)) == 0u32) by (bit_vector)
        requires
            d == 0u32 | (1u32 << k),
            k < 32,
    ;
    assert(r1.remove(av.len() as int) =~= av);
}

/// The permission bits a table grants on `key`: those of its rule, none
/// without one.
pub open spec fn key_perms(av: Seq<AvNode>, key: avtab_key) -> u32 {
    match av_find(av, key) {
        Some(i) => av[i].data,
        None => 0u32,
    }
}

/// Taking a permission away on a key, when at most one rule has the key,
/// leaves the key's other permissions as they were and every rule of
/// another key in place; a rule left with no permission is dropped.
pub proof fn law_deny_exact(av: Seq<AvNode>, key: avtab_key, pv: u32)
    requires
        1 <= pv <= 32,
        key.specified != AVTAB_AUDITDENY,
        forall|i: int, j: int|
            0 <= i < av.len() && 0 <= j < av.len() && (#[trigger] av[i]).key == key && (#[trigger] av[j]).key
                == key ==> i == j,
    ensures
        ({
            let r = av_add_rule(av, key, Some(pv), true);
            &&& key_perms(r, key) == key_perms(av, key) & !(1u32 << ((pv - 1) as u32))
            &&& key_perms(r, key) == 0u32 ==> av_find(r, key) is None
            &&& forall|i: int, j: int|
                0 <= i < r.len() && 0 <= j < r.len() && (#[trigger] r[i]).key == key && (#[trigger] r[j]).key
                    == key ==> i == j
            &&& forall|n: AvNode| n.key != key ==> (r.contains(n) <==> av.contains(n))
        }),
{
    let pred = |n: AvNode| n.key == key;
    let k = (pv - 1) as u32;
    lemma_find_first(av, pred);
    let r = av_add_rule(av, key, Some(pv), true);
    match av_find(av, key) {
        Some(i) => {
            let d = rule_data(av[i].data, Some(pv), true);
            if d == 0u32 {
                assert(r == av.remove(i));
                assert forall|j: int| 0 <= j < r.len() implies !pred(#[trigger] r[j]) by {
                    if j < i {
                        assert(r[j] == av[j]);
                    } else {
                        assert(r[j] == av[j + 1]);
                    }
                }
                lemma_find_first_none(r, pred);
                assert forall|n: AvNode| n.key != key implies (r.contains(n) <==> av.contains(n)) by {
                    if r.contains(n) {
                        let j = choose|j: int| 0 <= j < r.len() && r[j] == n;
                        if j < i {
                            assert(av[j] == n);
                        } else {
                            assert(av[j + 1] == n);
                        }
                    }
                    if av.contains(n) {
                        let j = choose|j: int| 0 <= j < av.len() && av[j] == n;
                        assert(j != i);
                        if j < i {
                            assert(r[j] == n);
                        } else {
                            assert(r[j - 1] == n);
                        }
                    }
                }
            } else {
                let nn = AvNode { key: av[i].key, data: d, xperms: av[i].xperms };
                assert(r == av.update(i, nn));
                lemma_find_after_update(av, i, nn, pred);
                assert forall|n: AvNode| n.key != key implies (r.contains(n) <==> av.contains(n)) by {
                    if r.contains(n) {
                        let j = choose|j: int| 0 <= j < r.len() && r[j] == n;
                        assert(j != i);
                        assert(av[j] == n);
                    }
                    if av.contains(n) {
                        let j = choose|j: int| 0 <= j < av.len() && av[j] == n;
                        assert(j != i);
                        assert(r[j] == n);
                    }
                }
                assert forall|a: int, b: int|
                    0 <= a < r.len() && 0 <= b < r.len() && (#[trigger] r[a]).key == key && (#[trigger] r[b]).key
                        == key implies a == b by {
                    assert(av[a].key == key && av[b].key == key);
                }
            }
        },
        None => {
            let node0 = AvNode { key, data: initial_data(key.specified), xperms: None };
            let base = av.push(node0);
            assert(rule_data(0u32, Some(pv), true) == 0u32) by {
                assert(0u32 & !(1u32 << k) == 0u32) by (bit_vector);
            }
            assert(r == base.remove(av.len() as int));
            assert(r =~= av);
            assert(0u32 & !(1u32 << k) == 0u32) by (bit_vector);
        },
    }
}

/// A rule over one source, target, class and permission is that one rule.
pub proof fn law_single_rule<P>(db: PolicyView, s: Seq<char>, t: Seq<char>, c: Seq<char>, p: P, step: spec_fn(PolicyView, Seq<char>, Seq<char>, Seq<char>, P) -> PolicyView)
    ensures
        fold_rules(db, seq![s], seq![t], seq![c], seq![p], step) == step(db, s, t, c, p),
{
    assert(seq![s].drop_last() =~= Seq::<Seq<char>>::empty());
    assert(seq![t].drop_last() =~= Seq::<Seq<char>>::empty());
    assert(seq![c].drop_last() =~= Seq::<Seq<char>>::empty());
    assert(seq![p].drop_last() =~= Seq::<P>::empty());
    assert(fold_perms(db, s, t, c, Seq::<P>::empty(), step) == db);
    assert(fold_perms(db, s, t, c, seq![p], step) == step(db, s, t, c, p));
    assert(fold_classes(db, s, t, Seq::<Seq<char>>::empty(), seq![p], step) == db);
    assert(fold_classes(db, s, t, seq![c], seq![p], step) == step(db, s, t, c, p));
    assert(fold_targets(db, s, Seq::<Seq<char>>::empty(), seq![c], seq![p], step) == db);
    assert(fold_targets(db, s, seq![t], seq![c], seq![p], step) == step(db, s, t, c, p));
    assert(fold_rules(db, Seq::<Seq<char>>::empty(), seq![t], seq![c], seq![p], step) == db);
}

/// A rule over the sources `a` then `b` is the rule over `a` followed by
/// the rule over `b`: `allow { s1 s2 } t c p` is `allow s1 t c p` then
/// `allow s2 t c p`.
pub proof fn law_sources_in_order<P>(db: PolicyView, a: Seq<Seq<char>>, b: Seq<Seq<char>>, ts: Seq<Seq<char>>, cs: Seq<Seq<char>>, ps: Seq<P>, step: spec_fn(PolicyView, Seq<char>, Seq<char>, Seq<char>, P) -> PolicyView)
    ensures
        fold_rules(db, a + b, ts, cs, ps, step) == fold_rules(
            fold_rules(db, a, ts, cs, ps, step),
            b,
            ts,
            cs,
            ps,
            step,
        ),
    decreases b.len(),
{
    if b.len() == 0 {
        assert(a + b =~= a);
    } else {
        law_sources_in_order(db, a, b.drop_last(), ts, cs, ps, step);
        assert((a + b).drop_last() =~= a + b.drop_last());
        assert((a + b).last() == b.last());
    }
}

pub proof fn lemma_perm_value_range(db: PolicyView, ci: int, p: Seq<char>)
    requires
        policy_valid(db),
        0 <= ci < db.classes.len(),
        perm_value(db.classes[ci], p) is Some,
    ensures
        1 <= perm_value(db.classes[ci], p).unwrap() <= 32,
{
    let cls = db.classes[ci];
    lemma_find_first(cls.permissions, perm_named(p));
    lemma_find_first(cls.common_permissions, perm_named(p));
    match perm_lookup(cls.permissions, p) {
        Some(i) => {
            assert(1 <= cls.permissions[i].1 <= 32);
        },
        None => {
            let j = perm_lookup(cls.common_permissions, p).unwrap();
            assert(1 <= cls.common_permissions[j].1 <= 32);
        },
    }
}

/// `allow` over one existing source, target, class and permission leaves
/// the rule of their key holding the permission, in a valid database, as
/// every policy's is.
#[verifier::spinoff_prover]
pub proof fn law_allow_then_granted(db: PolicyView, s: Seq<char>, t: Seq<char>, c: Seq<char>, p: Seq<char>)
    requires
        s.len() > 0,
        t.len() > 0,
        c.len() > 0,
        p.len() > 0,
        type_lookup(db.types, s) is Some,
        type_lookup(db.types, t) is Some,
        class_lookup(db.classes, c) is Some,
        perm_value(db.classes[class_lookup(db.classes, c).unwrap()], p) is Some,
        policy_valid(db),
    ensures
        ({
            let pv = perm_value(db.classes[class_lookup(db.classes, c).unwrap()], p).unwrap();
            let key = avtab_key {
                source_type: db.types[type_lookup(db.types, s).unwrap()].value as u16,
                target_type: db.types[type_lookup(db.types, t).unwrap()].value as u16,
                target_class: db.classes[class_lookup(db.classes, c).unwrap()].value as u16,
                specified: AVTAB_ALLOWED,
            };
            let after = fold_rules(db, seq![s], seq![t], seq![c], seq![p], av_rule(AVTAB_ALLOWED, false));
            match av_find(after.avtab, key) {
                Some(i) => has_perm(after.avtab[i].data, pv),
                None => false,
            }
        }),
{
    law_single_rule(db, s, t, c, p, av_rule(AVTAB_ALLOWED, false));
    lemma_find_first(db.classes, |x: ClassView| x.name == c);
    lemma_perm_value_range(db, class_lookup(db.classes, c).unwrap(), p);
    let si = type_lookup(db.types, s).unwrap();
    let ti = type_lookup(db.types, t).unwrap();
    let ci = class_lookup(db.classes, c).unwrap();
    let pv = perm_value(db.classes[ci], p).unwrap();
    let sv = db.types[si].value;
    let tv = db.types[ti].value;
    let cv = db.classes[ci].value;
    let key = avtab_key {
        source_type: sv as u16,
        target_type: tv as u16,
        target_class: cv as u16,
        specified: AVTAB_ALLOWED,
    };
    assert(av_operands(db, s, t, c, p) == Some((Some(si), Some(ti), Some(ci), Some(pv))));
    assert(type_operand(db.types, Some(si), false) =~= seq![sv]);
    assert(class_operand(db.classes, Some(ci)) =~= seq![cv]);
    let ks = keys_for_target(sv, tv, seq![cv], AVTAB_ALLOWED);
    assert(ks =~= seq![key]);
    assert(seq![tv].drop_last() =~= Seq::<u32>::empty());
    assert(keys_for_source(sv, Seq::<u32>::empty(), seq![cv], AVTAB_ALLOWED) =~= Seq::<avtab_key>::empty());
    assert(keys_for_source(sv, seq![tv], seq![cv], AVTAB_ALLOWED) =~= seq![key]);
    assert(seq![sv].drop_last() =~= Seq::<u32>::empty());
    assert(rule_keys(Seq::<u32>::empty(), seq![tv], seq![cv], AVTAB_ALLOWED) =~= Seq::<avtab_key>::empty());
    assert(rule_keys(seq![sv], seq![tv], seq![cv], AVTAB_ALLOWED) =~= seq![key]);
    assert(seq![key].drop_last() =~= Seq::<avtab_key>::empty());
    assert(av_add_rules(db.avtab, Seq::<avtab_key>::empty(), Some(pv), false) == db.avtab);
    assert(av_add_rules(db.avtab, seq![key], Some(pv), false) == av_add_rule(db.avtab, key, Some(pv), false));
    law_allow_grants(db.avtab, key, pv);
}

/// The key a rule of kind `effect` over a named source, target and class
/// lands on.
pub open spec fn av_named_key(db: PolicyView, s: Seq<char>, t: Seq<char>, c: Seq<char>, effect: u16) -> avtab_key {
    avtab_key {
        source_type: db.types[type_lookup(db.types, s).unwrap()].value as u16,
        target_type: db.types[type_lookup(db.types, t).unwrap()].value as u16,
        target_class: db.classes[class_lookup(db.classes, c).unwrap()].value as u16,
        specified: effect,
    }
}

/// An allow or a deny over one named source, target, class and permission
/// is the rule on one key, of which the table holds at most one rule; the
/// names stay as they were.
proof fn lemma_av_one_key(db: PolicyView, s: Seq<char>, t: Seq<char>, c: Seq<char>, p: Seq<char>, invert: bool)
    requires
        s.len() > 0,
        t.len() > 0,
        c.len() > 0,
        p.len() > 0,
        type_lookup(db.types, s) is Some,
        type_lookup(db.types, t) is Some,
        class_lookup(db.classes, c) is Some,
        perm_value(db.classes[class_lookup(db.classes, c).unwrap()], p) is Some,
        policy_valid(db),
    ensures
        ({
            let pv = perm_value(db.classes[class_lookup(db.classes, c).unwrap()], p).unwrap();
            let key = av_named_key(db, s, t, c, AVTAB_ALLOWED);
            let after = fold_rules(db, seq![s], seq![t], seq![c], seq![p], av_rule(AVTAB_ALLOWED, invert));
            &&& 1 <= pv <= 32
            &&& after.avtab == av_add_rule(db.avtab, key, Some(pv), invert)
            &&& after.types == db.types
            &&& after.classes == db.classes
            &&& forall|i: int, j: int|
                0 <= i < db.avtab.len() && 0 <= j < db.avtab.len() && (#[trigger] db.avtab[i]).key == key
                    && (#[trigger] db.avtab[j]).key == key ==> i == j
        }),
{
    law_single_rule(db, s, t, c, p, av_rule(AVTAB_ALLOWED, invert));
    lemma_find_first(db.classes, |x: ClassView| x.name == c);
    lemma_perm_value_range(db, class_lookup(db.classes, c).unwrap(), p);
    let si = type_lookup(db.types, s).unwrap();
    let ti = type_lookup(db.types, t).unwrap();
    let ci = class_lookup(db.classes, c).unwrap();
    let pv = perm_value(db.classes[ci], p).unwrap();
    let sv = db.types[si].value;
    let tv = db.types[ti].value;
    let cv = db.classes[ci].value;
    let key = av_named_key(db, s, t, c, AVTAB_ALLOWED);
    assert(av_operands(db, s, t, c, p) == Some((Some(si), Some(ti), Some(ci), Some(pv))));
    let all = strips(AVTAB_ALLOWED, invert);
    assert(type_operand(db.types, Some(si), all) =~= seq![sv]);
    assert(type_operand(db.types, Some(ti), all) =~= seq![tv]);
    assert(class_operand(db.classes, Some(ci)) =~= seq![cv]);
    assert(keys_for_target(sv, tv, seq![cv], AVTAB_ALLOWED) =~= seq![key]);
    assert(seq![tv].drop_last() =~= Seq::<u32>::empty());
    assert(keys_for_source(sv, Seq::<u32>::empty(), seq![cv], AVTAB_ALLOWED) =~= Seq::<avtab_key>::empty());
    assert(keys_for_source(sv, seq![tv], seq![cv], AVTAB_ALLOWED) =~= seq![key]);
    assert(seq![sv].drop_last() =~= Seq::<u32>::empty());
    assert(rule_keys(Seq::<u32>::empty(), seq![tv], seq![cv], AVTAB_ALLOWED) =~= Seq::<avtab_key>::empty());
    assert(rule_keys(seq![sv], seq![tv], seq![cv], AVTAB_ALLOWED) =~= seq![key]);
    assert(seq![key].drop_last() =~= Seq::<avtab_key>::empty());
    assert(av_add_rules(db.avtab, Seq::<avtab_key>::empty(), Some(pv), invert) == db.avtab);
    assert(av_add_rules(db.avtab, seq![key], Some(pv), invert) == av_add_rule(db.avtab, key, Some(pv), invert));
    assert forall|i: int, j: int|
        0 <= i < db.avtab.len() && 0 <= j < db.avtab.len() && (#[trigger] db.avtab[i]).key == key
            && (#[trigger] db.avtab[j]).key == key implies i == j by {
        if i != j {
            assert(db.avtab[i].xperms is Some);
            assert(!is_xperm_kind(db.avtab[i].key.specified));
        }
    }
}

/// After `deny s t c p` on a named source, target, class and permission,
/// no rule of theirs grants the permission.
pub proof fn law_deny_then_revoked(db: PolicyView, s: Seq<char>, t: Seq<char>, c: Seq<char>, p: Seq<char>)
    requires
        s.len() > 0,
        t.len() > 0,
        c.len() > 0,
        p.len() > 0,
        type_lookup(db.types, s) is Some,
        type_lookup(db.types, t) is Some,
        class_lookup(db.classes, c) is Some,
        perm_value(db.classes[class_lookup(db.classes, c).unwrap()], p) is Some,
        policy_valid(db),
    ensures
        ({
            let pv = perm_value(db.classes[class_lookup(db.classes, c).unwrap()], p).unwrap();
            let key = av_named_key(db, s, t, c, AVTAB_ALLOWED);
            let after = fold_rules(db, seq![s], seq![t], seq![c], seq![p], av_rule(AVTAB_ALLOWED, true));
            forall|i: int|
                0 <= i < after.avtab.len() && (#[trigger] after.avtab[i]).key == key ==> !has_perm(
                    after.avtab[i].data,
                    pv,
                )
        }),
{
    lemma_av_one_key(db, s, t, c, p, true);
    let pv = perm_value(db.classes[class_lookup(db.classes, c).unwrap()], p).unwrap();
    law_deny_revokes(db.avtab, av_named_key(db, s, t, c, AVTAB_ALLOWED), pv);
}

/// `deny s t c p` on a named source, target, class and permission takes
/// exactly that permission away: what the three are granted is what they
/// were granted less `p`, their rule is dropped when nothing is left, and
/// every rule of another source, target or class stays as it was.
pub proof fn law_deny_keeps_the_rest(db: PolicyView, s: Seq<char>, t: Seq<char>, c: Seq<char>, p: Seq<char>)
    requires
        s.len() > 0,
        t.len() > 0,
        c.len() > 0,
        p.len() > 0,
        type_lookup(db.types, s) is Some,
        type_lookup(db.types, t) is Some,
        class_lookup(db.classes, c) is Some,
        perm_value(db.classes[class_lookup(db.classes, c).unwrap()], p) is Some,
        policy_valid(db),
    ensures
        ({
            let pv = perm_value(db.classes[class_lookup(db.classes, c).unwrap()], p).unwrap();
            let key = av_named_key(db, s, t, c, AVTAB_ALLOWED);
            let after = fold_rules(db, seq![s], seq![t], seq![c], seq![p], av_rule(AVTAB_ALLOWED, true));
            &&& key_perms(after.avtab, key) == key_perms(db.avtab, key) & !(1u32 << ((pv - 1) as u32))
            &&& key_perms(after.avtab, key) == 0u32 ==> av_find(after.avtab, key) is None
            &&& forall|n: AvNode| n.key != key ==> (after.avtab.contains(n) <==> db.avtab.contains(n))
        }),
{
    lemma_av_one_key(db, s, t, c, p, true);
    let pv = perm_value(db.classes[class_lookup(db.classes, c).unwrap()], p).unwrap();
    law_deny_exact(db.avtab, av_named_key(db, s, t, c, AVTAB_ALLOWED), pv);
}

/// Granting a permission on a key, when at most one rule has the key,
/// adds it to the key's permissions, keeps at most one rule of the key,
/// and leaves every rule of another key in place.
pub proof fn law_allow_exact(av: Seq<AvNode>, key: avtab_key, pv: u32)
    requires
        1 <= pv <= 32,
        key.specified != AVTAB_AUDITDENY,
        forall|i: int, j: int|
            0 <= i < av.len() && 0 <= j < av.len() && (#[trigger] av[i]).key == key && (#[trigger] av[j]).key
                == key ==> i == j,
    ensures
        ({
            let r = av_add_rule(av, key, Some(pv), false);
            &&& key_perms(r, key) == key_perms(av, key) | (1u32 << ((pv - 1) as u32))
            &&& forall|i: int, j: int|
                0 <= i < r.len() && 0 <= j < r.len() && (#[trigger] r[i]).key == key && (#[trigger] r[j]).key
                    == key ==> i == j
            &&& forall|n: AvNode| n.key != key ==> (r.contains(n) <==> av.contains(n))
        }),
{
    let pred = |n: AvNode| n.key == key;
    let k = (pv - 1) as u32;
    lemma_find_first(av, pred);
    let r = av_add_rule(av, key, Some(pv), false);
    let found = av_find(av, key);
    let base = match found {
        Some(i) => av,
        None => av.push(AvNode { key, data: initial_data(key.specified), xperms: None }),
    };
    let i = match found {
        Some(i) => i,
        None => av.len() as int,
    };
    if found is None {
        lemma_find_after_push(av, AvNode { key, data: initial_data(key.specified), xperms: None }, pred);
    }
    lemma_find_first(base, pred);
    let d = rule_data(base[i].data, Some(pv), false);
    lemma_grant_bit(base[i].data, k);
    assert(d != 0u32);
    let nn = AvNode { key: base[i].key, data: d, xperms: base[i].xperms };
    assert(r == base.update(i, nn));
    lemma_find_after_update(base, i, nn, pred);
    assert(key_perms(av, key) == base[i].data) by {
        if found is None {
            assert(base[i].data == 0u32);
        }
    }
    assert forall|n: AvNode| n.key != key implies (r.contains(n) <==> av.contains(n)) by {
        if r.contains(n) {
            let j = choose|j: int| 0 <= j < r.len() && r[j] == n;
            assert(j != i);
            assert(base[j] == n);
            assert(j < av.len());
            assert(av[j] == n);
        }
        if av.contains(n) {
            let j = choose|j: int| 0 <= j < av.len() && av[j] == n;
            assert(j != i);
            assert(r[j] == n);
        }
    }
    assert forall|a: int, b: int|
        0 <= a < r.len() && 0 <= b < r.len() && (#[trigger] r[a]).key == key && (#[trigger] r[b]).key
            == key implies a == b by {
        assert(base[a].key == key && base[b].key == key);
        if a < av.len() && b < av.len() {
            assert(av[a].key == key && av[b].key == key);
        } else if a < av.len() {
            assert(av[a].key == key);
        } else if b < av.len() {
            assert(av[b].key == key);
        }
    }
}

/// Granting and then taking away one permission on a key, when at most
/// one rule has the key, leaves the key's permissions as they were less
/// that one, drops the rule when none is left, and leaves every rule of
/// another key in place.
pub proof fn law_allow_then_deny(av: Seq<AvNode>, key: avtab_key, pv: u32)
    requires
        1 <= pv <= 32,
        key.specified != AVTAB_AUDITDENY,
        forall|i: int, j: int|
            0 <= i < av.len() && 0 <= j < av.len() && (#[trigger] av[i]).key == key && (#[trigger] av[j]).key
                == key ==> i == j,
    ensures
        ({
            let r = av_add_rule(av_add_rule(av, key, Some(pv), false), key, Some(pv), true);
            &&& key_perms(r, key) == key_perms(av, key) & !(1u32 << ((pv - 1) as u32))
            &&& key_perms(r, key) == 0u32 ==> av_find(r, key) is None
            &&& forall|n: AvNode| n.key != key ==> (r.contains(n) <==> av.contains(n))
        }),
{
    let mid = av_add_rule(av, key, Some(pv), false);
    law_allow_exact(av, key, pv);
    law_deny_exact(mid, key, pv);
    let a = key_perms(av, key);
    let k = (pv - 1) as u32;
    assert((a | (1u32 << k)) & !(1u32 << k) == a & !(1u32 << k)) by (bit_vector);
}

/// `allow s t c p` then `deny s t c p` on a named source, target, class and
/// permission leaves what the three are granted as it was less `p`, drops
/// their rule when nothing is left, and leaves every rule of another
/// source, target or class as it was.
pub proof fn law_allow_then_deny_policy(db: PolicyView, s: Seq<char>, t: Seq<char>, c: Seq<char>, p: Seq<char>)
    requires
        s.len() > 0,
        t.len() > 0,
        c.len() > 0,
        p.len() > 0,
        type_lookup(db.types, s) is Some,
        type_lookup(db.types, t) is Some,
        class_lookup(db.classes, c) is Some,
        perm_value(db.classes[class_lookup(db.classes, c).unwrap()], p) is Some,
        policy_valid(db),
    ensures
        ({
            let pv = perm_value(db.classes[class_lookup(db.classes, c).unwrap()], p).unwrap();
            let key = av_named_key(db, s, t, c, AVTAB_ALLOWED);
            let granted = fold_rules(db, seq![s], seq![t], seq![c], seq![p], av_rule(AVTAB_ALLOWED, false));
            let after = fold_rules(granted, seq![s], seq![t], seq![c], seq![p], av_rule(AVTAB_ALLOWED, true));
            &&& key_perms(after.avtab, key) == key_perms(db.avtab, key) & !(1u32 << ((pv - 1) as u32))
            &&& key_perms(after.avtab, key) == 0u32 ==> av_find(after.avtab, key) is None
            &&& forall|n: AvNode| n.key != key ==> (after.avtab.contains(n) <==> db.avtab.contains(n))
        }),
{
    lemma_av_one_key(db, s, t, c, p, false);
    let granted = fold_rules(db, seq![s], seq![t], seq![c], seq![p], av_rule(AVTAB_ALLOWED, false));
    let pv = perm_value(db.classes[class_lookup(db.classes, c).unwrap()], p).unwrap();
    let key = av_named_key(db, s, t, c, AVTAB_ALLOWED);
    assert(av_named_key(granted, s, t, c, AVTAB_ALLOWED) == key);
    law_single_rule(granted, s, t, c, p, av_rule(AVTAB_ALLOWED, true));
    let si = type_lookup(db.types, s).unwrap();
    let ti = type_lookup(db.types, t).unwrap();
    let ci = class_lookup(db.classes, c).unwrap();
    let sv = db.types[si].value;
    let tv = db.types[ti].value;
    let cv = db.classes[ci].value;
    assert(av_operands(granted, s, t, c, p) == Some((Some(si), Some(ti), Some(ci), Some(pv))));
    let all = strips(AVTAB_ALLOWED, true);
    assert(type_operand(granted.types, Some(si), all) =~= seq![sv]);
    assert(type_operand(granted.types, Some(ti), all) =~= seq![tv]);
    assert(class_operand(granted.classes, Some(ci)) =~= seq![cv]);
    assert(keys_for_target(sv, tv, seq![cv], AVTAB_ALLOWED) =~= seq![key]);
    assert(seq![tv].drop_last() =~= Seq::<u32>::empty());
    assert(keys_for_source(sv, Seq::<u32>::empty(), seq![cv], AVTAB_ALLOWED) =~= Seq::<avtab_key>::empty());
    assert(keys_for_source(sv, seq![tv], seq![cv], AVTAB_ALLOWED) =~= seq![key]);
    assert(seq![sv].drop_last() =~= Seq::<u32>::empty());
    assert(rule_keys(Seq::<u32>::empty(), seq![tv], seq![cv], AVTAB_ALLOWED) =~= Seq::<avtab_key>::empty());
    assert(rule_keys(seq![sv], seq![tv], seq![cv], AVTAB_ALLOWED) =~= seq![key]);
    assert(seq![key].drop_last() =~= Seq::<avtab_key>::empty());
    assert(av_add_rules(granted.avtab, Seq::<avtab_key>::empty(), Some(pv), true) == granted.avtab);
    assert(av_add_rules(granted.avtab, seq![key], Some(pv), true) == av_add_rule(granted.avtab, key, Some(pv), true));
    law_allow_then_deny(db.avtab, key, pv);
}

// ---- ioctl rules ----

/// Whether a table allows ioctl command `cmd` for `key`: a driver rule
/// holds its driver, or a function rule of its driver holds its function.
pub open spec fn xp_allows(av: Seq<AvNode>, key: avtab_key, cmd: int) -> bool {
    exists|i: int|
        0 <= i < av.len() && #[trigger] av[i].key == key && (av[i].xperms matches Some(x) && ((
        x.specified == AVTAB_XPERMS_IOCTLDRIVER && x.perms.contains(cmd / 256)) || (x.specified
            == AVTAB_XPERMS_IOCTLFUNCTION && x.driver == cmd / 256 && x.perms.contains(cmd % 256))))
}

/// An ioctl rule over `low..=high` allows every command of the range.
pub proof fn law_xperm_range_allowed(av: Seq<AvNode>, key: avtab_key, low: u16, high: u16, cmd: int)
    requires
        low <= cmd <= high,
    ensures
        xp_allows(xp_add_rule(av, key, low, high, false), key, cmd),
{
    let r = xp_add_rule(av, key, low, high, false);
    let dl = low as int / 256;
    let dh = high as int / 256;
    if dl != dh {
        let pred = |n: AvNode| is_driver_node(n, key);
        lemma_find_first(av, pred);
        let found = find_first(av, pred);
        let base = match found {
            Some(i) => av,
            None => av.push(new_driver_node(key)),
        };
        let i = match found {
            Some(i) => i,
            None => av.len() as int,
        };
        assert(is_driver_node(base[i], key));
        assert(r[i] == with_perms(base[i], base[i].xperms.unwrap().perms.union(bit_range(dl, dh))));
        assert(dl <= cmd / 256 <= dh);
        assert(r[i].xperms.unwrap().perms.contains(cmd / 256));
        assert(0 <= i < r.len() && r[i].key == key);
    } else {
        let pred = |n: AvNode| is_func_node(n, key, dl as u8);
        lemma_find_first(av, pred);
        let found = find_first(av, pred);
        let base = match found {
            Some(i) => av,
            None => av.push(new_func_node(key, dl as u8)),
        };
        let i = match found {
            Some(i) => i,
            None => av.len() as int,
        };
        assert(is_func_node(base[i], key, dl as u8));
        assert(cmd / 256 == dl);
        assert(low as int % 256 <= cmd % 256 <= high as int % 256);
        assert(r[i].xperms.unwrap().perms.contains(cmd % 256));
        assert(0 <= i < r.len() && r[i].key == key);
    }
}

proof fn lemma_filter_keeps<A>(s: Seq<A>, p: spec_fn(A) -> bool)
    ensures
        forall|k: int|
            0 <= k < s.filter(p).len() ==> exists|b: int|
                0 <= b < s.len() && s[b] == #[trigger] s.filter(p)[k],
        forall|k: int| 0 <= k < s.filter(p).len() ==> p(#[trigger] s.filter(p)[k]),
    decreases s.len(),
{
    reveal(Seq::filter);
    if s.len() > 0 {
        let d = s.drop_last();
        lemma_filter_keeps(d, p);
        let f = d.filter(p);
        assert forall|k: int| 0 <= k < s.filter(p).len() implies exists|b: int|
            0 <= b < s.len() && s[b] == #[trigger] s.filter(p)[k] by {
            if k < f.len() {
                let b = choose|b: int| 0 <= b < d.len() && d[b] == f[k];
                assert(s[b] == d[b]);
                assert(s.filter(p)[k] == f[k]);
            } else {
                assert(s[s.len() - 1] == s.filter(p)[k]);
            }
        }
        assert forall|k: int| 0 <= k < s.filter(p).len() implies p(#[trigger] s.filter(p)[k]) by {
            if k < f.len() {
                assert(s.filter(p)[k] == f[k]);
            }
        }
    }
}

pub proof fn lemma_filter_unique(av: Seq<AvNode>, p: spec_fn(AvNode) -> bool)
    requires
        xperms_unique(av),
    ensures
        xperms_unique(av.filter(p)),
    decreases av.len(),
{
    reveal(Seq::filter);
    if av.len() > 0 {
        let d = av.drop_last();
        assert(xperms_unique(d)) by {
            assert forall|i: int, j: int|
                0 <= i < j < d.len() && (#[trigger] d[i]).key == (#[trigger] d[j]).key && d[i].xperms
                    is Some && d[j].xperms is Some implies {
                let a = d[i].xperms.unwrap();
                let b = d[j].xperms.unwrap();
                a.specified != b.specified || (a.specified == AVTAB_XPERMS_IOCTLFUNCTION && a.driver
                    != b.driver)
            } by {
                assert(d[i] == av[i] && d[j] == av[j]);
            }
        }
        lemma_filter_unique(d, p);
        lemma_filter_keeps(d, p);
        let f = d.filter(p);
        if p(av.last()) {
            let g = f.push(av.last());
            assert(av.filter(p) == g);
            assert forall|i: int, j: int|
                0 <= i < j < g.len() && (#[trigger] g[i]).key == (#[trigger] g[j]).key && g[i].xperms
                    is Some && g[j].xperms is Some implies {
                let a = g[i].xperms.unwrap();
                let b = g[j].xperms.unwrap();
                a.specified != b.specified || (a.specified == AVTAB_XPERMS_IOCTLFUNCTION && a.driver
                    != b.driver)
            } by {
                if j < f.len() {
                    assert(g[i] == f[i] && g[j] == f[j]);
                } else {
                    assert(g[i] == f[i]);
                    let b = choose|b: int| 0 <= b < d.len() && d[b] == #[trigger] f[i];
                    assert(av[b] == g[i]);
                    assert(av[av.len() - 1] == g[j]);
                }
            }
        }
    }
}

/// A complement ioctl rule (`~`) within one driver allows exactly the
/// commands outside `low..=high`; one across drivers allows exactly the
/// drivers outside the range. The table must hold at most one driver rule
/// per key and only rules of the two kinds, as a well-formed one does.
#[verifier::spinoff_prover]
pub proof fn law_xperm_complement(av: Seq<AvNode>, key: avtab_key, low: u16, high: u16, cmd: int)
    requires
        0 <= cmd <= 0xFFFF,
        xperms_unique(av),
        xperms_kinds(av),
    ensures
        ({
            let r = xp_add_rule(av, key, low, high, true);
            if low as int / 256 != high as int / 256 {
                xp_allows(r, key, cmd) <==> !(low as int / 256 <= cmd / 256 <= high as int / 256)
            } else {
                xp_allows(r, key, cmd) <==> !(low <= cmd <= high)
            }
        }),
{
    let r = xp_add_rule(av, key, low, high, true);
    let dl = low as int / 256;
    let dh = high as int / 256;
    let fl = low as int % 256;
    let fh = high as int % 256;
    let nf = |n: AvNode| !is_any_func_node(n, key);
    let av1 = av.filter(nf);
    lemma_filter_unique(av, nf);
    lemma_filter_keeps(av, nf);
    let pred = |n: AvNode| is_driver_node(n, key);
    lemma_find_first(av1, pred);
    let found = find_first(av1, pred);
    let base = match found {
        Some(i) => av1,
        None => av1.push(new_driver_node(key)),
    };
    let i = match found {
        Some(i) => i,
        None => av1.len() as int,
    };
    assert(is_driver_node(base[i], key));
    assert(0 <= cmd / 256 < 256 && 0 <= cmd % 256 < 256);
    // every other rule of the key with extended permissions is gone
    assert forall|j: int|
        0 <= j < base.len() && j != i && (#[trigger] base[j]).key == key implies base[j].xperms
        is None by {
        assert(j < av1.len());
        assert(base[j] == av1[j]);
        let b = choose|b: int| 0 <= b < av.len() && av[b] == #[trigger] av1[j];
        assert(nf(av1[j]));
        if av1[j].xperms is Some {
            assert(av[b].xperms is Some);
            assert(is_driver_node(av1[j], key));
            match found {
                Some(k) => {
                    assert(av1[k].key == av1[j].key);
                    if k < j {
                        assert(av1[k].xperms is Some);
                    } else {
                        assert(av1[j].xperms is Some);
                    }
                },
                None => {},
            }
        }
    }
    if dl != dh {
        let nd = with_perms(base[i], all_bits().difference(bit_range(dl, dh)));
        assert(r == base.update(i, nd));
        if !(dl <= cmd / 256 <= dh) {
            assert(r[i] == nd);
            assert(nd.xperms.unwrap().perms.contains(cmd / 256));
            assert(0 <= i < r.len() && r[i].key == key);
        }
        if xp_allows(r, key, cmd) {
            let j = choose|j: int|
                0 <= j < r.len() && #[trigger] r[j].key == key && (r[j].xperms matches Some(x) && ((
                x.specified == AVTAB_XPERMS_IOCTLDRIVER && x.perms.contains(cmd / 256)) || (
                x.specified == AVTAB_XPERMS_IOCTLFUNCTION && x.driver == cmd / 256
                    && x.perms.contains(cmd % 256))));
            if j != i {
                assert(r[j] == base[j]);
            }
        }
    } else {
        let nd = with_perms(base[i], all_bits().remove(dl));
        let fnode = with_perms(new_func_node(key, dl as u8), all_bits().difference(bit_range(fl, fh)));
        assert(r == base.update(i, nd).push(fnode));
        let n = base.len() as int;
        if !(low <= cmd <= high) {
            if cmd / 256 == dl {
                assert(!(fl <= cmd % 256 <= fh));
                assert(r[n] == fnode);
                assert(fnode.xperms.unwrap().perms.contains(cmd % 256));
                assert(0 <= n < r.len() && r[n].key == key);
            } else {
                assert(r[i] == nd);
                assert(nd.xperms.unwrap().perms.contains(cmd / 256));
                assert(0 <= i < r.len() && r[i].key == key);
            }
        }
        if xp_allows(r, key, cmd) {
            let j = choose|j: int|
                0 <= j < r.len() && #[trigger] r[j].key == key && (r[j].xperms matches Some(x) && ((
                x.specified == AVTAB_XPERMS_IOCTLDRIVER && x.perms.contains(cmd / 256)) || (
                x.specified == AVTAB_XPERMS_IOCTLFUNCTION && x.driver == cmd / 256
                    && x.perms.contains(cmd % 256))));
            if j != i && j != n {
                assert(r[j] == base[j]);
            }
        }
    }
}

/// The complement of every command, which the statement value 0 stands
/// for, leaves no command of the key allowed.
pub proof fn law_xperm_zero_clears(av: Seq<AvNode>, key: avtab_key, cmd: int)
    requires
        0 <= cmd <= 0xFFFF,
        xperms_unique(av),
        xperms_kinds(av),
    ensures
        !xp_allows(xp_add_rule(av, key, 0x0000, 0xFFFF, true), key, cmd),
{
    law_xperm_complement(av, key, 0x0000, 0xFFFF, cmd);
}

// ---- name-based transitions and file system contexts ----

proof fn lemma_find_first_head<A>(x: A, s: Seq<A>, pred: spec_fn(A) -> bool)
    requires
        pred(x),
    ensures
        find_first(seq![x] + s, pred) == Some(0int),
{
    assert((seq![x] + s)[0] == x);
}

/// After a name-based transition from source bit `sbit` to `dv`, the chain
/// of its key exists and its first datum that covers the source leads to
/// `dv`.
#[verifier::spinoff_prover]
pub proof fn law_filename_trans_recorded(ft: Seq<FtChainView>, count: u32, tv: u32, cv: u32, name: Seq<char>, sbit: u32, dv: u32)
    ensures
        ({
            let r = ft_add(ft, count, tv, cv, name, sbit, dv).0;
            match find_first(r, |ch: FtChainView| ch.ttype == tv && ch.tclass == cv && ch.name == name) {
                Some(ci) => match find_first(r[ci].datums, |d: FtDatumView| d.stypes.contains(sbit)) {
                    Some(k) => r[ci].datums[k].otype == dv,
                    None => false,
                },
                None => false,
            }
        }),
{
    let cp = |ch: FtChainView| ch.ttype == tv && ch.tclass == cv && ch.name == name;
    let sp = |d: FtDatumView| d.stypes.contains(sbit);
    let r = ft_add(ft, count, tv, cv, name, sbit, dv).0;
    lemma_find_first(ft, cp);
    match find_first(ft, cp) {
        None => {
            let ch = FtChainView {
                ttype: tv,
                tclass: cv,
                name,
                datums: seq![FtDatumView { stypes: set![sbit], otype: dv }],
            };
            lemma_find_after_push(ft, ch, cp);
            assert(r == ft.push(ch));
            lemma_find_first_at(ch.datums, sp, 0);
        },
        Some(ci) => {
            let ch = ft[ci];
            let ds = ch.datums;
            let dp = |d: FtDatumView| ft_decides(d, sbit, dv);
            lemma_find_first(ds, dp);
            match find_first(ds, dp) {
                Some(k) => {
                    let nd = if ds[k].stypes.contains(sbit) {
                        FtDatumView { stypes: ds[k].stypes, otype: dv }
                    } else {
                        FtDatumView { stypes: ds[k].stypes.insert(sbit), otype: ds[k].otype }
                    };
                    let ds2 = ds.update(k, nd);
                    let ch2 = FtChainView { datums: ds2, ..ch };
                    assert(r == ft.update(ci, ch2));
                    lemma_find_after_update(ft, ci, ch2, cp);
                    assert forall|j: int| 0 <= j < k implies !sp(#[trigger] ds2[j]) by {
                        assert(ds2[j] == ds[j]);
                        assert(!dp(ds[j]));
                    }
                    lemma_find_first_at(ds2, sp, k);
                },
                None => {
                    let ds2 = ds.push(FtDatumView { stypes: set![sbit], otype: dv });
                    let ch2 = FtChainView { datums: ds2, ..ch };
                    assert(r == ft.update(ci, ch2));
                    lemma_find_after_update(ft, ci, ch2, cp);
                    assert forall|j: int| 0 <= j < ds.len() implies !sp(#[trigger] ds2[j]) by {
                        assert(ds2[j] == ds[j]);
                        assert(!dp(ds[j]));
                    }
                    lemma_find_first_at(ds2, sp, ds.len() as int);
                },
            }
        },
    }
}

/// After giving `path` of file system `fs` the context `ctx`, looking the
/// file system and then the path up gives `ctx`.
#[verifier::spinoff_prover]
pub proof fn law_genfscon_recorded(gs: Seq<GenfsView>, fs: Seq<char>, path: Seq<char>, ctx: ContextView)
    ensures
        ({
            let r = genfs_add(gs, fs, path, ctx);
            match find_first(r, |g: GenfsView| g.fstype == fs) {
                Some(gi) => match find_first(r[gi].entries, path_is(path)) {
                    Some(k) => r[gi].entries[k].1 == ctx,
                    None => false,
                },
                None => false,
            }
        }),
{
    let fp = |g: GenfsView| g.fstype == fs;
    let pp = path_is(path);
    lemma_find_first(gs, fp);
    match find_first(gs, fp) {
        None => {
            let g = GenfsView { fstype: fs, entries: seq![(path, ctx)] };
            lemma_find_first_head(g, gs, fp);
            lemma_find_first_at(g.entries, pp, 0);
            let r = seq![g] + gs;
            assert(r == genfs_add(gs, fs, path, ctx));
            assert(r[0] == g);
            assert(g.entries[0] == (path, ctx));
        },
        Some(gi) => {
            let es = gs[gi].entries;
            lemma_find_first(es, pp);
            let es2 = match find_first(es, pp) {
                None => seq![(path, ctx)] + es,
                Some(k) => es.update(k, (path, ctx)),
            };
            match find_first(es, pp) {
                None => {
                    lemma_find_first_head((path, ctx), es, pp);
                    assert(es2[0] == (path, ctx));
                },
                Some(k) => {
                    lemma_find_after_update(es, k, (path, ctx), pp);
                    assert(es2[k] == (path, ctx));
                },
            }
            let g2 = GenfsView { fstype: gs[gi].fstype, entries: es2 };
            lemma_find_after_update(gs, gi, g2, fp);
            let r = gs.update(gi, g2);
            assert(r == genfs_add(gs, fs, path, ctx));
            assert(r[gi] == g2);
        },
    }
}

// ---- types ----

/// Enforcing a type that was not permissive, after making it permissive,
/// gives back the database.
pub proof fn law_enforce_undoes_permissive(db: PolicyView, t: Seq<char>)
    requires
        t.len() > 0,
        type_lookup(db.types, t) is Some,
        !db.permissive_map.contains(db.types[type_lookup(db.types, t).unwrap()].value),
    ensures
        (state_rule(false))((state_rule(true))(db, t), t) == db,
{
    let v = db.types[type_lookup(db.types, t).unwrap()].value;
    let db1 = (state_rule(true))(db, t);
    assert(db1.permissive_map == db.permissive_map.insert(v));
    assert(db1.types == db.types);
    let db2 = (state_rule(false))(db1, t);
    assert(db2.permissive_map =~= db.permissive_map);
}

/// Declaring a type that was just declared changes nothing, and the type
/// is found by its name.
pub proof fn law_add_type_idempotent(db: PolicyView, name: Seq<char>, flavor: u32)
    requires
        add_type_result(db, name, flavor) is Some,
    ensures
        type_lookup(add_type_result(db, name, flavor).unwrap().types, name) is Some,
        add_type_result(add_type_result(db, name, flavor).unwrap(), name, flavor) == add_type_result(
            db,
            name,
            flavor,
        ),
{
    let db2 = add_type_result(db, name, flavor).unwrap();
    if type_lookup(db.types, name) is None {
        let n = db.types.len();
        lemma_find_after_push(
            db.types,
            crate::sepol::TypeView { name, value: (n + 1) as u32, flavor },
            |x: crate::sepol::TypeView| x.name == name,
        );
    }
}

// ---- reading back the text of a range ----

pub proof fn lemma_hex_digit(d: int)
    requires
        0 <= d < 16,
    ensures
        hex_value(hex_digit(d)) == Some(d),
        !is_ws(hex_digit(d)),
        hex_digit(d) != '-',
        hex_digit(d) != '{',
        hex_digit(d) != '}',
        hex_digit(d) != ',',
        hex_digit(d) != '~',
        hex_digit(d) != '+',
{
    let c = hex_digit(d);
    if d < 10 {
        assert(c as u32 == 48 + d);
    } else {
        assert(c as u32 == 55 + d);
    }
}

#[verifier::spinoff_prover]
pub proof fn lemma_hex4(v: u16)
    ensures
        all_hex(hex4(v)),
        hex_number(hex4(v)) == v,
        forall|i: int|
            0 <= i < 4 ==> {
                let c = #[trigger] hex4(v)[i];
                &&& !is_ws(c)
                &&& c != '-'
                &&& c != '{'
                &&& c != '}'
                &&& c != ','
                &&& c != '~'
                &&& c != '+'
            },
{
    let x = v as int;
    let a = x / 4096;
    let b = x / 256;
    let c = x / 16;
    let h = hex4(v);
    lemma_hex_digit(a % 16);
    lemma_hex_digit(b % 16);
    lemma_hex_digit(c % 16);
    lemma_hex_digit(x % 16);
    assert(h[0] == hex_digit(a) && h[1] == hex_digit(b) && h[2] == hex_digit(c) && h[3] == hex_digit(x));
    assert(hex_digit(a) == hex_digit(a % 16));
    assert(hex_digit(b) == hex_digit(b % 16));
    assert(hex_digit(c) == hex_digit(c % 16));
    assert(hex_digit(x) == hex_digit(x % 16));
    lemma_fundamental_div_mod(b, 16);
    lemma_fundamental_div_mod(c, 16);
    lemma_fundamental_div_mod(x, 16);
    lemma_div_denominator(x, 256, 16);
    lemma_div_denominator(x, 16, 16);
    assert(a < 16);
    assert(a % 16 == a);
    let h3 = h.drop_last();
    let h2 = h3.drop_last();
    let h1 = h2.drop_last();
    let h0 = h1.drop_last();
    assert(h0.len() == 0);
    assert(hex_number(h0) == 0);
    assert(h1.last() == h[0]);
    assert(hex_number(h1) == a);
    assert(h2.last() == h[1]);
    assert(hex_number(h2) == a * 16 + b % 16);
    assert(h3.last() == h[2]);
    assert(hex_number(h3) == b * 16 + c % 16);
    assert(h.last() == h[3]);
    assert(hex_number(h) == c * 16 + x % 16);
}

proof fn lemma_keyword_none(s: Seq<char>)
    requires
        s.len() == 0 || (!('a' <= s[0] <= 'z') && s[0] != '*' && s[0] != '-'),
    ensures
        keyword_token(s) is None,
{
    lemma_keyword_literals();
}

/// The tokens of a word followed by a space and more text.
proof fn lemma_tokens_word(w: Seq<char>, rest: Seq<char>)
    requires
        w.len() > 0,
        forall|i: int| 0 <= i < w.len() ==> !is_ws(#[trigger] w[i]),
    ensures
        statement_tokens(w + seq![' '] + rest) == word_tokens(w) + statement_tokens(rest),
        statement_tokens(w) == word_tokens(w),
{
    let s = w + seq![' '] + rest;
    assert forall|j: int| 0 <= j < w.len() implies !is_ws(#[trigger] s[j]) by {
        assert(s[j] == w[j]);
    }
    assert(s[w.len() as int] == ' ');
    lemma_word_len_at(s, w.len() as int);
    assert(s.take(w.len() as int) =~= w);
    let t = s.skip(w.len() as int);
    assert(t =~= seq![' '] + rest);
    assert(t.drop_first() =~= rest);
    assert(is_ws(t[0]));
    assert(statement_tokens(t) == statement_tokens(t.drop_first()));
    assert(!is_ws(s[0]));
    assert(statement_tokens(s) == word_tokens(s.take(w.len() as int)) + statement_tokens(t));
    lemma_word_len_at(w, w.len() as int);
    assert(w.take(w.len() as int) =~= w);
    assert(w.skip(w.len() as int) =~= Seq::<char>::empty());
    assert(w.skip(w.len() as int).len() == 0);
    assert(statement_tokens(w.skip(w.len() as int)) == Seq::<SpecToken>::empty());
    assert(word_tokens(w) + Seq::<SpecToken>::empty() =~= word_tokens(w));
}

/// The characters of an ioctl number as a word: `0x` and four digits.
spec fn hex_word(v: u16) -> Seq<char> {
    seq!['0', 'x'] + hex4(v)
}

#[verifier::spinoff_prover]
proof fn lemma_hex_word(v: u16)
    ensures
        word_tokens(hex_word(v)) == seq![SpecToken::HX(v)],
        hex_word(v).len() == 6,
        forall|i: int|
            0 <= i < 6 ==> {
                let c = #[trigger] hex_word(v)[i];
                &&& !is_ws(c)
                &&& c != '-'
                &&& c != '{'
                &&& c != '}'
                &&& c != ','
            },
        parse_xperm_hex_spec(hex_word(v)) == Some(v),
{
    let w = hex_word(v);
    lemma_hex4(v);
    assert forall|i: int| 0 <= i < 6 implies {
        let c = #[trigger] w[i];
        &&& !is_ws(c)
        &&& c != '-'
        &&& c != '{'
        &&& c != '}'
        &&& c != ','
    } by {
        if i >= 2 {
            assert(w[i] == hex4(v)[i - 2]);
        }
    }
    lemma_keyword_none(w);
    lemma_find_char(w, '{');
    lemma_find_char(w, '}');
    lemma_find_char(w, ',');
    assert(w.skip(2) =~= hex4(v));
    assert(hex4(v)[0] != '+');
    assert(parse_u16_hex(hex4(v)) == Some(v));
}

#[verifier::spinoff_prover]
proof fn lemma_brace_words()
    ensures
        word_tokens(seq!['{']) == seq![SpecToken::LB],
        word_tokens(seq!['}']) == seq![SpecToken::RB],
        word_tokens(seq!['~', '{']) == seq![SpecToken::TL, SpecToken::LB],
{
    let e = Seq::<char>::empty();
    lemma_keyword_none(e);
    assert(word_tokens(e) == Seq::<SpecToken>::empty());
    let lb = seq!['{'];
    lemma_keyword_none(lb);
    assert(find_char(lb, '{') == Some(0int));
    assert(lb.take(0) =~= e && lb.skip(1) =~= e);
    assert(word_tokens(lb) =~= seq![SpecToken::LB]);
    let rb = seq!['}'];
    lemma_keyword_none(rb);
    assert(find_char(rb, '{') is None) by {
        assert(find_char(rb.drop_first(), '{') is None);
    }
    assert(find_char(rb, '}') == Some(0int));
    assert(rb.take(0) =~= e && rb.skip(1) =~= e);
    assert(word_tokens(rb) =~= seq![SpecToken::RB]);
    let tl = seq!['~'];
    lemma_keyword_none(tl);
    assert(find_char(tl, '{') is None) by {
        assert(find_char(tl.drop_first(), '{') is None);
    }
    assert(find_char(tl, '}') is None) by {
        assert(find_char(tl.drop_first(), '}') is None);
    }
    assert(find_char(tl, ',') is None) by {
        assert(find_char(tl.drop_first(), ',') is None);
    }
    assert(tl.drop_first() =~= e);
    assert(word_tokens(tl) =~= seq![SpecToken::TL]);
    let w = seq!['~', '{'];
    lemma_keyword_none(w);
    assert(find_char(w, '{') == Some(1int)) by {
        assert(w.drop_first() =~= seq!['{']);
    }
    assert(w.take(1) =~= tl && w.skip(2) =~= e);
    assert(word_tokens(w) =~= seq![SpecToken::TL, SpecToken::LB]);
}

/// The characters of an ioctl range as a word: `0xLLLL-0xHHHH`.
spec fn range_word(low: u16, high: u16) -> Seq<char> {
    hex_word(low) + seq!['-'] + hex_word(high)
}

#[verifier::spinoff_prover]
proof fn lemma_range_word(low: u16, high: u16)
    ensures
        word_tokens(range_word(low, high)) == seq![SpecToken::ID(range_word(low, high))],
        spec_xperm_range(range_word(low, high)) == Some((low, high)),
        forall|i: int| 0 <= i < range_word(low, high).len() ==> !is_ws(#[trigger] range_word(low, high)[i]),
{
    let w = range_word(low, high);
    let a = hex_word(low);
    let b = hex_word(high);
    lemma_hex_word(low);
    lemma_hex_word(high);
    lemma_hex4(low);
    assert(w.len() == 13);
    assert forall|i: int| 0 <= i < 13 implies {
        let c = #[trigger] w[i];
        &&& !is_ws(c)
        &&& c != '{'
        &&& c != '}'
        &&& c != ','
    } by {
        if i < 6 {
            assert(w[i] == a[i]);
        } else if i > 6 {
            assert(w[i] == b[i - 7]);
        }
    }
    lemma_keyword_none(w);
    lemma_find_char(w, '{');
    lemma_find_char(w, '}');
    lemma_find_char(w, ',');
    let d = w.skip(2);
    assert(d[0] == hex4(low)[0]);
    assert(d[4] == '-');
    assert(hex_value('-') is None);
    assert(!all_hex(d));
    assert(parse_xperm_hex_spec(w) is None);
    assert(word_tokens(w) =~= seq![SpecToken::ID(w)]);
    assert forall|j: int| 0 <= j < 6 implies w[j] != '-' by {
        assert(w[j] == a[j]);
    }
    lemma_find_unique_char(w, '-', 6);
    assert(w.take(6) =~= a);
    assert(w.skip(7) =~= b);
}

proof fn lemma_find_unique_char(s: Seq<char>, c: char, k: int)
    requires
        0 <= k < s.len(),
        s[k] == c,
        forall|j: int| 0 <= j < k ==> s[j] != c,
    ensures
        find_char(s, c) == Some(k),
{
    lemma_find_char(s, c);
    match find_char(s, c) {
        Some(m) => {
            if m < k {
                assert(s[m] != c);
            }
        },
        None => {
            assert(s[k] != c);
        },
    }
}

/// The tokens of the text of an ioctl range.
spec fn range_tokens(x: Xperm) -> Seq<SpecToken> {
    let body = seq![
        SpecToken::LB,
        if x.low == x.high {
            SpecToken::HX(x.low)
        } else {
            SpecToken::ID(range_word(x.low, x.high))
        },
        SpecToken::RB,
    ];
    if x.reset {
        seq![SpecToken::TL] + body
    } else {
        body
    }
}

#[verifier::spinoff_prover]
proof fn lemma_range_text_tokens(x: Xperm)
    ensures
        statement_tokens(xperm_text(x)) == range_tokens(x),
{
    reveal_strlit("~");
    reveal_strlit("{ 0x");
    reveal_strlit(" }");
    reveal_strlit("-0x");
    lemma_brace_words();
    let w1 = if x.reset {
        seq!['~', '{']
    } else {
        seq!['{']
    };
    let w2 = if x.low == x.high {
        hex_word(x.low)
    } else {
        range_word(x.low, x.high)
    };
    let w3 = seq!['}'];
    lemma_hex_word(x.low);
    lemma_range_word(x.low, x.high);
    assert(xperm_text(x) =~= w1 + seq![' '] + (w2 + seq![' '] + w3));
    assert forall|i: int| 0 <= i < w1.len() implies !is_ws(#[trigger] w1[i]) by {}
    assert forall|i: int| 0 <= i < w2.len() implies !is_ws(#[trigger] w2[i]) by {}
    assert forall|i: int| 0 <= i < w3.len() implies !is_ws(#[trigger] w3[i]) by {}
    lemma_tokens_word(w1, w2 + seq![' '] + w3);
    lemma_tokens_word(w2, w3);
    lemma_tokens_word(w3, Seq::<char>::empty());
    assert(statement_tokens(xperm_text(x)) =~= range_tokens(x));
}

#[verifier::spinoff_prover]
proof fn lemma_range_tokens_parse(x: Xperm)
    ensures
        spec_xperms(range_tokens(x), 0) == Some((seq![x], range_tokens(x).len() as int)),
{
    lemma_range_word(x.low, x.high);
    let t = range_tokens(x);
    if x.reset {
        assert(spec_xperm(t, 2) == Some((Xperm { low: x.low, high: x.high, reset: false }, 3int)));
        assert(spec_xperm_list(t, 2, true, seq![]) == Some((seq![x], 4int)));
    } else {
        assert(spec_xperm(t, 1) == Some((Xperm { low: x.low, high: x.high, reset: false }, 2int)));
        assert(spec_xperm_list(t, 1, false, seq![]) == Some((seq![x], 3int)));
    }
}

/// The text of an ioctl range reads back, as a statement's xperm set, as
/// that one range.
pub proof fn law_xperm_text_reads_back(x: Xperm)
    ensures
        ({
            let t = statement_tokens(xperm_text(x));
            spec_xperms(t, 0) == Some((seq![x], t.len() as int))
        }),
{
    lemma_range_text_tokens(x);
    lemma_range_tokens_parse(x);
}

/// The lengths of the keywords, and characters that tell apart those of
/// equal length.
proof fn lemma_keyword_literals()
    ensures
        "allow"@.len() == 5,
        "deny"@.len() == 4,
        "auditallow"@.len() == 10,
        "dontaudit"@.len() == 9,
        "allowxperm"@.len() == 10,
        "auditallowxperm"@.len() == 15,
        "dontauditxperm"@.len() == 14,
        "permissive"@.len() == 10,
        "enforce"@.len() == 7,
        "typeattribute"@.len() == 13,
        "type"@.len() == 4,
        "attribute"@.len() == 9,
        "type_transition"@.len() == 15,
        "type_change"@.len() == 11,
        "type_member"@.len() == 11,
        "genfscon"@.len() == 8,
        "*"@.len() == 1,
        "-"@.len() == 1,
        "allow"@[0] == 'a',
        "auditallow"@[0] == 'a',
        "allowxperm"@[0] == 'a',
        "dontauditxperm"@[0] == 'd',
        "permissive"@[0] == 'p',
        "enforce"@[0] == 'e',
        "typeattribute"@[0] == 't',
        "type_change"@[0] == 't',
        "type_member"@[0] == 't',
        "genfscon"@[0] == 'g',
        "deny"@[0] == 'd',
        "type"@[0] == 't',
        "auditallow"@[1] == 'u',
        "allowxperm"@[1] == 'l',
        "permissive"@[1] == 'e',
        "dontaudit"@[0] == 'd',
        "attribute"@[0] == 'a',
        "auditallowxperm"@[0] == 'a',
        "type_transition"@[0] == 't',
        "type_change"@[5] == 'c',
        "type_member"@[5] == 'm',
        "*"@[0] == '*',
        "-"@[0] == '-',
{
    reveal_strlit("allow");
    reveal_strlit("deny");
    reveal_strlit("auditallow");
    reveal_strlit("dontaudit");
    reveal_strlit("allowxperm");
    reveal_strlit("auditallowxperm");
    reveal_strlit("dontauditxperm");
    reveal_strlit("permissive");
    reveal_strlit("enforce");
    reveal_strlit("typeattribute");
    reveal_strlit("type");
    reveal_strlit("attribute");
    reveal_strlit("type_transition");
    reveal_strlit("type_change");
    reveal_strlit("type_member");
    reveal_strlit("genfscon");
    reveal_strlit("*");
    reveal_strlit("-");
}

/// The text of a keyword or an operator token reads back as that token.
#[verifier::spinoff_prover]
pub proof fn law_token_text_reads_back(t: SpecToken)
    requires
        !(t is HX),
        !(t is ID),
    ensures
        word_tokens(token_text(t)) == seq![t],
{
    lemma_keyword_literals();
    reveal_strlit("{");
    reveal_strlit("}");
    reveal_strlit(",");
    reveal_strlit("~");
    lemma_brace_words();
    match t {
        SpecToken::CM => {
            let w = seq![','];
            let e = Seq::<char>::empty();
            lemma_keyword_none(w);
            lemma_keyword_none(e);
            assert(word_tokens(e) == Seq::<SpecToken>::empty());
            assert(find_char(w, '{') is None) by {
                assert(find_char(w.drop_first(), '{') is None);
            }
            assert(find_char(w, '}') is None) by {
                assert(find_char(w.drop_first(), '}') is None);
            }
            assert(find_char(w, ',') == Some(0int));
            assert(w.take(0) =~= e && w.skip(1) =~= e);
            assert(word_tokens(w) =~= seq![SpecToken::CM]);
            assert(token_text(t) =~= w);
            assert(word_tokens(token_text(t)) == seq![t]);
        },
        SpecToken::TL => {
            let w = seq!['~'];
            let e = Seq::<char>::empty();
            lemma_keyword_none(w);
            lemma_keyword_none(e);
            assert(word_tokens(e) == Seq::<SpecToken>::empty());
            assert(find_char(w, '{') is None) by {
                assert(find_char(w.drop_first(), '{') is None);
            }
            assert(find_char(w, '}') is None) by {
                assert(find_char(w.drop_first(), '}') is None);
            }
            assert(find_char(w, ',') is None) by {
                assert(find_char(w.drop_first(), ',') is None);
            }
            assert(w.drop_first() =~= e);
            assert(word_tokens(w) =~= seq![SpecToken::TL]);
            assert(token_text(t) =~= w);
            assert(word_tokens(token_text(t)) == seq![t]);
        },
        SpecToken::LB => {
            assert(token_text(t) =~= seq!['{']);
        },
        SpecToken::RB => {
            assert(token_text(t) =~= seq!['}']);
        },
        SpecToken::AL => {
            assert(word_tokens(token_text(t)) == seq![t]);
        },
        SpecToken::DN => {
            assert(word_tokens(token_text(t)) == seq![t]);
        },
        SpecToken::AA => {
            assert(word_tokens(token_text(t)) == seq![t]);
        },
        SpecToken::DA => {
            assert(word_tokens(token_text(t)) == seq![t]);
        },
        SpecToken::AX => {
            assert(word_tokens(token_text(t)) == seq![t]);
        },
        SpecToken::AY => {
            assert(word_tokens(token_text(t)) == seq![t]);
        },
        SpecToken::DX => {
            assert(word_tokens(token_text(t)) == seq![t]);
        },
        SpecToken::PM => {
            assert(word_tokens(token_text(t)) == seq![t]);
        },
        SpecToken::EF => {
            assert(word_tokens(token_text(t)) == seq![t]);
        },
        SpecToken::TA => {
            assert(word_tokens(token_text(t)) == seq![t]);
        },
        SpecToken::TY => {
            assert(word_tokens(token_text(t)) == seq![t]);
        },
        SpecToken::AT => {
            assert(word_tokens(token_text(t)) == seq![t]);
        },
        SpecToken::TT => {
            assert(word_tokens(token_text(t)) == seq![t]);
        },
        SpecToken::TC => {
            assert(word_tokens(token_text(t)) == seq![t]);
        },
        SpecToken::TM => {
            assert(word_tokens(token_text(t)) == seq![t]);
        },
        SpecToken::GF => {
            assert(word_tokens(token_text(t)) == seq![t]);
        },
        SpecToken::ST => {
            assert(word_tokens(token_text(t)) == seq![t]);
        },
        SpecToken::HP => {
            assert(word_tokens(token_text(t)) == seq![t]);
        },
        _ => {},
    }
}

} // verus!
