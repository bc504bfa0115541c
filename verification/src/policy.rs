//! The policy handle: rules stated by name, applied to the policy
//! database, with wildcards expanded.

use vstd::prelude::*;

use crate::parser::names_view;
use crate::sepol::{
    is_xperm_kind, policy_valid, policydb, PolicyView, AVTAB_ALLOWED, AVTAB_AUDITALLOW,
    AVTAB_AUDITDENY, AVTAB_CHANGE, AVTAB_MEMBER, AVTAB_TRANSITION, AVTAB_XPERMS_ALLOWED,
    AVTAB_XPERMS_AUDITALLOW, AVTAB_XPERMS_DONTAUDIT, POLICYDB_VERSION_XPERMS_IOCTL, TYPE_ATTRIB,
    TYPE_TYPE,
};
use crate::sepol_impl::{
    add_class_result, add_role_result, add_type_result, add_user_result, av_rule_result,
    class_lookup, context_from_string, context_parse, empty_policy, find_class, find_type,
    type_lookup, ft_result, genfs_add, sepol_add_class, sepol_add_filename_trans,
    sepol_add_genfscon, sepol_add_role, sepol_add_rule, sepol_add_type, sepol_add_type_rule,
    sepol_add_typeattribute, sepol_add_user, sepol_add_xperm_rule, sepol_db_new,
    sepol_exclude_xperm_rule, xp_exclude_result,
    sepol_set_type_state, type_rule_result, type_state_result, typeattribute_result,
    xp_rule_result,
};
use crate::properties::{
    lemma_av_step_shape, lemma_fold_names_keeps, lemma_fold_rules_keeps, lemma_type_rule_shape,
    lemma_xp_step_shape, shaped,
};
use crate::sepol_print::{
    av_lines_upto, ft_lines_upto, genfs_lines_upto, lemma_lines_view_concat, lines_view,
    sepol_print_avtab_rules, sepol_print_filename_trans, sepol_print_genfscon, sepol_print_types,
    types_lines_upto,
};
use crate::statement::{lines_result, parse_rules, rules_c_names, text_lines};
use crate::text::{decimal, push_decimal};
use crate::xperm::Xperm;

verus! {

// ---- names ----

/// A name the policy tools can pass on: it holds no NUL character.
pub open spec fn c_name(s: Seq<char>) -> bool {
    !s.contains('\0')
}

/// Every name of a list can be passed on.
pub open spec fn c_names(v: Seq<Seq<char>>) -> bool {
    forall|i: int| 0 <= i < v.len() ==> c_name(#[trigger] v[i])
}

/// A list of names as a rule reads it: the empty list stands for one empty
/// name, which matches everything.
pub open spec fn wildcard(names: Seq<Seq<char>>) -> Seq<Seq<char>> {
    if names.len() == 0 {
        seq![Seq::<char>::empty()]
    } else {
        names
    }
}

/// The result of an operation that may be refused: a refused one changes
/// nothing.
pub open spec fn or_same(r: Option<PolicyView>, db: PolicyView) -> PolicyView {
    match r {
        Some(v) => v,
        None => db,
    }
}

// ---- one rule ----

/// The database after one access vector rule.
pub open spec fn av_step(db: PolicyView, s: Seq<char>, t: Seq<char>, c: Seq<char>, p: Seq<char>, effect: u16, invert: bool) -> PolicyView {
    match av_rule_result(db, s, t, c, p, effect, invert) {
        Some(av) => PolicyView { avtab: av, ..db },
        None => db,
    }
}

/// The database after one ioctl rule.
pub open spec fn xp_step(db: PolicyView, s: Seq<char>, t: Seq<char>, c: Seq<char>, x: Xperm, effect: u16) -> PolicyView {
    match xp_rule_result(db, s, t, c, x.low, x.high, x.reset, effect) {
        Some(av) => PolicyView { avtab: av, ..db },
        None => db,
    }
}

/// The database after the commands of `x` are taken out of what one ioctl
/// rule allows.
pub open spec fn xp_exclude_step(db: PolicyView, s: Seq<char>, t: Seq<char>, c: Seq<char>, x: Xperm, effect: u16) -> PolicyView {
    match xp_exclude_result(db, s, t, c, x.low, x.high, effect) {
        Some(av) => PolicyView { avtab: av, ..db },
        None => db,
    }
}

/// How a list of ioctl ranges is applied, in its order. A plain range is
/// added. A complement range that follows another complement range is
/// taken out (marked `true`); one that does not resets what the key allows
/// to all but that range. So a run of complement ranges allows every
/// command except those the run lists.
pub open spec fn xp_plan(p: Seq<Xperm>) -> Seq<(Xperm, bool)> {
    p.map(|i: int, x: Xperm| (x, x.reset && i > 0 && p[i - 1].reset))
}

/// The database after one step of a plan.
pub open spec fn xp_plan_step(db: PolicyView, s: Seq<char>, t: Seq<char>, c: Seq<char>, op: (Xperm, bool), effect: u16) -> PolicyView {
    if op.1 {
        xp_exclude_step(db, s, t, c, op.0, effect)
    } else {
        xp_step(db, s, t, c, op.0, effect)
    }
}

/// The database after a type rule.
pub open spec fn type_rule_step(db: PolicyView, s: Seq<char>, t: Seq<char>, c: Seq<char>, d: Seq<char>, effect: u16) -> PolicyView {
    match type_rule_result(db, s, t, c, d, effect) {
        Some(av) => PolicyView { avtab: av, ..db },
        None => db,
    }
}

/// The database after a name-based type transition.
pub open spec fn filename_trans_step(db: PolicyView, s: Seq<char>, t: Seq<char>, c: Seq<char>, d: Seq<char>, o: Seq<char>) -> PolicyView {
    match ft_result(db, s, t, c, d, o) {
        Some((ft, n)) => PolicyView { filename_trans: ft, filename_trans_count: n, ..db },
        None => db,
    }
}

/// The database after `type_transition`: a type rule without an object
/// name, a name-based transition with one.
pub open spec fn type_transition_step(db: PolicyView, s: Seq<char>, t: Seq<char>, c: Seq<char>, d: Seq<char>, o: Seq<char>) -> PolicyView {
    if o.len() == 0 {
        type_rule_step(db, s, t, c, d, AVTAB_TRANSITION)
    } else {
        filename_trans_step(db, s, t, c, d, o)
    }
}

/// The database after a file system context.
pub open spec fn genfscon_step(db: PolicyView, fs: Seq<char>, path: Seq<char>, ctx: Seq<char>) -> PolicyView {
    match context_parse(db, ctx) {
        Some(c) => PolicyView { genfs: genfs_add(db.genfs, fs, path, c), ..db },
        None => db,
    }
}

// ---- rules over lists of names ----

/// A rule over one source, target and class for each of `ps`, in order.
pub open spec fn fold_perms<P>(db: PolicyView, s: Seq<char>, t: Seq<char>, c: Seq<char>, ps: Seq<P>, step: spec_fn(PolicyView, Seq<char>, Seq<char>, Seq<char>, P) -> PolicyView) -> PolicyView
    decreases ps.len(),
{
    if ps.len() == 0 {
        db
    } else {
        step(fold_perms(db, s, t, c, ps.drop_last(), step), s, t, c, ps.last())
    }
}

/// A rule over one source and target for each class of `cs`, in order.
pub open spec fn fold_classes<P>(db: PolicyView, s: Seq<char>, t: Seq<char>, cs: Seq<Seq<char>>, ps: Seq<P>, step: spec_fn(PolicyView, Seq<char>, Seq<char>, Seq<char>, P) -> PolicyView) -> PolicyView
    decreases cs.len(),
{
    if cs.len() == 0 {
        db
    } else {
        fold_perms(fold_classes(db, s, t, cs.drop_last(), ps, step), s, t, cs.last(), ps, step)
    }
}

/// A rule over one source for each target of `ts`, in order.
pub open spec fn fold_targets<P>(db: PolicyView, s: Seq<char>, ts: Seq<Seq<char>>, cs: Seq<Seq<char>>, ps: Seq<P>, step: spec_fn(PolicyView, Seq<char>, Seq<char>, Seq<char>, P) -> PolicyView) -> PolicyView
    decreases ts.len(),
{
    if ts.len() == 0 {
        db
    } else {
        fold_classes(fold_targets(db, s, ts.drop_last(), cs, ps, step), s, ts.last(), cs, ps, step)
    }
}

/// A rule for every source, target, class and permission, sources
/// outermost.
pub open spec fn fold_rules<P>(db: PolicyView, ss: Seq<Seq<char>>, ts: Seq<Seq<char>>, cs: Seq<Seq<char>>, ps: Seq<P>, step: spec_fn(PolicyView, Seq<char>, Seq<char>, Seq<char>, P) -> PolicyView) -> PolicyView
    decreases ss.len(),
{
    if ss.len() == 0 {
        db
    } else {
        fold_targets(fold_rules(db, ss.drop_last(), ts, cs, ps, step), ss.last(), ts, cs, ps, step)
    }
}

/// The access vector rule of a kind, as a step.
pub open spec fn av_rule(effect: u16, invert: bool) -> spec_fn(PolicyView, Seq<char>, Seq<char>, Seq<char>, Seq<char>) -> PolicyView {
    |db: PolicyView, s: Seq<char>, t: Seq<char>, c: Seq<char>, p: Seq<char>| av_step(db, s, t, c, p, effect, invert)
}

/// The ioctl rule of a kind, as a step over a plan.
pub open spec fn xp_rule(effect: u16) -> spec_fn(PolicyView, Seq<char>, Seq<char>, Seq<char>, (Xperm, bool)) -> PolicyView {
    |db: PolicyView, s: Seq<char>, t: Seq<char>, c: Seq<char>, op: (Xperm, bool)| xp_plan_step(db, s, t, c, op, effect)
}

// ---- refusals the policy tools report ----

/// What the tools report for an ioctl rule refused for the policy version.
pub open spec fn xp_version_note(v: u32) -> Seq<char> {
    "policy version "@ + decimal(v as nat) + " does not support ioctl xperms rules"@
}

/// `n` copies of a line.
pub open spec fn repeated(m: Seq<char>, n: nat) -> Seq<Seq<char>>
    decreases n,
{
    if n == 0 {
        seq![]
    } else {
        repeated(m, (n - 1) as nat).push(m)
    }
}

/// A line for each of `nx` ranges over each of `nc` classes.
pub open spec fn notes_classes(m: Seq<char>, nc: nat, nx: nat) -> Seq<Seq<char>>
    decreases nc,
{
    if nc == 0 {
        seq![]
    } else {
        notes_classes(m, (nc - 1) as nat, nx) + repeated(m, nx)
    }
}

/// A line for each range and class over each of `nt` targets.
pub open spec fn notes_targets(m: Seq<char>, nt: nat, nc: nat, nx: nat) -> Seq<Seq<char>>
    decreases nt,
{
    if nt == 0 {
        seq![]
    } else {
        notes_targets(m, (nt - 1) as nat, nc, nx) + notes_classes(m, nc, nx)
    }
}

/// A line for each range, class and target over each of `ns` sources.
pub open spec fn notes_rules(m: Seq<char>, ns: nat, nt: nat, nc: nat, nx: nat) -> Seq<Seq<char>>
    decreases ns,
{
    if ns == 0 {
        seq![]
    } else {
        notes_rules(m, (ns - 1) as nat, nt, nc, nx) + notes_targets(m, nt, nc, nx)
    }
}

/// What an ioctl rule over lists reports: when the policy version predates
/// ioctl rules, one line for each rule of the expansion, every one refused.
pub open spec fn xp_notes(db: PolicyView, ss: Seq<Seq<char>>, ts: Seq<Seq<char>>, cs: Seq<Seq<char>>, nx: nat) -> Seq<Seq<char>> {
    if db.policyvers < POLICYDB_VERSION_XPERMS_IOCTL {
        notes_rules(xp_version_note(db.policyvers), ss.len(), ts.len(), cs.len(), nx)
    } else {
        seq![]
    }
}

/// What a name-based type transition reports: the first of its names that
/// does not exist.
pub open spec fn filename_trans_notes(db: PolicyView, s: Seq<char>, t: Seq<char>, c: Seq<char>, d: Seq<char>) -> Seq<Seq<char>> {
    if type_lookup(db.types, s) is None {
        seq!["filename_trans: source type "@ + s + " does not exist"@]
    } else if type_lookup(db.types, t) is None {
        seq!["filename_trans: target type "@ + t + " does not exist"@]
    } else if class_lookup(db.classes, c) is None {
        seq!["filename_trans: class "@ + c + " does not exist"@]
    } else if type_lookup(db.types, d) is None {
        seq!["filename_trans: default type "@ + d + " does not exist"@]
    } else {
        seq![]
    }
}

/// What `type_transition` reports: a type rule reports nothing, a
/// name-based transition its first missing name.
pub open spec fn type_transition_notes(db: PolicyView, s: Seq<char>, t: Seq<char>, c: Seq<char>, d: Seq<char>, o: Seq<char>) -> Seq<Seq<char>> {
    if o.len() == 0 {
        seq![]
    } else {
        filename_trans_notes(db, s, t, c, d)
    }
}

/// What a file system context reports: a context that does not parse.
pub open spec fn genfscon_notes(db: PolicyView, ctx: Seq<char>) -> Seq<Seq<char>> {
    if context_parse(db, ctx) is None {
        seq!["genfscon: failed to parse context '"@ + ctx + "'"@]
    } else {
        seq![]
    }
}

/// An operation on one name for each of `names`, in order.
pub open spec fn fold_names(db: PolicyView, names: Seq<Seq<char>>, step: spec_fn(PolicyView, Seq<char>) -> PolicyView) -> PolicyView
    decreases names.len(),
{
    if names.len() == 0 {
        db
    } else {
        step(fold_names(db, names.drop_last(), step), names.last())
    }
}

/// Making a type permissive or enforcing, as a step.
pub open spec fn state_rule(permissive: bool) -> spec_fn(PolicyView, Seq<char>) -> PolicyView {
    |db: PolicyView, t: Seq<char>| or_same(type_state_result(db, t, permissive), db)
}

/// Type `t` joining an attribute, as a step over attribute names.
pub open spec fn join_rule(t: Seq<char>) -> spec_fn(PolicyView, Seq<char>) -> PolicyView {
    |db: PolicyView, a: Seq<char>| or_same(typeattribute_result(db, t, a), db)
}

/// Every type of `ts` joining every attribute of `attrs`, types outermost.
pub open spec fn fold_joins(db: PolicyView, ts: Seq<Seq<char>>, attrs: Seq<Seq<char>>) -> PolicyView
    decreases ts.len(),
{
    if ts.len() == 0 {
        db
    } else {
        fold_names(fold_joins(db, ts.drop_last(), attrs), attrs, join_rule(ts.last()))
    }
}

/// The database after declaring type `name` and joining it to `attrs`.
pub open spec fn new_type_step(db: PolicyView, name: Seq<char>, attrs: Seq<Seq<char>>) -> PolicyView {
    fold_names(or_same(add_type_result(db, name, TYPE_TYPE), db), attrs, join_rule(name))
}

/// The database after declaring attribute `name`.
pub open spec fn new_attr_step(db: PolicyView, name: Seq<char>) -> PolicyView {
    or_same(add_type_result(db, name, TYPE_ATTRIB), db)
}

/// All rules of a database as statement lines: the attributes, the types,
/// the access vector rules, the name-based transitions and the file system
/// contexts.
pub open spec fn rules_text(db: PolicyView) -> Seq<Seq<char>> {
    types_lines_upto(db, db.types.len() as int, true) + types_lines_upto(
        db,
        db.types.len() as int,
        false,
    ) + av_lines_upto(db, db.avtab.len() as int) + ft_lines_upto(db, db.filename_trans.len() as int)
        + genfs_lines_upto(db, db.genfs.len() as int)
}

// ---- the operations on the database ----

fn expand_wildcard<'a>(items: &[&'a str]) -> (r: Vec<&'a str>)
    ensures
        names_view(r@) == wildcard(names_view(items@)),
{
    let mut r: Vec<&'a str> = Vec::new();
    if items.len() == 0 {
        let e = "";
        proof {
            reveal_strlit("");
        }
        assert(e@ =~= Seq::<char>::empty());
        r.push(e);
        assert(names_view(r@)[0] == e@);
        assert(names_view(r@) =~= seq![Seq::<char>::empty()]);
        return r;
    }
    let mut i: usize = 0;
    while i < items.len()
        invariant
            i <= items@.len(),
            r@ == items@.take(i as int),
        decreases items@.len() - i,
    {
        r.push(items[i]);
        assert(items@.take(i + 1) =~= items@.take(i as int).push(items@[i as int]));
        i = i + 1;
    }
    assert(items@.take(items@.len() as int) =~= items@);
    r
}

#[verifier::spinoff_prover]
fn apply_av_rules(db: &mut policydb, ss: &Vec<&str>, ts: &Vec<&str>, cs: &Vec<&str>, ps: &Vec<&str>, effect: u16, invert: bool)
    requires
        old(db).wf(),
    ensures
        final(db).wf(),
        final(db)@ == fold_rules(
            old(db)@,
            names_view(ss@),
            names_view(ts@),
            names_view(cs@),
            names_view(ps@),
            av_rule(effect, invert),
        ),
{
    let ghost step = av_rule(effect, invert);
    let ghost nss = names_view(ss@);
    let ghost nts = names_view(ts@);
    let ghost ncs = names_view(cs@);
    let ghost nps = names_view(ps@);
    let mut i: usize = 0;
    while i < ss.len()
        invariant
            i <= ss@.len(),
            db.wf(),
            step == av_rule(effect, invert),
            nss == names_view(ss@),
            nts == names_view(ts@),
            ncs == names_view(cs@),
            nps == names_view(ps@),
            db@ == fold_rules(old(db)@, nss.take(i as int), nts, ncs, nps, step),
        decreases ss@.len() - i,
    {
        let s = ss[i];
        assert(nss.take(i + 1).drop_last() =~= nss.take(i as int));
        assert(nss.take(i + 1).last() == s@);
        let ghost mid1 = db@;
        let mut j: usize = 0;
        while j < ts.len()
            invariant
                j <= ts@.len(),
                db.wf(),
                step == av_rule(effect, invert),
                nts == names_view(ts@),
                ncs == names_view(cs@),
                nps == names_view(ps@),
                db@ == fold_targets(mid1, s@, nts.take(j as int), ncs, nps, step),
            decreases ts@.len() - j,
        {
            let t = ts[j];
            assert(nts.take(j + 1).drop_last() =~= nts.take(j as int));
            assert(nts.take(j + 1).last() == t@);
            let ghost mid2 = db@;
            let mut k: usize = 0;
            while k < cs.len()
                invariant
                    k <= cs@.len(),
                    db.wf(),
                    step == av_rule(effect, invert),
                    ncs == names_view(cs@),
                    nps == names_view(ps@),
                    db@ == fold_classes(mid2, s@, t@, ncs.take(k as int), nps, step),
                decreases cs@.len() - k,
            {
                let c = cs[k];
                assert(ncs.take(k + 1).drop_last() =~= ncs.take(k as int));
                assert(ncs.take(k + 1).last() == c@);
                let ghost mid3 = db@;
                let mut l: usize = 0;
                while l < ps.len()
                    invariant
                        l <= ps@.len(),
                        db.wf(),
                        step == av_rule(effect, invert),
                        nps == names_view(ps@),
                        db@ == fold_perms(mid3, s@, t@, c@, nps.take(l as int), step),
                    decreases ps@.len() - l,
                {
                    let p = ps[l];
                    sepol_add_rule(db, s, t, c, p, effect, invert);
                    assert(nps.take(l + 1).drop_last() =~= nps.take(l as int));
                    assert(nps.take(l + 1).last() == p@);
                    l = l + 1;
                }
                assert(nps.take(ps@.len() as int) =~= nps);
                k = k + 1;
            }
            assert(ncs.take(cs@.len() as int) =~= ncs);
            j = j + 1;
        }
        assert(nts.take(ts@.len() as int) =~= nts);
        i = i + 1;
    }
    assert(nss.take(ss@.len() as int) =~= nss);
}

/// The line reported for an ioctl rule refused for the policy version.
fn version_note(v: u32) -> (r: String)
    ensures
        r@ == xp_version_note(v),
{
    let mut r = String::from_str("policy version ");
    push_decimal(&mut r, v);
    r.append(" does not support ioctl xperms rules");
    r
}

/// Reports the version refusal once for each rule of an expansion over
/// `ns` sources, `nt` targets, `nc` classes and `nx` ranges.
fn push_version_notes(out: &mut Vec<String>, ns: usize, nt: usize, nc: usize, nx: usize, v: u32)
    ensures
        lines_view(final(out)@) == lines_view(old(out)@) + notes_rules(
            xp_version_note(v),
            ns as nat,
            nt as nat,
            nc as nat,
            nx as nat,
        ),
{
    let ghost m = xp_version_note(v);
    let ghost base = lines_view(out@);
    let mut i: usize = 0;
    assert(lines_view(out@) =~= base + notes_rules(m, 0, nt as nat, nc as nat, nx as nat));
    while i < ns
        invariant
            i <= ns,
            m == xp_version_note(v),
            lines_view(out@) == base + notes_rules(m, i as nat, nt as nat, nc as nat, nx as nat),
        decreases ns - i,
    {
        let ghost b1 = lines_view(out@);
        let mut j: usize = 0;
        assert(lines_view(out@) =~= b1 + notes_targets(m, 0, nc as nat, nx as nat));
        while j < nt
            invariant
                j <= nt,
                m == xp_version_note(v),
                lines_view(out@) == b1 + notes_targets(m, j as nat, nc as nat, nx as nat),
            decreases nt - j,
        {
            let ghost b2 = lines_view(out@);
            let mut k: usize = 0;
            assert(lines_view(out@) =~= b2 + notes_classes(m, 0, nx as nat));
            while k < nc
                invariant
                    k <= nc,
                    m == xp_version_note(v),
                    lines_view(out@) == b2 + notes_classes(m, k as nat, nx as nat),
                decreases nc - k,
            {
                let ghost b3 = lines_view(out@);
                let mut l: usize = 0;
                assert(lines_view(out@) =~= b3 + repeated(m, 0));
                while l < nx
                    invariant
                        l <= nx,
                        m == xp_version_note(v),
                        lines_view(out@) == b3 + repeated(m, l as nat),
                    decreases nx - l,
                {
                    let ghost b4 = out@;
                    out.push(version_note(v));
                    assert(lines_view(out@) =~= lines_view(b4).push(m));
                    assert(repeated(m, (l + 1) as nat) == repeated(m, l as nat).push(m));
                    assert(lines_view(out@) =~= b3 + repeated(m, (l + 1) as nat));
                    l = l + 1;
                }
                assert(notes_classes(m, (k + 1) as nat, nx as nat) == notes_classes(m, k as nat, nx as nat) + repeated(m, nx as nat));
                assert(lines_view(out@) =~= b2 + notes_classes(m, (k + 1) as nat, nx as nat));
                k = k + 1;
            }
            assert(notes_targets(m, (j + 1) as nat, nc as nat, nx as nat) == notes_targets(m, j as nat, nc as nat, nx as nat) + notes_classes(m, nc as nat, nx as nat));
            assert(lines_view(out@) =~= b1 + notes_targets(m, (j + 1) as nat, nc as nat, nx as nat));
            j = j + 1;
        }
        assert(notes_rules(m, (i + 1) as nat, nt as nat, nc as nat, nx as nat) == notes_rules(m, i as nat, nt as nat, nc as nat, nx as nat) + notes_targets(m, nt as nat, nc as nat, nx as nat));
        assert(lines_view(out@) =~= base + notes_rules(m, (i + 1) as nat, nt as nat, nc as nat, nx as nat));
        i = i + 1;
    }
}

/// The line reported for a name-based type transition that names a type or
/// class that does not exist, if it does.
fn filename_trans_note(db: &policydb, s: &str, t: &str, c: &str, d: &str) -> (r: Vec<String>)
    ensures
        lines_view(r@) == filename_trans_notes(db@, s@, t@, c@, d@),
{
    let mut r: Vec<String> = Vec::new();
    if find_type(db, s).is_none() {
        let mut l = String::from_str("filename_trans: source type ");
        l.append(s);
        l.append(" does not exist");
        r.push(l);
    } else if find_type(db, t).is_none() {
        let mut l = String::from_str("filename_trans: target type ");
        l.append(t);
        l.append(" does not exist");
        r.push(l);
    } else if find_class(db, c).is_none() {
        let mut l = String::from_str("filename_trans: class ");
        l.append(c);
        l.append(" does not exist");
        r.push(l);
    } else if find_type(db, d).is_none() {
        let mut l = String::from_str("filename_trans: default type ");
        l.append(d);
        l.append(" does not exist");
        r.push(l);
    }
    assert(lines_view(r@) =~= filename_trans_notes(db@, s@, t@, c@, d@));
    r
}

/// The plan of a list of ioctl ranges; see `xp_plan`.
fn xperm_plan(p: &[Xperm]) -> (r: Vec<(Xperm, bool)>)
    ensures
        r@ == xp_plan(p@),
{
    let mut r: Vec<(Xperm, bool)> = Vec::new();
    let mut i: usize = 0;
    while i < p.len()
        invariant
            i <= p@.len(),
            r@ == p@.take(i as int).map(|k: int, x: Xperm| (x, x.reset && k > 0 && p@[k - 1].reset)),
        decreases p@.len() - i,
    {
        let exclude = p[i].reset && i > 0 && p[i - 1].reset;
        r.push((p[i], exclude));
        assert(r@ =~= p@.take(i + 1).map(|k: int, x: Xperm| (x, x.reset && k > 0 && p@[k - 1].reset)));
        i = i + 1;
    }
    assert(p@.take(p@.len() as int) =~= p@);
    r
}

#[verifier::spinoff_prover]
fn apply_xp_rules(db: &mut policydb, ss: &Vec<&str>, ts: &Vec<&str>, cs: &Vec<&str>, xs: &Vec<(Xperm, bool)>, effect: u16)
    requires
        old(db).wf(),
    ensures
        final(db).wf(),
        final(db)@ == fold_rules(
            old(db)@,
            names_view(ss@),
            names_view(ts@),
            names_view(cs@),
            xs@,
            xp_rule(effect),
        ),
{
    let ghost step = xp_rule(effect);
    let ghost nss = names_view(ss@);
    let ghost nts = names_view(ts@);
    let ghost ncs = names_view(cs@);
    let mut i: usize = 0;
    while i < ss.len()
        invariant
            i <= ss@.len(),
            db.wf(),
            step == xp_rule(effect),
            nss == names_view(ss@),
            nts == names_view(ts@),
            ncs == names_view(cs@),
            db@ == fold_rules(old(db)@, nss.take(i as int), nts, ncs, xs@, step),
        decreases ss@.len() - i,
    {
        let s = ss[i];
        assert(nss.take(i + 1).drop_last() =~= nss.take(i as int));
        assert(nss.take(i + 1).last() == s@);
        let ghost mid1 = db@;
        let mut j: usize = 0;
        while j < ts.len()
            invariant
                j <= ts@.len(),
                db.wf(),
                step == xp_rule(effect),
                nts == names_view(ts@),
                ncs == names_view(cs@),
                db@ == fold_targets(mid1, s@, nts.take(j as int), ncs, xs@, step),
            decreases ts@.len() - j,
        {
            let t = ts[j];
            assert(nts.take(j + 1).drop_last() =~= nts.take(j as int));
            assert(nts.take(j + 1).last() == t@);
            let ghost mid2 = db@;
            let mut k: usize = 0;
            while k < cs.len()
                invariant
                    k <= cs@.len(),
                    db.wf(),
                    step == xp_rule(effect),
                    ncs == names_view(cs@),
                    db@ == fold_classes(mid2, s@, t@, ncs.take(k as int), xs@, step),
                decreases cs@.len() - k,
            {
                let c = cs[k];
                assert(ncs.take(k + 1).drop_last() =~= ncs.take(k as int));
                assert(ncs.take(k + 1).last() == c@);
                let ghost mid3 = db@;
                let mut l: usize = 0;
                while l < xs.len()
                    invariant
                        l <= xs@.len(),
                        db.wf(),
                        step == xp_rule(effect),
                        db@ == fold_perms(mid3, s@, t@, c@, xs@.take(l as int), step),
                    decreases xs@.len() - l,
                {
                    let (x, exclude) = xs[l];
                    if exclude {
                        sepol_exclude_xperm_rule(db, s, t, c, x.low, x.high, effect);
                    } else {
                        sepol_add_xperm_rule(db, s, t, c, x.low, x.high, x.reset, effect);
                    }
                    assert(xs@[l as int] == (x, exclude));
                    assert(xs@.take(l + 1).drop_last() =~= xs@.take(l as int));
                    assert(xs@.take(l + 1).last() == (x, exclude));
                    l = l + 1;
                }
                assert(xs@.take(xs@.len() as int) =~= xs@);
                k = k + 1;
            }
            assert(ncs.take(cs@.len() as int) =~= ncs);
            j = j + 1;
        }
        assert(nts.take(ts@.len() as int) =~= nts);
        i = i + 1;
    }
    assert(nss.take(ss@.len() as int) =~= nss);
}

fn apply_states(db: &mut policydb, ts: &Vec<&str>, permissive: bool)
    requires
        old(db).wf(),
    ensures
        final(db).wf(),
        final(db)@ == fold_names(old(db)@, names_view(ts@), state_rule(permissive)),
{
    let ghost nts = names_view(ts@);
    let mut i: usize = 0;
    while i < ts.len()
        invariant
            i <= ts@.len(),
            db.wf(),
            nts == names_view(ts@),
            db@ == fold_names(old(db)@, nts.take(i as int), state_rule(permissive)),
        decreases ts@.len() - i,
    {
        let t = ts[i];
        sepol_set_type_state(db, t, permissive);
        assert(nts.take(i + 1).drop_last() =~= nts.take(i as int));
        assert(nts.take(i + 1).last() == t@);
        i = i + 1;
    }
    assert(nts.take(ts@.len() as int) =~= nts);
}

fn apply_joins(db: &mut policydb, t: &str, attrs: &[&str])
    requires
        old(db).wf(),
    ensures
        final(db).wf(),
        final(db)@ == fold_names(old(db)@, names_view(attrs@), join_rule(t@)),
{
    let ghost na = names_view(attrs@);
    let mut i: usize = 0;
    while i < attrs.len()
        invariant
            i <= attrs@.len(),
            db.wf(),
            na == names_view(attrs@),
            db@ == fold_names(old(db)@, na.take(i as int), join_rule(t@)),
        decreases attrs@.len() - i,
    {
        let a = attrs[i];
        sepol_add_typeattribute(db, t, a);
        assert(na.take(i + 1).drop_last() =~= na.take(i as int));
        assert(na.take(i + 1).last() == a@);
        i = i + 1;
    }
    assert(na.take(attrs@.len() as int) =~= na);
}

/// A well-formed database whose table has the statements' shape is valid.
proof fn lemma_wf_valid(db: policydb)
    requires
        db.wf(),
        shaped(db@),
    ensures
        policy_valid(db@),
{
    let cs = db@.classes;
    assert forall|i: int, j: int|
        0 <= i < cs.len() && 0 <= j < cs[i].permissions.len() implies 1 <= (
        #[trigger] cs[i].permissions[j]).1 <= 32 by {
        assert(cs[i] == db.classes@[i]@);
        assert(cs[i].permissions[j].1 == db.classes@[i].permissions@[j].s.value);
    }
    assert forall|i: int, j: int|
        0 <= i < cs.len() && 0 <= j < cs[i].common_permissions.len() implies 1 <= (
        #[trigger] cs[i].common_permissions[j]).1 <= 32 by {
        assert(cs[i] == db.classes@[i]@);
        assert(cs[i].common_permissions[j].1 == db.classes@[i].common_permissions@[j].s.value);
    }
}

// ---- the policy ----

/// Main SELinux policy structure: the policy database, and the refusals
/// reported by the operations and not yet taken (`take_notes`).
pub struct SePolicy {
    db: policydb,
    notes: Vec<String>,
}

/// An operation the policy cannot carry out.
#[derive(Debug, Clone, Copy, PartialEq, Eq, Structural)]
pub enum PolicyError {
    /// The operation needs a policy compiler that is not available.
    Unsupported,
}

impl PolicyError {
    /// The message that describes the error.
    pub fn to_text(&self) -> (r: String)
        ensures
            r@ == "CIL compilation not implemented"@,
    {
        String::from_str("CIL compilation not implemented")
    }
}

impl View for SePolicy {
    type V = PolicyView;

    closed spec fn view(&self) -> PolicyView {
        self.db@
    }
}

impl SePolicy {
    #[verifier::type_invariant]
    spec fn inv(self) -> bool {
        self.db.wf() && shaped(self.db@)
    }

    /// The refusals reported and not yet taken, one line each, as the
    /// policy tools write them on standard error.
    pub closed spec fn notes(&self) -> Seq<Seq<char>> {
        lines_view(self.notes@)
    }

    /// Takes the refusals reported so far.
    pub fn take_notes(&mut self) -> (n: Vec<String>)
        ensures
            lines_view(n@) == old(self).notes(),
            final(self).notes() == Seq::<Seq<char>>::empty(),
            final(self)@ == old(self)@,
    {
        proof {
            use_type_invariant(&*self);
        }
        let mut n: Vec<String> = Vec::new();
        std::mem::swap(&mut n, &mut self.notes);
        assert(lines_view(self.notes@) =~= Seq::<Seq<char>>::empty());
        n
    }

    /// Puts refusals back as the ones reported so far.
    pub(crate) fn set_notes(&mut self, n: Vec<String>)
        ensures
            final(self).notes() == lines_view(n@),
            final(self)@ == old(self)@,
    {
        proof {
            use_type_invariant(&*self);
        }
        self.notes = n;
    }

    /// Reports refusals after those reported so far.
    fn add_notes(&mut self, n: Vec<String>)
        ensures
            final(self).notes() == old(self).notes() + lines_view(n@),
            final(self)@ == old(self)@,
    {
        proof {
            use_type_invariant(&*self);
        }
        let ghost added = n@;
        let mut n = n;
        let mut cur: Vec<String> = Vec::new();
        std::mem::swap(&mut cur, &mut self.notes);
        let ghost before = cur@;
        cur.append(&mut n);
        self.notes = cur;
        assert(lines_view(self.notes@) =~= lines_view(before) + lines_view(added));
    }

    fn take_db(&mut self) -> (db: policydb)
        ensures
            db.wf(),
            shaped(db@),
            db@ == old(self)@,
            final(self).notes() == old(self).notes(),
    {
        proof {
            use_type_invariant(&*self);
        }
        let mut db = sepol_db_new(0);
        std::mem::swap(&mut db, &mut self.db);
        db
    }

    fn put_db(&mut self, db: policydb)
        requires
            db.wf(),
            shaped(db@),
        ensures
            final(self)@ == db@,
            final(self).notes() == old(self).notes(),
    {
        self.db = db;
    }

    /// An empty policy of the given version.
    pub fn new(policyvers: u32) -> (p: Self)
        ensures
            p@ == empty_policy(policyvers),
            policy_valid(p@),
            p.notes() == Seq::<Seq<char>>::empty(),
    {
        let notes: Vec<String> = Vec::new();
        assert(lines_view(notes@) =~= Seq::<Seq<char>>::empty());
        SePolicy { db: sepol_db_new(policyvers), notes }
    }

    /// Load policy from split CIL policies: there is no CIL compiler, so
    /// this always fails.
    pub fn from_split() -> (r: Result<Self, PolicyError>)
        ensures
            r matches Err(e) && e == PolicyError::Unsupported,
    {
        Err(PolicyError::Unsupported)
    }

    /// Compile split CIL policies: there is no CIL compiler, so this
    /// always fails.
    pub fn compile_split() -> (r: Result<Self, PolicyError>)
        ensures
            r matches Err(e) && e == PolicyError::Unsupported,
    {
        Err(PolicyError::Unsupported)
    }

    /// Declares a class with its permissions, valued 1, 2, ... in order.
    /// Returns false, changing nothing, when the class exists, the class
    /// table is full or there are more than 32 permissions.
    pub fn add_class(&mut self, name: &str, perms: &[&str]) -> (ok: bool)
        ensures
            final(self).notes() == old(self).notes(),
            ok == add_class_result(old(self)@, name@, names_view(perms@)) is Some,
            final(self)@ == or_same(add_class_result(old(self)@, name@, names_view(perms@)), old(self)@),
            policy_valid(final(self)@),
    {
        let mut db = self.take_db();
        let ok = sepol_add_class(&mut db, name, perms);
        self.put_db(db);
        proof {
            use_type_invariant(&*self);
            lemma_wf_valid(self.db);
        }
        ok
    }

    /// Declares a role. Returns false, changing nothing, when it exists or
    /// the role table is full.
    pub fn add_role(&mut self, name: &str) -> (ok: bool)
        ensures
            final(self).notes() == old(self).notes(),
            ok == add_role_result(old(self)@, name@) is Some,
            final(self)@ == or_same(add_role_result(old(self)@, name@), old(self)@),
            policy_valid(final(self)@),
    {
        let mut db = self.take_db();
        let ok = sepol_add_role(&mut db, name);
        self.put_db(db);
        proof {
            use_type_invariant(&*self);
            lemma_wf_valid(self.db);
        }
        ok
    }

    /// Declares a user. Returns false, changing nothing, when it exists or
    /// the user table is full.
    pub fn add_user(&mut self, name: &str) -> (ok: bool)
        ensures
            final(self).notes() == old(self).notes(),
            ok == add_user_result(old(self)@, name@) is Some,
            final(self)@ == or_same(add_user_result(old(self)@, name@), old(self)@),
            policy_valid(final(self)@),
    {
        let mut db = self.take_db();
        let ok = sepol_add_user(&mut db, name);
        self.put_db(db);
        proof {
            use_type_invariant(&*self);
            lemma_wf_valid(self.db);
        }
        ok
    }

    fn av_rules(&mut self, s: &[&str], t: &[&str], c: &[&str], p: &[&str], effect: u16, invert: bool)
        requires
            !is_xperm_kind(effect),
        ensures
            final(self).notes() == old(self).notes(),
            final(self)@ == fold_rules(
                old(self)@,
                wildcard(names_view(s@)),
                wildcard(names_view(t@)),
                wildcard(names_view(c@)),
                wildcard(names_view(p@)),
                av_rule(effect, invert),
            ),
    {
        let ss = expand_wildcard(s);
        let ts = expand_wildcard(t);
        let cs = expand_wildcard(c);
        let ps = expand_wildcard(p);
        let mut db = self.take_db();
        let ghost before = db@;
        apply_av_rules(&mut db, &ss, &ts, &cs, &ps, effect, invert);
        proof {
            lemma_av_step_shape(effect, invert);
            lemma_fold_rules_keeps(
                before,
                names_view(ss@),
                names_view(ts@),
                names_view(cs@),
                names_view(ps@),
                av_rule(effect, invert),
                |d: PolicyView| shaped(d),
            );
        }
        self.put_db(db);
    }

    fn xp_rules(&mut self, s: &[&str], t: &[&str], c: &[&str], p: &[Xperm], effect: u16)
        requires
            is_xperm_kind(effect),
        ensures
            final(self)@ == fold_rules(
                old(self)@,
                wildcard(names_view(s@)),
                wildcard(names_view(t@)),
                wildcard(names_view(c@)),
                xp_plan(p@),
                xp_rule(effect),
            ),
            final(self).notes() == old(self).notes() + xp_notes(
                old(self)@,
                wildcard(names_view(s@)),
                wildcard(names_view(t@)),
                wildcard(names_view(c@)),
                p@.len(),
            ),
    {
        let ss = expand_wildcard(s);
        let ts = expand_wildcard(t);
        let cs = expand_wildcard(c);
        let plan = xperm_plan(p);
        let mut db = self.take_db();
        let ghost before = db@;
        let mut notes: Vec<String> = Vec::new();
        if db.policyvers < POLICYDB_VERSION_XPERMS_IOCTL {
            push_version_notes(&mut notes, ss.len(), ts.len(), cs.len(), p.len(), db.policyvers);
        }
        assert(lines_view(notes@) =~= xp_notes(before, names_view(ss@), names_view(ts@), names_view(cs@), p@.len()));
        apply_xp_rules(&mut db, &ss, &ts, &cs, &plan, effect);
        proof {
            lemma_xp_step_shape(effect);
            lemma_fold_rules_keeps(
                before,
                names_view(ss@),
                names_view(ts@),
                names_view(cs@),
                xp_plan(p@),
                xp_rule(effect),
                |d: PolicyView| shaped(d),
            );
        }
        self.put_db(db);
        self.add_notes(notes);
    }

    /// Add an allow rule: every source, target, class and permission
    /// (sources outermost), an empty list matching everything.
    pub fn allow(&mut self, s: &[&str], t: &[&str], c: &[&str], p: &[&str])
        requires
            c_names(names_view(s@)),
            c_names(names_view(t@)),
            c_names(names_view(c@)),
            c_names(names_view(p@)),
        ensures
            final(self).notes() == old(self).notes(),
            final(self)@ == fold_rules(
                old(self)@,
                wildcard(names_view(s@)),
                wildcard(names_view(t@)),
                wildcard(names_view(c@)),
                wildcard(names_view(p@)),
                av_rule(AVTAB_ALLOWED, false),
            ),
            policy_valid(final(self)@),
    {
        self.av_rules(s, t, c, p, AVTAB_ALLOWED, false);
        proof {
            use_type_invariant(&*self);
            lemma_wf_valid(self.db);
        }
    }

    /// Add a deny rule: the permissions are taken away from allow rules.
    pub fn deny(&mut self, s: &[&str], t: &[&str], c: &[&str], p: &[&str])
        requires
            c_names(names_view(s@)),
            c_names(names_view(t@)),
            c_names(names_view(c@)),
            c_names(names_view(p@)),
        ensures
            final(self).notes() == old(self).notes(),
            final(self)@ == fold_rules(
                old(self)@,
                wildcard(names_view(s@)),
                wildcard(names_view(t@)),
                wildcard(names_view(c@)),
                wildcard(names_view(p@)),
                av_rule(AVTAB_ALLOWED, true),
            ),
            policy_valid(final(self)@),
    {
        self.av_rules(s, t, c, p, AVTAB_ALLOWED, true);
        proof {
            use_type_invariant(&*self);
            lemma_wf_valid(self.db);
        }
    }

    /// Add an auditallow rule.
    pub fn auditallow(&mut self, s: &[&str], t: &[&str], c: &[&str], p: &[&str])
        requires
            c_names(names_view(s@)),
            c_names(names_view(t@)),
            c_names(names_view(c@)),
            c_names(names_view(p@)),
        ensures
            final(self).notes() == old(self).notes(),
            final(self)@ == fold_rules(
                old(self)@,
                wildcard(names_view(s@)),
                wildcard(names_view(t@)),
                wildcard(names_view(c@)),
                wildcard(names_view(p@)),
                av_rule(AVTAB_AUDITALLOW, false),
            ),
            policy_valid(final(self)@),
    {
        self.av_rules(s, t, c, p, AVTAB_AUDITALLOW, false);
        proof {
            use_type_invariant(&*self);
            lemma_wf_valid(self.db);
        }
    }

    /// Add a dontaudit rule: the permissions are taken out of the audited
    /// set.
    pub fn dontaudit(&mut self, s: &[&str], t: &[&str], c: &[&str], p: &[&str])
        requires
            c_names(names_view(s@)),
            c_names(names_view(t@)),
            c_names(names_view(c@)),
            c_names(names_view(p@)),
        ensures
            final(self).notes() == old(self).notes(),
            final(self)@ == fold_rules(
                old(self)@,
                wildcard(names_view(s@)),
                wildcard(names_view(t@)),
                wildcard(names_view(c@)),
                wildcard(names_view(p@)),
                av_rule(AVTAB_AUDITDENY, true),
            ),
            policy_valid(final(self)@),
    {
        self.av_rules(s, t, c, p, AVTAB_AUDITDENY, true);
        proof {
            use_type_invariant(&*self);
            lemma_wf_valid(self.db);
        }
    }

    /// Add allowxperm rules for the ioctl ranges of `p`, as `xp_plan` orders
    /// them: in order, a run of complement ranges giving every command
    /// except those it lists, a plain range adding its commands. On a
    /// policy version that predates ioctl rules each rule is reported.
    pub fn allowxperm(&mut self, s: &[&str], t: &[&str], c: &[&str], p: &[Xperm])
        requires
            c_names(names_view(s@)),
            c_names(names_view(t@)),
            c_names(names_view(c@)),
        ensures
            final(self)@ == fold_rules(
                old(self)@,
                wildcard(names_view(s@)),
                wildcard(names_view(t@)),
                wildcard(names_view(c@)),
                xp_plan(p@),
                xp_rule(AVTAB_XPERMS_ALLOWED),
            ),
            policy_valid(final(self)@),
            final(self).notes() == old(self).notes() + xp_notes(
                old(self)@,
                wildcard(names_view(s@)),
                wildcard(names_view(t@)),
                wildcard(names_view(c@)),
                p@.len(),
            ),
    {
        self.xp_rules(s, t, c, p, AVTAB_XPERMS_ALLOWED);
        proof {
            use_type_invariant(&*self);
            lemma_wf_valid(self.db);
        }
    }

    /// Add auditallowxperm rules for the ioctl ranges of `p`, as `xp_plan` orders
    /// them: in order, a run of complement ranges giving every command
    /// except those it lists, a plain range adding its commands. On a
    /// policy version that predates ioctl rules each rule is reported.
    pub fn auditallowxperm(&mut self, s: &[&str], t: &[&str], c: &[&str], p: &[Xperm])
        requires
            c_names(names_view(s@)),
            c_names(names_view(t@)),
            c_names(names_view(c@)),
        ensures
            final(self)@ == fold_rules(
                old(self)@,
                wildcard(names_view(s@)),
                wildcard(names_view(t@)),
                wildcard(names_view(c@)),
                xp_plan(p@),
                xp_rule(AVTAB_XPERMS_AUDITALLOW),
            ),
            policy_valid(final(self)@),
            final(self).notes() == old(self).notes() + xp_notes(
                old(self)@,
                wildcard(names_view(s@)),
                wildcard(names_view(t@)),
                wildcard(names_view(c@)),
                p@.len(),
            ),
    {
        self.xp_rules(s, t, c, p, AVTAB_XPERMS_AUDITALLOW);
        proof {
            use_type_invariant(&*self);
            lemma_wf_valid(self.db);
        }
    }

    /// Add dontauditxperm rules for the ioctl ranges of `p`, as `xp_plan` orders
    /// them: in order, a run of complement ranges giving every command
    /// except those it lists, a plain range adding its commands. On a
    /// policy version that predates ioctl rules each rule is reported.
    pub fn dontauditxperm(&mut self, s: &[&str], t: &[&str], c: &[&str], p: &[Xperm])
        requires
            c_names(names_view(s@)),
            c_names(names_view(t@)),
            c_names(names_view(c@)),
        ensures
            final(self)@ == fold_rules(
                old(self)@,
                wildcard(names_view(s@)),
                wildcard(names_view(t@)),
                wildcard(names_view(c@)),
                xp_plan(p@),
                xp_rule(AVTAB_XPERMS_DONTAUDIT),
            ),
            policy_valid(final(self)@),
            final(self).notes() == old(self).notes() + xp_notes(
                old(self)@,
                wildcard(names_view(s@)),
                wildcard(names_view(t@)),
                wildcard(names_view(c@)),
                p@.len(),
            ),
    {
        self.xp_rules(s, t, c, p, AVTAB_XPERMS_DONTAUDIT);
        proof {
            use_type_invariant(&*self);
            lemma_wf_valid(self.db);
        }
    }

    /// Make types permissive; an empty list means every type.
    pub fn permissive(&mut self, types: &[&str])
        requires
            c_names(names_view(types@)),
        ensures
            final(self).notes() == old(self).notes(),
            final(self)@ == fold_names(old(self)@, wildcard(names_view(types@)), state_rule(true)),
            policy_valid(final(self)@),
    {
        let ts = expand_wildcard(types);
        let mut db = self.take_db();
        let ghost before = db@;
        apply_states(&mut db, &ts, true);
        proof {
            lemma_fold_names_keeps(before, names_view(ts@), state_rule(true), |d: PolicyView| shaped(d));
        }
        self.put_db(db);
        proof {
            use_type_invariant(&*self);
            lemma_wf_valid(self.db);
        }
    }

    /// Make types enforcing; an empty list means every type.
    pub fn enforce(&mut self, types: &[&str])
        requires
            c_names(names_view(types@)),
        ensures
            final(self).notes() == old(self).notes(),
            final(self)@ == fold_names(old(self)@, wildcard(names_view(types@)), state_rule(false)),
            policy_valid(final(self)@),
    {
        let ts = expand_wildcard(types);
        let mut db = self.take_db();
        let ghost before = db@;
        apply_states(&mut db, &ts, false);
        proof {
            lemma_fold_names_keeps(before, names_view(ts@), state_rule(false), |d: PolicyView| shaped(d));
        }
        self.put_db(db);
        proof {
            use_type_invariant(&*self);
            lemma_wf_valid(self.db);
        }
    }

    /// Add every type of `types` to every attribute of `attrs`.
    pub fn typeattribute(&mut self, types: &[&str], attrs: &[&str])
        requires
            c_names(names_view(types@)),
            c_names(names_view(attrs@)),
        ensures
            final(self).notes() == old(self).notes(),
            final(self)@ == fold_joins(old(self)@, names_view(types@), names_view(attrs@)),
            policy_valid(final(self)@),
    {
        let ghost nts = names_view(types@);
        let ghost na = names_view(attrs@);
        let mut db = self.take_db();
        let mut i: usize = 0;
        while i < types.len()
            invariant
                i <= types@.len(),
                db.wf(),
                shaped(db@),
                nts == names_view(types@),
                na == names_view(attrs@),
                db@ == fold_joins(old(self)@, nts.take(i as int), na),
            decreases types@.len() - i,
        {
            let t = types[i];
            let ghost before = db@;
            apply_joins(&mut db, t, attrs);
            proof {
                lemma_fold_names_keeps(before, names_view(attrs@), join_rule(t@), |d: PolicyView| shaped(d));
            }
            assert(nts.take(i + 1).drop_last() =~= nts.take(i as int));
            assert(nts.take(i + 1).last() == t@);
            i = i + 1;
        }
        assert(nts.take(types@.len() as int) =~= nts);
        self.put_db(db);
        proof {
            use_type_invariant(&*self);
            lemma_wf_valid(self.db);
        }
    }

    /// Create a new type and add it to the attributes `attrs`.
    pub fn type_(&mut self, name: &str, attrs: &[&str])
        requires
            c_name(name@),
            c_names(names_view(attrs@)),
        ensures
            final(self).notes() == old(self).notes(),
            final(self)@ == new_type_step(old(self)@, name@, names_view(attrs@)),
            policy_valid(final(self)@),
    {
        let mut db = self.take_db();
        sepol_add_type(&mut db, name, TYPE_TYPE);
        let ghost before = db@;
        apply_joins(&mut db, name, attrs);
        proof {
            lemma_fold_names_keeps(before, names_view(attrs@), join_rule(name@), |d: PolicyView| shaped(d));
        }
        self.put_db(db);
        proof {
            use_type_invariant(&*self);
            lemma_wf_valid(self.db);
        }
    }

    /// Create a new attribute.
    pub fn attribute(&mut self, name: &str)
        requires
            c_name(name@),
        ensures
            final(self).notes() == old(self).notes(),
            final(self)@ == new_attr_step(old(self)@, name@),
            policy_valid(final(self)@),
    {
        let mut db = self.take_db();
        sepol_add_type(&mut db, name, TYPE_ATTRIB);
        self.put_db(db);
        proof {
            use_type_invariant(&*self);
            lemma_wf_valid(self.db);
        }
    }

    /// Add a type_transition rule; with an object name `o`, a name-based
    /// one, which reports the first of its names that does not exist.
    pub fn type_transition(&mut self, s: &str, t: &str, c: &str, d: &str, o: &str)
        requires
            c_name(s@),
            c_name(t@),
            c_name(c@),
            c_name(d@),
            c_name(o@),
        ensures
            final(self)@ == type_transition_step(old(self)@, s@, t@, c@, d@, o@),
            policy_valid(final(self)@),
            final(self).notes() == old(self).notes() + type_transition_notes(
                old(self)@,
                s@,
                t@,
                c@,
                d@,
                o@,
            ),
    {
        let notes = if o.unicode_len() == 0 {
            let e: Vec<String> = Vec::new();
            assert(lines_view(e@) =~= Seq::<Seq<char>>::empty());
            e
        } else {
            filename_trans_note(&self.db, s, t, c, d)
        };
        let mut db = self.take_db();
        proof {
            lemma_type_rule_shape(db@, s@, t@, c@, d@, AVTAB_TRANSITION);
        }
        if o.unicode_len() == 0 {
            sepol_add_type_rule(&mut db, s, t, c, d, AVTAB_TRANSITION);
        } else {
            sepol_add_filename_trans(&mut db, s, t, c, d, o);
        }
        self.put_db(db);
        proof {
            use_type_invariant(&*self);
            lemma_wf_valid(self.db);
        }
        self.add_notes(notes);
    }

    /// Add a type_change rule.
    pub fn type_change(&mut self, s: &str, t: &str, c: &str, d: &str)
        requires
            c_name(s@),
            c_name(t@),
            c_name(c@),
            c_name(d@),
        ensures
            final(self).notes() == old(self).notes(),
            final(self)@ == type_rule_step(old(self)@, s@, t@, c@, d@, AVTAB_CHANGE),
            policy_valid(final(self)@),
    {
        let mut db = self.take_db();
        proof {
            lemma_type_rule_shape(db@, s@, t@, c@, d@, AVTAB_CHANGE);
        }
        sepol_add_type_rule(&mut db, s, t, c, d, AVTAB_CHANGE);
        self.put_db(db);
        proof {
            use_type_invariant(&*self);
            lemma_wf_valid(self.db);
        }
    }

    /// Add a type_member rule.
    pub fn type_member(&mut self, s: &str, t: &str, c: &str, d: &str)
        requires
            c_name(s@),
            c_name(t@),
            c_name(c@),
            c_name(d@),
        ensures
            final(self).notes() == old(self).notes(),
            final(self)@ == type_rule_step(old(self)@, s@, t@, c@, d@, AVTAB_MEMBER),
            policy_valid(final(self)@),
    {
        let mut db = self.take_db();
        proof {
            lemma_type_rule_shape(db@, s@, t@, c@, d@, AVTAB_MEMBER);
        }
        sepol_add_type_rule(&mut db, s, t, c, d, AVTAB_MEMBER);
        self.put_db(db);
        proof {
            use_type_invariant(&*self);
            lemma_wf_valid(self.db);
        }
    }

    /// Load and parse rules from a string, one statement per line; returns
    /// the diagnostics of the lines that do not parse.
    pub fn load_rules(&mut self, rules: &str) -> (diag: Vec<String>)
        requires
            rules_c_names(rules@),
        ensures
            (final(self)@, lines_view(diag@)) == lines_result(old(self)@, text_lines(rules@)),
            policy_valid(final(self)@),
            final(self).notes() == old(self).notes(),
    {
        let diag = parse_rules(self, rules);
        proof {
            use_type_invariant(&*self);
            lemma_wf_valid(self.db);
        }
        diag
    }

    /// All rules in the policy, as statement lines: the attributes, the
    /// types, the access vector rules, the name-based transitions and the
    /// file system contexts.
    pub fn print_rules(&self) -> (lines: Vec<String>)
        ensures
            lines_view(lines@) == rules_text(self@),
    {
        proof {
            use_type_invariant(self);
        }
        let mut lines = sepol_print_types(&self.db, true);
        let mut more = sepol_print_types(&self.db, false);
        proof {
            lemma_lines_view_concat(lines@, more@);
        }
        lines.append(&mut more);
        let mut more = sepol_print_avtab_rules(&self.db);
        proof {
            lemma_lines_view_concat(lines@, more@);
        }
        lines.append(&mut more);
        let mut more = sepol_print_filename_trans(&self.db);
        proof {
            lemma_lines_view_concat(lines@, more@);
        }
        lines.append(&mut more);
        let mut more = sepol_print_genfscon(&self.db);
        proof {
            lemma_lines_view_concat(lines@, more@);
        }
        lines.append(&mut more);
        lines
    }

    /// Add a genfscon rule; a context that does not parse is reported.
    pub fn genfscon(&mut self, fs: &str, path: &str, ctx: &str)
        requires
            c_name(fs@),
            c_name(path@),
            c_name(ctx@),
        ensures
            final(self)@ == genfscon_step(old(self)@, fs@, path@, ctx@),
            policy_valid(final(self)@),
            final(self).notes() == old(self).notes() + genfscon_notes(old(self)@, ctx@),
    {
        let mut notes: Vec<String> = Vec::new();
        if context_from_string(&self.db, ctx).is_none() {
            let mut l = String::from_str("genfscon: failed to parse context '");
            l.append(ctx);
            l.append("'");
            notes.push(l);
        }
        assert(lines_view(notes@) =~= genfscon_notes(self@, ctx@));
        let mut db = self.take_db();
        sepol_add_genfscon(&mut db, fs, path, ctx);
        self.put_db(db);
        proof {
            use_type_invariant(&*self);
            lemma_wf_valid(self.db);
        }
        self.add_notes(notes);
    }
}

} // verus!
