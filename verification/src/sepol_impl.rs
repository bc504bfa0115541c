//! The operations on the policy database: looking symbols up, adding
//! access vector, extended permission and type rules, types, attributes,
//! name-based transitions and file system contexts.

#![allow(non_camel_case_types)]

use vstd::prelude::*;

use crate::sepol::{
    avtab_datum, avtab_extended_perms, avtab_key, avtab_node, avtab_view, class_datum, ebitmap,
    filename_trans_chain, filename_trans_datum, filename_trans_key, filename_trans_view, perm_bits,
    perm_datum, perms_view, policydb, type_datum, word_bit, xperms_kinds, xperms_unique, xperms_words_wf,
    AvNode, FtChainView, FtDatumView, XpermsView, bitmaps_view, classes_view, constraint_expr,
    constraint_node, roles_view, role_datum, symtab_datum, type_set, types_view, ClassView,
    ConstraintView, ExprView, RoleView, TypeSetView, TypeView, CEXPR_NAMES, context_struct, genfs,
    genfs_view, ocontext, user_datum, users_view, ContextView, GenfsView, PolicyView, AVTAB_AUDITDENY, AVTAB_XPERMS_IOCTLDRIVER,
    AVTAB_XPERMS_IOCTLFUNCTION, POLICYDB_VERSION_XPERMS_IOCTL, TYPE_ATTRIB,
};
use crate::seqs::{find_first, lemma_find_first, lemma_find_first_at, lemma_find_first_none};
use crate::lexer::{find_char, find_char_exec, lemma_find_char};
use crate::token::str_equals;

verus! {

// ---- ebitmap ----

impl ebitmap {
    /// An empty bitmap.
    pub fn new() -> (e: Self)
        ensures
            e@ == Set::<u32>::empty(),
    {
        let e = ebitmap { bits: Vec::new() };
        assert(e@ =~= Set::<u32>::empty());
        e
    }

    /// Whether `bit` is on.
    pub fn get_bit(&self, bit: u32) -> (b: bool)
        ensures
            b == self@.contains(bit),
    {
        let mut i: usize = 0;
        while i < self.bits.len()
            invariant
                i <= self.bits@.len(),
                forall|j: int| 0 <= j < i ==> self.bits@[j] != bit,
            decreases self.bits@.len() - i,
        {
            if self.bits[i] == bit {
                assert(self.bits@.contains(bit));
                return true;
            }
            i = i + 1;
        }
        false
    }

    /// Turns `bit` on or off.
    pub fn set_bit(&mut self, bit: u32, value: bool)
        ensures
            final(self)@ == (if value {
                old(self)@.insert(bit)
            } else {
                old(self)@.remove(bit)
            }),
    {
        if value {
            if !self.get_bit(bit) {
                self.bits.push(bit);
                assert forall|x: u32| #[trigger] self@.contains(x) == old(self)@.insert(bit).contains(
                    x,
                ) by {
                    if old(self).bits@.contains(x) {
                        let k = choose|k: int|
                            0 <= k < old(self).bits@.len() && #[trigger] old(self).bits@[k] == x;
                        assert(self.bits@[k] == x);
                    }
                    if x == bit {
                        assert(self.bits@[self.bits@.len() - 1] == x);
                    }
                    if self.bits@.contains(x) && x != bit {
                        let k = choose|k: int|
                            0 <= k < self.bits@.len() && #[trigger] self.bits@[k] == x;
                        assert(old(self).bits@[k] == x);
                    }
                }
                assert(self@ =~= old(self)@.insert(bit));
            } else {
                assert(self@ =~= old(self)@.insert(bit));
            }
        } else {
            let mut kept: Vec<u32> = Vec::new();
            let mut i: usize = 0;
            while i < self.bits.len()
                invariant
                    i <= self.bits@.len(),
                    self.bits == old(self).bits,
                    forall|x: u32|
                        #[trigger] kept@.contains(x) <==> (x != bit && self.bits@.take(
                            i as int,
                        ).contains(x)),
                decreases self.bits@.len() - i,
            {
                let b = self.bits[i];
                assert forall|x: u32| #[trigger]
                    self.bits@.take(i + 1).contains(x) <==> (self.bits@.take(i as int).contains(x)
                        || x == b) by {
                    if self.bits@.take(i + 1).contains(x) {
                        let k = choose|k: int|
                            0 <= k < i + 1 && #[trigger] self.bits@.take(i + 1)[k] == x;
                        if k < i {
                            assert(self.bits@.take(i as int)[k] == x);
                        }
                    }
                    if self.bits@.take(i as int).contains(x) {
                        let k = choose|k: int|
                            0 <= k < i && #[trigger] self.bits@.take(i as int)[k] == x;
                        assert(self.bits@.take(i + 1)[k] == x);
                    }
                    if x == b {
                        assert(self.bits@.take(i + 1)[i as int] == x);
                    }
                }
                if b != bit {
                    let ghost before = kept@;
                    kept.push(b);
                    assert forall|x: u32| #[trigger]
                        kept@.contains(x) <==> (before.contains(x) || x == b) by {
                        if kept@.contains(x) {
                            let k = choose|k: int| 0 <= k < kept@.len() && #[trigger] kept@[k] == x;
                            if k < before.len() {
                                assert(before[k] == x);
                            }
                        }
                        if before.contains(x) {
                            let k = choose|k: int| 0 <= k < before.len() && #[trigger] before[k] == x;
                            assert(kept@[k] == x);
                        }
                        if x == b {
                            assert(kept@[kept@.len() - 1] == x);
                        }
                    }
                }
                i = i + 1;
            }
            assert(self.bits@.take(self.bits@.len() as int) =~= self.bits@);
            self.bits = kept;
            assert(self@ =~= old(self)@.remove(bit));
        }
    }
}

// ---- symbol lookup ----

/// The index of the type named `name`.
pub open spec fn type_lookup(types: Seq<TypeView>, name: Seq<char>) -> Option<int> {
    find_first(types, |t: TypeView| t.name == name)
}

/// The index of the class named `name`.
pub open spec fn class_lookup(classes: Seq<ClassView>, name: Seq<char>) -> Option<int> {
    find_first(classes, |c: ClassView| c.name == name)
}

/// Whether a permission is named `name`.
pub open spec fn perm_named(name: Seq<char>) -> spec_fn((Seq<char>, u32)) -> bool {
    |p: (Seq<char>, u32)| p.0 == name
}

/// The index of the permission named `name`.
pub open spec fn perm_lookup(perms: Seq<(Seq<char>, u32)>, name: Seq<char>) -> Option<int> {
    find_first(perms, perm_named(name))
}

/// The value of the permission `name` of a class: its own permissions
/// first, then the common ones.
pub open spec fn perm_value(cls: ClassView, name: Seq<char>) -> Option<u32> {
    match perm_lookup(cls.permissions, name) {
        Some(i) => Some(cls.permissions[i].1),
        None => match perm_lookup(cls.common_permissions, name) {
            Some(j) => Some(cls.common_permissions[j].1),
            None => None,
        },
    }
}

/// Finds a type by name.
pub fn find_type(db: &policydb, name: &str) -> (r: Option<usize>)
    ensures
        r matches Some(i) ==> type_lookup(types_view(db.types@), name@) == Some(i as int),
        r is None ==> type_lookup(types_view(db.types@), name@) is None,
{
    let ghost pred = |t: TypeView| t.name == name@;
    let ghost v = types_view(db.types@);
    let mut i: usize = 0;
    while i < db.types.len()
        invariant
            i <= db.types@.len(),
            v == types_view(db.types@),
            pred == (|t: TypeView| t.name == name@),
            forall|j: int| 0 <= j < i ==> !pred(#[trigger] v[j]),
        decreases db.types@.len() - i,
    {
        assert(v[i as int] == db.types@[i as int]@);
        if str_equals(db.types[i].name.as_str(), name) {
            proof {
                lemma_find_first_at(v, pred, i as int);
            }
            return Some(i);
        }
        i = i + 1;
    }
    proof {
        lemma_find_first_none(v, pred);
    }
    None
}

/// Finds a class by name.
pub fn find_class(db: &policydb, name: &str) -> (r: Option<usize>)
    ensures
        r matches Some(i) ==> class_lookup(classes_view(db.classes@), name@) == Some(i as int),
        r is None ==> class_lookup(classes_view(db.classes@), name@) is None,
{
    let ghost pred = |c: ClassView| c.name == name@;
    let ghost v = classes_view(db.classes@);
    let mut i: usize = 0;
    while i < db.classes.len()
        invariant
            i <= db.classes@.len(),
            v == classes_view(db.classes@),
            pred == (|c: ClassView| c.name == name@),
            forall|j: int| 0 <= j < i ==> !pred(#[trigger] v[j]),
        decreases db.classes@.len() - i,
    {
        assert(v[i as int] == db.classes@[i as int]@);
        if str_equals(db.classes[i].name.as_str(), name) {
            proof {
                lemma_find_first_at(v, pred, i as int);
            }
            return Some(i);
        }
        i = i + 1;
    }
    proof {
        lemma_find_first_none(v, pred);
    }
    None
}

fn find_perm_in(perms: &Vec<perm_datum>, name: &str) -> (r: Option<usize>)
    ensures
        r matches Some(i) ==> perm_lookup(perms_view(perms@), name@) == Some(i as int) && i
            < perms@.len(),
        r is None ==> perm_lookup(perms_view(perms@), name@) is None,
{
    let ghost pred = perm_named(name@);
    let ghost v = perms_view(perms@);
    let mut i: usize = 0;
    while i < perms.len()
        invariant
            i <= perms@.len(),
            v == perms_view(perms@),
            pred == perm_named(name@),
            forall|j: int| 0 <= j < i ==> !pred(#[trigger] v[j]),
        decreases perms@.len() - i,
    {
        assert(v[i as int] == (perms@[i as int].name@, perms@[i as int].s.value));
        if str_equals(perms[i].name.as_str(), name) {
            proof {
                lemma_find_first_at(v, pred, i as int);
            }
            return Some(i);
        }
        i = i + 1;
    }
    proof {
        lemma_find_first_none(v, pred);
    }
    None
}

/// Finds the value of a permission of a class, checking the class's own
/// permissions before the common ones.
pub fn find_perm(cls: &class_datum, name: &str) -> (r: Option<u32>)
    ensures
        r == perm_value(cls@, name@),
{
    match find_perm_in(&cls.permissions, name) {
        Some(i) => {
            assert(perms_view(cls.permissions@)[i as int].1 == cls.permissions@[i as int].s.value);
            Some(cls.permissions[i].s.value)
        },
        None => match find_perm_in(&cls.common_permissions, name) {
            Some(j) => {
                assert(perms_view(cls.common_permissions@)[j as int].1
                    == cls.common_permissions@[j as int].s.value);
                Some(cls.common_permissions[j].s.value)
            },
            None => None,
        },
    }
}

// ---- access vector rules ----

/// The index of the first rule with key `key`.
pub open spec fn av_find(av: Seq<AvNode>, key: avtab_key) -> Option<int> {
    find_first(av, |n: AvNode| n.key == key)
}

/// The permission bits a new rule starts with: none, or all of them for
/// `dontaudit` rules, which list what is not audited.
pub open spec fn initial_data(specified: u16) -> u32 {
    if specified == AVTAB_AUDITDENY {
        0xFFFF_FFFFu32
    } else {
        0u32
    }
}

/// The permission bits after adding (or, inverted, removing) one
/// permission, or all permissions when none is named.
pub open spec fn rule_data(d: u32, perm: Option<u32>, invert: bool) -> u32 {
    if invert {
        match perm {
            Some(pv) => d & !(1u32 << ((pv - 1) as u32)),
            None => 0u32,
        }
    } else {
        match perm {
            Some(pv) => d | (1u32 << ((pv - 1) as u32)),
            None => 0xFFFF_FFFFu32,
        }
    }
}

/// A rule is redundant when it grants nothing (for `dontaudit`, when it
/// silences nothing).
pub open spec fn is_redundant_spec(key: avtab_key, data: u32) -> bool {
    if key.specified == AVTAB_AUDITDENY {
        data == 0xFFFF_FFFFu32
    } else {
        data == 0u32
    }
}

/// The table after one access vector rule on `key`: the rule for the key
/// is found or created, its bits updated, and it is dropped when redundant.
pub open spec fn av_add_rule(av: Seq<AvNode>, key: avtab_key, perm: Option<u32>, invert: bool) -> Seq<
    AvNode,
> {
    let base = match av_find(av, key) {
        Some(i) => av,
        None => av.push(AvNode { key, data: initial_data(key.specified), xperms: None }),
    };
    let i = match av_find(av, key) {
        Some(i) => i,
        None => av.len() as int,
    };
    let d = rule_data(base[i].data, perm, invert);
    if is_redundant_spec(key, d) {
        base.remove(i)
    } else {
        base.update(i, AvNode { key: base[i].key, data: d, xperms: base[i].xperms })
    }
}

/// The table after the rules on `keys`, in order.
pub open spec fn av_add_rules(av: Seq<AvNode>, keys: Seq<avtab_key>, perm: Option<u32>, invert: bool) -> Seq<
    AvNode,
>
    decreases keys.len(),
{
    if keys.len() == 0 {
        av
    } else {
        av_add_rule(av_add_rules(av, keys.drop_last(), perm, invert), keys.last(), perm, invert)
    }
}

/// The extended permission rules of a table are well shaped.
pub open spec fn av_wf(av: Seq<avtab_node>) -> bool {
    &&& xperms_words_wf(av)
    &&& xperms_unique(avtab_view(av))
    &&& xperms_kinds(avtab_view(av))
}

fn find_node(av: &Vec<avtab_node>, key: avtab_key) -> (r: Option<usize>)
    ensures
        r matches Some(i) ==> av_find(avtab_view(av@), key) == Some(i as int),
        r is None ==> av_find(avtab_view(av@), key) is None,
{
    let ghost pred = |n: AvNode| n.key == key;
    let ghost v = avtab_view(av@);
    let mut i: usize = 0;
    while i < av.len()
        invariant
            i <= av@.len(),
            v == avtab_view(av@),
            pred == (|n: AvNode| n.key == key),
            forall|j: int| 0 <= j < i ==> !pred(#[trigger] v[j]),
        decreases av@.len() - i,
    {
        if av[i].key == key {
            proof {
                lemma_find_first_at(v, pred, i as int);
            }
            return Some(i);
        }
        i = i + 1;
    }
    proof {
        lemma_find_first_none(v, pred);
    }
    None
}

/// Whether a rule grants nothing.
pub fn is_redundant(node: &avtab_node) -> (b: bool)
    ensures
        b == is_redundant_spec(node.key, node.datum.data),
{
    if node.key.specified == AVTAB_AUDITDENY {
        node.datum.data == 0xFFFF_FFFFu32
    } else {
        node.datum.data == 0u32
    }
}

proof fn lemma_av_wf_push(av: Seq<avtab_node>, n: avtab_node)
    requires
        av_wf(av),
        n.datum.xperms is None,
    ensures
        av_wf(av.push(n)),
        avtab_view(av.push(n)) == avtab_view(av).push(n@),
{
    assert(avtab_view(av.push(n)) =~= avtab_view(av).push(n@));
    let v = avtab_view(av.push(n));
    assert forall|i: int| 0 <= i < av.push(n).len() implies ((#[trigger] av.push(n)[i]).datum.xperms
        matches Some(x) ==> x.perms@.len() == 8) by {
        if i < av.len() {
            assert(av.push(n)[i] == av[i]);
        }
    }
    assert forall|i: int| 0 <= i < v.len() implies ((#[trigger] v[i]).xperms matches Some(x) ==> (
    x.specified == crate::sepol::AVTAB_XPERMS_IOCTLFUNCTION || x.specified
        == crate::sepol::AVTAB_XPERMS_IOCTLDRIVER)) by {
        if i < av.len() {
            assert(v[i] == avtab_view(av)[i]);
        }
    }
    assert forall|i: int, j: int|
        0 <= i < j < v.len() && (#[trigger] v[i]).key == (#[trigger] v[j]).key && v[i].xperms
            is Some && v[j].xperms is Some implies {
        let a = v[i].xperms.unwrap();
        let b = v[j].xperms.unwrap();
        a.specified != b.specified || (a.specified == crate::sepol::AVTAB_XPERMS_IOCTLFUNCTION
            && a.driver != b.driver)
    } by {
        assert(v[i] == avtab_view(av)[i]);
        assert(v[j] == avtab_view(av)[j]);
    }
}

proof fn lemma_av_wf_remove(av: Seq<avtab_node>, k: int)
    requires
        av_wf(av),
        0 <= k < av.len(),
    ensures
        av_wf(av.remove(k)),
        avtab_view(av.remove(k)) == avtab_view(av).remove(k),
{
    assert(avtab_view(av.remove(k)) =~= avtab_view(av).remove(k));
    let v = avtab_view(av.remove(k));
    let w = avtab_view(av);
    assert forall|i: int| 0 <= i < av.remove(k).len() implies ((#[trigger] av.remove(
        k,
    )[i]).datum.xperms matches Some(x) ==> x.perms@.len() == 8) by {
        if i < k {
            assert(av.remove(k)[i] == av[i]);
        } else {
            assert(av.remove(k)[i] == av[i + 1]);
        }
    }
    assert forall|i: int| 0 <= i < v.len() implies ((#[trigger] v[i]).xperms matches Some(x) ==> (
    x.specified == crate::sepol::AVTAB_XPERMS_IOCTLFUNCTION || x.specified
        == crate::sepol::AVTAB_XPERMS_IOCTLDRIVER)) by {
        if i < k {
            assert(v[i] == w[i]);
        } else {
            assert(v[i] == w[i + 1]);
        }
    }
    assert forall|i: int, j: int|
        0 <= i < j < v.len() && (#[trigger] v[i]).key == (#[trigger] v[j]).key && v[i].xperms
            is Some && v[j].xperms is Some implies {
        let a = v[i].xperms.unwrap();
        let b = v[j].xperms.unwrap();
        a.specified != b.specified || (a.specified == crate::sepol::AVTAB_XPERMS_IOCTLFUNCTION
            && a.driver != b.driver)
    } by {
        let ii = if i < k {
            i
        } else {
            i + 1
        };
        let jj = if j < k {
            j
        } else {
            j + 1
        };
        assert(v[i] == w[ii]);
        assert(v[j] == w[jj]);
        assert(w[ii].key == w[jj].key);
    }
}

proof fn lemma_av_wf_set_data(av: Seq<avtab_node>, k: int, n: avtab_node)
    requires
        av_wf(av),
        0 <= k < av.len(),
        n.key == av[k].key,
        n.datum.xperms == av[k].datum.xperms,
    ensures
        av_wf(av.update(k, n)),
        avtab_view(av.update(k, n)) == avtab_view(av).update(k, n@),
{
    assert(avtab_view(av.update(k, n)) =~= avtab_view(av).update(k, n@));
    let v = avtab_view(av.update(k, n));
    let w = avtab_view(av);
    assert forall|i: int| 0 <= i < av.update(k, n).len() implies ((#[trigger] av.update(
        k,
        n,
    )[i]).datum.xperms matches Some(x) ==> x.perms@.len() == 8) by {
        if i != k {
            assert(av.update(k, n)[i] == av[i]);
        }
    }
    assert forall|i: int| 0 <= i < v.len() implies ((#[trigger] v[i]).xperms matches Some(x) ==> (
    x.specified == crate::sepol::AVTAB_XPERMS_IOCTLFUNCTION || x.specified
        == crate::sepol::AVTAB_XPERMS_IOCTLDRIVER)) by {
        assert(v[i].xperms == w[i].xperms);
    }
    assert forall|i: int, j: int|
        0 <= i < j < v.len() && (#[trigger] v[i]).key == (#[trigger] v[j]).key && v[i].xperms
            is Some && v[j].xperms is Some implies {
        let a = v[i].xperms.unwrap();
        let b = v[j].xperms.unwrap();
        a.specified != b.specified || (a.specified == crate::sepol::AVTAB_XPERMS_IOCTLFUNCTION
            && a.driver != b.driver)
    } by {
        assert(v[i].xperms == w[i].xperms && v[i].key == w[i].key);
        assert(v[j].xperms == w[j].xperms && v[j].key == w[j].key);
    }
}

/// Adds (or, inverted, removes) one permission, or all of them when `perm`
/// is `None`, on the rule for `key`, creating the rule when missing and
/// dropping it when it ends up granting nothing.
#[verifier::spinoff_prover]
pub fn add_rule_impl(av: &mut Vec<avtab_node>, key: avtab_key, perm: Option<u32>, invert: bool)
    requires
        av_wf(old(av)@),
        perm matches Some(pv) ==> 1 <= pv <= 32,
    ensures
        av_wf(final(av)@),
        avtab_view(final(av)@) == av_add_rule(avtab_view(old(av)@), key, perm, invert),
{
    let ghost v0 = avtab_view(av@);
    let idx = match find_node(av, key) {
        Some(i) => i,
        None => {
            let init: u32 = if key.specified == AVTAB_AUDITDENY {
                0xFFFF_FFFFu32
            } else {
                0u32
            };
            let n = avtab_node { key, datum: avtab_datum { data: init, xperms: None } };
            proof {
                lemma_av_wf_push(av@, n);
            }
            av.push(n);
            av.len() - 1
        },
    };
    let ghost base = avtab_view(av@);
    assert(base == (match av_find(v0, key) {
        Some(i) => v0,
        None => v0.push(AvNode { key, data: initial_data(key.specified), xperms: None }),
    }));
    proof {
        lemma_find_first(v0, |n: AvNode| n.key == key);
    }
    let d = av[idx].datum.data;
    let d2 = if invert {
        match perm {
            Some(pv) => d & !(1u32 << (pv - 1)),
            None => 0u32,
        }
    } else {
        match perm {
            Some(pv) => d | (1u32 << (pv - 1)),
            None => 0xFFFF_FFFFu32,
        }
    };
    let redundant = if key.specified == AVTAB_AUDITDENY {
        d2 == 0xFFFF_FFFFu32
    } else {
        d2 == 0u32
    };
    if redundant {
        proof {
            lemma_av_wf_remove(av@, idx as int);
        }
        av.remove(idx);
    } else {
        let ghost before = av@;
        let ghost n = avtab_node {
            key: av@[idx as int].key,
            datum: avtab_datum { data: d2, xperms: av@[idx as int].datum.xperms },
        };
        proof {
            lemma_av_wf_set_data(av@, idx as int, n);
        }
        av[idx].datum.data = d2;
        assert(av@ =~= before.update(idx as int, n));
    }
}

// ---- rule expansion ----

/// The values of the types a wildcard stands for: every type when `all`,
/// else the attributes only.
pub open spec fn type_candidates(types: Seq<TypeView>, all: bool) -> Seq<u32>
    decreases types.len(),
{
    if types.len() == 0 {
        seq![]
    } else {
        let rest = type_candidates(types.drop_last(), all);
        if all || types.last().flavor == TYPE_ATTRIB {
            rest.push(types.last().value)
        } else {
            rest
        }
    }
}

/// The values of all classes.
pub open spec fn class_values(classes: Seq<ClassView>) -> Seq<u32> {
    classes.map_values(|c: ClassView| c.value)
}

/// The rule keys for one source and target over the classes `cs`.
pub open spec fn keys_for_target(s: u32, t: u32, cs: Seq<u32>, specified: u16) -> Seq<avtab_key> {
    cs.map_values(
        |c: u32|
            avtab_key {
                source_type: s as u16,
                target_type: t as u16,
                target_class: c as u16,
                specified,
            },
    )
}

/// The rule keys for one source over the targets `ts` and classes `cs`.
pub open spec fn keys_for_source(s: u32, ts: Seq<u32>, cs: Seq<u32>, specified: u16) -> Seq<
    avtab_key,
>
    decreases ts.len(),
{
    if ts.len() == 0 {
        seq![]
    } else {
        keys_for_source(s, ts.drop_last(), cs, specified) + keys_for_target(
            s,
            ts.last(),
            cs,
            specified,
        )
    }
}

/// The rule keys of every source, target and class, sources outermost.
pub open spec fn rule_keys(ss: Seq<u32>, ts: Seq<u32>, cs: Seq<u32>, specified: u16) -> Seq<
    avtab_key,
>
    decreases ss.len(),
{
    if ss.len() == 0 {
        seq![]
    } else {
        rule_keys(ss.drop_last(), ts, cs, specified) + keys_for_source(
            ss.last(),
            ts,
            cs,
            specified,
        )
    }
}

/// Collects the values of the types a wildcard stands for.
pub fn collect_type_candidates(types: &Vec<type_datum>, all: bool) -> (r: Vec<u32>)
    ensures
        r@ == type_candidates(types_view(types@), all),
{
    let ghost v = types_view(types@);
    let mut r: Vec<u32> = Vec::new();
    let mut i: usize = 0;
    while i < types.len()
        invariant
            i <= types@.len(),
            v == types_view(types@),
            r@ == type_candidates(v.take(i as int), all),
        decreases types@.len() - i,
    {
        assert(v.take(i + 1).drop_last() =~= v.take(i as int));
        assert(v.take(i + 1).last() == types@[i as int]@);
        if all || types[i].flavor == TYPE_ATTRIB {
            r.push(types[i].s.value);
        }
        i = i + 1;
    }
    assert(v.take(types@.len() as int) =~= v);
    r
}

/// Collects the values of all classes.
pub fn collect_class_values(classes: &Vec<class_datum>) -> (r: Vec<u32>)
    ensures
        r@ == class_values(classes_view(classes@)),
{
    let ghost v = classes_view(classes@);
    let mut r: Vec<u32> = Vec::new();
    let mut i: usize = 0;
    while i < classes.len()
        invariant
            i <= classes@.len(),
            v == classes_view(classes@),
            r@ =~= class_values(v.take(i as int)),
        decreases classes@.len() - i,
    {
        assert(v[i as int] == classes@[i as int]@);
        r.push(classes[i].s.value);
        i = i + 1;
    }
    assert(v.take(classes@.len() as int) =~= v);
    r
}

/// Builds the keys of every source, target and class, sources outermost,
/// as the recursive wildcard expansion visits them.
#[verifier::spinoff_prover]
pub fn build_rule_keys(ss: &Vec<u32>, ts: &Vec<u32>, cs: &Vec<u32>, specified: u16) -> (r: Vec<
    avtab_key,
>)
    ensures
        r@ == rule_keys(ss@, ts@, cs@, specified),
{
    let mut keys: Vec<avtab_key> = Vec::new();
    let mut i: usize = 0;
    while i < ss.len()
        invariant
            i <= ss@.len(),
            keys@ == rule_keys(ss@.take(i as int), ts@, cs@, specified),
        decreases ss@.len() - i,
    {
        let s = ss[i];
        let mut j: usize = 0;
        assert(keys_for_source(s, ts@.take(0), cs@, specified) =~= Seq::<avtab_key>::empty());
        assert(keys@ =~= rule_keys(ss@.take(i as int), ts@, cs@, specified) + keys_for_source(
            s,
            ts@.take(0),
            cs@,
            specified,
        ));
        while j < ts.len()
            invariant
                i < ss@.len(),
                s == ss@[i as int],
                j <= ts@.len(),
                keys@ == rule_keys(ss@.take(i as int), ts@, cs@, specified) + keys_for_source(
                    s,
                    ts@.take(j as int),
                    cs@,
                    specified,
                ),
            decreases ts@.len() - j,
        {
            let t = ts[j];
            let mut k: usize = 0;
            let ghost prefix = keys@;
            assert(keys_for_target(s, t, cs@.take(0), specified) =~= Seq::<avtab_key>::empty());
            assert(keys@ =~= prefix + keys_for_target(s, t, cs@.take(0), specified));
            while k < cs.len()
                invariant
                    k <= cs@.len(),
                    keys@ == prefix + keys_for_target(s, t, cs@.take(k as int), specified),
                decreases cs@.len() - k,
            {
                let c = cs[k];
                keys.push(
                    avtab_key {
                        source_type: s as u16,
                        target_type: t as u16,
                        target_class: c as u16,
                        specified,
                    },
                );
                assert(keys_for_target(s, t, cs@.take(k + 1), specified) =~= keys_for_target(
                    s,
                    t,
                    cs@.take(k as int),
                    specified,
                ).push(
                    avtab_key {
                        source_type: s as u16,
                        target_type: t as u16,
                        target_class: c as u16,
                        specified,
                    },
                ));
                assert(keys@ =~= prefix + keys_for_target(s, t, cs@.take(k + 1), specified));
                k = k + 1;
            }
            assert(cs@.take(cs@.len() as int) =~= cs@);
            assert(ts@.take(j + 1).drop_last() =~= ts@.take(j as int));
            assert(ts@.take(j + 1).last() == t);
            assert(keys@ =~= rule_keys(ss@.take(i as int), ts@, cs@, specified) + keys_for_source(
                s,
                ts@.take(j + 1),
                cs@,
                specified,
            ));
            j = j + 1;
        }
        assert(ts@.take(ts@.len() as int) =~= ts@);
        assert(ss@.take(i + 1).drop_last() =~= ss@.take(i as int));
        assert(ss@.take(i + 1).last() == s);
        i = i + 1;
    }
    assert(ss@.take(ss@.len() as int) =~= ss@);
    keys
}

/// The sources (or targets) of a rule: the one named type, or what a
/// wildcard stands for.
pub open spec fn type_operand(types: Seq<TypeView>, idx: Option<int>, all: bool) -> Seq<u32> {
    match idx {
        Some(i) => seq![types[i].value],
        None => type_candidates(types, all),
    }
}

/// The classes of a rule: the one named class, or all of them.
pub open spec fn class_operand(classes: Seq<ClassView>, idx: Option<int>) -> Seq<u32> {
    match idx {
        Some(i) => seq![classes[i].value],
        None => class_values(classes),
    }
}

fn type_operand_exec(types: &Vec<type_datum>, idx: Option<usize>, all: bool) -> (r: Vec<u32>)
    requires
        idx matches Some(i) ==> i < types@.len(),
    ensures
        r@ == type_operand(
            types_view(types@),
            match idx {
                Some(i) => Some(i as int),
                None => None,
            },
            all,
        ),
{
    match idx {
        Some(i) => {
            let r = vec![types[i].s.value];
            assert(r@ =~= seq![types_view(types@)[i as int].value]);
            r
        },
        None => collect_type_candidates(types, all),
    }
}

fn class_operand_exec(classes: &Vec<class_datum>, idx: Option<usize>) -> (r: Vec<u32>)
    requires
        idx matches Some(i) ==> i < classes@.len(),
    ensures
        r@ == class_operand(
            classes_view(classes@),
            match idx {
                Some(i) => Some(i as int),
                None => None,
            },
        ),
{
    match idx {
        Some(i) => {
            let r = vec![classes[i].s.value];
            assert(r@ =~= seq![classes_view(classes@)[i as int].value]);
            r
        },
        None => collect_class_values(classes),
    }
}

/// The operands of an access vector rule after looking its names up:
/// `None` when a named type, class or permission does not exist (a
/// permission is looked up only in a named class).
pub open spec fn av_operands(db: PolicyView, s: Seq<char>, t: Seq<char>, c: Seq<char>, p: Seq<char>) -> Option<
    (Option<int>, Option<int>, Option<int>, Option<u32>),
> {
    let src = if s.len() > 0 {
        type_lookup(db.types, s)
    } else {
        None
    };
    let tgt = if t.len() > 0 {
        type_lookup(db.types, t)
    } else {
        None
    };
    let cls = if c.len() > 0 {
        class_lookup(db.classes, c)
    } else {
        None
    };
    let perm = if p.len() > 0 && cls is Some {
        perm_value(db.classes[cls.unwrap()], p)
    } else {
        None
    };
    if (s.len() > 0 && src is None) || (t.len() > 0 && tgt is None) || (c.len() > 0 && cls is None)
        || (p.len() > 0 && perm is None) {
        None
    } else {
        Some((src, tgt, cls, perm))
    }
}

/// Whether a wildcard of an access vector rule covers every type rather
/// than the attributes only: when the rule takes permissions away.
pub open spec fn strips(effect: u16, invert: bool) -> bool {
    (effect == AVTAB_AUDITDENY) == !invert
}

/// The access vector table after an access vector rule, or `None` when the
/// rule is refused.
pub open spec fn av_rule_result(db: PolicyView, s: Seq<char>, t: Seq<char>, c: Seq<char>, p: Seq<char>, effect: u16, invert: bool) -> Option<Seq<AvNode>> {
    match av_operands(db, s, t, c, p) {
        None => None,
        Some((src, tgt, cls, perm)) => {
            let all = strips(effect, invert);
            Some(
                av_add_rules(
                    db.avtab,
                    rule_keys(
                        type_operand(db.types, src, all),
                        type_operand(db.types, tgt, all),
                        class_operand(db.classes, cls),
                        effect,
                    ),
                    perm,
                    invert,
                ),
            )
        },
    }
}

/// Applies one access vector rule to every key, in order.
pub fn add_rules(av: &mut Vec<avtab_node>, keys: &Vec<avtab_key>, perm: Option<u32>, invert: bool)
    requires
        av_wf(old(av)@),
        perm matches Some(pv) ==> 1 <= pv <= 32,
    ensures
        av_wf(final(av)@),
        avtab_view(final(av)@) == av_add_rules(avtab_view(old(av)@), keys@, perm, invert),
{
    let mut k: usize = 0;
    assert(keys@.take(0) =~= Seq::<avtab_key>::empty());
    while k < keys.len()
        invariant
            k <= keys@.len(),
            av_wf(av@),
            perm matches Some(pv) ==> 1 <= pv <= 32,
            avtab_view(av@) == av_add_rules(avtab_view(old(av)@), keys@.take(k as int), perm, invert),
        decreases keys@.len() - k,
    {
        add_rule_impl(av, keys[k], perm, invert);
        assert(keys@.take(k + 1).drop_last() =~= keys@.take(k as int));
        assert(keys@.take(k + 1).last() == keys@[k as int]);
        k = k + 1;
    }
    assert(keys@.take(keys@.len() as int) =~= keys@);
}

/// Adds an access vector rule: `effect` is the rule kind, `invert` takes
/// permissions away. An empty name is a wildcard; a wildcard type stands
/// for every type when permissions are taken away, else for the
/// attributes. Returns false, changing nothing, when a named type, class or
/// permission does not exist.
#[verifier::spinoff_prover]
pub fn sepol_add_rule(db: &mut policydb, s: &str, t: &str, c: &str, p: &str, effect: u16, invert: bool) -> (ok: bool)
    requires
        old(db).wf(),
    ensures
        final(db).wf(),
        ok == av_rule_result(old(db)@, s@, t@, c@, p@, effect, invert) is Some,
        ok ==> final(db)@ == (PolicyView {
            avtab: av_rule_result(old(db)@, s@, t@, c@, p@, effect, invert).unwrap(),
            ..old(db)@
        }),
        !ok ==> *final(db) == *old(db),
{
    let src = if s.unicode_len() > 0 {
        find_type(db, s)
    } else {
        None
    };
    let tgt = if t.unicode_len() > 0 {
        find_type(db, t)
    } else {
        None
    };
    let cls = if c.unicode_len() > 0 {
        find_class(db, c)
    } else {
        None
    };
    proof {
        lemma_find_first(types_view(db.types@), |x: TypeView| x.name == s@);
        lemma_find_first(types_view(db.types@), |x: TypeView| x.name == t@);
        lemma_find_first(classes_view(db.classes@), |x: ClassView| x.name == c@);
    }
    let perm = match cls {
        Some(ci) => if p.unicode_len() > 0 {
            find_perm(&db.classes[ci], p)
        } else {
            None
        },
        None => None,
    };
    if (s.unicode_len() > 0 && src.is_none()) || (t.unicode_len() > 0 && tgt.is_none()) || (
    c.unicode_len() > 0 && cls.is_none()) || (p.unicode_len() > 0 && perm.is_none()) {
        return false;
    }
    proof {
        if let Some(ci) = cls {
            let cd = db.classes@[ci as int]@;
            assert(cd == classes_view(db.classes@)[ci as int]);
            lemma_find_first(cd.permissions, perm_named(p@));
            lemma_find_first(cd.common_permissions, perm_named(p@));
        }
    }
    let all = (effect == AVTAB_AUDITDENY) == !invert;
    let ss = type_operand_exec(&db.types, src, all);
    let ts = type_operand_exec(&db.types, tgt, all);
    let cs = class_operand_exec(&db.classes, cls);
    let keys = build_rule_keys(&ss, &ts, &cs, effect);
    add_rules(&mut db.te_avtab, &keys, perm, invert);
    true
}

// ---- extended permission bits ----

proof fn lemma_or_bit(w: u32, b: u32, c: u32)
    by (bit_vector)
    requires
        b < 32,
        c < 32,
    ensures
        ((w | (1u32 << b)) >> c) & 1u32 == 1u32 <==> (c == b || (w >> c) & 1u32 == 1u32),
{
}

proof fn lemma_andnot_bit(w: u32, b: u32, c: u32)
    by (bit_vector)
    requires
        b < 32,
        c < 32,
    ensures
        ((w & !(1u32 << b)) >> c) & 1u32 == 1u32 <==> (c != b && (w >> c) & 1u32 == 1u32),
{
}

proof fn lemma_full_and_empty_word(c: u32)
    by (bit_vector)
    requires
        c < 32,
    ensures
        (0xFFFF_FFFFu32 >> c) & 1u32 == 1u32,
        (0u32 >> c) & 1u32 != 1u32,
{
}

/// The bits from `lo` to `hi`, both included.
pub open spec fn bit_range(lo: int, hi: int) -> Set<int> {
    Set::new(|x: int| lo <= x <= hi)
}

/// All 256 bits.
pub open spec fn all_bits() -> Set<int> {
    bit_range(0, 255)
}

/// Whether bit `x` is on.
pub fn xperm_test(x: usize, p: &Vec<u32>) -> (b: bool)
    requires
        x < 256,
        p@.len() == 8,
    ensures
        b == perm_bits(p@).contains(x as int),
{
    let word = p[x / 32];
    (word >> ((x % 32) as u32)) & 1u32 == 1u32
}

/// Turns bit `x` on.
pub fn xperm_set(x: usize, p: &mut Vec<u32>)
    requires
        x < 256,
        old(p)@.len() == 8,
    ensures
        final(p)@.len() == 8,
        perm_bits(final(p)@) == perm_bits(old(p)@).insert(x as int),
{
    let w = x / 32;
    let b = (x % 32) as u32;
    let v = p[w] | (1u32 << b);
    p[w] = v;
    assert forall|y: int| 0 <= y < 256 implies word_bit(p@, y) == (y == x || word_bit(old(p)@, y)) by {
        lemma_or_bit(old(p)@[w as int], b, (y % 32) as u32);
    }
    assert(perm_bits(p@) =~= perm_bits(old(p)@).insert(x as int));
}

/// Turns bit `x` off.
pub fn xperm_clear(x: usize, p: &mut Vec<u32>)
    requires
        x < 256,
        old(p)@.len() == 8,
    ensures
        final(p)@.len() == 8,
        perm_bits(final(p)@) == perm_bits(old(p)@).remove(x as int),
{
    let w = x / 32;
    let b = (x % 32) as u32;
    let v = p[w] & !(1u32 << b);
    p[w] = v;
    assert forall|y: int| 0 <= y < 256 implies word_bit(p@, y) == (y != x && word_bit(old(p)@, y)) by {
        lemma_andnot_bit(old(p)@[w as int], b, (y % 32) as u32);
    }
    assert(perm_bits(p@) =~= perm_bits(old(p)@).remove(x as int));
}

/// Eight words with every bit on, or every bit off.
pub fn filled_perms(on: bool) -> (p: Vec<u32>)
    ensures
        p@.len() == 8,
        perm_bits(p@) == (if on {
            all_bits()
        } else {
            Set::<int>::empty()
        }),
{
    let v: u32 = if on {
        0xFFFF_FFFFu32
    } else {
        0u32
    };
    let p = vec![v, v, v, v, v, v, v, v];
    assert forall|y: int| 0 <= y < 256 implies word_bit(p@, y) == on by {
        lemma_full_and_empty_word((y % 32) as u32);
    }
    if on {
        assert(perm_bits(p@) =~= all_bits());
    } else {
        assert(perm_bits(p@) =~= Set::<int>::empty());
    }
    p
}

/// Turns on (or, with `on` false, off) the bits from `lo` to `hi`.
pub fn xperm_set_range(p: &mut Vec<u32>, lo: usize, hi: usize, on: bool)
    requires
        old(p)@.len() == 8,
        lo < 256,
        hi < 256,
    ensures
        final(p)@.len() == 8,
        perm_bits(final(p)@) == (if on {
            perm_bits(old(p)@).union(bit_range(lo as int, hi as int))
        } else {
            perm_bits(old(p)@).difference(bit_range(lo as int, hi as int))
        }),
{
    let mut i = lo;
    assert(bit_range(lo as int, lo - 1) =~= Set::<int>::empty());
    assert(perm_bits(p@) =~= perm_bits(old(p)@).union(bit_range(lo as int, i - 1)));
    assert(perm_bits(p@) =~= perm_bits(old(p)@).difference(bit_range(lo as int, i - 1)));
    while i <= hi
        invariant
            lo <= i <= 256,
            hi < 256,
            lo <= hi + 1 ==> i <= hi + 1,
            lo > hi ==> i == lo,
            p@.len() == 8,
            on ==> perm_bits(p@) == perm_bits(old(p)@).union(bit_range(lo as int, i - 1)),
            !on ==> perm_bits(p@) == perm_bits(old(p)@).difference(bit_range(lo as int, i - 1)),
        decreases 256 - i,
    {
        if on {
            xperm_set(i, p);
            assert(perm_bits(p@) =~= perm_bits(old(p)@).union(bit_range(lo as int, i as int)));
        } else {
            xperm_clear(i, p);
            assert(perm_bits(p@) =~= perm_bits(old(p)@).difference(bit_range(lo as int, i as int)));
        }
        i = i + 1;
    }
    if i > hi + 1 {
        assert(bit_range(lo as int, i - 1) =~= bit_range(lo as int, hi as int));
    } else {
        assert(i == hi + 1);
    }
}

// ---- extended permission rules ----

/// A rule of `key` that holds the allowed drivers.
pub open spec fn is_driver_node(n: AvNode, key: avtab_key) -> bool {
    n.key == key && (n.xperms matches Some(x) && x.specified == AVTAB_XPERMS_IOCTLDRIVER)
}

/// A rule of `key` that holds the allowed functions of driver `d`.
pub open spec fn is_func_node(n: AvNode, key: avtab_key, d: u8) -> bool {
    n.key == key && (n.xperms matches Some(x) && x.specified == AVTAB_XPERMS_IOCTLFUNCTION
        && x.driver == d)
}

/// A rule of `key` that holds the allowed functions of some driver.
pub open spec fn is_any_func_node(n: AvNode, key: avtab_key) -> bool {
    n.key == key && (n.xperms matches Some(x) && x.specified == AVTAB_XPERMS_IOCTLFUNCTION)
}

/// A rule of `key` that holds the allowed functions of a driver from `lo`
/// to `hi`.
pub open spec fn is_func_node_in(n: AvNode, key: avtab_key, lo: int, hi: int) -> bool {
    is_any_func_node(n, key) && lo <= n.xperms.unwrap().driver <= hi
}

/// A new driver rule with no bit on.
pub open spec fn new_driver_node(key: avtab_key) -> AvNode {
    AvNode {
        key,
        data: 0,
        xperms: Some(
            XpermsView { specified: AVTAB_XPERMS_IOCTLDRIVER, driver: 0, perms: Set::empty() },
        ),
    }
}

/// A new function rule of driver `d` with no bit on.
pub open spec fn new_func_node(key: avtab_key, d: u8) -> AvNode {
    AvNode {
        key,
        data: 0,
        xperms: Some(
            XpermsView { specified: AVTAB_XPERMS_IOCTLFUNCTION, driver: d, perms: Set::empty() },
        ),
    }
}

/// A rule with its bits replaced.
pub open spec fn with_perms(n: AvNode, perms: Set<int>) -> AvNode {
    AvNode {
        key: n.key,
        data: n.data,
        xperms: Some(
            XpermsView {
                specified: n.xperms.unwrap().specified,
                driver: n.xperms.unwrap().driver,
                perms,
            },
        ),
    }
}

/// The table after an ioctl rule over the commands `low..=high` on `key`.
/// A range within one driver (the high byte) sets function bits of that
/// driver; a range across drivers sets whole drivers. A complement rule
/// (`reset`) drops the function rules of the key, allows every driver
/// except the range's, and, within one driver, allows every function of it
/// except the range's.
pub open spec fn xp_add_rule(av: Seq<AvNode>, key: avtab_key, low: u16, high: u16, reset: bool) -> Seq<
    AvNode,
> {
    let dl = low as int / 256;
    let dh = high as int / 256;
    let fl = low as int % 256;
    let fh = high as int % 256;
    if !reset {
        if dl != dh {
            let found = find_first(av, |n: AvNode| is_driver_node(n, key));
            let base = match found {
                Some(i) => av,
                None => av.push(new_driver_node(key)),
            };
            let i = match found {
                Some(i) => i,
                None => av.len() as int,
            };
            base.update(
                i,
                with_perms(base[i], base[i].xperms.unwrap().perms.union(bit_range(dl, dh))),
            )
        } else {
            let found = find_first(av, |n: AvNode| is_func_node(n, key, dl as u8));
            let base = match found {
                Some(i) => av,
                None => av.push(new_func_node(key, dl as u8)),
            };
            let i = match found {
                Some(i) => i,
                None => av.len() as int,
            };
            base.update(
                i,
                with_perms(base[i], base[i].xperms.unwrap().perms.union(bit_range(fl, fh))),
            )
        }
    } else {
        let av1 = av.filter(|n: AvNode| !is_any_func_node(n, key));
        let found = find_first(av1, |n: AvNode| is_driver_node(n, key));
        let base = match found {
            Some(i) => av1,
            None => av1.push(new_driver_node(key)),
        };
        let i = match found {
            Some(i) => i,
            None => av1.len() as int,
        };
        if dl != dh {
            base.update(i, with_perms(base[i], all_bits().difference(bit_range(dl, dh))))
        } else {
            base.update(i, with_perms(base[i], all_bits().remove(dl))).push(
                with_perms(new_func_node(key, dl as u8), all_bits().difference(bit_range(fl, fh))),
            )
        }
    }
}

/// The table after the ioctl rule on each of `keys`, in order.
pub open spec fn xp_add_rules(av: Seq<AvNode>, keys: Seq<avtab_key>, low: u16, high: u16, reset: bool) -> Seq<
    AvNode,
>
    decreases keys.len(),
{
    if keys.len() == 0 {
        av
    } else {
        xp_add_rule(xp_add_rules(av, keys.drop_last(), low, high, reset), keys.last(), low, high, reset)
    }
}

/// The table after the commands `low..=high` are taken out of what `key`
/// allows, as a complement list does for each of its ranges after the
/// first. A range within one driver turns that driver's bit off and leaves
/// a function rule holding the rest of what the driver allowed; a range
/// across drivers takes its drivers out whole, with their function rules,
/// as the other ioctl rules read such a range.
pub open spec fn xp_exclude(av: Seq<AvNode>, key: avtab_key, low: u16, high: u16) -> Seq<AvNode> {
    let dl = low as int / 256;
    let dh = high as int / 256;
    let fl = low as int % 256;
    let fh = high as int % 256;
    if dl != dh {
        let av1 = av.filter(|n: AvNode| !is_func_node_in(n, key, dl, dh));
        match find_first(av1, |n: AvNode| is_driver_node(n, key)) {
            Some(i) => av1.update(
                i,
                with_perms(av1[i], av1[i].xperms.unwrap().perms.difference(bit_range(dl, dh))),
            ),
            None => av1,
        }
    } else {
        let d = dl as u8;
        let drv = find_first(av, |n: AvNode| is_driver_node(n, key));
        let whole = drv matches Some(i) && av[i].xperms.unwrap().perms.contains(dl);
        let av1 = match drv {
            Some(i) => av.update(
                i,
                with_perms(av[i], av[i].xperms.unwrap().perms.difference(bit_range(dl, dl))),
            ),
            None => av,
        };
        match find_first(av1, |n: AvNode| is_func_node(n, key, d)) {
            Some(j) => av1.update(
                j,
                with_perms(
                    av1[j],
                    (if whole {
                        all_bits()
                    } else {
                        av1[j].xperms.unwrap().perms
                    }).difference(bit_range(fl, fh)),
                ),
            ),
            None => if whole {
                let base = av1.push(new_func_node(key, d));
                base.update(
                    av1.len() as int,
                    with_perms(base[av1.len() as int], all_bits().difference(bit_range(fl, fh))),
                )
            } else {
                av1
            },
        }
    }
}

/// The table after the commands `low..=high` are taken out on each of
/// `keys`, in order.
pub open spec fn xp_excludes(av: Seq<AvNode>, keys: Seq<avtab_key>, low: u16, high: u16) -> Seq<
    AvNode,
>
    decreases keys.len(),
{
    if keys.len() == 0 {
        av
    } else {
        xp_exclude(xp_excludes(av, keys.drop_last(), low, high), keys.last(), low, high)
    }
}

proof fn lemma_av_wf_push_xnode(av: Seq<avtab_node>, n: avtab_node)
    requires
        av_wf(av),
        n.datum.xperms matches Some(x) && x.perms@.len() == 8 && (x.specified
            == AVTAB_XPERMS_IOCTLFUNCTION || x.specified == AVTAB_XPERMS_IOCTLDRIVER),
        forall|j: int|
            0 <= j < av.len() ==> (#[trigger] avtab_view(av)[j]).key == n.key && avtab_view(
                av,
            )[j].xperms is Some ==> {
                let a = avtab_view(av)[j].xperms.unwrap();
                let b = n@.xperms.unwrap();
                a.specified != b.specified || (a.specified == AVTAB_XPERMS_IOCTLFUNCTION
                    && a.driver != b.driver)
            },
    ensures
        av_wf(av.push(n)),
        avtab_view(av.push(n)) == avtab_view(av).push(n@),
{
    assert(avtab_view(av.push(n)) =~= avtab_view(av).push(n@));
    let v = avtab_view(av.push(n));
    let w = avtab_view(av);
    assert forall|i: int| 0 <= i < av.push(n).len() implies ((#[trigger] av.push(n)[i]).datum.xperms
        matches Some(x) ==> x.perms@.len() == 8) by {
        if i < av.len() {
            assert(av.push(n)[i] == av[i]);
        }
    }
    assert forall|i: int| 0 <= i < v.len() implies ((#[trigger] v[i]).xperms matches Some(x) ==> (
    x.specified == AVTAB_XPERMS_IOCTLFUNCTION || x.specified == AVTAB_XPERMS_IOCTLDRIVER)) by {
        if i < av.len() {
            assert(v[i] == w[i]);
        }
    }
    assert forall|i: int, j: int|
        0 <= i < j < v.len() && (#[trigger] v[i]).key == (#[trigger] v[j]).key && v[i].xperms
            is Some && v[j].xperms is Some implies {
        let a = v[i].xperms.unwrap();
        let b = v[j].xperms.unwrap();
        a.specified != b.specified || (a.specified == AVTAB_XPERMS_IOCTLFUNCTION && a.driver
            != b.driver)
    } by {
        assert(v[i] == w[i]);
        if j < av.len() {
            assert(v[j] == w[j]);
        }
    }
}

proof fn lemma_av_wf_set_perms(av: Seq<avtab_node>, k: int, n: avtab_node)
    requires
        av_wf(av),
        0 <= k < av.len(),
        n.key == av[k].key,
        n.datum.data == av[k].datum.data,
        av[k].datum.xperms is Some,
        n.datum.xperms matches Some(x) && x.perms@.len() == 8 && x.specified
            == av[k].datum.xperms.unwrap().specified && x.driver == av[k].datum.xperms.unwrap().driver,
    ensures
        av_wf(av.update(k, n)),
        avtab_view(av.update(k, n)) == avtab_view(av).update(k, n@),
{
    assert(avtab_view(av.update(k, n)) =~= avtab_view(av).update(k, n@));
    let v = avtab_view(av.update(k, n));
    let w = avtab_view(av);
    assert forall|i: int| 0 <= i < av.update(k, n).len() implies ((#[trigger] av.update(
        k,
        n,
    )[i]).datum.xperms matches Some(x) ==> x.perms@.len() == 8) by {
        if i != k {
            assert(av.update(k, n)[i] == av[i]);
        }
    }
    assert forall|i: int| 0 <= i < v.len() implies ((#[trigger] v[i]).xperms matches Some(x) ==> (
    x.specified == AVTAB_XPERMS_IOCTLFUNCTION || x.specified == AVTAB_XPERMS_IOCTLDRIVER)) by {
        assert(v[i].xperms is Some ==> w[i].xperms is Some);
    }
    assert forall|i: int, j: int|
        0 <= i < j < v.len() && (#[trigger] v[i]).key == (#[trigger] v[j]).key && v[i].xperms
            is Some && v[j].xperms is Some implies {
        let a = v[i].xperms.unwrap();
        let b = v[j].xperms.unwrap();
        a.specified != b.specified || (a.specified == AVTAB_XPERMS_IOCTLFUNCTION && a.driver
            != b.driver)
    } by {
        assert(v[i].key == w[i].key && w[i].xperms is Some);
        assert(v[j].key == w[j].key && w[j].xperms is Some);
        assert(v[i].xperms.unwrap().specified == w[i].xperms.unwrap().specified);
        assert(v[i].xperms.unwrap().driver == w[i].xperms.unwrap().driver);
        assert(v[j].xperms.unwrap().specified == w[j].xperms.unwrap().specified);
        assert(v[j].xperms.unwrap().driver == w[j].xperms.unwrap().driver);
    }
}

fn find_xnode(av: &Vec<avtab_node>, key: avtab_key, func: bool, d: u8) -> (r: Option<usize>)
    ensures
        ({
            let pred = if func {
                |n: AvNode| is_func_node(n, key, d)
            } else {
                |n: AvNode| is_driver_node(n, key)
            };
            &&& r matches Some(i) ==> find_first(avtab_view(av@), pred) == Some(i as int) && i
                < av@.len()
            &&& r is None ==> find_first(avtab_view(av@), pred) is None
        }),
{
    let ghost pred = if func {
        |n: AvNode| is_func_node(n, key, d)
    } else {
        |n: AvNode| is_driver_node(n, key)
    };
    let ghost v = avtab_view(av@);
    let mut i: usize = 0;
    while i < av.len()
        invariant
            i <= av@.len(),
            v == avtab_view(av@),
            pred == (if func {
                |n: AvNode| is_func_node(n, key, d)
            } else {
                |n: AvNode| is_driver_node(n, key)
            }),
            forall|j: int| 0 <= j < i ==> !pred(#[trigger] v[j]),
        decreases av@.len() - i,
    {
        let hit = match &av[i].datum.xperms {
            Some(x) => av[i].key == key && if func {
                x.specified == AVTAB_XPERMS_IOCTLFUNCTION && x.driver == d
            } else {
                x.specified == AVTAB_XPERMS_IOCTLDRIVER
            },
            None => false,
        };
        assert(hit == pred(v[i as int]));
        if hit {
            proof {
                lemma_find_first_at(v, pred, i as int);
            }
            return Some(i);
        }
        i = i + 1;
    }
    proof {
        lemma_find_first_none(v, pred);
    }
    None
}

/// Drops the function rules of `key` for the drivers `lo..=hi`.
fn remove_func_nodes(av: &mut Vec<avtab_node>, key: avtab_key, lo: u8, hi: u8)
    requires
        av_wf(old(av)@),
    ensures
        av_wf(final(av)@),
        avtab_view(final(av)@) == avtab_view(old(av)@).filter(
            |n: AvNode| !is_func_node_in(n, key, lo as int, hi as int),
        ),
{
    let ghost keep = |n: AvNode| !is_func_node_in(n, key, lo as int, hi as int);
    let ghost v0 = avtab_view(old(av)@);
    let mut i: usize = 0;
    let ghost mut j: int = 0;
    assert(v0.take(0).filter(keep) =~= Seq::<AvNode>::empty());
    assert(v0.skip(0) =~= v0);
    while i < av.len()
        invariant
            av_wf(av@),
            0 <= j <= v0.len(),
            keep == (|n: AvNode| !is_func_node_in(n, key, lo as int, hi as int)),
            v0 == avtab_view(old(av)@),
            i == v0.take(j).filter(keep).len(),
            avtab_view(av@) == v0.take(j).filter(keep) + v0.skip(j),
        decreases av@.len() - i,
    {
        let ghost before = avtab_view(av@);
        assert(before[i as int] == v0[j]);
        assert(v0.take(j + 1).drop_last() =~= v0.take(j));
        assert(v0.take(j + 1).last() == v0[j]);
        let is_func = match &av[i].datum.xperms {
            Some(x) => av[i].key == key && x.specified == AVTAB_XPERMS_IOCTLFUNCTION && lo
                <= x.driver && x.driver <= hi,
            None => false,
        };
        assert(is_func == !keep(v0[j]));
        let ghost f = v0.take(j).filter(keep);
        reveal(Seq::filter);
        assert(v0.take(j + 1).filter(keep) == (if keep(v0[j]) {
            f.push(v0[j])
        } else {
            f
        }));
        if is_func {
            proof {
                lemma_av_wf_remove(av@, i as int);
            }
            av.remove(i);
            assert(before.remove(i as int) =~= f + v0.skip(j + 1));
            assert(avtab_view(av@) =~= v0.take(j + 1).filter(keep) + v0.skip(j + 1));
        } else {
            assert(f.push(v0[j]) + v0.skip(j + 1) =~= f + v0.skip(j));
            assert(avtab_view(av@) =~= v0.take(j + 1).filter(keep) + v0.skip(j + 1));
            i = i + 1;
        }
        proof {
            j = j + 1;
        }
    }
    assert(j == v0.len()) by {
        if j < v0.len() {
            assert(avtab_view(av@).len() > i);
        }
    }
    assert(v0.take(j) =~= v0);
    assert(avtab_view(av@) =~= v0.filter(keep));
}

/// Appends a rule with extended permissions of the given kind, all bits off.
fn push_xnode(av: &mut Vec<avtab_node>, key: avtab_key, func: bool, d: u8) -> (i: usize)
    requires
        av_wf(old(av)@),
        func ==> find_first(avtab_view(old(av)@), |n: AvNode| is_func_node(n, key, d)) is None,
        !func ==> find_first(avtab_view(old(av)@), |n: AvNode| is_driver_node(n, key)) is None,
    ensures
        av_wf(final(av)@),
        i == old(av)@.len(),
        final(av)@.len() == old(av)@.len() + 1,
        final(av)@[i as int].datum.xperms is Some,
        avtab_view(final(av)@) == avtab_view(old(av)@).push(
            if func {
                new_func_node(key, d)
            } else {
                new_driver_node(key)
            },
        ),
{
    let x = avtab_extended_perms {
        specified: if func {
            AVTAB_XPERMS_IOCTLFUNCTION
        } else {
            AVTAB_XPERMS_IOCTLDRIVER
        },
        driver: if func {
            d
        } else {
            0
        },
        perms: filled_perms(false),
    };
    let n = avtab_node { key, datum: avtab_datum { data: 0, xperms: Some(x) } };
    proof {
        let v = avtab_view(av@);
        if func {
            lemma_find_first(v, |m: AvNode| is_func_node(m, key, d));
        } else {
            lemma_find_first(v, |m: AvNode| is_driver_node(m, key));
        }
        assert forall|j: int|
            0 <= j < av@.len() && (#[trigger] avtab_view(av@)[j]).key == n.key && avtab_view(
                av@,
            )[j].xperms is Some implies {
            let a = avtab_view(av@)[j].xperms.unwrap();
            let b = n@.xperms.unwrap();
            a.specified != b.specified || (a.specified == AVTAB_XPERMS_IOCTLFUNCTION && a.driver
                != b.driver)
        } by {
            if func {
                assert(!is_func_node(v[j], key, d));
            } else {
                assert(!is_driver_node(v[j], key));
            }
        }
        lemma_av_wf_push_xnode(av@, n);
        if func {
            assert(n@ == new_func_node(key, d));
        } else {
            assert(n@ == new_driver_node(key));
        }
    }
    av.push(n);
    av.len() - 1
}

/// Sets (`on`) or clears the bits `lo..=hi` of the extended permission rule
/// at `i`; with `fill`, its bits are first all turned on.
fn update_xnode(av: &mut Vec<avtab_node>, i: usize, fill: bool, lo: usize, hi: usize, on: bool)
    requires
        av_wf(old(av)@),
        i < old(av)@.len(),
        old(av)@[i as int].datum.xperms is Some,
        lo < 256,
        hi < 256,
    ensures
        av_wf(final(av)@),
        ({
            let n = avtab_view(old(av)@)[i as int];
            let start = if fill {
                all_bits()
            } else {
                n.xperms.unwrap().perms
            };
            avtab_view(final(av)@) == avtab_view(old(av)@).update(
                i as int,
                with_perms(
                    n,
                    if on {
                        start.union(bit_range(lo as int, hi as int))
                    } else {
                        start.difference(bit_range(lo as int, hi as int))
                    },
                ),
            )
        }),
{
    let ghost before = av@;
    let node = av.remove(i);
    let mut x = node.datum.xperms.unwrap();
    assert(x.perms@.len() == 8) by {
        assert(before[i as int] == node);
    }
    if fill {
        x.perms = filled_perms(true);
    }
    let ghost start = perm_bits(x.perms@);
    xperm_set_range(&mut x.perms, lo, hi, on);
    let n = avtab_node { key: node.key, datum: avtab_datum { data: node.datum.data, xperms: Some(x) } };
    av.insert(i, n);
    assert(av@ =~= before.update(i as int, n));
    proof {
        lemma_av_wf_set_perms(before, i as int, n);
        let m = avtab_view(before)[i as int];
        assert(n@ == with_perms(m, perm_bits(x.perms@)));
    }
}

proof fn lemma_filter_no_func(v: Seq<AvNode>, key: avtab_key, d: u8)
    ensures
        find_first(v.filter(|n: AvNode| !is_any_func_node(n, key)), |n: AvNode| is_func_node(n, key, d))
            is None,
{
    let f = v.filter(|n: AvNode| !is_any_func_node(n, key));
    assert forall|j: int| 0 <= j < f.len() implies !is_func_node(#[trigger] f[j], key, d) by {
        v.lemma_filter_pred(|n: AvNode| !is_any_func_node(n, key), j);
    }
    lemma_find_first_none(f, |n: AvNode| is_func_node(n, key, d));
}

/// Adds an ioctl rule over the commands `low..=high` on `key`; see
/// `xp_add_rule`.
#[verifier::spinoff_prover]
pub fn add_xperm_rule_impl(av: &mut Vec<avtab_node>, key: avtab_key, low: u16, high: u16, reset: bool)
    requires
        av_wf(old(av)@),
    ensures
        av_wf(final(av)@),
        avtab_view(final(av)@) == xp_add_rule(avtab_view(old(av)@), key, low, high, reset),
{
    let drv_low = (low / 256) as usize;
    let drv_high = (high / 256) as usize;
    let func_low = (low % 256) as usize;
    let func_high = (high % 256) as usize;
    let ghost v0 = avtab_view(av@);
    proof {
        lemma_find_first(v0, |n: AvNode| is_driver_node(n, key));
        lemma_find_first(v0, |n: AvNode| is_func_node(n, key, drv_low as u8));
    }
    if !reset {
        if drv_low != drv_high {
            let i = match find_xnode(av, key, false, 0) {
                Some(i) => {
                    assert(avtab_view(av@)[i as int] == av@[i as int]@);
                    i
                },
                None => push_xnode(av, key, false, 0),
            };
            update_xnode(av, i, false, drv_low, drv_high, true);
        } else {
            let d = drv_low as u8;
            let i = match find_xnode(av, key, true, d) {
                Some(i) => {
                    assert(avtab_view(av@)[i as int] == av@[i as int]@);
                    i
                },
                None => push_xnode(av, key, true, d),
            };
            update_xnode(av, i, false, func_low, func_high, true);
        }
    } else {
        remove_func_nodes(av, key, 0, 255);
        assert((|n: AvNode| !is_func_node_in(n, key, 0, 255)) =~= (|n: AvNode|
            !is_any_func_node(n, key)));
        let ghost v1 = avtab_view(av@);
        proof {
            lemma_find_first(v1, |n: AvNode| is_driver_node(n, key));
        }
        let i = match find_xnode(av, key, false, 0) {
            Some(i) => {
                assert(avtab_view(av@)[i as int] == av@[i as int]@);
                i
            },
            None => push_xnode(av, key, false, 0),
        };
        if drv_low != drv_high {
            update_xnode(av, i, true, drv_low, drv_high, false);
        } else {
            update_xnode(av, i, true, drv_low, drv_low, false);
            assert(all_bits().difference(bit_range(drv_low as int, drv_low as int)) =~= all_bits().remove(drv_low as int));
            let d = drv_low as u8;
            proof {
                lemma_filter_no_func(v0, key, d);
                let v2 = avtab_view(av@);
                assert forall|j: int| 0 <= j < v2.len() implies !is_func_node(#[trigger] v2[j], key, d) by {
                    lemma_find_first(v1, |n: AvNode| is_func_node(n, key, d));
                    if j < v1.len() && j != i {
                        assert(v2[j] == v1[j]);
                    }
                }
                lemma_find_first_none(v2, |n: AvNode| is_func_node(n, key, d));
            }
            let k = push_xnode(av, key, true, d);
            update_xnode(av, k, true, func_low, func_high, false);
        }
    }
}

/// Takes the commands `low..=high` out of what `key` allows; see
/// `xp_exclude`.
#[verifier::spinoff_prover]
pub fn exclude_xperm_impl(av: &mut Vec<avtab_node>, key: avtab_key, low: u16, high: u16)
    requires
        av_wf(old(av)@),
    ensures
        av_wf(final(av)@),
        avtab_view(final(av)@) == xp_exclude(avtab_view(old(av)@), key, low, high),
{
    let drv_low = (low / 256) as usize;
    let drv_high = (high / 256) as usize;
    let func_low = (low % 256) as usize;
    let func_high = (high % 256) as usize;
    if drv_low != drv_high {
        remove_func_nodes(av, key, drv_low as u8, drv_high as u8);
        let ghost v1 = avtab_view(av@);
        proof {
            lemma_find_first(v1, |n: AvNode| is_driver_node(n, key));
        }
        match find_xnode(av, key, false, 0) {
            Some(i) => {
                assert(avtab_view(av@)[i as int] == av@[i as int]@);
                update_xnode(av, i, false, drv_low, drv_high, false);
            },
            None => {},
        }
    } else {
        let d = drv_low as u8;
        let ghost v0 = avtab_view(av@);
        proof {
            lemma_find_first(v0, |n: AvNode| is_driver_node(n, key));
        }
        let mut whole = false;
        match find_xnode(av, key, false, 0) {
            Some(i) => {
                assert(avtab_view(av@)[i as int] == av@[i as int]@);
                whole = match &av[i].datum.xperms {
                    Some(x) => xperm_test(drv_low, &x.perms),
                    None => false,
                };
                update_xnode(av, i, false, drv_low, drv_low, false);
            },
            None => {},
        }
        let ghost v1 = avtab_view(av@);
        proof {
            lemma_find_first(v1, |n: AvNode| is_func_node(n, key, d));
        }
        match find_xnode(av, key, true, d) {
            Some(j) => {
                assert(avtab_view(av@)[j as int] == av@[j as int]@);
                update_xnode(av, j, whole, func_low, func_high, false);
            },
            None => {
                if whole {
                    let k = push_xnode(av, key, true, d);
                    update_xnode(av, k, true, func_low, func_high, false);
                }
            },
        }
    }
}

/// Takes the commands `low..=high` out on every key, in order.
pub fn exclude_xperm_rules(av: &mut Vec<avtab_node>, keys: &Vec<avtab_key>, low: u16, high: u16)
    requires
        av_wf(old(av)@),
    ensures
        av_wf(final(av)@),
        avtab_view(final(av)@) == xp_excludes(avtab_view(old(av)@), keys@, low, high),
{
    let mut k: usize = 0;
    assert(keys@.take(0) =~= Seq::<avtab_key>::empty());
    while k < keys.len()
        invariant
            k <= keys@.len(),
            av_wf(av@),
            avtab_view(av@) == xp_excludes(avtab_view(old(av)@), keys@.take(k as int), low, high),
        decreases keys@.len() - k,
    {
        exclude_xperm_impl(av, keys[k], low, high);
        assert(keys@.take(k + 1).drop_last() =~= keys@.take(k as int));
        assert(keys@.take(k + 1).last() == keys@[k as int]);
        k = k + 1;
    }
    assert(keys@.take(keys@.len() as int) =~= keys@);
}

/// The operands of an ioctl rule after looking its names up: `None` when
/// a named type or class does not exist.
pub open spec fn xp_operands(db: PolicyView, s: Seq<char>, t: Seq<char>, c: Seq<char>) -> Option<
    (Option<int>, Option<int>, Option<int>),
> {
    let src = if s.len() > 0 {
        type_lookup(db.types, s)
    } else {
        None
    };
    let tgt = if t.len() > 0 {
        type_lookup(db.types, t)
    } else {
        None
    };
    let cls = if c.len() > 0 {
        class_lookup(db.classes, c)
    } else {
        None
    };
    if (s.len() > 0 && src is None) || (t.len() > 0 && tgt is None) || (c.len() > 0 && cls
        is None) {
        None
    } else {
        Some((src, tgt, cls))
    }
}

/// The access vector table after an ioctl rule, or `None` when the rule is
/// refused: the policy version predates ioctl rules, or a named type or
/// class does not exist. A wildcard type stands for the attributes.
pub open spec fn xp_rule_result(db: PolicyView, s: Seq<char>, t: Seq<char>, c: Seq<char>, low: u16, high: u16, reset: bool, effect: u16) -> Option<Seq<AvNode>> {
    if db.policyvers < POLICYDB_VERSION_XPERMS_IOCTL {
        None
    } else {
        match xp_operands(db, s, t, c) {
            None => None,
            Some((src, tgt, cls)) => Some(
                xp_add_rules(
                    db.avtab,
                    rule_keys(
                        type_operand(db.types, src, false),
                        type_operand(db.types, tgt, false),
                        class_operand(db.classes, cls),
                        effect,
                    ),
                    low,
                    high,
                    reset,
                ),
            ),
        }
    }
}

/// Applies one ioctl rule to every key, in order.
pub fn add_xperm_rules(av: &mut Vec<avtab_node>, keys: &Vec<avtab_key>, low: u16, high: u16, reset: bool)
    requires
        av_wf(old(av)@),
    ensures
        av_wf(final(av)@),
        avtab_view(final(av)@) == xp_add_rules(avtab_view(old(av)@), keys@, low, high, reset),
{
    let mut k: usize = 0;
    assert(keys@.take(0) =~= Seq::<avtab_key>::empty());
    while k < keys.len()
        invariant
            k <= keys@.len(),
            av_wf(av@),
            avtab_view(av@) == xp_add_rules(avtab_view(old(av)@), keys@.take(k as int), low, high, reset),
        decreases keys@.len() - k,
    {
        add_xperm_rule_impl(av, keys[k], low, high, reset);
        assert(keys@.take(k + 1).drop_last() =~= keys@.take(k as int));
        assert(keys@.take(k + 1).last() == keys@[k as int]);
        k = k + 1;
    }
    assert(keys@.take(keys@.len() as int) =~= keys@);
}

/// The keys an ioctl rule of kind `effect` applies to, or `None` when the
/// rule is refused: the policy version predates ioctl rules, or a named
/// type or class does not exist.
fn xperm_rule_keys(db: &policydb, s: &str, t: &str, c: &str, effect: u16) -> (r: Option<Vec<avtab_key>>)
    requires
        db.wf(),
    ensures
        r is None <==> (db@.policyvers < POLICYDB_VERSION_XPERMS_IOCTL || xp_operands(
            db@,
            s@,
            t@,
            c@,
        ) is None),
        r matches Some(keys) ==> (xp_operands(db@, s@, t@, c@) matches Some((src, tgt, cls))
            && keys@ == rule_keys(
            type_operand(db@.types, src, false),
            type_operand(db@.types, tgt, false),
            class_operand(db@.classes, cls),
            effect,
        )),
{
    if db.policyvers < POLICYDB_VERSION_XPERMS_IOCTL {
        return None;
    }
    let src = if s.unicode_len() > 0 {
        find_type(db, s)
    } else {
        None
    };
    let tgt = if t.unicode_len() > 0 {
        find_type(db, t)
    } else {
        None
    };
    let cls = if c.unicode_len() > 0 {
        find_class(db, c)
    } else {
        None
    };
    proof {
        lemma_find_first(types_view(db.types@), |x: TypeView| x.name == s@);
        lemma_find_first(types_view(db.types@), |x: TypeView| x.name == t@);
        lemma_find_first(classes_view(db.classes@), |x: ClassView| x.name == c@);
    }
    if (s.unicode_len() > 0 && src.is_none()) || (t.unicode_len() > 0 && tgt.is_none()) || (
    c.unicode_len() > 0 && cls.is_none()) {
        return None;
    }
    let ss = type_operand_exec(&db.types, src, false);
    let ts = type_operand_exec(&db.types, tgt, false);
    let cs = class_operand_exec(&db.classes, cls);
    Some(build_rule_keys(&ss, &ts, &cs, effect))
}

/// Adds an ioctl rule over the commands `low..=high` (their complement with
/// `reset`); an empty name is a wildcard standing for the attributes, or
/// for every class. Returns false, changing nothing, when the policy
/// version predates ioctl rules or a named type or class does not exist.
#[verifier::spinoff_prover]
pub fn sepol_add_xperm_rule(db: &mut policydb, s: &str, t: &str, c: &str, low: u16, high: u16, reset: bool, effect: u16) -> (ok: bool)
    requires
        old(db).wf(),
    ensures
        final(db).wf(),
        ok == xp_rule_result(old(db)@, s@, t@, c@, low, high, reset, effect) is Some,
        ok ==> final(db)@ == (PolicyView {
            avtab: xp_rule_result(old(db)@, s@, t@, c@, low, high, reset, effect).unwrap(),
            ..old(db)@
        }),
        !ok ==> *final(db) == *old(db),
{
    match xperm_rule_keys(db, s, t, c, effect) {
        Some(keys) => {
            add_xperm_rules(&mut db.te_avtab, &keys, low, high, reset);
            true
        },
        None => false,
    }
}

/// The access vector table after the commands `low..=high` are taken out
/// of what an ioctl rule allows, or `None` when the rule is refused as
/// `xp_rule_result` refuses it.
pub open spec fn xp_exclude_result(db: PolicyView, s: Seq<char>, t: Seq<char>, c: Seq<char>, low: u16, high: u16, effect: u16) -> Option<Seq<AvNode>> {
    if db.policyvers < POLICYDB_VERSION_XPERMS_IOCTL {
        None
    } else {
        match xp_operands(db, s, t, c) {
            None => None,
            Some((src, tgt, cls)) => Some(
                xp_excludes(
                    db.avtab,
                    rule_keys(
                        type_operand(db.types, src, false),
                        type_operand(db.types, tgt, false),
                        class_operand(db.classes, cls),
                        effect,
                    ),
                    low,
                    high,
                ),
            ),
        }
    }
}

/// Takes the commands `low..=high` out of what an ioctl rule allows, on
/// the keys `sepol_add_xperm_rule` would reach. Returns false, changing
/// nothing, where that function would.
#[verifier::spinoff_prover]
pub fn sepol_exclude_xperm_rule(db: &mut policydb, s: &str, t: &str, c: &str, low: u16, high: u16, effect: u16) -> (ok: bool)
    requires
        old(db).wf(),
    ensures
        final(db).wf(),
        ok == xp_exclude_result(old(db)@, s@, t@, c@, low, high, effect) is Some,
        ok ==> final(db)@ == (PolicyView {
            avtab: xp_exclude_result(old(db)@, s@, t@, c@, low, high, effect).unwrap(),
            ..old(db)@
        }),
        !ok ==> *final(db) == *old(db),
{
    match xperm_rule_keys(db, s, t, c, effect) {
        Some(keys) => {
            exclude_xperm_rules(&mut db.te_avtab, &keys, low, high);
            true
        },
        None => false,
    }
}

// ---- type rules ----

/// The access vector table after a type rule (transition, member or
/// change) from `s` to `d`, or `None` when a name does not exist or a rule
/// of the same key is already present.
pub open spec fn type_rule_result(db: PolicyView, s: Seq<char>, t: Seq<char>, c: Seq<char>, d: Seq<char>, effect: u16) -> Option<Seq<AvNode>> {
    match (
        type_lookup(db.types, s),
        type_lookup(db.types, t),
        class_lookup(db.classes, c),
        type_lookup(db.types, d),
    ) {
        (Some(si), Some(ti), Some(ci), Some(di)) => {
            let key = avtab_key {
                source_type: db.types[si].value as u16,
                target_type: db.types[ti].value as u16,
                target_class: db.classes[ci].value as u16,
                specified: effect,
            };
            let av = db.avtab;
            if av_find(av, key) is Some {
                None
            } else {
                Some(av.push(AvNode { key, data: db.types[di].value, xperms: None }))
            }
        },
        _ => None,
    }
}

/// Adds a type rule: for `s` acting on `t` of class `c`, the default type
/// is `d`. Returns false, changing nothing, when a name does not exist or a
/// rule of the same key is present.
#[verifier::spinoff_prover]
pub fn sepol_add_type_rule(db: &mut policydb, s: &str, t: &str, c: &str, d: &str, effect: u16) -> (ok: bool)
    requires
        old(db).wf(),
    ensures
        final(db).wf(),
        ok == type_rule_result(old(db)@, s@, t@, c@, d@, effect) is Some,
        ok ==> final(db)@ == (PolicyView {
            avtab: type_rule_result(old(db)@, s@, t@, c@, d@, effect).unwrap(),
            ..old(db)@
        }),
        !ok ==> *final(db) == *old(db),
{
    proof {
        lemma_find_first(types_view(db.types@), |x: TypeView| x.name == s@);
        lemma_find_first(types_view(db.types@), |x: TypeView| x.name == t@);
        lemma_find_first(types_view(db.types@), |x: TypeView| x.name == d@);
        lemma_find_first(classes_view(db.classes@), |x: ClassView| x.name == c@);
    }
    let src = match find_type(db, s) {
        Some(i) => i,
        None => return false,
    };
    let tgt = match find_type(db, t) {
        Some(i) => i,
        None => return false,
    };
    let cls = match find_class(db, c) {
        Some(i) => i,
        None => return false,
    };
    let def = match find_type(db, d) {
        Some(i) => i,
        None => return false,
    };
    let key = avtab_key {
        source_type: db.types[src].s.value as u16,
        target_type: db.types[tgt].s.value as u16,
        target_class: db.classes[cls].s.value as u16,
        specified: effect,
    };
    if find_node(&db.te_avtab, key).is_some() {
        return false;
    }
    let n = avtab_node { key, datum: avtab_datum { data: db.types[def].s.value, xperms: None } };
    proof {
        lemma_av_wf_push(db.te_avtab@, n);
    }
    db.te_avtab.push(n);
    true
}

// ---- name-based type transitions ----

/// Whether a transition datum decides the search for `sbit` and `dv`: it
/// already covers the source, or it already leads to the default type.
pub open spec fn ft_decides(d: FtDatumView, sbit: u32, dv: u32) -> bool {
    d.stypes.contains(sbit) || d.otype == dv
}

/// The transitions after adding the one for source bit `sbit`, target
/// `tv`, class `cv` and object name `name`, to default type `dv`, with the
/// count of source entries. The first datum of the key that covers the
/// source gets the new default; otherwise the first datum that leads to
/// the default gets the source; otherwise a new datum is appended.
pub open spec fn ft_add(ft: Seq<FtChainView>, count: u32, tv: u32, cv: u32, name: Seq<char>, sbit: u32, dv: u32) -> (Seq<FtChainView>, u32) {
    match find_first(ft, |ch: FtChainView| ch.ttype == tv && ch.tclass == cv && ch.name == name) {
        None => (
            ft.push(
                FtChainView {
                    ttype: tv,
                    tclass: cv,
                    name,
                    datums: seq![FtDatumView { stypes: set![sbit], otype: dv }],
                },
            ),
            count.wrapping_add(1),
        ),
        Some(ci) => {
            let ch = ft[ci];
            let ds = ch.datums;
            match find_first(ds, |d: FtDatumView| ft_decides(d, sbit, dv)) {
                Some(k) => if ds[k].stypes.contains(sbit) {
                    (
                        ft.update(
                            ci,
                            FtChainView {
                                datums: ds.update(k, FtDatumView { stypes: ds[k].stypes, otype: dv }),
                                ..ch
                            },
                        ),
                        count,
                    )
                } else {
                    (
                        ft.update(
                            ci,
                            FtChainView {
                                datums: ds.update(
                                    k,
                                    FtDatumView { stypes: ds[k].stypes.insert(sbit), otype: ds[k].otype },
                                ),
                                ..ch
                            },
                        ),
                        count.wrapping_add(1),
                    )
                },
                None => (
                    ft.update(
                        ci,
                        FtChainView {
                            datums: ds.push(FtDatumView { stypes: set![sbit], otype: dv }),
                            ..ch
                        },
                    ),
                    count.wrapping_add(1),
                ),
            }
        },
    }
}

/// The transitions and their count after a name-based type transition, or
/// `None` when a name does not exist or the transition is refused.
pub open spec fn ft_result(db: PolicyView, s: Seq<char>, t: Seq<char>, c: Seq<char>, d: Seq<char>, o: Seq<char>) -> Option<(Seq<FtChainView>, u32)> {
    match (
        type_lookup(db.types, s),
        type_lookup(db.types, t),
        class_lookup(db.classes, c),
        type_lookup(db.types, d),
    ) {
        (Some(si), Some(ti), Some(ci), Some(di)) => if ft_refused(
            db.filename_trans,
            db.types[ti].value,
            db.classes[ci].value,
            o,
            (db.types[si].value - 1) as u32,
            db.types[di].value,
        ) {
            None
        } else {
            Some(
                ft_add(
                    db.filename_trans,
                    db.filename_trans_count,
                    db.types[ti].value,
                    db.classes[ci].value,
                    o,
                    (db.types[si].value - 1) as u32,
                    db.types[di].value,
                ),
            )
        },
        _ => None,
    }
}

/// The transition the table refuses: the key has transitions and the
/// first of them, without the source, already leads to the default. The
/// new source would join that first datum, which the table cannot take
/// as a second entry of its key.
pub open spec fn ft_refused(ft: Seq<FtChainView>, tv: u32, cv: u32, name: Seq<char>, sbit: u32, dv: u32) -> bool {
    match find_first(ft, |ch: FtChainView| ch.ttype == tv && ch.tclass == cv && ch.name == name) {
        Some(ci) => {
            let ds = ft[ci].datums;
            ds.len() > 0 && !ds[0].stypes.contains(sbit) && ds[0].otype == dv
        },
        None => false,
    }
}

fn find_ft_chain(ft: &Vec<filename_trans_chain>, tv: u32, cv: u32, name: &str) -> (r: Option<usize>)
    ensures
        ({
            let pred = |ch: FtChainView| ch.ttype == tv && ch.tclass == cv && ch.name == name@;
            &&& r matches Some(i) ==> find_first(filename_trans_view(ft@), pred) == Some(i as int)
                && i < ft@.len()
            &&& r is None ==> find_first(filename_trans_view(ft@), pred) is None
        }),
{
    let ghost pred = |ch: FtChainView| ch.ttype == tv && ch.tclass == cv && ch.name == name@;
    let ghost v = filename_trans_view(ft@);
    let mut i: usize = 0;
    while i < ft.len()
        invariant
            i <= ft@.len(),
            v == filename_trans_view(ft@),
            pred == (|ch: FtChainView| ch.ttype == tv && ch.tclass == cv && ch.name == name@),
            forall|j: int| 0 <= j < i ==> !pred(#[trigger] v[j]),
        decreases ft@.len() - i,
    {
        let ch = &ft[i];
        let hit = ch.key.ttype == tv && ch.key.tclass == cv && str_equals(ch.key.name.as_str(), name);
        assert(hit == pred(v[i as int]));
        if hit {
            proof {
                lemma_find_first_at(v, pred, i as int);
            }
            return Some(i);
        }
        i = i + 1;
    }
    proof {
        lemma_find_first_none(v, pred);
    }
    None
}

fn find_ft_datum(ds: &Vec<filename_trans_datum>, sbit: u32, dv: u32) -> (r: Option<usize>)
    ensures
        ({
            let v = ds@.map_values(|d: filename_trans_datum| d@);
            let pred = |d: FtDatumView| ft_decides(d, sbit, dv);
            &&& r matches Some(i) ==> find_first(v, pred) == Some(i as int) && i < ds@.len()
            &&& r is None ==> find_first(v, pred) is None
        }),
{
    let ghost pred = |d: FtDatumView| ft_decides(d, sbit, dv);
    let ghost v = ds@.map_values(|d: filename_trans_datum| d@);
    let mut i: usize = 0;
    while i < ds.len()
        invariant
            i <= ds@.len(),
            v == ds@.map_values(|d: filename_trans_datum| d@),
            pred == (|d: FtDatumView| ft_decides(d, sbit, dv)),
            forall|j: int| 0 <= j < i ==> !pred(#[trigger] v[j]),
        decreases ds@.len() - i,
    {
        let hit = ds[i].stypes.get_bit(sbit) || ds[i].otype == dv;
        assert(hit == pred(v[i as int]));
        if hit {
            proof {
                lemma_find_first_at(v, pred, i as int);
            }
            return Some(i);
        }
        i = i + 1;
    }
    proof {
        lemma_find_first_none(v, pred);
    }
    None
}

fn single_bit(bit: u32) -> (e: ebitmap)
    ensures
        e@ == set![bit],
{
    let mut e = ebitmap::new();
    e.set_bit(bit, true);
    assert(e@ =~= set![bit]);
    e
}

/// Adds a name-based type transition: `s` creating an object named `o` of
/// class `c` in `t` gets type `d`. Returns false, changing nothing, when a
/// name does not exist or the transition is refused (`ft_refused`).
#[verifier::spinoff_prover]
pub fn sepol_add_filename_trans(db: &mut policydb, s: &str, t: &str, c: &str, d: &str, o: &str) -> (ok: bool)
    requires
        old(db).wf(),
    ensures
        final(db).wf(),
        ok == ft_result(old(db)@, s@, t@, c@, d@, o@) is Some,
        ok ==> final(db)@ == (PolicyView {
            filename_trans: ft_result(old(db)@, s@, t@, c@, d@, o@).unwrap().0,
            filename_trans_count: ft_result(old(db)@, s@, t@, c@, d@, o@).unwrap().1,
            ..old(db)@
        }),
        !ok ==> *final(db) == *old(db),
{
    proof {
        lemma_find_first(types_view(db.types@), |x: TypeView| x.name == s@);
        lemma_find_first(types_view(db.types@), |x: TypeView| x.name == t@);
        lemma_find_first(types_view(db.types@), |x: TypeView| x.name == d@);
        lemma_find_first(classes_view(db.classes@), |x: ClassView| x.name == c@);
    }
    let src = match find_type(db, s) {
        Some(i) => i,
        None => return false,
    };
    let tgt = match find_type(db, t) {
        Some(i) => i,
        None => return false,
    };
    let cls = match find_class(db, c) {
        Some(i) => i,
        None => return false,
    };
    let def = match find_type(db, d) {
        Some(i) => i,
        None => return false,
    };
    let tv = db.types[tgt].s.value;
    let cv = db.classes[cls].s.value;
    let sbit = db.types[src].s.value - 1;
    let dv = db.types[def].s.value;
    let ghost ft0 = filename_trans_view(db.filename_trans@);
    let ghost pred = |ch: FtChainView| ch.ttype == tv && ch.tclass == cv && ch.name == o@;
    proof {
        lemma_find_first(ft0, pred);
    }
    match find_ft_chain(&db.filename_trans, tv, cv, o) {
        None => {
            let datum = filename_trans_datum { stypes: single_bit(sbit), otype: dv };
            let chain = filename_trans_chain {
                key: filename_trans_key { ttype: tv, tclass: cv, name: String::from_str(o) },
                datums: vec![datum],
            };
            assert(chain@.datums =~= seq![FtDatumView { stypes: set![sbit], otype: dv }]);
            db.filename_trans.push(chain);
            db.filename_trans_count = db.filename_trans_count.wrapping_add(1);
            assert(filename_trans_view(db.filename_trans@) =~= ft0.push(chain@));
        },
        Some(ci) => {
            let ghost before = db.filename_trans@;
            assert(before[ci as int]@ == ft0[ci as int]);
            assert(before[ci as int]@.datums == before[ci as int].datums@.map_values(
                |x: filename_trans_datum| x@,
            ));
            if db.filename_trans[ci].datums.len() > 0 {
                let first = &db.filename_trans[ci].datums[0];
                assert(first@ == ft0[ci as int].datums[0]);
                if !first.stypes.get_bit(sbit) && first.otype == dv {
                    return false;
                }
            }
            let mut chain = db.filename_trans.remove(ci);
            let ghost ch0 = chain@;
            let ghost ds0 = chain.datums@;
            let ghost dv0 = ds0.map_values(|x: filename_trans_datum| x@);
            assert(ch0 == ft0[ci as int]);
            proof {
                lemma_find_first(dv0, |x: FtDatumView| ft_decides(x, sbit, dv));
            }
            match find_ft_datum(&chain.datums, sbit, dv) {
                Some(k) => {
                    let mut dt = chain.datums.remove(k);
                    assert(dt@ == dv0[k as int]);
                    if dt.stypes.get_bit(sbit) {
                        dt.otype = dv;
                    } else {
                        dt.stypes.set_bit(sbit, true);
                        db.filename_trans_count = db.filename_trans_count.wrapping_add(1);
                    }
                    chain.datums.insert(k, dt);
                    assert(chain.datums@ =~= ds0.update(k as int, dt));
                    assert(chain@.datums =~= dv0.update(k as int, dt@));
                },
                None => {
                    let datum = filename_trans_datum { stypes: single_bit(sbit), otype: dv };
                    chain.datums.push(datum);
                    db.filename_trans_count = db.filename_trans_count.wrapping_add(1);
                    assert(chain@.datums =~= dv0.push(datum@));
                },
            }
            db.filename_trans.insert(ci, chain);
            assert(db.filename_trans@ =~= before.update(ci as int, chain));
            assert(filename_trans_view(db.filename_trans@) =~= ft0.update(ci as int, chain@));
        },
    }
    true
}

// ---- types and attributes ----

/// A role after a new type of bit `bit` is added to it.
pub open spec fn role_with_type(r: RoleView, bit: u32) -> RoleView {
    RoleView {
        types: TypeSetView {
            types: r.types.types.insert(bit),
            negset: r.types.negset.remove(bit),
            flags: r.types.flags,
        },
        ..r
    }
}

/// The database after adding the type (or attribute) `name`: unchanged
/// when the name exists, `None` when the type table is full, else the new
/// type gets the next value, is its own attribute in the type-to-attribute
/// map, and every role may enter it.
pub open spec fn add_type_result(db: PolicyView, name: Seq<char>, flavor: u32) -> Option<PolicyView> {
    let n = db.types.len();
    if type_lookup(db.types, name) is Some {
        Some(db)
    } else if n >= 0xFFFF {
        None
    } else {
        Some(
            PolicyView {
                types: db.types.push(TypeView { name, value: (n + 1) as u32, flavor }),
                type_attr_map: db.type_attr_map.push(set![n as u32]),
                attr_type_map: db.attr_type_map.push(Set::<u32>::empty()),
                roles: db.roles.map_values(|r: RoleView| role_with_type(r, n as u32)),
                ..db
            },
        )
    }
}

/// Adds the type (or, with flavor `TYPE_ATTRIB`, the attribute) `name`.
/// Nothing changes when a type of that name exists, which is success, or
/// when the type table is full, which is failure. A new type gets the next
/// value, is its own attribute in the type-to-attribute map, and every role
/// may enter it.
#[verifier::spinoff_prover]
pub fn sepol_add_type(db: &mut policydb, name: &str, flavor: u32) -> (ok: bool)
    requires
        old(db).wf(),
    ensures
        final(db).wf(),
        ok == add_type_result(old(db)@, name@, flavor) is Some,
        ok ==> final(db)@ == add_type_result(old(db)@, name@, flavor).unwrap(),
        !ok ==> *final(db) == *old(db),
        type_lookup(old(db)@.types, name@) is Some ==> *final(db) == *old(db),
{
    if find_type(db, name).is_some() {
        return true;
    }
    let n = db.types.len();
    if n >= 0xFFFF {
        return false;
    }
    let value = (n + 1) as u32;
    let ghost types0 = db.types@;
    let ghost roles0 = roles_view(db.roles@);
    db.types.push(type_datum { name: String::from_str(name), s: symtab_datum { value }, flavor });
    assert(types_view(db.types@) =~= types_view(types0).push(
        TypeView { name: name@, value, flavor },
    ));
    let ghost tam = bitmaps_view(db.type_attr_map@);
    let ghost atm = bitmaps_view(db.attr_type_map@);
    db.type_attr_map.push(single_bit(n as u32));
    db.attr_type_map.push(ebitmap::new());
    assert(bitmaps_view(db.type_attr_map@) =~= tam.push(set![n as u32]));
    assert(bitmaps_view(db.attr_type_map@) =~= atm.push(Set::<u32>::empty()));
    let ghost mid = *db;
    let ghost raw0 = db.roles@;
    let mut i: usize = 0;
    while i < db.roles.len()
        invariant
            i <= db.roles@.len(),
            db.roles@.len() == roles0.len(),
            roles0 == roles_view(raw0),
            raw0 == old(db).roles@,
            n < 0xFFFF,
            *db == (policydb { roles: db.roles, ..mid }),
            forall|j: int| 0 <= j < db.roles@.len() ==> (#[trigger] db.roles@[j]).s == raw0[j].s,
            forall|j: int| 0 <= j < i ==> (#[trigger] roles_view(db.roles@)[j]) == role_with_type(roles0[j], n as u32),
            forall|j: int| i <= j < db.roles@.len() ==> (#[trigger] roles_view(db.roles@)[j]) == roles0[j],
        decreases db.roles@.len() - i,
    {
        let ghost before = db.roles@;
        assert(roles_view(before)[i as int] == before[i as int]@);
        let mut r = db.roles.remove(i);
        assert(r@ == roles0[i as int]);
        r.types.negset.set_bit(n as u32, false);
        r.types.types.set_bit(n as u32, true);
        db.roles.insert(i, r);
        assert(db.roles@ =~= before.update(i as int, r));
        assert(r@ == role_with_type(roles0[i as int], n as u32));
        proof {
            assert forall|j: int| 0 <= j < db.roles@.len() && j != i implies (#[trigger] roles_view(db.roles@)[j]) == roles_view(before)[j] by {
                assert(db.roles@[j] == before[j]);
            }
        }
        i = i + 1;
    }
    assert forall|j: int| 0 <= j < db.types@.len() implies (#[trigger] db.types@[j]).s.value == j + 1 by {
        if j < n {
            assert(db.types@[j] == old(db).types@[j]);
        }
    }
    assert(roles_view(db.roles@) =~= roles0.map_values(|r: RoleView| role_with_type(r, n as u32)));
    true
}

/// The permissive set after `sepol_set_type_state`: a named type's value
/// is added or removed; no name means the values of all types.
pub open spec fn permissive_after(old_map: Set<u32>, value: Option<u32>, n: nat, permissive: bool) -> Set<u32> {
    match value {
        Some(v) => if permissive {
            old_map.insert(v)
        } else {
            old_map.remove(v)
        },
        None => if permissive {
            old_map.union(Set::new(|b: u32| 1 <= b <= n))
        } else {
            old_map.difference(Set::new(|b: u32| 1 <= b <= n))
        },
    }
}

/// The database after making a type permissive or enforcing (every type
/// for an empty name), or `None` when the named type does not exist.
pub open spec fn type_state_result(db: PolicyView, name: Seq<char>, permissive: bool) -> Option<PolicyView> {
    let value = if name.len() == 0 {
        None
    } else {
        match type_lookup(db.types, name) {
            Some(i) => Some(db.types[i].value),
            None => None,
        }
    };
    if name.len() > 0 && value is None {
        None
    } else {
        Some(
            PolicyView {
                permissive_map: permissive_after(db.permissive_map, value, db.types.len(), permissive),
                ..db
            },
        )
    }
}

/// Makes a type permissive, or enforcing; an empty name means every type.
/// Returns false, changing nothing, when the named type does not exist.
pub fn sepol_set_type_state(db: &mut policydb, name: &str, permissive: bool) -> (ok: bool)
    requires
        old(db).wf(),
    ensures
        final(db).wf(),
        ok == type_state_result(old(db)@, name@, permissive) is Some,
        ok ==> final(db)@ == type_state_result(old(db)@, name@, permissive).unwrap(),
        !ok ==> *final(db) == *old(db),
{
    if name.unicode_len() > 0 {
        proof {
            lemma_find_first(types_view(db.types@), |x: TypeView| x.name == name@);
        }
        match find_type(db, name) {
            Some(i) => {
                let v = db.types[i].s.value;
                db.permissive_map.set_bit(v, permissive);
                true
            },
            None => false,
        }
    } else {
        let n = db.types.len() as u32;
        let ghost m0 = db.permissive_map@;
        let mut i: u32 = 0;
        while i < n
            invariant
                i <= n,
                n == old(db).types@.len(),
                *db == (policydb { permissive_map: db.permissive_map, ..*old(db) }),
                m0 == old(db).permissive_map@,
                db.permissive_map@ == (if permissive {
                    m0.union(Set::new(|b: u32| 1 <= b <= i))
                } else {
                    m0.difference(Set::new(|b: u32| 1 <= b <= i))
                }),
            decreases n - i,
        {
            db.permissive_map.set_bit(i + 1, permissive);
            if permissive {
                assert(db.permissive_map@ =~= m0.union(Set::new(|b: u32| 1 <= b <= i + 1)));
            } else {
                assert(db.permissive_map@ =~= m0.difference(Set::new(|b: u32| 1 <= b <= i + 1)));
            }
            i = i + 1;
        }
        true
    }
}

/// A constraint term after type bit `tbit` joins attribute bit `abit`: a
/// term over names that lists the attribute also lists the type.
pub open spec fn expr_with_attr(e: ExprView, abit: u32, tbit: u32) -> ExprView {
    if e.expr_type == CEXPR_NAMES && (e.type_names matches Some(ts) && ts.types.contains(abit)) {
        ExprView { names: e.names.insert(tbit), ..e }
    } else {
        e
    }
}

/// A constraint after a type joins an attribute.
pub open spec fn constraint_with_attr(c: ConstraintView, abit: u32, tbit: u32) -> ConstraintView {
    ConstraintView {
        permissions: c.permissions,
        expr: c.expr.map_values(|e: ExprView| expr_with_attr(e, abit, tbit)),
    }
}

/// A class after a type joins an attribute.
pub open spec fn class_with_attr(c: ClassView, abit: u32, tbit: u32) -> ClassView {
    ClassView {
        constraints: c.constraints.map_values(|k: ConstraintView| constraint_with_attr(k, abit, tbit)),
        ..c
    }
}

fn expand_expr(e: &mut constraint_expr, abit: u32, tbit: u32)
    ensures
        final(e)@ == expr_with_attr(old(e)@, abit, tbit),
{
    let hit = e.expr_type == CEXPR_NAMES && match &e.type_names {
        Some(ts) => ts.types.get_bit(abit),
        None => false,
    };
    if hit {
        e.names.set_bit(tbit, true);
    }
}

fn expand_constraint(c: &mut constraint_node, abit: u32, tbit: u32)
    ensures
        final(c)@ == constraint_with_attr(old(c)@, abit, tbit),
{
    let ghost ex0 = c.expr@.map_values(|e: constraint_expr| e@);
    let mut i: usize = 0;
    while i < c.expr.len()
        invariant
            i <= c.expr@.len(),
            c.expr@.len() == ex0.len(),
            c.permissions == old(c).permissions,
            ex0 == old(c).expr@.map_values(|e: constraint_expr| e@),
            forall|j: int| 0 <= j < i ==> (#[trigger] c.expr@[j])@ == expr_with_attr(ex0[j], abit, tbit),
            forall|j: int| i <= j < c.expr@.len() ==> (#[trigger] c.expr@[j])@ == ex0[j],
        decreases c.expr@.len() - i,
    {
        let ghost before = c.expr@;
        let mut e = c.expr.remove(i);
        assert(e@ == ex0[i as int]);
        expand_expr(&mut e, abit, tbit);
        c.expr.insert(i, e);
        assert(c.expr@ =~= before.update(i as int, e));
        i = i + 1;
    }
    assert(c@.expr =~= ex0.map_values(|e: ExprView| expr_with_attr(e, abit, tbit)));
}

fn expand_class(cls: &mut class_datum, abit: u32, tbit: u32)
    ensures
        final(cls)@ == class_with_attr(old(cls)@, abit, tbit),
        final(cls).s == old(cls).s,
        final(cls).permissions == old(cls).permissions,
        final(cls).common_permissions == old(cls).common_permissions,
{
    let ghost cs0 = cls.constraints@.map_values(|k: constraint_node| k@);
    let mut i: usize = 0;
    while i < cls.constraints.len()
        invariant
            i <= cls.constraints@.len(),
            cls.constraints@.len() == cs0.len(),
            cls.s == old(cls).s,
            cls.name == old(cls).name,
            cls.permissions == old(cls).permissions,
            cls.common_permissions == old(cls).common_permissions,
            cs0 == old(cls).constraints@.map_values(|k: constraint_node| k@),
            forall|j: int| 0 <= j < i ==> (#[trigger] cls.constraints@[j])@ == constraint_with_attr(cs0[j], abit, tbit),
            forall|j: int| i <= j < cls.constraints@.len() ==> (#[trigger] cls.constraints@[j])@ == cs0[j],
        decreases cls.constraints@.len() - i,
    {
        let ghost before = cls.constraints@;
        let mut k = cls.constraints.remove(i);
        assert(k@ == cs0[i as int]);
        expand_constraint(&mut k, abit, tbit);
        cls.constraints.insert(i, k);
        assert(cls.constraints@ =~= before.update(i as int, k));
        i = i + 1;
    }
    assert(cls@.constraints =~= cs0.map_values(|k: ConstraintView| constraint_with_attr(k, abit, tbit)));
}

/// The result of `sepol_add_typeattribute`: the indices of the type and of
/// the attribute, when `tname` names a type that is not an attribute
/// and `aname` names an attribute.
pub open spec fn typeattribute_operands(db: PolicyView, tname: Seq<char>, aname: Seq<char>) -> Option<(int, int)> {
    match (type_lookup(db.types, tname), type_lookup(db.types, aname)) {
        (Some(ti), Some(ai)) => if db.types[ti].flavor != TYPE_ATTRIB && db.types[ai].flavor
            == TYPE_ATTRIB {
            Some((ti, ai))
        } else {
            None
        },
        _ => None,
    }
}

/// The database after type `tname` joins attribute `aname`, or `None`
/// unless `tname` names a type that is not an attribute and `aname` an
/// attribute.
pub open spec fn typeattribute_result(db: PolicyView, tname: Seq<char>, aname: Seq<char>) -> Option<PolicyView> {
    match typeattribute_operands(db, tname, aname) {
        Some((ti, ai)) => Some(
            PolicyView {
                type_attr_map: db.type_attr_map.update(ti, db.type_attr_map[ti].insert(ai as u32)),
                attr_type_map: db.attr_type_map.update(ai, db.attr_type_map[ai].insert(ti as u32)),
                classes: db.classes.map_values(|c: ClassView| class_with_attr(c, ai as u32, ti as u32)),
                ..db
            },
        ),
        None => None,
    }
}

/// Makes a type a member of an attribute: the two maps record it, and
/// every constraint term over names that lists the attribute lists the type
/// too. Returns false, changing nothing, unless `tname` names a type
/// that is not an attribute and `aname` names an attribute.
#[verifier::spinoff_prover]
pub fn sepol_add_typeattribute(db: &mut policydb, tname: &str, aname: &str) -> (ok: bool)
    requires
        old(db).wf(),
    ensures
        final(db).wf(),
        ok == typeattribute_result(old(db)@, tname@, aname@) is Some,
        ok ==> final(db)@ == typeattribute_result(old(db)@, tname@, aname@).unwrap(),
        !ok ==> *final(db) == *old(db),
{
    proof {
        lemma_find_first(types_view(db.types@), |x: TypeView| x.name == tname@);
        lemma_find_first(types_view(db.types@), |x: TypeView| x.name == aname@);
    }
    let ti = match find_type(db, tname) {
        Some(i) => i,
        None => return false,
    };
    if db.types[ti].flavor == TYPE_ATTRIB {
        return false;
    }
    let ai = match find_type(db, aname) {
        Some(i) => i,
        None => return false,
    };
    if db.types[ai].flavor != TYPE_ATTRIB {
        return false;
    }
    let tbit = ti as u32;
    let abit = ai as u32;
    let ghost tam = bitmaps_view(db.type_attr_map@);
    let ghost atm = bitmaps_view(db.attr_type_map@);
    let ghost tam_ti = db.type_attr_map@[ti as int];
    let ghost atm_ai = db.attr_type_map@[ai as int];
    let ghost before = db.type_attr_map@;
    let mut m = db.type_attr_map.remove(ti);
    m.set_bit(abit, true);
    db.type_attr_map.insert(ti, m);
    assert(db.type_attr_map@ =~= before.update(ti as int, m));
    assert(bitmaps_view(db.type_attr_map@) =~= tam.update(ti as int, tam_ti@.insert(abit)));
    let ghost before2 = db.attr_type_map@;
    let mut m2 = db.attr_type_map.remove(ai);
    m2.set_bit(tbit, true);
    db.attr_type_map.insert(ai, m2);
    assert(db.attr_type_map@ =~= before2.update(ai as int, m2));
    assert(bitmaps_view(db.attr_type_map@) =~= atm.update(ai as int, atm_ai@.insert(tbit)));
    let ghost cls0 = classes_view(db.classes@);
    let ghost raw0 = db.classes@;
    let ghost mid = *db;
    let mut i: usize = 0;
    while i < db.classes.len()
        invariant
            i <= db.classes@.len(),
            db.classes@.len() == cls0.len(),
            cls0 == classes_view(raw0),
            raw0 == old(db).classes@,
            *db == (policydb { classes: db.classes, ..mid }),
            forall|j: int| 0 <= j < i ==> (#[trigger] db.classes@[j])@ == class_with_attr(cls0[j], abit, tbit),
            forall|j: int| i <= j < db.classes@.len() ==> (#[trigger] db.classes@[j])@ == cls0[j],
            forall|j: int| 0 <= j < db.classes@.len() ==> (#[trigger] db.classes@[j]).s == raw0[j].s
                && db.classes@[j].permissions == raw0[j].permissions
                && db.classes@[j].common_permissions == raw0[j].common_permissions,
        decreases db.classes@.len() - i,
    {
        let ghost before = db.classes@;
        let mut c = db.classes.remove(i);
        assert(c@ == cls0[i as int]);
        expand_class(&mut c, abit, tbit);
        db.classes.insert(i, c);
        assert(db.classes@ =~= before.update(i as int, c));
        i = i + 1;
    }
    assert(classes_view(db.classes@) =~= cls0.map_values(|c: ClassView| class_with_attr(c, abit, tbit)));
    true
}

/// Drops every constraint of every class.
pub fn sepol_disable_neverallow(db: &mut policydb)
    requires
        old(db).wf(),
    ensures
        final(db).wf(),
        final(db).classes@.len() == old(db).classes@.len(),
        forall|i: int| 0 <= i < final(db).classes@.len() ==> (#[trigger] final(db).classes@[i])@ == (
        ClassView { constraints: Seq::empty(), ..old(db).classes@[i]@ }),
        *final(db) == (policydb { classes: final(db).classes, ..*old(db) }),
{
    let mut i: usize = 0;
    while i < db.classes.len()
        invariant
            i <= db.classes@.len(),
            db.classes@.len() == old(db).classes@.len(),
            *db == (policydb { classes: db.classes, ..*old(db) }),
            forall|j: int| 0 <= j < i ==> (#[trigger] db.classes@[j])@ == (ClassView { constraints: Seq::empty(), ..old(db).classes@[j]@ }),
            forall|j: int| i <= j < db.classes@.len() ==> (#[trigger] db.classes@[j]) == old(db).classes@[j],
            forall|j: int| 0 <= j < db.classes@.len() ==> (#[trigger] db.classes@[j]).s == old(db).classes@[j].s
                && db.classes@[j].permissions == old(db).classes@[j].permissions
                && db.classes@[j].common_permissions == old(db).classes@[j].common_permissions,
        decreases db.classes@.len() - i,
    {
        let ghost before = db.classes@;
        let mut c = db.classes.remove(i);
        c.constraints = Vec::new();
        db.classes.insert(i, c);
        assert(db.classes@ =~= before.update(i as int, c));
        assert(c@.constraints =~= Seq::<ConstraintView>::empty());
        i = i + 1;
    }
}

impl ebitmap {
    /// A bitmap with the same bits.
    pub fn copy(&self) -> (e: Self)
        ensures
            e@ == self@,
    {
        let mut bits: Vec<u32> = Vec::new();
        let mut i: usize = 0;
        while i < self.bits.len()
            invariant
                i <= self.bits@.len(),
                bits@ == self.bits@.take(i as int),
            decreases self.bits@.len() - i,
        {
            bits.push(self.bits[i]);
            assert(self.bits@.take(i + 1) =~= self.bits@.take(i as int).push(self.bits@[i as int]));
            i = i + 1;
        }
        assert(self.bits@.take(self.bits@.len() as int) =~= self.bits@);
        ebitmap { bits }
    }
}

/// Gives `dst` the policy capabilities of `src`.
pub fn sepol_preserve_policycaps(dst: &mut policydb, src: &policydb)
    requires
        old(dst).wf(),
    ensures
        final(dst).wf(),
        final(dst).policycaps@ == src.policycaps@,
        *final(dst) == (policydb { policycaps: final(dst).policycaps, ..*old(dst) }),
{
    dst.policycaps = src.policycaps.copy();
}

/// The Android-specific flags.
pub fn sepol_get_android_flags(db: &policydb) -> (flags: u32)
    ensures
        flags == db.android_extra,
{
    db.android_extra
}

/// Sets the Android-specific flags.
pub fn sepol_set_android_flags(db: &mut policydb, flags: u32)
    requires
        old(db).wf(),
    ensures
        final(db).wf(),
        *final(db) == (policydb { android_extra: flags, ..*old(db) }),
{
    db.android_extra = flags;
}

/// The empty database of a policy version.
pub open spec fn empty_policy(policyvers: u32) -> PolicyView {
    PolicyView {
        types: seq![],
        classes: seq![],
        roles: seq![],
        users: seq![],
        avtab: seq![],
        filename_trans: seq![],
        filename_trans_count: 0,
        genfs: seq![],
        type_attr_map: seq![],
        attr_type_map: seq![],
        permissive_map: Set::empty(),
        policycaps: Set::empty(),
        policyvers,
        android_extra: 0,
    }
}

/// An empty policy database of the given version.
pub fn sepol_db_new(policyvers: u32) -> (db: policydb)
    ensures
        db.wf(),
        db@ == empty_policy(policyvers),
{
    let db = policydb {
        types: Vec::new(),
        classes: Vec::new(),
        roles: Vec::new(),
        users: Vec::new(),
        te_avtab: Vec::new(),
        filename_trans: Vec::new(),
        filename_trans_count: 0,
        genfs: Vec::new(),
        type_attr_map: Vec::new(),
        attr_type_map: Vec::new(),
        permissive_map: ebitmap::new(),
        policycaps: ebitmap::new(),
        policyvers,
        android_extra: 0,
    };
    assert(db@.types =~= Seq::<TypeView>::empty());
    assert(db@.classes =~= Seq::<ClassView>::empty());
    assert(db@.roles =~= Seq::<RoleView>::empty());
    assert(db@.users =~= Seq::<(Seq<char>, u32)>::empty());
    assert(db@.avtab =~= Seq::<AvNode>::empty());
    assert(db@.filename_trans =~= Seq::<FtChainView>::empty());
    assert(db@.genfs =~= Seq::<GenfsView>::empty());
    assert(db@.type_attr_map =~= Seq::<Set<u32>>::empty());
    assert(db@.attr_type_map =~= Seq::<Set<u32>>::empty());
    db
}

// ---- file system contexts ----

/// The index of the role named `name`.
pub open spec fn role_lookup(roles: Seq<RoleView>, name: Seq<char>) -> Option<int> {
    find_first(roles, |r: RoleView| r.name == name)
}

/// The index of the user named `name`.
pub open spec fn user_lookup(users: Seq<(Seq<char>, u32)>, name: Seq<char>) -> Option<int> {
    find_first(users, |u: (Seq<char>, u32)| u.0 == name)
}

/// Splits `user:role:type[:range]`.
pub open spec fn split_context(ctx: Seq<char>) -> Option<(Seq<char>, Seq<char>, Seq<char>, Seq<char>)> {
    match find_char(ctx, ':') {
        None => None,
        Some(i) => {
            let r1 = ctx.skip(i + 1);
            match find_char(r1, ':') {
                None => None,
                Some(j) => {
                    let r2 = r1.skip(j + 1);
                    match find_char(r2, ':') {
                        Some(k) => Some((ctx.take(i), r1.take(j), r2.take(k), r2.skip(k + 1))),
                        None => Some((ctx.take(i), r1.take(j), r2, seq![])),
                    }
                },
            }
        },
    }
}

/// The context that `ctx` denotes: its user, role and type must exist; the
/// range is kept as written.
pub open spec fn context_parse(db: PolicyView, ctx: Seq<char>) -> Option<ContextView> {
    match split_context(ctx) {
        None => None,
        Some((u, r, t, range)) => match (
            user_lookup(db.users, u),
            role_lookup(db.roles, r),
            type_lookup(db.types, t),
        ) {
            (Some(ui), Some(ri), Some(ti)) => Some(
                ContextView {
                    user: db.users[ui].1,
                    role: db.roles[ri].value,
                    type_: db.types[ti].value,
                    range,
                },
            ),
            _ => None,
        },
    }
}

/// Whether a path entry is the one of `path`.
pub open spec fn path_is(path: Seq<char>) -> spec_fn((Seq<char>, ContextView)) -> bool {
    |e: (Seq<char>, ContextView)| e.0 == path
}

/// The file system contexts after giving `path` of file system `fs` the
/// context `ctx`: a new file system or a new path goes first.
pub open spec fn genfs_add(gs: Seq<GenfsView>, fs: Seq<char>, path: Seq<char>, ctx: ContextView) -> Seq<GenfsView> {
    match find_first(gs, |g: GenfsView| g.fstype == fs) {
        None => seq![GenfsView { fstype: fs, entries: seq![(path, ctx)] }] + gs,
        Some(gi) => {
            let es = gs[gi].entries;
            let es2 = match find_first(es, path_is(path)) {
                None => seq![(path, ctx)] + es,
                Some(k) => es.update(k, (path, ctx)),
            };
            gs.update(gi, GenfsView { fstype: gs[gi].fstype, entries: es2 })
        },
    }
}

fn find_role(db: &policydb, name: &str) -> (r: Option<usize>)
    ensures
        r matches Some(i) ==> role_lookup(roles_view(db.roles@), name@) == Some(i as int),
        r is None ==> role_lookup(roles_view(db.roles@), name@) is None,
{
    let ghost pred = |x: RoleView| x.name == name@;
    let ghost v = roles_view(db.roles@);
    let mut i: usize = 0;
    while i < db.roles.len()
        invariant
            i <= db.roles@.len(),
            v == roles_view(db.roles@),
            pred == (|x: RoleView| x.name == name@),
            forall|j: int| 0 <= j < i ==> !pred(#[trigger] v[j]),
        decreases db.roles@.len() - i,
    {
        assert(v[i as int] == db.roles@[i as int]@);
        if str_equals(db.roles[i].name.as_str(), name) {
            proof {
                lemma_find_first_at(v, pred, i as int);
            }
            return Some(i);
        }
        i = i + 1;
    }
    proof {
        lemma_find_first_none(v, pred);
    }
    None
}

fn find_user(db: &policydb, name: &str) -> (r: Option<usize>)
    ensures
        r matches Some(i) ==> user_lookup(users_view(db.users@), name@) == Some(i as int),
        r is None ==> user_lookup(users_view(db.users@), name@) is None,
{
    let ghost pred = |x: (Seq<char>, u32)| x.0 == name@;
    let ghost v = users_view(db.users@);
    let mut i: usize = 0;
    while i < db.users.len()
        invariant
            i <= db.users@.len(),
            v == users_view(db.users@),
            pred == (|x: (Seq<char>, u32)| x.0 == name@),
            forall|j: int| 0 <= j < i ==> !pred(#[trigger] v[j]),
        decreases db.users@.len() - i,
    {
        assert(v[i as int] == (db.users@[i as int].name@, db.users@[i as int].s.value));
        if str_equals(db.users[i].name.as_str(), name) {
            proof {
                lemma_find_first_at(v, pred, i as int);
            }
            return Some(i);
        }
        i = i + 1;
    }
    proof {
        lemma_find_first_none(v, pred);
    }
    None
}

/// Splits `s` around its first occurrence of `c`.
fn split_at_char<'a>(s: &'a str, c: char) -> (r: Option<(&'a str, &'a str)>)
    ensures
        match find_char(s@, c) {
            Some(i) => r matches Some((a, b)) && a@ == s@.take(i) && b@ == s@.skip(i + 1),
            None => r is None,
        },
{
    match find_char_exec(s, c) {
        Some(i) => {
            proof {
                lemma_find_char(s@, c);
            }
            let n = s.unicode_len();
            let a = s.substring_char(0, i);
            let b = s.substring_char(i + 1, n);
            assert(a@ =~= s@.take(i as int));
            assert(b@ =~= s@.skip(i + 1));
            Some((a, b))
        },
        None => None,
    }
}

/// Parses a context `user:role:type[:range]` against the database.
#[verifier::spinoff_prover]
pub fn context_from_string(db: &policydb, ctx: &str) -> (r: Option<context_struct>)
    ensures
        match context_parse(db@, ctx@) {
            Some(v) => r matches Some(c) && c@ == v,
            None => r is None,
        },
{
    let (u, rest1) = match split_at_char(ctx, ':') {
        Some(p) => p,
        None => return None,
    };
    let (r, rest2) = match split_at_char(rest1, ':') {
        Some(p) => p,
        None => return None,
    };
    let (t, range) = match split_at_char(rest2, ':') {
        Some((t, range)) => (t, String::from_str(range)),
        None => (rest2, String::new()),
    };
    proof {
        lemma_find_first(users_view(db.users@), |x: (Seq<char>, u32)| x.0 == u@);
        lemma_find_first(roles_view(db.roles@), |x: RoleView| x.name == r@);
        lemma_find_first(types_view(db.types@), |x: TypeView| x.name == t@);
    }
    let ui = match find_user(db, u) {
        Some(i) => i,
        None => return None,
    };
    let ri = match find_role(db, r) {
        Some(i) => i,
        None => return None,
    };
    let ti = match find_type(db, t) {
        Some(i) => i,
        None => return None,
    };
    Some(
        context_struct {
            user: db.users[ui].s.value,
            role: db.roles[ri].s.value,
            type_: db.types[ti].s.value,
            range,
        },
    )
}

fn find_genfs(gs: &Vec<genfs>, fs: &str) -> (r: Option<usize>)
    ensures
        r matches Some(i) ==> find_first(genfs_view(gs@), |g: GenfsView| g.fstype == fs@) == Some(
            i as int,
        ) && i < gs@.len(),
        r is None ==> find_first(genfs_view(gs@), |g: GenfsView| g.fstype == fs@) is None,
{
    let ghost pred = |g: GenfsView| g.fstype == fs@;
    let ghost v = genfs_view(gs@);
    let mut i: usize = 0;
    while i < gs.len()
        invariant
            i <= gs@.len(),
            v == genfs_view(gs@),
            pred == (|g: GenfsView| g.fstype == fs@),
            forall|j: int| 0 <= j < i ==> !pred(#[trigger] v[j]),
        decreases gs@.len() - i,
    {
        if str_equals(gs[i].fstype.as_str(), fs) {
            proof {
                lemma_find_first_at(v, pred, i as int);
            }
            return Some(i);
        }
        i = i + 1;
    }
    proof {
        lemma_find_first_none(v, pred);
    }
    None
}

fn find_ocontext(head: &Vec<ocontext>, path: &str) -> (r: Option<usize>)
    ensures
        ({
            let v = head@.map_values(|o: ocontext| (o.name@, o.context@));
            let pred = path_is(path@);
            &&& r matches Some(i) ==> find_first(v, pred) == Some(i as int) && i < head@.len()
            &&& r is None ==> find_first(v, pred) is None
        }),
{
    let ghost pred = path_is(path@);
    let ghost v = head@.map_values(|o: ocontext| (o.name@, o.context@));
    let mut i: usize = 0;
    while i < head.len()
        invariant
            i <= head@.len(),
            v == head@.map_values(|o: ocontext| (o.name@, o.context@)),
            pred == path_is(path@),
            forall|j: int| 0 <= j < i ==> !pred(#[trigger] v[j]),
        decreases head@.len() - i,
    {
        if str_equals(head[i].name.as_str(), path) {
            proof {
                lemma_find_first_at(v, pred, i as int);
            }
            return Some(i);
        }
        i = i + 1;
    }
    proof {
        lemma_find_first_none(v, pred);
    }
    None
}

/// Gives `path` of file system type `fs` the context `ctx`. Returns false,
/// changing nothing, when the context does not parse.
#[verifier::spinoff_prover]
pub fn sepol_add_genfscon(db: &mut policydb, fs: &str, path: &str, ctx: &str) -> (ok: bool)
    requires
        old(db).wf(),
    ensures
        final(db).wf(),
        ok == context_parse(old(db)@, ctx@) is Some,
        ok ==> final(db)@ == (PolicyView {
            genfs: genfs_add(old(db)@.genfs, fs@, path@, context_parse(old(db)@, ctx@).unwrap()),
            ..old(db)@
        }),
        !ok ==> *final(db) == *old(db),
{
    let c = match context_from_string(db, ctx) {
        Some(c) => c,
        None => return false,
    };
    let ghost g0 = genfs_view(db.genfs@);
    proof {
        lemma_find_first(g0, |g: GenfsView| g.fstype == fs@);
    }
    match find_genfs(&db.genfs, fs) {
        None => {
            let o = ocontext { name: String::from_str(path), context: c };
            let g = genfs { fstype: String::from_str(fs), head: vec![o] };
            assert(g@.entries =~= seq![(path@, c@)]);
            db.genfs.insert(0, g);
            assert(genfs_view(db.genfs@) =~= seq![g@] + g0);
        },
        Some(gi) => {
            let ghost before = db.genfs@;
            let mut g = db.genfs.remove(gi);
            assert(g@ == g0[gi as int]);
            let ghost es0 = g@.entries;
            let ghost h0 = g.head@;
            proof {
                lemma_find_first(es0, path_is(path@));
            }
            let o = ocontext { name: String::from_str(path), context: c };
            match find_ocontext(&g.head, path) {
                None => {
                    g.head.insert(0, o);
                    assert(g@.entries =~= seq![(path@, c@)] + es0);
                },
                Some(k) => {
                    g.head.remove(k);
                    g.head.insert(k, o);
                    assert(g.head@ =~= h0.update(k as int, o));
                    assert(g@.entries =~= es0.update(k as int, (path@, c@)));
                },
            }
            db.genfs.insert(gi, g);
            assert(db.genfs@ =~= before.update(gi as int, g));
            assert(genfs_view(db.genfs@) =~= g0.update(gi as int, g@));
        },
    }
    true
}

// ---- declaring classes, roles and users ----

/// The permissions of a new class: the names, valued 1, 2, ... in order.
pub open spec fn numbered_perms(names: Seq<Seq<char>>) -> Seq<(Seq<char>, u32)> {
    names.map(|i: int, n: Seq<char>| (n, (i + 1) as u32))
}

/// The database after declaring class `name` with permissions `perms`, or
/// `None` when the class exists, the class table is full, or there are
/// more than 32 permissions.
pub open spec fn add_class_result(db: PolicyView, name: Seq<char>, perms: Seq<Seq<char>>) -> Option<PolicyView> {
    let n = db.classes.len();
    if class_lookup(db.classes, name) is Some || n >= 0xFFFF || perms.len() > 32 {
        None
    } else {
        Some(
            PolicyView {
                classes: db.classes.push(
                    ClassView {
                        name,
                        value: (n + 1) as u32,
                        permissions: numbered_perms(perms),
                        common_permissions: seq![],
                        constraints: seq![],
                    },
                ),
                ..db
            },
        )
    }
}

/// Declares the class `name` with the permissions `perms`, valued 1, 2, ...
/// in order. Returns false, changing nothing, when the class exists, the
/// class table is full or there are more than 32 permissions.
#[verifier::spinoff_prover]
pub fn sepol_add_class(db: &mut policydb, name: &str, perms: &[&str]) -> (ok: bool)
    requires
        old(db).wf(),
    ensures
        final(db).wf(),
        ok == add_class_result(old(db)@, name@, perms@.map_values(|p: &str| p@)) is Some,
        ok ==> final(db)@ == add_class_result(old(db)@, name@, perms@.map_values(|p: &str| p@)).unwrap(),
        !ok ==> *final(db) == *old(db),
{
    let n = db.classes.len();
    if find_class(db, name).is_some() || n >= 0xFFFF || perms.len() > 32 {
        return false;
    }
    let ghost names = perms@.map_values(|p: &str| p@);
    let mut ps: Vec<perm_datum> = Vec::new();
    let mut i: usize = 0;
    while i < perms.len()
        invariant
            i <= perms@.len(),
            perms@.len() <= 32,
            names == perms@.map_values(|p: &str| p@),
            ps@.len() == i,
            perms_view(ps@) =~= numbered_perms(names.take(i as int)),
            forall|j: int| 0 <= j < i ==> 1 <= (#[trigger] ps@[j]).s.value <= 32,
        decreases perms@.len() - i,
    {
        let ghost before = ps@;
        ps.push(perm_datum { name: String::from_str(perms[i]), s: symtab_datum { value: (i + 1) as u32 } });
        assert(perms_view(ps@) =~= perms_view(before).push((names[i as int], (i + 1) as u32)));
        assert(numbered_perms(names.take(i + 1)) =~= numbered_perms(names.take(i as int)).push(
            (names[i as int], (i + 1) as u32),
        ));
        i = i + 1;
    }
    assert(names.take(perms@.len() as int) =~= names);
    let cls = class_datum {
        name: String::from_str(name),
        s: symtab_datum { value: (n + 1) as u32 },
        permissions: ps,
        common_permissions: Vec::new(),
        constraints: Vec::new(),
    };
    let ghost c0 = classes_view(db.classes@);
    let ghost raw0 = db.classes@;
    db.classes.push(cls);
    assert(cls@.common_permissions =~= Seq::<(Seq<char>, u32)>::empty());
    assert(cls@.constraints =~= Seq::<ConstraintView>::empty());
    assert(classes_view(db.classes@) =~= c0.push(cls@));
    assert forall|k: int| 0 <= k < db.classes@.len() implies (#[trigger] db.classes@[k]).s.value == k + 1 by {
        if k < n {
            assert(db.classes@[k] == raw0[k]);
        }
    }
    assert forall|k: int, j: int|
        0 <= k < db.classes@.len() && 0 <= j < db.classes@[k].permissions@.len() implies 1
            <= (#[trigger] db.classes@[k].permissions@[j]).s.value <= 32 by {
        if k < n {
            assert(db.classes@[k] == raw0[k]);
        }
    }
    assert forall|k: int, j: int|
        0 <= k < db.classes@.len() && 0 <= j < db.classes@[k].common_permissions@.len() implies 1
            <= (#[trigger] db.classes@[k].common_permissions@[j]).s.value <= 32 by {
        if k < n {
            assert(db.classes@[k] == raw0[k]);
        }
    }
    assert(db.wf());
    true
}

/// The database after declaring role `name`, or `None` when it exists or
/// the role table is full. A new role may enter no type.
pub open spec fn add_role_result(db: PolicyView, name: Seq<char>) -> Option<PolicyView> {
    let n = db.roles.len();
    if role_lookup(db.roles, name) is Some || n >= 0xFFFF {
        None
    } else {
        Some(
            PolicyView {
                roles: db.roles.push(
                    RoleView {
                        name,
                        value: (n + 1) as u32,
                        types: TypeSetView { types: Set::empty(), negset: Set::empty(), flags: 0 },
                    },
                ),
                ..db
            },
        )
    }
}

/// Declares the role `name`. Returns false, changing nothing, when it
/// exists or the role table is full.
pub fn sepol_add_role(db: &mut policydb, name: &str) -> (ok: bool)
    requires
        old(db).wf(),
    ensures
        final(db).wf(),
        ok == add_role_result(old(db)@, name@) is Some,
        ok ==> final(db)@ == add_role_result(old(db)@, name@).unwrap(),
        !ok ==> *final(db) == *old(db),
{
    let n = db.roles.len();
    if find_role(db, name).is_some() || n >= 0xFFFF {
        return false;
    }
    let r = role_datum {
        name: String::from_str(name),
        s: symtab_datum { value: (n + 1) as u32 },
        types: type_set { types: ebitmap::new(), negset: ebitmap::new(), flags: 0 },
    };
    let ghost r0 = roles_view(db.roles@);
    let ghost raw0 = db.roles@;
    db.roles.push(r);
    assert(roles_view(db.roles@) =~= r0.push(r@));
    assert forall|k: int| 0 <= k < db.roles@.len() implies (#[trigger] db.roles@[k]).s.value == k + 1 by {
        if k < n {
            assert(db.roles@[k] == raw0[k]);
        }
    }
    true
}

/// The database after declaring user `name`, or `None` when it exists or
/// the user table is full.
pub open spec fn add_user_result(db: PolicyView, name: Seq<char>) -> Option<PolicyView> {
    let n = db.users.len();
    if user_lookup(db.users, name) is Some || n >= 0xFFFF {
        None
    } else {
        Some(PolicyView { users: db.users.push((name, (n + 1) as u32)), ..db })
    }
}

/// Declares the user `name`. Returns false, changing nothing, when it
/// exists or the user table is full.
pub fn sepol_add_user(db: &mut policydb, name: &str) -> (ok: bool)
    requires
        old(db).wf(),
    ensures
        final(db).wf(),
        ok == add_user_result(old(db)@, name@) is Some,
        ok ==> final(db)@ == add_user_result(old(db)@, name@).unwrap(),
        !ok ==> *final(db) == *old(db),
{
    let n = db.users.len();
    if find_user(db, name).is_some() || n >= 0xFFFF {
        return false;
    }
    let u = user_datum { name: String::from_str(name), s: symtab_datum { value: (n + 1) as u32 } };
    let ghost u0 = users_view(db.users@);
    let ghost raw0 = db.users@;
    db.users.push(u);
    assert(users_view(db.users@) =~= u0.push((name@, (n + 1) as u32)));
    assert forall|k: int| 0 <= k < db.users@.len() implies (#[trigger] db.users@[k]).s.value == k + 1 by {
        if k < n {
            assert(db.users@[k] == raw0[k]);
        }
    }
    true
}

} // verus!
