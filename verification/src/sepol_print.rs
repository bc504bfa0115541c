//! The rules of the policy database as statement lines: types and
//! attributes, access vector rules, name-based transitions and file system
//! contexts.

use vstd::prelude::*;

use crate::sepol::{
    avtab_view, class_datum, perms_view, ClassView, PolicyView, context_struct, genfs, genfs_view, perm_datum, policydb, AvNode,
    ContextView, FtChainView, GenfsView, XpermsView, filename_trans_view, AVTAB_ALLOWED, AVTAB_AUDITALLOW,
    AVTAB_AUDITDENY, AVTAB_AV, AVTAB_CHANGE, AVTAB_MEMBER, AVTAB_TRANSITION, AVTAB_TYPE,
    AVTAB_XPERMS, AVTAB_XPERMS_ALLOWED, AVTAB_XPERMS_AUDITALLOW, AVTAB_XPERMS_DONTAUDIT,
    AVTAB_XPERMS_IOCTLFUNCTION, TYPE_ATTRIB, TYPE_TYPE,
};
use crate::seqs::{find_first, lemma_find_first_at, lemma_find_first_none};
use crate::text::{hex4, push_hex4};

verus! {

/// The values of a list of lines.
pub open spec fn lines_view(v: Seq<String>) -> Seq<Seq<char>> {
    v.map_values(|s: String| s@)
}

/// The values of two lists of lines, one after the other.
pub proof fn lemma_lines_view_concat(a: Seq<String>, b: Seq<String>)
    ensures
        lines_view(a + b) == lines_view(a) + lines_view(b),
{
    assert(lines_view(a + b) =~= lines_view(a) + lines_view(b));
}

fn push_line(lines: &mut Vec<String>, line: String)
    ensures
        lines_view(final(lines)@) == lines_view(old(lines)@).push(line@),
{
    lines.push(line);
    assert(lines_view(lines@) =~= lines_view(old(lines)@).push(line@));
}

fn str_of(s: &str) -> (r: String)
    ensures
        r@ == s@,
{
    String::from_str(s)
}

// ---- types ----

/// The names of the attributes of type index `i`, in value order.
pub open spec fn attr_names_upto(db: PolicyView, i: int, k: int) -> Seq<Seq<char>>
    decreases k,
{
    if k <= 0 {
        seq![]
    } else {
        let rest = attr_names_upto(db, i, k - 1);
        let j = k - 1;
        if db.type_attr_map[i].contains(j as u32) && db.types[j].flavor == TYPE_ATTRIB {
            rest.push(db.types[j].name)
        } else {
            rest
        }
    }
}

/// The words joined, each preceded by a space.
pub open spec fn spaced(words: Seq<Seq<char>>) -> Seq<char>
    decreases words.len(),
{
    if words.len() == 0 {
        seq![]
    } else {
        spaced(words.drop_last()) + " "@ + words.last()
    }
}

/// The lines for type index `i`: with `attributes`, `attribute NAME` for an
/// attribute; without, `type NAME { ATTRS }` for a type that has
/// attributes and `permissive NAME` for a permissive type.
pub open spec fn type_lines(db: PolicyView, i: int, attributes: bool) -> Seq<Seq<char>> {
    let t = db.types[i];
    if attributes {
        if t.flavor == TYPE_ATTRIB {
            seq!["attribute "@ + t.name]
        } else {
            seq![]
        }
    } else if t.flavor == TYPE_TYPE {
        let attrs = attr_names_upto(db, i, db.types.len() as int);
        let first = if attrs.len() > 0 {
            seq!["type "@ + t.name + " {"@ + spaced(attrs) + " }"@]
        } else {
            seq![]
        };
        let second = if db.permissive_map.contains(t.value) {
            seq!["permissive "@ + t.name]
        } else {
            seq![]
        };
        first + second
    } else {
        seq![]
    }
}

/// The lines for the first `k` types.
pub open spec fn types_lines_upto(db: PolicyView, k: int, attributes: bool) -> Seq<Seq<char>>
    decreases k,
{
    if k <= 0 {
        seq![]
    } else {
        types_lines_upto(db, k - 1, attributes) + type_lines(db, k - 1, attributes)
    }
}

/// The lines that declare the attributes (with `attributes`) or the types.
#[verifier::spinoff_prover]
pub fn sepol_print_types(db: &policydb, attributes: bool) -> (lines: Vec<String>)
    requires
        db.wf(),
    ensures
        lines_view(lines@) == types_lines_upto(db@, db.types@.len() as int, attributes),
{
    let mut lines: Vec<String> = Vec::new();
    let n = db.types.len();
    let mut i: usize = 0;
    assert(lines_view(lines@) =~= Seq::<Seq<char>>::empty());
    while i < n
        invariant
            i <= n,
            n == db.types@.len(),
            db.wf(),
            lines_view(lines@) == types_lines_upto(db@, i as int, attributes),
        decreases n - i,
    {
        let t = &db.types[i];
        if attributes {
            if t.flavor == TYPE_ATTRIB {
                let mut line = str_of("attribute ");
                line.append(t.name.as_str());
                push_line(&mut lines, line);
            }
        } else if t.flavor == TYPE_TYPE {
            let mut line = str_of("type ");
            line.append(t.name.as_str());
            line.append(" {");
            let ghost head = line@;
            let mut any = false;
            let mut j: usize = 0;
            assert(spaced(attr_names_upto(db@, i as int, 0)) =~= Seq::<char>::empty());
            while j < n
                invariant
                    j <= n,
                    n == db.types@.len(),
                    i < n,
                    db.wf(),
                    line@ == head + spaced(attr_names_upto(db@, i as int, j as int)),
                    any == (attr_names_upto(db@, i as int, j as int).len() > 0),
                decreases n - j,
            {
                if db.type_attr_map[i].get_bit(j as u32) && db.types[j].flavor == TYPE_ATTRIB {
                    line.append(" ");
                    line.append(db.types[j].name.as_str());
                    any = true;
                    let ghost names = attr_names_upto(db@, i as int, j + 1);
                    assert(names.drop_last() == attr_names_upto(db@, i as int, j as int));
                    assert(line@ =~= head + spaced(names));
                }
                j = j + 1;
            }
            if any {
                line.append(" }");
                push_line(&mut lines, line);
            }
            if db.permissive_map.get_bit(t.s.value) {
                let mut line2 = str_of("permissive ");
                line2.append(t.name.as_str());
                push_line(&mut lines, line2);
            }
        }
        assert(lines_view(lines@) =~= types_lines_upto(db@, i + 1, attributes));
        i = i + 1;
    }
    lines
}

// ---- access vector rules ----

/// The name of the type of value `v`.
pub open spec fn type_name_of(db: PolicyView, v: int) -> Option<Seq<char>> {
    if 1 <= v <= db.types.len() {
        Some(db.types[v - 1].name)
    } else {
        None
    }
}

/// The name of the class of value `v`.
pub open spec fn class_name_of(db: PolicyView, v: int) -> Option<Seq<char>> {
    if 1 <= v <= db.classes.len() {
        Some(db.classes[v - 1].name)
    } else {
        None
    }
}

/// The statement name of an access vector rule kind.
pub open spec fn av_rule_name(specified: u16) -> Option<Seq<char>> {
    if specified == AVTAB_ALLOWED {
        Some("allow"@)
    } else if specified == AVTAB_AUDITALLOW {
        Some("auditallow"@)
    } else if specified == AVTAB_AUDITDENY {
        Some("dontaudit"@)
    } else {
        None
    }
}

/// The statement name of a type rule kind.
pub open spec fn type_rule_name(specified: u16) -> Option<Seq<char>> {
    if specified == AVTAB_TRANSITION {
        Some("type_transition"@)
    } else if specified == AVTAB_MEMBER {
        Some("type_member"@)
    } else if specified == AVTAB_CHANGE {
        Some("type_change"@)
    } else {
        None
    }
}

/// The statement name of an ioctl rule kind.
pub open spec fn xperm_rule_name(specified: u16) -> Option<Seq<char>> {
    if specified == AVTAB_XPERMS_ALLOWED {
        Some("allowxperm"@)
    } else if specified == AVTAB_XPERMS_AUDITALLOW {
        Some("auditallowxperm"@)
    } else if specified == AVTAB_XPERMS_DONTAUDIT {
        Some("dontauditxperm"@)
    } else {
        None
    }
}

/// The index of the permission of value `v`.
pub open spec fn perm_index_of(perms: Seq<(Seq<char>, u32)>, v: u32) -> Option<int> {
    find_first(perms, has_value(v))
}

/// Whether a permission has value `v`.
pub open spec fn has_value(v: u32) -> spec_fn((Seq<char>, u32)) -> bool {
    |p: (Seq<char>, u32)| p.1 == v
}

/// The name of the permission of value `v` of a class: its own permissions
/// first, then the common ones.
pub open spec fn perm_name_of(c: ClassView, v: u32) -> Option<Seq<char>> {
    match perm_index_of(c.permissions, v) {
        Some(i) => Some(c.permissions[i].0),
        None => match perm_index_of(c.common_permissions, v) {
            Some(i) => Some(c.common_permissions[i].0),
            None => None,
        },
    }
}

/// The names of the permissions among the first `b` bits of `data` that
/// are on and named.
pub open spec fn perm_words(c: ClassView, data: u32, b: int) -> Seq<Seq<char>>
    decreases b,
{
    if b <= 0 {
        seq![]
    } else {
        let rest = perm_words(c, data, b - 1);
        if data & (1u32 << ((b - 1) as u32)) != 0u32 && perm_name_of(c, b as u32) is Some {
            rest.push(perm_name_of(c, b as u32).unwrap())
        } else {
            rest
        }
    }
}

/// The command an ioctl bit stands for: for a function rule, the driver
/// and the function; for a driver rule, the driver's first command.
pub open spec fn xperm_value(x: XpermsView, v: int) -> u16 {
    if x.specified == AVTAB_XPERMS_IOCTLFUNCTION {
        (x.driver as int * 256 + v) as u16
    } else {
        (v * 256) as u16
    }
}

/// One value (` 0xVVVV`) or range (` 0xLLLL-0xHHHH`) of an ioctl rule.
pub open spec fn xperm_item(x: XpermsView, lo: int, hi: int) -> Seq<char> {
    if lo == hi {
        " 0x"@ + hex4(xperm_value(x, lo))
    } else {
        " 0x"@ + hex4(xperm_value(x, lo)) + "-0x"@ + hex4(xperm_value(x, hi))
    }
}

/// The values and ranges of the runs of bits from `xi` on, when a run has
/// been open since `low` (negative: none is open).
pub open spec fn xperm_runs(x: XpermsView, xi: int, low: int) -> Seq<char>
    decreases 256 - xi,
{
    if xi < 0 || xi >= 256 {
        seq![]
    } else if x.perms.contains(xi) {
        let l = if low < 0 {
            xi
        } else {
            low
        };
        if xi == 255 {
            xperm_item(x, l, 255)
        } else {
            xperm_runs(x, xi + 1, l)
        }
    } else if low >= 0 {
        xperm_item(x, low, xi - 1) + xperm_runs(x, xi + 1, -1)
    } else {
        xperm_runs(x, xi + 1, -1)
    }
}

/// The lines for one access vector rule: none, or one.
pub open spec fn av_node_lines(db: PolicyView, n: AvNode) -> Seq<Seq<char>> {
    let sv = n.key.source_type as int;
    let tv = n.key.target_type as int;
    let cv = n.key.target_class as int;
    if type_name_of(db, sv) is None || type_name_of(db, tv) is None || class_name_of(db, cv)
        is None {
        seq![]
    } else {
        let head = " "@ + type_name_of(db, sv).unwrap() + " "@ + type_name_of(db, tv).unwrap()
            + " "@ + class_name_of(db, cv).unwrap();
        let specified = n.key.specified;
        if specified & AVTAB_AV != 0u16 {
            match av_rule_name(specified) {
                None => seq![],
                Some(rule) => {
                    let data = if specified == AVTAB_AUDITDENY {
                        !n.data
                    } else {
                        n.data
                    };
                    let words = perm_words(db.classes[cv - 1], data, 32);
                    if words.len() > 0 {
                        seq![rule + head + " {"@ + spaced(words) + " }"@]
                    } else {
                        seq![]
                    }
                },
            }
        } else if specified & AVTAB_TYPE != 0u16 {
            match (type_rule_name(specified), type_name_of(db, n.data as int)) {
                (Some(rule), Some(def)) => seq![rule + head + " "@ + def],
                _ => seq![],
            }
        } else if specified & AVTAB_XPERMS != 0u16 {
            match (xperm_rule_name(specified), n.xperms) {
                (Some(rule), Some(x)) => seq![
                    rule + head + " ioctl {"@ + xperm_runs(x, 0, -1) + " }"@,
                ],
                _ => seq![],
            }
        } else {
            seq![]
        }
    }
}

/// The lines for the first `k` rules of the table.
pub open spec fn av_lines_upto(db: PolicyView, k: int) -> Seq<Seq<char>>
    decreases k,
{
    if k <= 0 {
        seq![]
    } else {
        av_lines_upto(db, k - 1) + av_node_lines(db, db.avtab[k - 1])
    }
}

fn find_perm_name(perms: &Vec<perm_datum>, v: u32) -> (r: Option<usize>)
    ensures
        r matches Some(i) ==> perm_index_of(perms_view(perms@), v) == Some(i as int) && i
            < perms@.len(),
        r is None ==> perm_index_of(perms_view(perms@), v) is None,
{
    let ghost pred = has_value(v);
    let ghost pv = perms_view(perms@);
    let mut i: usize = 0;
    while i < perms.len()
        invariant
            i <= perms@.len(),
            pv == perms_view(perms@),
            pred == has_value(v),
            forall|j: int| 0 <= j < i ==> !pred(#[trigger] pv[j]),
        decreases perms@.len() - i,
    {
        assert(pv[i as int] == (perms@[i as int].name@, perms@[i as int].s.value));
        if perms[i].s.value == v {
            proof {
                lemma_find_first_at(pv, pred, i as int);
            }
            return Some(i);
        }
        i = i + 1;
    }
    proof {
        lemma_find_first_none(pv, pred);
    }
    None
}

fn perm_name<'a>(c: &'a class_datum, v: u32) -> (r: Option<&'a str>)
    ensures
        match perm_name_of(c@, v) {
            Some(n) => r matches Some(s) && s@ == n,
            None => r is None,
        },
{
    match find_perm_name(&c.permissions, v) {
        Some(i) => {
            assert(perms_view(c.permissions@)[i as int].0 == c.permissions@[i as int].name@);
            Some(c.permissions[i].name.as_str())
        },
        None => match find_perm_name(&c.common_permissions, v) {
            Some(i) => {
                assert(perms_view(c.common_permissions@)[i as int].0
                    == c.common_permissions@[i as int].name@);
                Some(c.common_permissions[i].name.as_str())
            },
            None => None,
        },
    }
}

fn push_xperm_item(out: &mut String, x: &crate::sepol::avtab_extended_perms, lo: usize, hi: usize)
    requires
        lo <= hi < 256,
    ensures
        final(out)@ == old(out)@ + xperm_item(x@, lo as int, hi as int),
{
    let vlo = if x.specified == AVTAB_XPERMS_IOCTLFUNCTION {
        (x.driver as u16) * 256 + (lo as u16)
    } else {
        (lo as u16) * 256
    };
    let vhi = if x.specified == AVTAB_XPERMS_IOCTLFUNCTION {
        (x.driver as u16) * 256 + (hi as u16)
    } else {
        (hi as u16) * 256
    };
    out.append(" 0x");
    push_hex4(out, vlo);
    if lo != hi {
        out.append("-0x");
        push_hex4(out, vhi);
    }
}

fn push_xperm_runs(out: &mut String, x: &crate::sepol::avtab_extended_perms)
    requires
        x.perms@.len() == 8,
    ensures
        final(out)@ == old(out)@ + xperm_runs(x@, 0, -1),
{
    let mut low: i32 = -1;
    let mut xi: usize = 0;
    while xi < 256
        invariant
            xi <= 256,
            -1 <= low < xi,
            x.perms@.len() == 8,
            old(out)@ + xperm_runs(x@, 0, -1) == out@ + xperm_runs(x@, xi as int, low as int),
        decreases 256 - xi,
    {
        if crate::sepol_impl::xperm_test(xi, &x.perms) {
            if low < 0 {
                low = xi as i32;
            }
            if xi == 255 {
                push_xperm_item(out, x, low as usize, 255);
            }
        } else if low >= 0 {
            push_xperm_item(out, x, low as usize, xi - 1);
            low = -1;
        }
        xi = xi + 1;
    }
}

fn name_of_type<'a>(db: &'a policydb, v: u16) -> (r: Option<&'a str>)
    ensures
        match type_name_of(db@, v as int) {
            Some(n) => r matches Some(s) && s@ == n,
            None => r is None,
        },
{
    if v >= 1 && (v as usize) <= db.types.len() {
        Some(db.types[(v - 1) as usize].name.as_str())
    } else {
        None
    }
}

/// The lines that state the access vector, type and ioctl rules.
#[verifier::spinoff_prover]
pub fn sepol_print_avtab_rules(db: &policydb) -> (lines: Vec<String>)
    requires
        db.wf(),
    ensures
        lines_view(lines@) == av_lines_upto(db@, db.te_avtab@.len() as int),
{
    let mut lines: Vec<String> = Vec::new();
    let n = db.te_avtab.len();
    let mut k: usize = 0;
    assert(lines_view(lines@) =~= Seq::<Seq<char>>::empty());
    while k < n
        invariant
            k <= n,
            n == db.te_avtab@.len(),
            db.wf(),
            lines_view(lines@) == av_lines_upto(db@, k as int),
        decreases n - k,
    {
        let node = &db.te_avtab[k];
        let ghost nv = avtab_view(db.te_avtab@)[k as int];
        assert(nv == node@);
        let ghost before = lines_view(lines@);
        let src = name_of_type(db, node.key.source_type);
        let tgt = name_of_type(db, node.key.target_type);
        let cv = node.key.target_class;
        let cls = if cv >= 1 && (cv as usize) <= db.classes.len() {
            Some(&db.classes[(cv - 1) as usize])
        } else {
            None
        };
        if let (Some(s), Some(t), Some(c)) = (src, tgt, cls) {
            let mut head = str_of(" ");
            head.append(s);
            head.append(" ");
            head.append(t);
            head.append(" ");
            head.append(c.name.as_str());
            let specified = node.key.specified;
            if specified & AVTAB_AV != 0u16 {
                let rule = if specified == AVTAB_ALLOWED {
                    Some("allow")
                } else if specified == AVTAB_AUDITALLOW {
                    Some("auditallow")
                } else if specified == AVTAB_AUDITDENY {
                    Some("dontaudit")
                } else {
                    None
                };
                if let Some(rule) = rule {
                    let data = if specified == AVTAB_AUDITDENY {
                        !node.datum.data
                    } else {
                        node.datum.data
                    };
                    let mut line = str_of(rule);
                    line.append(head.as_str());
                    line.append(" {");
                    let ghost start = line@;
                    let mut any = false;
                    let mut b: u32 = 0;
                    assert(spaced(perm_words(c@, data, 0)) =~= Seq::<char>::empty());
                    while b < 32
                        invariant
                            b <= 32,
                            line@ == start + spaced(perm_words(c@, data, b as int)),
                            any == (perm_words(c@, data, b as int).len() > 0),
                        decreases 32 - b,
                    {
                        if data & (1u32 << b) != 0u32 {
                            if let Some(pn) = perm_name(c, b + 1) {
                                line.append(" ");
                                line.append(pn);
                                any = true;
                                let ghost words = perm_words(c@, data, b + 1);
                                assert(words.drop_last() == perm_words(c@, data, b as int));
                                assert(line@ =~= start + spaced(words));
                            }
                        }
                        b = b + 1;
                    }
                    if any {
                        line.append(" }");
                        push_line(&mut lines, line);
                    }
                }
            } else if specified & AVTAB_TYPE != 0u16 {
                let rule = if specified == AVTAB_TRANSITION {
                    Some("type_transition")
                } else if specified == AVTAB_MEMBER {
                    Some("type_member")
                } else if specified == AVTAB_CHANGE {
                    Some("type_change")
                } else {
                    None
                };
                let def = if node.datum.data >= 1 && (node.datum.data as usize) <= db.types.len() {
                    Some(db.types[(node.datum.data - 1) as usize].name.as_str())
                } else {
                    None
                };
                if let (Some(rule), Some(def)) = (rule, def) {
                    let mut line = str_of(rule);
                    line.append(head.as_str());
                    line.append(" ");
                    line.append(def);
                    push_line(&mut lines, line);
                }
            } else if specified & AVTAB_XPERMS != 0u16 {
                let rule = if specified == AVTAB_XPERMS_ALLOWED {
                    Some("allowxperm")
                } else if specified == AVTAB_XPERMS_AUDITALLOW {
                    Some("auditallowxperm")
                } else if specified == AVTAB_XPERMS_DONTAUDIT {
                    Some("dontauditxperm")
                } else {
                    None
                };
                if let (Some(rule), Some(x)) = (rule, &node.datum.xperms) {
                    let mut line = str_of(rule);
                    line.append(head.as_str());
                    line.append(" ioctl {");
                    push_xperm_runs(&mut line, x);
                    line.append(" }");
                    push_line(&mut lines, line);
                }
            }
        }
        assert(lines_view(lines@) =~= before + av_node_lines(db@, nv));
        k = k + 1;
    }
    lines
}

// ---- name-based type transitions ----

/// The lines for the source types among the first `k` types of one
/// transition datum.
pub open spec fn ft_src_lines(db: PolicyView, stypes: Set<u32>, tail: Seq<char>, k: int) -> Seq<Seq<char>>
    decreases k,
{
    if k <= 0 {
        seq![]
    } else {
        let rest = ft_src_lines(db, stypes, tail, k - 1);
        if stypes.contains((k - 1) as u32) {
            rest.push("type_transition "@ + db.types[k - 1].name + tail)
        } else {
            rest
        }
    }
}

/// The lines for the first `k` datums of a chain, whose key names target
/// `tgt` and class `cls`.
pub open spec fn ft_datum_lines(db: PolicyView, ch: FtChainView, tgt: Seq<char>, cls: Seq<char>, k: int) -> Seq<Seq<char>>
    decreases k,
{
    if k <= 0 {
        seq![]
    } else {
        let rest = ft_datum_lines(db, ch, tgt, cls, k - 1);
        let d = ch.datums[k - 1];
        match type_name_of(db, d.otype as int) {
            Some(def) => rest + ft_src_lines(
                db,
                d.stypes,
                " "@ + tgt + " "@ + cls + " "@ + def + " "@ + ch.name,
                db.types.len() as int,
            ),
            None => rest,
        }
    }
}

/// The lines for one chain of transitions.
pub open spec fn ft_chain_lines(db: PolicyView, ch: FtChainView) -> Seq<Seq<char>> {
    match (type_name_of(db, ch.ttype as int), class_name_of(db, ch.tclass as int)) {
        (Some(tgt), Some(cls)) => ft_datum_lines(db, ch, tgt, cls, ch.datums.len() as int),
        _ => seq![],
    }
}

/// The lines for the first `k` chains.
pub open spec fn ft_lines_upto(db: PolicyView, k: int) -> Seq<Seq<char>>
    decreases k,
{
    if k <= 0 {
        seq![]
    } else {
        ft_lines_upto(db, k - 1) + ft_chain_lines(db, db.filename_trans[k - 1])
    }
}

/// The lines that state the name-based type transitions.
#[verifier::spinoff_prover]
pub fn sepol_print_filename_trans(db: &policydb) -> (lines: Vec<String>)
    requires
        db.wf(),
    ensures
        lines_view(lines@) == ft_lines_upto(db@, db.filename_trans@.len() as int),
{
    let mut lines: Vec<String> = Vec::new();
    let n = db.filename_trans.len();
    let nt = db.types.len();
    let mut k: usize = 0;
    assert(lines_view(lines@) =~= Seq::<Seq<char>>::empty());
    while k < n
        invariant
            k <= n,
            n == db.filename_trans@.len(),
            nt == db.types@.len(),
            db.wf(),
            lines_view(lines@) == ft_lines_upto(db@, k as int),
        decreases n - k,
    {
        let ch = &db.filename_trans[k];
        let ghost chv = filename_trans_view(db.filename_trans@)[k as int];
        assert(chv == ch@);
        let ghost before = lines_view(lines@);
        let tname = if ch.key.ttype >= 1 && (ch.key.ttype as usize) <= nt {
            Some(db.types[(ch.key.ttype - 1) as usize].name.as_str())
        } else {
            None
        };
        let cname = if ch.key.tclass >= 1 && (ch.key.tclass as usize) <= db.classes.len() {
            Some(db.classes[(ch.key.tclass - 1) as usize].name.as_str())
        } else {
            None
        };
        if let (Some(tn), Some(cn)) = (tname, cname) {
            let nd = ch.datums.len();
            let mut d: usize = 0;
            let ghost base = lines_view(lines@);
            assert(base + ft_datum_lines(db@, chv, tn@, cn@, 0) =~= base);
            while d < nd
                invariant
                    d <= nd,
                    nd == ch.datums@.len(),
                    chv == ch@,
                    nt == db.types@.len(),
                    db.wf(),
                    lines_view(lines@) == base + ft_datum_lines(db@, chv, tn@, cn@, d as int),
                decreases nd - d,
            {
                let dt = &ch.datums[d];
                assert(chv.datums[d as int] == dt@);
                let def = if dt.otype >= 1 && (dt.otype as usize) <= nt {
                    Some(db.types[(dt.otype - 1) as usize].name.as_str())
                } else {
                    None
                };
                if let Some(def) = def {
                    let mut tail = str_of(" ");
                    tail.append(tn);
                    tail.append(" ");
                    tail.append(cn);
                    tail.append(" ");
                    tail.append(def);
                    tail.append(" ");
                    tail.append(ch.key.name.as_str());
                    let ghost mid = lines_view(lines@);
                    let mut j: usize = 0;
                    assert(mid + ft_src_lines(db@, dt.stypes@, tail@, 0) =~= mid);
                    while j < nt
                        invariant
                            j <= nt,
                            nt == db.types@.len(),
                            lines_view(lines@) == mid + ft_src_lines(db@, dt.stypes@, tail@, j as int),
                        decreases nt - j,
                    {
                        if dt.stypes.get_bit(j as u32) {
                            let mut line = str_of("type_transition ");
                            line.append(db.types[j].name.as_str());
                            line.append(tail.as_str());
                            push_line(&mut lines, line);
                        }
                        assert(lines_view(lines@) =~= mid + ft_src_lines(db@, dt.stypes@, tail@, j + 1));
                        j = j + 1;
                    }
                }
                assert(lines_view(lines@) =~= base + ft_datum_lines(db@, chv, tn@, cn@, d + 1));
                d = d + 1;
            }
        }
        assert(lines_view(lines@) =~= before + ft_chain_lines(db@, chv));
        k = k + 1;
    }
    lines
}

// ---- file system contexts ----

/// The name of the user of value `v`.
pub open spec fn user_name_of(db: PolicyView, v: int) -> Option<Seq<char>> {
    if 1 <= v <= db.users.len() {
        Some(db.users[v - 1].0)
    } else {
        None
    }
}

/// The name of the role of value `v`.
pub open spec fn role_name_of(db: PolicyView, v: int) -> Option<Seq<char>> {
    if 1 <= v <= db.roles.len() {
        Some(db.roles[v - 1].name)
    } else {
        None
    }
}

/// A context as text, `user:role:type`, followed by `:range` when it has a
/// range.
pub open spec fn context_text(db: PolicyView, c: ContextView) -> Option<Seq<char>> {
    match (user_name_of(db, c.user as int), role_name_of(db, c.role as int), type_name_of(db, c.type_ as int)) {
        (Some(u), Some(r), Some(t)) => Some(
            u + ":"@ + r + ":"@ + t + if c.range.len() > 0 {
                ":"@ + c.range
            } else {
                seq![]
            },
        ),
        _ => None,
    }
}

/// Writes a context as text.
pub fn context_to_string(db: &policydb, c: &context_struct) -> (r: Option<String>)
    ensures
        match context_text(db@, c@) {
            Some(t) => r matches Some(s) && s@ == t,
            None => r is None,
        },
{
    if c.user >= 1 && (c.user as usize) <= db.users.len() && c.role >= 1 && (c.role as usize)
        <= db.roles.len() && c.type_ >= 1 && (c.type_ as usize) <= db.types.len() {
        let mut s = str_of(db.users[(c.user - 1) as usize].name.as_str());
        s.append(":");
        s.append(db.roles[(c.role - 1) as usize].name.as_str());
        s.append(":");
        s.append(db.types[(c.type_ - 1) as usize].name.as_str());
        if c.range.unicode_len() > 0 {
            s.append(":");
            s.append(c.range.as_str());
        }
        proof {
            if c.range@.len() == 0 {
                assert(s@ =~= context_text(db@, c@).unwrap());
            }
        }
        Some(s)
    } else {
        None
    }
}

/// The lines for the first `k` paths of one file system.
pub open spec fn genfs_entry_lines(db: PolicyView, g: GenfsView, k: int) -> Seq<Seq<char>>
    decreases k,
{
    if k <= 0 {
        seq![]
    } else {
        let rest = genfs_entry_lines(db, g, k - 1);
        let (path, ctx) = g.entries[k - 1];
        match context_text(db, ctx) {
            Some(t) => rest.push("genfscon "@ + g.fstype + " "@ + path + " "@ + t),
            None => rest,
        }
    }
}

/// The lines for the first `k` file systems.
pub open spec fn genfs_lines_upto(db: PolicyView, k: int) -> Seq<Seq<char>>
    decreases k,
{
    if k <= 0 {
        seq![]
    } else {
        let g = db.genfs[k - 1];
        genfs_lines_upto(db, k - 1) + genfs_entry_lines(db, g, g.entries.len() as int)
    }
}

/// The lines that state the file system contexts.
#[verifier::spinoff_prover]
pub fn sepol_print_genfscon(db: &policydb) -> (lines: Vec<String>)
    ensures
        lines_view(lines@) == genfs_lines_upto(db@, db.genfs@.len() as int),
{
    let mut lines: Vec<String> = Vec::new();
    let n = db.genfs.len();
    let mut k: usize = 0;
    assert(lines_view(lines@) =~= Seq::<Seq<char>>::empty());
    while k < n
        invariant
            k <= n,
            n == db.genfs@.len(),
            lines_view(lines@) == genfs_lines_upto(db@, k as int),
        decreases n - k,
    {
        let g = &db.genfs[k];
        let ghost gv = genfs_view(db.genfs@)[k as int];
        assert(gv == g@);
        let ghost base = lines_view(lines@);
        let m = g.head.len();
        let mut j: usize = 0;
        assert(base + genfs_entry_lines(db@, gv, 0) =~= base);
        while j < m
            invariant
                j <= m,
                m == g.head@.len(),
                gv == g@,
                lines_view(lines@) == base + genfs_entry_lines(db@, gv, j as int),
            decreases m - j,
        {
            let o = &g.head[j];
            assert(gv.entries[j as int] == (o.name@, o.context@));
            if let Some(t) = context_to_string(db, &o.context) {
                let mut line = str_of("genfscon ");
                line.append(g.fstype.as_str());
                line.append(" ");
                line.append(o.name.as_str());
                line.append(" ");
                line.append(t.as_str());
                push_line(&mut lines, line);
            }
            assert(lines_view(lines@) =~= base + genfs_entry_lines(db@, gv, j + 1));
            j = j + 1;
        }
        assert(lines_view(lines@) =~= genfs_lines_upto(db@, k + 1));
        k = k + 1;
    }
    lines
}

} // verus!
