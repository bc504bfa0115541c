//! The policy database: the symbol tables, the access vector table and the
//! other rule stores of a binary SELinux policy, held as plain values.

#![allow(non_camel_case_types)]

use vstd::prelude::*;

verus! {

// AVTAB rule types
pub const AVTAB_ALLOWED: u16 = 0x0001;

pub const AVTAB_AUDITALLOW: u16 = 0x0002;

pub const AVTAB_AUDITDENY: u16 = 0x0004;

pub const AVTAB_AV: u16 = 0x0007;

pub const AVTAB_TRANSITION: u16 = 0x0010;

pub const AVTAB_MEMBER: u16 = 0x0020;

pub const AVTAB_CHANGE: u16 = 0x0040;

pub const AVTAB_TYPE: u16 = 0x0070;

pub const AVTAB_XPERMS_ALLOWED: u16 = 0x0100;

pub const AVTAB_XPERMS_AUDITALLOW: u16 = 0x0200;

pub const AVTAB_XPERMS_DONTAUDIT: u16 = 0x0400;

pub const AVTAB_XPERMS: u16 = 0x0700;

// Extended perms types
pub const AVTAB_XPERMS_IOCTLFUNCTION: u8 = 0x01;

pub const AVTAB_XPERMS_IOCTLDRIVER: u8 = 0x02;

// Type flavors
pub const TYPE_TYPE: u32 = 0;

pub const TYPE_ATTRIB: u32 = 1;

// Constraint expression types
pub const CEXPR_NAMES: u32 = 5;

// Policy version with xperms ioctl support
pub const POLICYDB_VERSION_XPERMS_IOCTL: u32 = 30;

/// A set of bit positions.
pub struct ebitmap {
    pub bits: Vec<u32>,
}

impl View for ebitmap {
    type V = Set<u32>;

    open spec fn view(&self) -> Set<u32> {
        self.bits@.to_set()
    }
}

/// The value a symbol has in its table (its index plus one).
#[derive(Clone, Copy, Debug, PartialEq, Eq, Structural)]
pub struct symtab_datum {
    pub value: u32,
}

/// A type or an attribute.
pub struct type_datum {
    pub name: String,
    pub s: symtab_datum,
    pub flavor: u32,
}

/// A permission of a class, or of the common set a class shares.
pub struct perm_datum {
    pub name: String,
    pub s: symtab_datum,
}

/// A set of types with a negated part, as a role or a constraint holds it.
pub struct type_set {
    pub types: ebitmap,
    pub negset: ebitmap,
    pub flags: u32,
}

/// One term of a constraint expression.
pub struct constraint_expr {
    pub expr_type: u32,
    pub attr: u32,
    pub op: u32,
    pub names: ebitmap,
    pub type_names: Option<type_set>,
}

/// A constraint of a class: the permissions it guards and its expression.
pub struct constraint_node {
    pub permissions: u32,
    pub expr: Vec<constraint_expr>,
}

/// An object class with its own and its common permissions.
pub struct class_datum {
    pub name: String,
    pub s: symtab_datum,
    pub permissions: Vec<perm_datum>,
    pub common_permissions: Vec<perm_datum>,
    pub constraints: Vec<constraint_node>,
}

/// A role and the types it may enter.
pub struct role_datum {
    pub name: String,
    pub s: symtab_datum,
    pub types: type_set,
}

/// A user.
pub struct user_datum {
    pub name: String,
    pub s: symtab_datum,
}

/// The key of an access vector rule.
#[derive(Clone, Copy, Debug, PartialEq, Eq, Structural)]
pub struct avtab_key {
    pub source_type: u16,
    pub target_type: u16,
    pub target_class: u16,
    pub specified: u16,
}

/// The ioctl permissions of an extended permission rule: 256 bits, of
/// drivers (`specified` is the driver kind) or of the functions of one
/// driver.
pub struct avtab_extended_perms {
    pub specified: u8,
    pub driver: u8,
    pub perms: Vec<u32>,
}

/// The value of an access vector rule.
pub struct avtab_datum {
    pub data: u32,
    pub xperms: Option<avtab_extended_perms>,
}

/// One access vector rule.
pub struct avtab_node {
    pub key: avtab_key,
    pub datum: avtab_datum,
}

/// The key of a name-based type transition.
pub struct filename_trans_key {
    pub ttype: u32,
    pub tclass: u32,
    pub name: String,
}

/// The source types that a name-based transition applies to, and its
/// resulting type.
pub struct filename_trans_datum {
    pub stypes: ebitmap,
    pub otype: u32,
}

/// All name-based transitions that share a key.
pub struct filename_trans_chain {
    pub key: filename_trans_key,
    pub datums: Vec<filename_trans_datum>,
}

/// A security context.
pub struct context_struct {
    pub user: u32,
    pub role: u32,
    pub type_: u32,
    pub range: String,
}

/// A path of a file system and its context.
pub struct ocontext {
    pub name: String,
    pub context: context_struct,
}

/// The contexts of the paths of one file system type.
pub struct genfs {
    pub fstype: String,
    pub head: Vec<ocontext>,
}

/// The policy database.
pub struct policydb {
    pub types: Vec<type_datum>,
    pub classes: Vec<class_datum>,
    pub roles: Vec<role_datum>,
    pub users: Vec<user_datum>,
    pub te_avtab: Vec<avtab_node>,
    pub filename_trans: Vec<filename_trans_chain>,
    pub filename_trans_count: u32,
    pub genfs: Vec<genfs>,
    pub type_attr_map: Vec<ebitmap>,
    pub attr_type_map: Vec<ebitmap>,
    pub permissive_map: ebitmap,
    pub policycaps: ebitmap,
    pub policyvers: u32,
    pub android_extra: u32,
}

// ---- views ----

/// The value of the extended permissions of a rule: its kind, its driver,
/// and the set of bits among 0..256 that are on.
pub struct XpermsView {
    pub specified: u8,
    pub driver: u8,
    pub perms: Set<int>,
}

/// The value of an access vector rule.
pub struct AvNode {
    pub key: avtab_key,
    pub data: u32,
    pub xperms: Option<XpermsView>,
}

/// Bit `x` of a bitmap held in 32-bit words.
pub open spec fn word_bit(p: Seq<u32>, x: int) -> bool {
    (p[x / 32] >> ((x % 32) as u32)) & 1u32 == 1u32
}

/// The bits among 0..256 that are on in eight 32-bit words.
pub open spec fn perm_bits(p: Seq<u32>) -> Set<int> {
    Set::new(|x: int| 0 <= x < 256 && word_bit(p, x))
}

impl View for avtab_extended_perms {
    type V = XpermsView;

    open spec fn view(&self) -> XpermsView {
        XpermsView { specified: self.specified, driver: self.driver, perms: perm_bits(self.perms@) }
    }
}

impl View for avtab_node {
    type V = AvNode;

    open spec fn view(&self) -> AvNode {
        AvNode {
            key: self.key,
            data: self.datum.data,
            xperms: match &self.datum.xperms {
                Some(x) => Some(x@),
                None => None,
            },
        }
    }
}

/// The value of the access vector table.
pub open spec fn avtab_view(v: Seq<avtab_node>) -> Seq<AvNode> {
    v.map_values(|n: avtab_node| n@)
}

/// The value of a type: name, value, flavor.
pub struct TypeView {
    pub name: Seq<char>,
    pub value: u32,
    pub flavor: u32,
}

impl View for type_datum {
    type V = TypeView;

    open spec fn view(&self) -> TypeView {
        TypeView { name: self.name@, value: self.s.value, flavor: self.flavor }
    }
}

/// The value of the type table.
pub open spec fn types_view(v: Seq<type_datum>) -> Seq<TypeView> {
    v.map_values(|t: type_datum| t@)
}

/// The value of a list of bitmaps.
pub open spec fn bitmaps_view(v: Seq<ebitmap>) -> Seq<Set<u32>> {
    v.map_values(|b: ebitmap| b@)
}

/// The value of a name-based transition: source types and resulting type.
pub struct FtDatumView {
    pub stypes: Set<u32>,
    pub otype: u32,
}

/// The value of the name-based transitions of one key.
pub struct FtChainView {
    pub ttype: u32,
    pub tclass: u32,
    pub name: Seq<char>,
    pub datums: Seq<FtDatumView>,
}

impl View for filename_trans_datum {
    type V = FtDatumView;

    open spec fn view(&self) -> FtDatumView {
        FtDatumView { stypes: self.stypes@, otype: self.otype }
    }
}

impl View for filename_trans_chain {
    type V = FtChainView;

    open spec fn view(&self) -> FtChainView {
        FtChainView {
            ttype: self.key.ttype,
            tclass: self.key.tclass,
            name: self.key.name@,
            datums: self.datums@.map_values(|d: filename_trans_datum| d@),
        }
    }
}

/// The value of all name-based transitions.
pub open spec fn filename_trans_view(v: Seq<filename_trans_chain>) -> Seq<FtChainView> {
    v.map_values(|c: filename_trans_chain| c@)
}

/// The value of a context.
pub struct ContextView {
    pub user: u32,
    pub role: u32,
    pub type_: u32,
    pub range: Seq<char>,
}

impl View for context_struct {
    type V = ContextView;

    open spec fn view(&self) -> ContextView {
        ContextView { user: self.user, role: self.role, type_: self.type_, range: self.range@ }
    }
}

/// The value of a file system's path contexts.
pub struct GenfsView {
    pub fstype: Seq<char>,
    pub entries: Seq<(Seq<char>, ContextView)>,
}

impl View for genfs {
    type V = GenfsView;

    open spec fn view(&self) -> GenfsView {
        GenfsView {
            fstype: self.fstype@,
            entries: self.head@.map_values(|o: ocontext| (o.name@, o.context@)),
        }
    }
}

/// The value of all file system contexts.
pub open spec fn genfs_view(v: Seq<genfs>) -> Seq<GenfsView> {
    v.map_values(|g: genfs| g@)
}


/// The value of a set of types with a negated part.
pub struct TypeSetView {
    pub types: Set<u32>,
    pub negset: Set<u32>,
    pub flags: u32,
}

impl View for type_set {
    type V = TypeSetView;

    open spec fn view(&self) -> TypeSetView {
        TypeSetView { types: self.types@, negset: self.negset@, flags: self.flags }
    }
}

/// The value of a constraint expression term.
pub struct ExprView {
    pub expr_type: u32,
    pub attr: u32,
    pub op: u32,
    pub names: Set<u32>,
    pub type_names: Option<TypeSetView>,
}

impl View for constraint_expr {
    type V = ExprView;

    open spec fn view(&self) -> ExprView {
        ExprView {
            expr_type: self.expr_type,
            attr: self.attr,
            op: self.op,
            names: self.names@,
            type_names: match &self.type_names {
                Some(t) => Some(t@),
                None => None,
            },
        }
    }
}

/// The value of a constraint.
pub struct ConstraintView {
    pub permissions: u32,
    pub expr: Seq<ExprView>,
}

impl View for constraint_node {
    type V = ConstraintView;

    open spec fn view(&self) -> ConstraintView {
        ConstraintView {
            permissions: self.permissions,
            expr: self.expr@.map_values(|e: constraint_expr| e@),
        }
    }
}

/// The value of a permission: name and value.
pub open spec fn perms_view(v: Seq<perm_datum>) -> Seq<(Seq<char>, u32)> {
    v.map_values(|p: perm_datum| (p.name@, p.s.value))
}

/// The value of a class.
pub struct ClassView {
    pub name: Seq<char>,
    pub value: u32,
    pub permissions: Seq<(Seq<char>, u32)>,
    pub common_permissions: Seq<(Seq<char>, u32)>,
    pub constraints: Seq<ConstraintView>,
}

impl View for class_datum {
    type V = ClassView;

    open spec fn view(&self) -> ClassView {
        ClassView {
            name: self.name@,
            value: self.s.value,
            permissions: perms_view(self.permissions@),
            common_permissions: perms_view(self.common_permissions@),
            constraints: self.constraints@.map_values(|c: constraint_node| c@),
        }
    }
}

/// The value of the class table.
pub open spec fn classes_view(v: Seq<class_datum>) -> Seq<ClassView> {
    v.map_values(|c: class_datum| c@)
}

/// The value of a role.
pub struct RoleView {
    pub name: Seq<char>,
    pub value: u32,
    pub types: TypeSetView,
}

impl View for role_datum {
    type V = RoleView;

    open spec fn view(&self) -> RoleView {
        RoleView { name: self.name@, value: self.s.value, types: self.types@ }
    }
}

/// The value of the role table.
pub open spec fn roles_view(v: Seq<role_datum>) -> Seq<RoleView> {
    v.map_values(|r: role_datum| r@)
}

/// The value of the user table: names and values.
pub open spec fn users_view(v: Seq<user_datum>) -> Seq<(Seq<char>, u32)> {
    v.map_values(|u: user_datum| (u.name@, u.s.value))
}


/// The value of the policy database.
pub struct PolicyView {
    pub types: Seq<TypeView>,
    pub classes: Seq<ClassView>,
    pub roles: Seq<RoleView>,
    pub users: Seq<(Seq<char>, u32)>,
    pub avtab: Seq<AvNode>,
    pub filename_trans: Seq<FtChainView>,
    pub filename_trans_count: u32,
    pub genfs: Seq<GenfsView>,
    pub type_attr_map: Seq<Set<u32>>,
    pub attr_type_map: Seq<Set<u32>>,
    pub permissive_map: Set<u32>,
    pub policycaps: Set<u32>,
    pub policyvers: u32,
    pub android_extra: u32,
}

impl View for policydb {
    type V = PolicyView;

    open spec fn view(&self) -> PolicyView {
        PolicyView {
            types: types_view(self.types@),
            classes: classes_view(self.classes@),
            roles: roles_view(self.roles@),
            users: users_view(self.users@),
            avtab: avtab_view(self.te_avtab@),
            filename_trans: filename_trans_view(self.filename_trans@),
            filename_trans_count: self.filename_trans_count,
            genfs: genfs_view(self.genfs@),
            type_attr_map: bitmaps_view(self.type_attr_map@),
            attr_type_map: bitmaps_view(self.attr_type_map@),
            permissive_map: self.permissive_map@,
            policycaps: self.policycaps@,
            policyvers: self.policyvers,
            android_extra: self.android_extra,
        }
    }
}

// ---- well-formedness ----

/// Every rule with extended permissions holds eight words.
pub open spec fn xperms_words_wf(av: Seq<avtab_node>) -> bool {
    forall|i: int|
        0 <= i < av.len() ==> ((#[trigger] av[i]).datum.xperms matches Some(x) ==> x.perms@.len()
            == 8)
}

/// Two extended permission rules of one key never hold the same part:
/// one driver rule and one function rule per driver at most.
pub open spec fn xperms_unique(av: Seq<AvNode>) -> bool {
    forall|i: int, j: int|
        0 <= i < j < av.len() && (#[trigger] av[i]).key == (#[trigger] av[j]).key && av[i].xperms
            is Some && av[j].xperms is Some ==> {
            let a = av[i].xperms.unwrap();
            let b = av[j].xperms.unwrap();
            a.specified != b.specified || (a.specified == AVTAB_XPERMS_IOCTLFUNCTION && a.driver
                != b.driver)
        }
}

/// Every extended permission rule is of one of the two kinds.
pub open spec fn xperms_kinds(av: Seq<AvNode>) -> bool {
    forall|i: int|
        0 <= i < av.len() ==> ((#[trigger] av[i]).xperms matches Some(x) ==> (x.specified
            == AVTAB_XPERMS_IOCTLFUNCTION || x.specified == AVTAB_XPERMS_IOCTLDRIVER))
}

/// Whether a rule kind is one of the extended permission kinds.
pub open spec fn is_xperm_kind(specified: u16) -> bool {
    specified == AVTAB_XPERMS_ALLOWED || specified == AVTAB_XPERMS_AUDITALLOW || specified
        == AVTAB_XPERMS_DONTAUDIT
}

/// The shape of a table that the policy statements build: a rule holds
/// extended permissions exactly when its kind is an extended permission
/// kind, and no two other rules share a key.
pub open spec fn avtab_shape(av: Seq<AvNode>) -> bool {
    &&& forall|i: int|
        0 <= i < av.len() ==> ((#[trigger] av[i]).xperms is Some <==> is_xperm_kind(
            av[i].key.specified,
        ))
    &&& forall|i: int, j: int|
        0 <= i < av.len() && 0 <= j < av.len() && i != j && (#[trigger] av[i]).key == (
        #[trigger] av[j]).key ==> av[i].xperms is Some
}

/// The permission values of every class are bit numbers 1..=32.
pub open spec fn perm_values_valid(classes: Seq<ClassView>) -> bool {
    &&& forall|i: int, j: int|
        0 <= i < classes.len() && 0 <= j < classes[i].permissions.len() ==> 1
            <= (#[trigger] classes[i].permissions[j]).1 <= 32
    &&& forall|i: int, j: int|
        0 <= i < classes.len() && 0 <= j < classes[i].common_permissions.len() ==> 1
            <= (#[trigger] classes[i].common_permissions[j]).1 <= 32
}

/// What holds of the database of every policy: the table has the shape the
/// statements build, its extended permission rules are well shaped, and
/// permission values are bit numbers.
pub open spec fn policy_valid(db: PolicyView) -> bool {
    &&& avtab_shape(db.avtab)
    &&& xperms_unique(db.avtab)
    &&& xperms_kinds(db.avtab)
    &&& perm_values_valid(db.classes)
}

impl policydb {
    /// The database is well formed: each symbol's value is its index plus
    /// one and fits the 16-bit fields of the rule keys, permission values
    /// are bit numbers 1..=32, the attribute maps have an entry per type,
    /// and the extended permission rules are well shaped.
    pub open spec fn wf(&self) -> bool {
        &&& self.types@.len() <= 0xFFFF
        &&& forall|i: int| 0 <= i < self.types@.len() ==> (#[trigger] self.types@[i]).s.value == i + 1
        &&& self.classes@.len() <= 0xFFFF
        &&& forall|i: int|
            0 <= i < self.classes@.len() ==> (#[trigger] self.classes@[i]).s.value == i + 1
        &&& forall|i: int, j: int|
            0 <= i < self.classes@.len() && 0 <= j < self.classes@[i].permissions@.len() ==> 1
                <= (#[trigger] self.classes@[i].permissions@[j]).s.value <= 32
        &&& forall|i: int, j: int|
            0 <= i < self.classes@.len() && 0 <= j < self.classes@[i].common_permissions@.len()
                ==> 1 <= (#[trigger] self.classes@[i].common_permissions@[j]).s.value <= 32
        &&& self.roles@.len() <= 0xFFFF
        &&& forall|i: int| 0 <= i < self.roles@.len() ==> (#[trigger] self.roles@[i]).s.value == i + 1
        &&& self.users@.len() <= 0xFFFF
        &&& forall|i: int| 0 <= i < self.users@.len() ==> (#[trigger] self.users@[i]).s.value == i + 1
        &&& self.type_attr_map@.len() == self.types@.len()
        &&& self.attr_type_map@.len() == self.types@.len()
        &&& xperms_words_wf(self.te_avtab@)
        &&& xperms_unique(avtab_view(self.te_avtab@))
        &&& xperms_kinds(avtab_view(self.te_avtab@))
    }
}

} // verus!
