use policy::sepol::{
    avtab_datum, avtab_key, avtab_node, constraint_expr, constraint_node, ebitmap, type_set,
    AVTAB_ALLOWED, AVTAB_AUDITDENY, CEXPR_NAMES, TYPE_ATTRIB, TYPE_TYPE,
};
use policy::sepol_impl::{
    filled_perms, find_class, find_type, is_redundant, sepol_add_class, sepol_add_type,
    sepol_add_typeattribute, sepol_db_new, sepol_disable_neverallow, sepol_get_android_flags,
    sepol_preserve_policycaps, sepol_set_android_flags, xperm_clear, xperm_set, xperm_set_range,
    xperm_test,
};

#[test]
fn bitmaps() {
    let mut e = ebitmap::new();
    assert!(!e.get_bit(3));
    e.set_bit(3, true);
    e.set_bit(3, true);
    e.set_bit(70, true);
    assert!(e.get_bit(3) && e.get_bit(70));
    let c = e.copy();
    e.set_bit(3, false);
    assert!(!e.get_bit(3));
    assert!(c.get_bit(3) && c.get_bit(70));
}

#[test]
fn ioctl_bits() {
    let mut p = filled_perms(false);
    assert!(!xperm_test(10, &p));
    xperm_set(10, &mut p);
    assert!(xperm_test(10, &p));
    xperm_clear(10, &mut p);
    assert!(!xperm_test(10, &p));
    xperm_set_range(&mut p, 30, 40, true);
    assert!(!xperm_test(29, &p) && xperm_test(30, &p) && xperm_test(40, &p) && !xperm_test(41, &p));
    let mut q = filled_perms(true);
    assert!(xperm_test(0, &q) && xperm_test(255, &q));
    xperm_set_range(&mut q, 0, 127, false);
    assert!(!xperm_test(127, &q) && xperm_test(128, &q));
}

#[test]
fn redundant_rules() {
    let key = avtab_key { source_type: 1, target_type: 1, target_class: 1, specified: AVTAB_ALLOWED };
    assert!(is_redundant(&avtab_node { key, datum: avtab_datum { data: 0, xperms: None } }));
    assert!(!is_redundant(&avtab_node { key, datum: avtab_datum { data: 4, xperms: None } }));
    let key = avtab_key { specified: AVTAB_AUDITDENY, ..key };
    assert!(is_redundant(&avtab_node { key, datum: avtab_datum { data: 0xFFFF_FFFF, xperms: None } }));
    assert!(!is_redundant(&avtab_node { key, datum: avtab_datum { data: 0, xperms: None } }));
}

#[test]
fn android_flags_and_capabilities() {
    let mut a = sepol_db_new(33);
    assert_eq!(sepol_get_android_flags(&a), 0);
    sepol_set_android_flags(&mut a, 5);
    assert_eq!(sepol_get_android_flags(&a), 5);
    let mut b = sepol_db_new(33);
    b.policycaps.set_bit(2, true);
    a.policycaps.set_bit(7, true);
    sepol_preserve_policycaps(&mut a, &b);
    assert!(a.policycaps.get_bit(2));
    assert!(!a.policycaps.get_bit(7));
}

fn names_constraint(attr_bit: u32) -> constraint_node {
    let mut types = ebitmap::new();
    types.set_bit(attr_bit, true);
    constraint_node {
        permissions: 1,
        expr: vec![constraint_expr {
            expr_type: CEXPR_NAMES,
            attr: 0,
            op: 0,
            names: ebitmap::new(),
            type_names: Some(type_set { types, negset: ebitmap::new(), flags: 0 }),
        }],
    }
}

#[test]
fn joining_an_attribute_extends_constraints() {
    let mut db = sepol_db_new(33);
    assert!(sepol_add_type(&mut db, "domain", TYPE_ATTRIB));
    assert!(sepol_add_type(&mut db, "app", TYPE_TYPE));
    assert!(sepol_add_class(&mut db, "file", &["read"]));
    let ci = find_class(&db, "file").unwrap();
    let ai = find_type(&db, "domain").unwrap();
    let ti = find_type(&db, "app").unwrap();
    db.classes[ci].constraints.push(names_constraint(ai as u32));
    assert!(!sepol_add_typeattribute(&mut db, "domain", "app"));
    assert!(sepol_add_typeattribute(&mut db, "app", "domain"));
    assert!(db.classes[ci].constraints[0].expr[0].names.get_bit(ti as u32));
    assert!(db.type_attr_map[ti].get_bit(ai as u32));
    assert!(db.attr_type_map[ai].get_bit(ti as u32));
    sepol_disable_neverallow(&mut db);
    assert!(db.classes[ci].constraints.is_empty());
}
