use policy::{PolicyError, SePolicy, Xperm};

fn sample() -> SePolicy {
    let mut p = SePolicy::new(33);
    p.attribute("domain");
    p.type_("app", &["domain"]);
    p.type_("file_t", &[]);
    assert!(p.add_class("file", &["read", "write", "ioctl"]));
    p
}

fn lines(p: &SePolicy) -> Vec<String> {
    p.print_rules()
}

fn has(p: &SePolicy, line: &str) -> bool {
    lines(p).iter().any(|l| l == line)
}

#[test]
fn new_policy_prints_nothing() {
    let p = SePolicy::new(33);
    assert!(p.print_rules().is_empty());
}

#[test]
fn split_policies_are_unsupported() {
    assert!(matches!(SePolicy::from_split(), Err(PolicyError::Unsupported)));
    assert!(matches!(SePolicy::compile_split(), Err(PolicyError::Unsupported)));
    assert_eq!(PolicyError::Unsupported.to_text(), "CIL compilation not implemented");
}

#[test]
fn declarations_are_printed() {
    let p = sample();
    assert_eq!(lines(&p), vec!["attribute domain".to_string(), "type app { domain }".to_string()]);
}

#[test]
fn declaring_twice_changes_nothing() {
    let mut p = sample();
    let before = lines(&p);
    p.type_("app", &[]);
    p.attribute("domain");
    assert!(!p.add_class("file", &["read"]));
    assert_eq!(lines(&p), before);
    assert!(p.add_role("r"));
    assert!(!p.add_role("r"));
    assert!(p.add_user("u"));
    assert!(!p.add_user("u"));
}

#[test]
fn classes_hold_at_most_32_permissions() {
    let mut p = SePolicy::new(33);
    let names: Vec<String> = (0..33).map(|i| format!("p{}", i)).collect();
    let refs: Vec<&str> = names.iter().map(|s| s.as_str()).collect();
    assert!(!p.add_class("big", &refs));
    assert!(p.add_class("big", &refs[..32]));
}

#[test]
fn allow_grants_and_deny_revokes() {
    let mut p = sample();
    p.allow(&["app"], &["file_t"], &["file"], &["read"]);
    assert!(has(&p, "allow app file_t file { read }"));
    p.allow(&["app"], &["file_t"], &["file"], &["write"]);
    assert!(has(&p, "allow app file_t file { read write }"));
    p.deny(&["app"], &["file_t"], &["file"], &["read"]);
    assert!(has(&p, "allow app file_t file { write }"));
    p.deny(&["app"], &["file_t"], &["file"], &["write"]);
    assert!(!lines(&p).iter().any(|l| l.starts_with("allow ")));
}

#[test]
fn deny_keeps_the_rest() {
    let mut p = sample();
    p.allow(&["app"], &["file_t"], &["file"], &["read", "write", "ioctl"]);
    p.allow(&["file_t"], &["file_t"], &["file"], &["read"]);
    p.deny(&["app"], &["file_t"], &["file"], &["read"]);
    assert!(has(&p, "allow app file_t file { write ioctl }"));
    assert!(has(&p, "allow file_t file_t file { read }"));
}

#[test]
fn rules_joined_by_a_line_feed_run_in_turn() {
    let a = "allow app file_t file read\r\nfoo";
    let b = "allow app file_t file write\n# done\n";
    let mut p1 = sample();
    let d1 = p1.load_rules(&format!("{}\n{}", a, b));
    let mut p2 = sample();
    let mut d2 = p2.load_rules(a);
    d2.extend(p2.load_rules(b));
    assert_eq!(d1, d2);
    assert_eq!(lines(&p1), lines(&p2));
    assert!(has(&p1, "allow app file_t file { read write }"));
}

#[test]
fn unknown_names_change_nothing() {
    let mut p = sample();
    let before = lines(&p);
    p.allow(&["nosuch"], &["file_t"], &["file"], &["read"]);
    p.allow(&["app"], &["file_t"], &["file"], &["nosuch"]);
    p.allow(&["app"], &["file_t"], &["nosuch"], &["read"]);
    p.permissive(&["nosuch"]);
    p.typeattribute(&["nosuch"], &["domain"]);
    p.type_transition("app", "file_t", "file", "nosuch", "");
    p.genfscon("proc", "/x", "nouser:r:file_t");
    assert_eq!(lines(&p), before);
}

#[test]
fn wildcards_expand() {
    let mut p = sample();
    p.allow(&[], &["file_t"], &["file"], &["read"]);
    assert!(has(&p, "allow domain file_t file { read }"));
    assert!(!has(&p, "allow app file_t file { read }"));
    p.allow(&["app"], &["file_t"], &[], &[]);
    assert!(has(&p, "allow app file_t file { read write ioctl }"));
    p.allow(&["app", "domain"], &["app", "file_t"], &["file"], &["write"]);
    assert!(has(&p, "allow app app file { write }"));
    assert!(has(&p, "allow domain app file { write }"));
    assert!(has(&p, "allow domain file_t file { read write }"));
}

#[test]
fn auditallow_and_dontaudit() {
    let mut p = sample();
    p.auditallow(&["app"], &["file_t"], &["file"], &["read"]);
    assert!(has(&p, "auditallow app file_t file { read }"));
    p.dontaudit(&["app"], &["file_t"], &["file"], &["write"]);
    assert!(has(&p, "dontaudit app file_t file { write }"));
}

#[test]
fn ioctl_rules() {
    let mut p = sample();
    p.allowxperm(&["app"], &["file_t"], &["file"], &[Xperm::single(0x8910)]);
    assert!(has(&p, "allowxperm app file_t file ioctl { 0x8910 }"));
    p.allowxperm(&["app"], &["file_t"], &["file"], &[Xperm::range(0x8920, 0x8926)]);
    assert!(has(&p, "allowxperm app file_t file ioctl { 0x8910 0x8920-0x8926 }"));
    p.auditallowxperm(&["app"], &["file_t"], &["file"], &[Xperm::range(0x8900, 0x8AFF)]);
    assert!(has(&p, "auditallowxperm app file_t file ioctl { 0x8900-0x8A00 }"));
    p.dontauditxperm(&["app"], &["file_t"], &["file"], &[Xperm::single(0x1)]);
    assert!(has(&p, "dontauditxperm app file_t file ioctl { 0x0001 }"));
}

#[test]
fn ioctl_complement() {
    let mut p = sample();
    p.allowxperm(&["app"], &["file_t"], &["file"], &[Xperm::complement(0x8910, 0x8910)]);
    assert!(has(&p, "allowxperm app file_t file ioctl { 0x0000-0x8800 0x8A00-0xFF00 }"));
    assert!(has(&p, "allowxperm app file_t file ioctl { 0x8900-0x890F 0x8911-0x89FF }"));
}

#[test]
fn ioctl_complement_list_excludes_every_listed_value() {
    let mut p = sample();
    p.allowxperm(
        &["app"],
        &["file_t"],
        &["file"],
        &[Xperm::complement(0x8910, 0x8910), Xperm::complement(0x892A, 0x892A)],
    );
    assert!(has(&p, "allowxperm app file_t file ioctl { 0x0000-0x8800 0x8A00-0xFF00 }"));
    assert!(has(&p, "allowxperm app file_t file ioctl { 0x8900-0x890F 0x8911-0x8929 0x892B-0x89FF }"));
}

#[test]
fn ioctl_complement_statement_excludes_every_listed_value() {
    let mut p = sample();
    let d = p.load_rules("allowxperm app file_t file ioctl ~{ 0x8910 0x892A 0x1000-0x20FF }");
    assert!(d.is_empty());
    assert!(has(&p, "allowxperm app file_t file ioctl { 0x0000-0x0F00 0x2100-0x8800 0x8A00-0xFF00 }"));
    assert!(has(&p, "allowxperm app file_t file ioctl { 0x8900-0x890F 0x8911-0x8929 0x892B-0x89FF }"));
}

#[test]
fn ioctl_complement_list_resets_what_was_allowed() {
    let mut p = sample();
    p.allowxperm(&["app"], &["file_t"], &["file"], &[Xperm::single(0x8910), Xperm::range(0x0100, 0x0300)]);
    p.allowxperm(
        &["app"],
        &["file_t"],
        &["file"],
        &[Xperm::complement(0x0000, 0x00FF), Xperm::complement(0x8900, 0x89FE)],
    );
    assert!(has(&p, "allowxperm app file_t file ioctl { 0x0100-0x8800 0x8A00-0xFF00 }"));
    assert!(has(&p, "allowxperm app file_t file ioctl { 0x89FF }"));
}

#[test]
fn ioctl_lists_apply_in_order() {
    let mut p = sample();
    p.allowxperm(&["app"], &["file_t"], &["file"], &[Xperm::single(0x30), Xperm::complement(0x30, 0x30)]);
    assert!(has(&p, "allowxperm app file_t file ioctl { 0x0100-0xFF00 }"));
    assert!(has(&p, "allowxperm app file_t file ioctl { 0x0000-0x002F 0x0031-0x00FF }"));
    let mut q = sample();
    q.allowxperm(&["app"], &["file_t"], &["file"], &[Xperm::complement(0x30, 0x30), Xperm::single(0x30)]);
    assert!(has(&q, "allowxperm app file_t file ioctl { 0x0100-0xFF00 }"));
    assert!(has(&q, "allowxperm app file_t file ioctl { 0x0000-0x00FF }"));
}

#[test]
fn ioctl_rules_need_a_recent_policy() {
    let mut p = SePolicy::new(29);
    p.type_("app", &[]);
    p.type_("file_t", &[]);
    assert!(p.add_class("file", &["ioctl"]));
    let before = lines(&p);
    p.allowxperm(&["app"], &["file_t"], &["file"], &[Xperm::single(0x8910)]);
    assert_eq!(lines(&p), before);
    assert_eq!(p.take_notes(), vec!["policy version 29 does not support ioctl xperms rules".to_string()]);
    assert!(p.take_notes().is_empty());
}

#[test]
fn refused_statements_are_reported() {
    let mut p = SePolicy::new(29);
    p.type_("app", &[]);
    p.type_("file_t", &[]);
    assert!(p.add_class("file", &["ioctl"]));
    let d = p.load_rules(
        "allowxperm { app file_t } file_t file ioctl { 0x1 0x2 }\n\
         type_transition app file_t file nosuch obj\n\
         type_transition app nosuch file file_t obj\n\
         type_transition app file_t file nosuch\n\
         genfscon proc /x bad\n",
    );
    let v29 = "policy version 29 does not support ioctl xperms rules".to_string();
    assert_eq!(
        d,
        vec![
            v29.clone(),
            v29.clone(),
            v29.clone(),
            v29,
            "filename_trans: default type nosuch does not exist".to_string(),
            "filename_trans: target type nosuch does not exist".to_string(),
            "genfscon: failed to parse context 'bad'".to_string(),
        ]
    );
    assert!(p.take_notes().is_empty());
}

#[test]
fn direct_refusals_wait_to_be_taken() {
    let mut p = sample();
    p.type_transition("app", "file_t", "nosuch", "app", "obj");
    p.genfscon("proc", "/x", "u:r");
    assert_eq!(
        p.take_notes(),
        vec![
            "filename_trans: class nosuch does not exist".to_string(),
            "genfscon: failed to parse context 'u:r'".to_string(),
        ]
    );
}

#[test]
fn permissive_and_enforce() {
    let mut p = sample();
    p.permissive(&["app"]);
    assert!(has(&p, "permissive app"));
    p.enforce(&["app"]);
    assert!(!has(&p, "permissive app"));
    p.permissive(&[]);
    assert!(has(&p, "permissive app"));
    assert!(has(&p, "permissive file_t"));
    p.enforce(&[]);
    assert_eq!(lines(&p), lines(&sample()));
}

#[test]
fn typeattribute_adds_types_to_attributes() {
    let mut p = sample();
    p.attribute("other");
    p.typeattribute(&["file_t", "app"], &["domain", "other"]);
    assert!(has(&p, "type file_t { domain other }"));
    assert!(has(&p, "type app { domain other }"));
    p.typeattribute(&["domain"], &["other"]);
    assert!(!lines(&p).iter().any(|l| l.starts_with("type domain")));
}

#[test]
fn type_rules() {
    let mut p = sample();
    p.type_("new_t", &[]);
    p.type_transition("app", "file_t", "file", "new_t", "");
    assert!(has(&p, "type_transition app file_t file new_t"));
    p.type_change("app", "file_t", "file", "new_t");
    assert!(has(&p, "type_change app file_t file new_t"));
    p.type_member("app", "file_t", "file", "new_t");
    assert!(has(&p, "type_member app file_t file new_t"));
    let before = lines(&p);
    p.type_transition("app", "file_t", "file", "app", "");
    assert_eq!(lines(&p), before);
}

#[test]
fn name_based_type_transitions() {
    let mut p = sample();
    p.type_("new_t", &[]);
    p.type_transition("app", "file_t", "file", "new_t", "obj");
    assert!(has(&p, "type_transition app file_t file new_t obj"));
    p.type_transition("file_t", "file_t", "file", "app", "obj");
    assert!(has(&p, "type_transition file_t file_t file app obj"));
    p.type_transition("app", "file_t", "file", "app", "obj");
    assert!(has(&p, "type_transition app file_t file app obj"));
    assert!(!has(&p, "type_transition app file_t file new_t obj"));
}

#[test]
fn name_based_transition_joining_the_first_entry_is_refused() {
    let mut p = sample();
    p.type_("new_t", &[]);
    p.type_transition("app", "file_t", "file", "new_t", "obj");
    let before = p.print_rules();
    p.type_transition("file_t", "file_t", "file", "new_t", "obj");
    assert_eq!(p.print_rules(), before);
    assert!(!has(&p, "type_transition file_t file_t file new_t obj"));
}

#[test]
fn file_system_contexts() {
    let mut p = sample();
    assert!(p.add_user("u"));
    assert!(p.add_role("r"));
    p.genfscon("proc", "/x", "u:r:file_t:s0");
    p.genfscon("proc", "/y", "u:r:file_t");
    p.genfscon("sysfs", "/a", "u:r:app:s0:c1");
    p.genfscon("proc", "/x", "u:r:app");
    let all = lines(&p);
    let g: Vec<&String> = all.iter().filter(|l| l.starts_with("genfscon")).collect();
    assert_eq!(
        g,
        vec![
            "genfscon sysfs /a u:r:app:s0:c1",
            "genfscon proc /y u:r:file_t",
            "genfscon proc /x u:r:app",
        ]
    );
}

#[test]
fn load_rules_runs_each_line() {
    let mut p = sample();
    let d = p.load_rules(
        "allow app file_t file read\r\n# comment\n\n  allow app file_t file { write\nfoo\ntype_transition app file_t file app",
    );
    assert_eq!(
        d,
        vec![
            "Syntax error in: \"allow app file_t file { write\"".to_string(),
            "Hint: General parse error".to_string(),
            "Syntax error in: \"foo\"".to_string(),
            "Hint: Unknown action: \"foo\"".to_string(),
        ]
    );
    assert!(has(&p, "allow app file_t file { read }"));
    assert!(has(&p, "type_transition app file_t file app"));
}

#[test]
fn load_rules_full_language() {
    let mut p = SePolicy::new(33);
    assert!(p.add_class("file", &["read", "write", "ioctl"]));
    assert!(p.add_user("u"));
    assert!(p.add_role("r"));
    let d = p.load_rules(
        "attribute domain\n\
         type app domain\n\
         type file_t\n\
         type other_t { domain }\n\
         typeattribute file_t domain\n\
         allow { app other_t } file_t file { read write }\n\
         deny app file_t file write\n\
         auditallow app * file read\n\
         dontaudit app file_t file *\n\
         allowxperm app file_t file ioctl { 0x8910-0x8912 0x8920 }\n\
         auditallowxperm app file_t file ioctl *\n\
         dontauditxperm app file_t file ioctl 0x8910\n\
         permissive app\n\
         enforce app\n\
         permissive other_t\n\
         type_change app file_t file other_t\n\
         type_member app file_t file other_t\n\
         type_transition app file_t file other_t name\n\
         genfscon proc /x u:r:file_t\n",
    );
    assert!(d.is_empty(), "{:?}", d);
    let all = lines(&p);
    let expect = [
        "attribute domain",
        "type app { domain }",
        "type file_t { domain }",
        "type other_t { domain }",
        "permissive other_t",
        "allow app file_t file { read }",
        "allow other_t file_t file { read write }",
        "auditallow app domain file { read }",
        "dontaudit app file_t file { read write ioctl }",
        "allowxperm app file_t file ioctl { 0x8910-0x8912 0x8920 }",
        "auditallowxperm app file_t file ioctl { 0x0000-0xFF00 }",
        "dontauditxperm app file_t file ioctl { 0x8910 }",
        "type_change app file_t file other_t",
        "type_member app file_t file other_t",
        "type_transition app file_t file other_t name",
        "genfscon proc /x u:r:file_t",
    ];
    for e in expect {
        assert!(all.iter().any(|l| l == e), "missing {:?} in {:?}", e, all);
    }
    assert!(!all.iter().any(|l| l == "permissive app"));
}

#[test]
fn ioctl_zero_clears_the_rules() {
    let mut p = sample();
    p.allowxperm(&["app"], &["file_t"], &["file"], &[Xperm::single(0x8910)]);
    assert!(has(&p, "allowxperm app file_t file ioctl { 0x8910 }"));
    let d = p.load_rules("allowxperm app file_t file ioctl 0x0");
    assert!(d.is_empty());
    assert!(!has(&p, "allowxperm app file_t file ioctl { 0x8910 }"));
    assert!(has(&p, "allowxperm app file_t file ioctl { }"));
}

#[test]
fn ioctl_star_allows_every_command() {
    let mut p = sample();
    let d = p.load_rules("allowxperm app file_t file ioctl *");
    assert!(d.is_empty());
    assert!(has(&p, "allowxperm app file_t file ioctl { 0x0000-0xFF00 }"));
}

#[test]
fn deny_undoes_allow() {
    let mut p = sample();
    let before = lines(&p);
    p.allow(&["app"], &["file_t"], &["file"], &["ioctl"]);
    assert_ne!(lines(&p), before);
    p.deny(&["app"], &["file_t"], &["file"], &["ioctl"]);
    assert_eq!(lines(&p), before);
}

#[test]
fn source_lists_apply_in_order() {
    let mut a = sample();
    a.load_rules("allow { app domain } file_t file { read write }");
    let mut b = sample();
    b.load_rules("allow app file_t file { read write }\nallow domain file_t file { read write }");
    assert_eq!(lines(&a), lines(&b));
    assert!(has(&a, "allow domain file_t file { read write }"));
}
