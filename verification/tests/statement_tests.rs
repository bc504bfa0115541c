use policy::format_statement_help;
use policy::parser::Tokens;
use policy::statement::{exec_statement, parse_statement, tokenize_statement, ParseError, Token};
use policy::SePolicy;

#[test]
fn test_tokenize_braces() {
    let tokens = tokenize_statement("allow { s1 s2 } target class *");
    assert!(matches!(tokens[0], Token::AL));
    assert!(matches!(tokens[1], Token::LB));
    assert!(matches!(tokens[7], Token::ST));
}

#[test]
fn test_tokenize_statement() {
    let tokens = tokenize_statement("allow source target class permission");
    assert_eq!(tokens.len(), 4);
    assert!(matches!(tokens[0], Token::AL));
    assert!(matches!(tokens[1], Token::ID("source")));
}

#[test]
fn statement_tokens_hold_the_action_and_its_arguments() {
    let tokens = tokenize_statement("allow source target class permission");
    assert_eq!(
        tokens.to_vec(),
        vec![
            Token::AL,
            Token::ID("source"),
            Token::ID("target"),
            Token::ID("class"),
            Token::ID("permission"),
        ]
    );
    assert_eq!(tokenize_statement("allow").len(), 0);
    assert_eq!(tokenize_statement("").len(), 0);
}

#[test]
fn tokenize_keywords_and_operators() {
    let tokens = tokenize_statement(
        "deny auditallow dontaudit allowxperm auditallowxperm dontauditxperm permissive enforce \
         typeattribute type attribute type_transition type_change type_member genfscon * -",
    );
    assert_eq!(
        tokens.to_vec(),
        vec![
            Token::DN,
            Token::AA,
            Token::DA,
            Token::AX,
            Token::AY,
            Token::DX,
            Token::PM,
            Token::EF,
            Token::TA,
            Token::TY,
            Token::AT,
            Token::TT,
            Token::TC,
            Token::TM,
            Token::GF,
            Token::ST,
            Token::HP,
        ]
    );
}

#[test]
fn tokenize_splits_braces_commas_and_complement() {
    let tokens = tokenize_statement("  ~{0x8910,0x892A}\tname{x}  ");
    assert_eq!(
        tokens.to_vec(),
        vec![
            Token::TL,
            Token::LB,
            Token::HX(0x8910),
            Token::CM,
            Token::HX(0x892A),
            Token::RB,
            Token::ID("name"),
            Token::LB,
            Token::ID("x"),
            Token::RB,
        ]
    );
}

#[test]
fn tokenize_hex_numbers() {
    assert_eq!(tokenize_statement("0x0").to_vec(), vec![Token::HX(0)]);
    assert_eq!(tokenize_statement("0xffff").to_vec(), vec![Token::HX(0xFFFF)]);
    assert_eq!(tokenize_statement("0x10000").to_vec(), vec![Token::ID("0x10000")]);
    assert_eq!(tokenize_statement("0x").to_vec(), vec![Token::ID("0x")]);
    assert_eq!(tokenize_statement("0x8910-0x8926").to_vec(), vec![Token::ID("0x8910-0x8926")]);
    assert_eq!(tokenize_statement("0x+1").to_vec(), vec![Token::HX(1)]);
}

#[test]
fn tokenize_empty_and_white_space() {
    assert!(tokenize_statement("").is_empty());
    assert!(tokenize_statement(" \t\n ").is_empty());
}

#[test]
fn token_texts() {
    assert_eq!(Token::AL.to_text(), "allow");
    assert_eq!(Token::GF.to_text(), "genfscon");
    assert_eq!(Token::LB.to_text(), "{");
    assert_eq!(Token::TL.to_text(), "~");
    assert_eq!(Token::HX(0x8910).to_text(), "008910");
    assert_eq!(Token::HX(0xAB).to_text(), "0000AB");
    assert_eq!(Token::ID("name").to_text(), "name");
}

#[test]
fn parse_error_texts() {
    assert_eq!(ParseError::General.to_text(), "General parse error");
    assert_eq!(
        ParseError::AvtabAv(Token::AL).to_text(),
        "allow *source_type *target_type *class *perm_set"
    );
    assert_eq!(
        ParseError::AvtabXperms(Token::DX).to_text(),
        "dontauditxperm *source_type *target_type *class operation xperm_set"
    );
    assert_eq!(
        ParseError::AvtabType(Token::TM).to_text(),
        "type_member source_type target_type class default_type"
    );
    assert_eq!(ParseError::TypeState(Token::PM).to_text(), "permissive *type");
    assert_eq!(ParseError::TypeAttr.to_text(), "typeattribute ^type ^attribute");
    assert_eq!(
        ParseError::TypeTrans.to_text(),
        "type_transition source_type target_type class default_type (object_name)"
    );
    assert_eq!(ParseError::NewType.to_text(), "type type_name ^(attribute)");
    assert_eq!(ParseError::NewAttr.to_text(), "attribute attribute_name");
    assert_eq!(ParseError::GenfsCon.to_text(), "genfscon fs_name partial_path fs_context");
    assert_eq!(
        ParseError::UnknownAction(Token::ID("foo")).to_text(),
        "Unknown action: \"foo\""
    );
    assert_eq!(ParseError::ShowHelp.to_text(), format_statement_help());
}

#[test]
fn statement_help_text() {
    let help = format_statement_help();
    assert!(help.starts_with("** Policy statements:\n\n"));
    assert!(help.contains("Multiple entries consist of a space separated list enclosed in braces ({}).\n"));
    assert!(help.contains("Example: \"allow { s1 s2 } { t1 t2 } class *\"\n"));
    assert!(help.contains("allowxperm source target class ioctl ~{ 0x8910 0x892A }\n"));
    let tail = "** Supported policy statements:\n\n\
allow *source_type *target_type *class *perm_set\n\
deny *source_type *target_type *class *perm_set\n\
auditallow *source_type *target_type *class *perm_set\n\
dontaudit *source_type *target_type *class *perm_set\n\
allowxperm *source_type *target_type *class operation xperm_set\n\
auditallowxperm *source_type *target_type *class operation xperm_set\n\
dontauditxperm *source_type *target_type *class operation xperm_set\n\
permissive *type\n\
enforce *type\n\
typeattribute ^type ^attribute\n\
type type_name ^(attribute)\n\
attribute attribute_name\n\
type_transition source_type target_type class default_type (object_name)\n\
type_change source_type target_type class default_type\n\
type_member source_type target_type class default_type\n\
genfscon fs_name partial_path fs_context\n";
    assert!(help.ends_with(tail));
}

#[test]
fn empty_token_stream_asks_for_help() {
    let mut policy = SePolicy::new(33);
    let mut tokens = Tokens::new(Vec::new());
    let r = exec_statement(&mut policy, &mut tokens);
    assert!(matches!(r, Err(ParseError::ShowHelp)));
}

#[test]
fn unknown_action_is_reported() {
    let mut policy = SePolicy::new(33);
    let d = parse_statement(&mut policy, "  foo bar ");
    assert_eq!(
        d,
        vec!["Syntax error in: \"foo bar\"".to_string(), "Hint: Unknown action: \"foo\"".to_string()]
    );
    let mut tokens = Tokens::new(tokenize_statement("{ x").into_vec());
    assert!(matches!(
        exec_statement(&mut policy, &mut tokens),
        Err(ParseError::UnknownAction(Token::LB))
    ));
}

#[test]
fn malformed_statements_are_general_errors() {
    let mut policy = SePolicy::new(33);
    for stmt in [
        "allow a",
        "allow a b c d e",
        "allow { a b c d",
        "allowxperm a b c read 0x10",
        "allowxperm a b c ioctl ~0x10",
        "allowxperm a b c ioctl { 0x10 - }",
        "permissive",
        "typeattribute { a } ",
        "type",
        "type a b c",
        "attribute a b",
        "type_change a b c",
        "type_transition a b c d e f",
        "genfscon a b",
    ] {
        let d = parse_statement(&mut policy, stmt);
        assert_eq!(d.len(), 2, "{}", stmt);
        assert_eq!(d[1], "Hint: General parse error", "{}", stmt);
    }
    assert!(policy.print_rules().is_empty());
}

#[test]
fn blank_lines_and_comments_do_nothing() {
    let mut policy = SePolicy::new(33);
    assert!(parse_statement(&mut policy, "").is_empty());
    assert!(parse_statement(&mut policy, "   \t ").is_empty());
    assert!(parse_statement(&mut policy, "  # allow a b c d").is_empty());
    assert!(policy.print_rules().is_empty());
}

#[test]
fn token_text_reads_back() {
    for t in [
        Token::AL, Token::DN, Token::AA, Token::DA, Token::AX, Token::AY, Token::DX, Token::PM,
        Token::EF, Token::TA, Token::TY, Token::AT, Token::TT, Token::TC, Token::TM, Token::GF,
        Token::LB, Token::RB, Token::CM, Token::ST, Token::TL, Token::HP,
    ] {
        let text = t.to_text();
        assert_eq!(tokenize_statement(&text).to_vec(), vec![t], "{}", text);
    }
}
