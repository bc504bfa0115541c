use policy::parser::Tokens;
use policy::statement::{
    extract_token, match_string, parse_id, parse_sterm, parse_term, parse_xperm, parse_xperm_hex,
    parse_xperm_range, parse_xperms, tokenize_statement, ParseError, Token,
};
use policy::Xperm;

fn stream(s: &str) -> Tokens<'_> {
    Tokens::new(tokenize_statement(s).into_vec())
}

#[test]
fn hex_and_ranges() {
    assert_eq!(parse_xperm_hex("0x8910"), Some(0x8910));
    assert_eq!(parse_xperm_hex("0xabcd"), Some(0xABCD));
    assert_eq!(parse_xperm_hex("8910"), None);
    assert_eq!(parse_xperm_hex("0x"), None);
    assert_eq!(parse_xperm_hex("0x1g"), None);
    assert_eq!(parse_xperm_range("0x8910-0x8926"), Some((0x8910, 0x8926)));
    assert_eq!(parse_xperm_range("0x8910"), None);
    assert_eq!(parse_xperm_range("0x8910-"), None);
    assert_eq!(parse_xperm_range("a-0x1"), None);
}

#[test]
fn extract_token_splits_a_word() {
    let mut tokens = Vec::new();
    extract_token("a{b,c}", &mut tokens);
    assert_eq!(
        tokens,
        vec![Token::ID("a"), Token::LB, Token::ID("b"), Token::CM, Token::ID("c"), Token::RB]
    );
    let mut tokens = Vec::new();
    extract_token("", &mut tokens);
    assert!(tokens.is_empty());
}

#[test]
fn identifiers_and_terms() {
    let mut t = stream("a { b c } *");
    assert_eq!(parse_id(&mut t).unwrap(), "a");
    assert_eq!(parse_term(&mut t).unwrap(), vec!["b", "c"]);
    assert!(matches!(parse_id(&mut t), Err(ParseError::General)));
    let mut t = stream("{ a }");
    assert!(matches!(parse_id(&mut t), Err(ParseError::General)));
    let mut t = stream("{ a * }");
    assert!(matches!(parse_term(&mut t), Err(ParseError::General)));
    let mut t = stream("{ a b");
    assert!(matches!(parse_term(&mut t), Err(ParseError::General)));
}

#[test]
fn star_terms() {
    let mut t = stream("a * { b c } { b * c }");
    assert_eq!(parse_sterm(&mut t).unwrap(), vec!["a"]);
    assert!(parse_sterm(&mut t).unwrap().is_empty());
    assert_eq!(parse_sterm(&mut t).unwrap(), vec!["b", "c"]);
    assert!(parse_sterm(&mut t).unwrap().is_empty());
    assert!(matches!(parse_sterm(&mut t), Err(ParseError::General)));
    let mut t = stream("}");
    assert!(matches!(parse_sterm(&mut t), Err(ParseError::General)));
}

#[test]
fn single_xperms() {
    let mut t = stream("0x10 0x20 - 0x30 0x40-0x50 0x60 -");
    assert_eq!(parse_xperm(&mut t).unwrap(), Xperm::single(0x10));
    assert_eq!(parse_xperm(&mut t).unwrap(), Xperm::range(0x20, 0x30));
    assert_eq!(parse_xperm(&mut t).unwrap(), Xperm::range(0x40, 0x50));
    assert!(matches!(parse_xperm(&mut t), Err(ParseError::General)));
    let mut t = stream("abc");
    assert!(matches!(parse_xperm(&mut t), Err(ParseError::General)));
}

#[test]
fn xperm_sets() {
    let mut t = stream("{ 0x10 0x20-0x30 }");
    assert_eq!(parse_xperms(&mut t).unwrap(), vec![Xperm::single(0x10), Xperm::range(0x20, 0x30)]);
    let mut t = stream("~{ 0x10 }");
    assert_eq!(parse_xperms(&mut t).unwrap(), vec![Xperm::complement(0x10, 0x10)]);
    let mut t = stream("*");
    assert_eq!(parse_xperms(&mut t).unwrap(), vec![Xperm::all()]);
    let mut t = stream("0x8910");
    assert_eq!(parse_xperms(&mut t).unwrap(), vec![Xperm::single(0x8910)]);
    let mut t = stream("0x0");
    assert_eq!(parse_xperms(&mut t).unwrap(), vec![Xperm::complement(0x0000, 0xFFFF)]);
    let mut t = stream("0x10-0x20");
    assert_eq!(parse_xperms(&mut t).unwrap(), vec![Xperm::range(0x10, 0x20)]);
    let mut t = stream("~0x10");
    assert!(matches!(parse_xperms(&mut t), Err(ParseError::General)));
    let mut t = stream("{ 0x10");
    assert!(matches!(parse_xperms(&mut t), Err(ParseError::General)));
    let mut t = stream("{ }");
    assert!(matches!(parse_xperms(&mut t), Err(ParseError::General)));
    let mut t = stream("name");
    assert!(matches!(parse_xperms(&mut t), Err(ParseError::General)));
}

#[test]
fn matching_a_word() {
    let mut t = stream("ioctl other");
    assert!(match_string(&mut t, "ioctl").is_ok());
    assert!(matches!(match_string(&mut t, "ioctl"), Err(ParseError::General)));
    let mut t = stream("*");
    assert!(matches!(match_string(&mut t, "*"), Err(ParseError::General)));
}

#[test]
fn range_text_reads_back() {
    for x in [
        Xperm::single(0x8910),
        Xperm::single(0),
        Xperm::range(0x8910, 0x8926),
        Xperm::range(0x20, 0x10),
        Xperm::complement(0xAB, 0xAB),
        Xperm::complement(0x0000, 0xFFFF),
        Xperm::all(),
    ] {
        let text = x.to_text();
        let mut t = stream(&text);
        assert_eq!(parse_xperms(&mut t).unwrap(), vec![x], "{}", text);
    }
}

#[test]
fn failed_steps_consume_one_token() {
    let mut t = stream("other ioctl");
    assert!(matches!(match_string(&mut t, "ioctl"), Err(ParseError::General)));
    assert!(match_string(&mut t, "ioctl").is_ok());
    let mut t = stream("{ name");
    assert!(matches!(parse_id(&mut t), Err(ParseError::General)));
    assert_eq!(parse_id(&mut t).unwrap(), "name");
    assert!(matches!(parse_id(&mut t), Err(ParseError::General)));
}

#[test]
fn every_value_reads_back_in_both_cases() {
    for v in 0..=0xFFFFu32 {
        let v = v as u16;
        assert_eq!(parse_xperm_hex(&format!("0x{:X}", v)), Some(v));
        assert_eq!(parse_xperm_hex(&format!("0x{:x}", v)), Some(v));
        assert_eq!(parse_xperm_hex(&format!("0x{:04X}", v)), Some(v));
        assert_eq!(parse_xperm_hex(&format!("0x{:04x}", v)), Some(v));
    }
    assert_eq!(parse_xperm_hex("0X10"), None);
    assert_eq!(parse_xperm_hex("0x10000"), None);
}

#[test]
fn statement_tokens_are_the_tokens_of_its_words() {
    let s = "  allowxperm {a,b}  ~{ 0x10-0x20 } c ioctl\t0x8910 * - ";
    let mut expected = Vec::new();
    for w in s.split_whitespace() {
        extract_token(w, &mut expected);
    }
    assert_eq!(tokenize_statement(s).to_vec(), expected);
    for t in tokenize_statement(s).to_vec() {
        if let Token::ID(x) = t {
            assert!(!x.is_empty());
            assert!(!x.contains(|c: char| c.is_whitespace() || c == '{' || c == '}' || c == ','));
            assert!(!x.starts_with('~'));
            assert_eq!(parse_xperm_hex(x), None);
        }
    }
}

#[test]
fn complement_sets_are_complements_throughout() {
    let mut t = stream("~{ 0x10 0x20-0x30 }");
    let v = parse_xperms(&mut t).unwrap();
    assert_eq!(v.len(), 2);
    assert!(v.iter().all(|x| x.reset));
    let mut t = stream("{ 0x10 0x20-0x30 }");
    let v = parse_xperms(&mut t).unwrap();
    assert!(v.iter().all(|x| !x.reset));
    let mut t = stream("0x0");
    assert_eq!(parse_xperms(&mut t).unwrap(), vec![Xperm::complement(0x0000, 0xFFFF)]);
    let mut t = stream("");
    assert!(matches!(parse_xperms(&mut t), Err(ParseError::General)));
    let mut t = stream("}");
    assert!(matches!(parse_xperms(&mut t), Err(ParseError::General)));
}
