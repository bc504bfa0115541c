//! Tokens of the policy statement language and the tokenizer.

use vstd::prelude::*;

use crate::text::{hex4, push_hex4};
use crate::lexer::{
    char_is_ws, find_char, find_char_exec, is_ws, lemma_find_char, parse_u16_hex, parse_u16_hex_from,
};

verus! {

/// Token for policy statement parsing.
#[derive(Debug, Clone, Copy, PartialEq)]
pub enum Token<'a> {
    AL,
    DN,
    AA,
    DA,
    AX,
    AY,
    DX,
    PM,
    EF,
    TA,
    TY,
    AT,
    TT,
    TC,
    TM,
    GF,
    LB,
    RB,
    CM,
    ST,
    TL,
    HP,
    HX(u16),
    ID(&'a str),
}

/// The mathematical value of a token: an identifier is its characters.
pub enum SpecToken {
    AL,
    DN,
    AA,
    DA,
    AX,
    AY,
    DX,
    PM,
    EF,
    TA,
    TY,
    AT,
    TT,
    TC,
    TM,
    GF,
    LB,
    RB,
    CM,
    ST,
    TL,
    HP,
    HX(u16),
    ID(Seq<char>),
}

impl<'a> View for Token<'a> {
    type V = SpecToken;

    open spec fn view(&self) -> SpecToken {
        match self {
            Token::AL => SpecToken::AL,
            Token::DN => SpecToken::DN,
            Token::AA => SpecToken::AA,
            Token::DA => SpecToken::DA,
            Token::AX => SpecToken::AX,
            Token::AY => SpecToken::AY,
            Token::DX => SpecToken::DX,
            Token::PM => SpecToken::PM,
            Token::EF => SpecToken::EF,
            Token::TA => SpecToken::TA,
            Token::TY => SpecToken::TY,
            Token::AT => SpecToken::AT,
            Token::TT => SpecToken::TT,
            Token::TC => SpecToken::TC,
            Token::TM => SpecToken::TM,
            Token::GF => SpecToken::GF,
            Token::LB => SpecToken::LB,
            Token::RB => SpecToken::RB,
            Token::CM => SpecToken::CM,
            Token::ST => SpecToken::ST,
            Token::TL => SpecToken::TL,
            Token::HP => SpecToken::HP,
            Token::HX(n) => SpecToken::HX(*n),
            Token::ID(s) => SpecToken::ID(s@),
        }
    }
}

/// The text of a token: keywords and operators as written, a number as
/// six upper-case hexadecimal digits, an identifier as itself.
pub open spec fn token_text(t: SpecToken) -> Seq<char> {
    match t {
        SpecToken::AL => "allow"@,
        SpecToken::DN => "deny"@,
        SpecToken::AA => "auditallow"@,
        SpecToken::DA => "dontaudit"@,
        SpecToken::AX => "allowxperm"@,
        SpecToken::AY => "auditallowxperm"@,
        SpecToken::DX => "dontauditxperm"@,
        SpecToken::PM => "permissive"@,
        SpecToken::EF => "enforce"@,
        SpecToken::TA => "typeattribute"@,
        SpecToken::TY => "type"@,
        SpecToken::AT => "attribute"@,
        SpecToken::TT => "type_transition"@,
        SpecToken::TC => "type_change"@,
        SpecToken::TM => "type_member"@,
        SpecToken::GF => "genfscon"@,
        SpecToken::LB => "{"@,
        SpecToken::RB => "}"@,
        SpecToken::CM => ","@,
        SpecToken::ST => "*"@,
        SpecToken::TL => "~"@,
        SpecToken::HP => "-"@,
        SpecToken::HX(n) => "00"@ + hex4(n),
        SpecToken::ID(s) => s,
    }
}

impl<'a> Token<'a> {
    /// The text of the token, as the statement language writes it.
    pub fn to_text(&self) -> (r: String)
        ensures
            r@ == token_text(self@),
    {
        match self {
            Token::AL => String::from_str("allow"),
            Token::DN => String::from_str("deny"),
            Token::AA => String::from_str("auditallow"),
            Token::DA => String::from_str("dontaudit"),
            Token::AX => String::from_str("allowxperm"),
            Token::AY => String::from_str("auditallowxperm"),
            Token::DX => String::from_str("dontauditxperm"),
            Token::PM => String::from_str("permissive"),
            Token::EF => String::from_str("enforce"),
            Token::TA => String::from_str("typeattribute"),
            Token::TY => String::from_str("type"),
            Token::AT => String::from_str("attribute"),
            Token::TT => String::from_str("type_transition"),
            Token::TC => String::from_str("type_change"),
            Token::TM => String::from_str("type_member"),
            Token::GF => String::from_str("genfscon"),
            Token::LB => String::from_str("{"),
            Token::RB => String::from_str("}"),
            Token::CM => String::from_str(","),
            Token::ST => String::from_str("*"),
            Token::TL => String::from_str("~"),
            Token::HP => String::from_str("-"),
            Token::HX(n) => {
                let mut r = String::from_str("00");
                push_hex4(&mut r, *n);
                r
            },
            Token::ID(s) => String::from_str(s),
        }
    }
}

/// The values of a sequence of tokens.
pub open spec fn tokens_view<'a>(v: Seq<Token<'a>>) -> Seq<SpecToken> {
    v.map_values(|t: Token<'a>| t@)
}

/// The token that a whole word stands for when it is a keyword or an operator.
pub open spec fn keyword_token(s: Seq<char>) -> Option<SpecToken> {
    if s == "allow"@ {
        Some(SpecToken::AL)
    } else if s == "deny"@ {
        Some(SpecToken::DN)
    } else if s == "auditallow"@ {
        Some(SpecToken::AA)
    } else if s == "dontaudit"@ {
        Some(SpecToken::DA)
    } else if s == "allowxperm"@ {
        Some(SpecToken::AX)
    } else if s == "auditallowxperm"@ {
        Some(SpecToken::AY)
    } else if s == "dontauditxperm"@ {
        Some(SpecToken::DX)
    } else if s == "permissive"@ {
        Some(SpecToken::PM)
    } else if s == "enforce"@ {
        Some(SpecToken::EF)
    } else if s == "typeattribute"@ {
        Some(SpecToken::TA)
    } else if s == "type"@ {
        Some(SpecToken::TY)
    } else if s == "attribute"@ {
        Some(SpecToken::AT)
    } else if s == "type_transition"@ {
        Some(SpecToken::TT)
    } else if s == "type_change"@ {
        Some(SpecToken::TC)
    } else if s == "type_member"@ {
        Some(SpecToken::TM)
    } else if s == "genfscon"@ {
        Some(SpecToken::GF)
    } else if s == "*"@ {
        Some(SpecToken::ST)
    } else if s == "-"@ {
        Some(SpecToken::HP)
    } else {
        None
    }
}

/// `0x` followed by a hexadecimal `u16`.
pub open spec fn parse_xperm_hex_spec(s: Seq<char>) -> Option<u16> {
    if s.len() >= 2 && s[0] == '0' && s[1] == 'x' {
        parse_u16_hex(s.skip(2))
    } else {
        None
    }
}

/// The tokens of one white-space separated word: keywords and operators
/// match the whole word; otherwise the word is split at the first brace or
/// comma, a leading `~` is an operator, `0x..` is a number and anything
/// else is an identifier.
pub open spec fn word_tokens(s: Seq<char>) -> Seq<SpecToken>
    decreases s.len(),
{
    if keyword_token(s) is Some {
        seq![keyword_token(s).unwrap()]
    } else if s.len() == 0 {
        seq![]
    } else if find_char(s, '{') is Some {
        proof {
            lemma_find_char(s, '{');
        }
        let i = find_char(s, '{').unwrap();
        word_tokens(s.take(i)) + seq![SpecToken::LB] + word_tokens(s.skip(i + 1))
    } else if find_char(s, '}') is Some {
        proof {
            lemma_find_char(s, '}');
        }
        let i = find_char(s, '}').unwrap();
        word_tokens(s.take(i)) + seq![SpecToken::RB] + word_tokens(s.skip(i + 1))
    } else if find_char(s, ',') is Some {
        proof {
            lemma_find_char(s, ',');
        }
        let i = find_char(s, ',').unwrap();
        word_tokens(s.take(i)) + seq![SpecToken::CM] + word_tokens(s.skip(i + 1))
    } else if s[0] == '~' {
        seq![SpecToken::TL] + word_tokens(s.drop_first())
    } else if parse_xperm_hex_spec(s) is Some {
        seq![SpecToken::HX(parse_xperm_hex_spec(s).unwrap())]
    } else {
        seq![SpecToken::ID(s)]
    }
}

/// The length of the leading run of non-white-space characters.
pub open spec fn word_len(s: Seq<char>) -> nat
    decreases s.len(),
{
    if s.len() == 0 || is_ws(s[0]) {
        0
    } else {
        1 + word_len(s.drop_first())
    }
}

/// The tokens of a statement: the tokens of its white-space separated
/// words, in order.
pub open spec fn statement_tokens(s: Seq<char>) -> Seq<SpecToken>
    decreases s.len(),
{
    if s.len() == 0 {
        seq![]
    } else if is_ws(s[0]) {
        statement_tokens(s.drop_first())
    } else {
        proof {
            lemma_word_len(s);
        }
        word_tokens(s.take(word_len(s) as int)) + statement_tokens(s.skip(word_len(s) as int))
    }
}

pub proof fn lemma_word_len(s: Seq<char>)
    ensures
        word_len(s) <= s.len(),
        s.len() > 0 && !is_ws(s[0]) ==> word_len(s) > 0,
        forall|j: int| 0 <= j < word_len(s) ==> !is_ws(#[trigger] s[j]),
        word_len(s) < s.len() ==> is_ws(s[word_len(s) as int]),
    decreases s.len(),
{
    if s.len() > 0 && !is_ws(s[0]) {
        lemma_word_len(s.drop_first());
        assert forall|j: int| 1 <= j < s.len() implies s[j] == s.drop_first()[j - 1] by {}
    }
}

pub proof fn lemma_word_len_at(s: Seq<char>, k: int)
    requires
        0 <= k <= s.len(),
        forall|j: int| 0 <= j < k ==> !is_ws(#[trigger] s[j]),
        k == s.len() || is_ws(s[k]),
    ensures
        word_len(s) == k,
    decreases s.len(),
{
    if k > 0 {
        assert forall|j: int| 0 <= j < k - 1 implies !is_ws(#[trigger] s.drop_first()[j]) by {
            assert(s.drop_first()[j] == s[j + 1]);
        }
        lemma_word_len_at(s.drop_first(), k - 1);
    }
}

/// Whether the characters of `s` are those of `lit`.
pub fn str_equals(s: &str, lit: &str) -> (b: bool)
    ensures
        b == (s@ == lit@),
{
    let n = s.unicode_len();
    if n != lit.unicode_len() {
        return false;
    }
    let mut i: usize = 0;
    while i < n
        invariant
            i <= n,
            n == s@.len(),
            n == lit@.len(),
            forall|j: int| 0 <= j < i ==> s@[j] == lit@[j],
        decreases n - i,
    {
        if s.get_char(i) != lit.get_char(i) {
            return false;
        }
        i = i + 1;
    }
    assert(s@ =~= lit@);
    true
}

/// The keyword or operator token a whole word stands for, if any.
fn keyword<'a>(s: &'a str) -> (r: Option<Token<'a>>)
    ensures
        r matches Some(t) ==> keyword_token(s@) == Some(t@),
        r is None ==> keyword_token(s@) is None,
{
    if str_equals(s, "allow") {
        Some(Token::AL)
    } else if str_equals(s, "deny") {
        Some(Token::DN)
    } else if str_equals(s, "auditallow") {
        Some(Token::AA)
    } else if str_equals(s, "dontaudit") {
        Some(Token::DA)
    } else if str_equals(s, "allowxperm") {
        Some(Token::AX)
    } else if str_equals(s, "auditallowxperm") {
        Some(Token::AY)
    } else if str_equals(s, "dontauditxperm") {
        Some(Token::DX)
    } else if str_equals(s, "permissive") {
        Some(Token::PM)
    } else if str_equals(s, "enforce") {
        Some(Token::EF)
    } else if str_equals(s, "typeattribute") {
        Some(Token::TA)
    } else if str_equals(s, "type") {
        Some(Token::TY)
    } else if str_equals(s, "attribute") {
        Some(Token::AT)
    } else if str_equals(s, "type_transition") {
        Some(Token::TT)
    } else if str_equals(s, "type_change") {
        Some(Token::TC)
    } else if str_equals(s, "type_member") {
        Some(Token::TM)
    } else if str_equals(s, "genfscon") {
        Some(Token::GF)
    } else if str_equals(s, "*") {
        Some(Token::ST)
    } else if str_equals(s, "-") {
        Some(Token::HP)
    } else {
        None
    }
}

/// Parses `0x` followed by a hexadecimal number that fits in 16 bits.
pub fn parse_xperm_hex(s: &str) -> (r: Option<u16>)
    ensures
        r == parse_xperm_hex_spec(s@),
{
    let n = s.unicode_len();
    if n >= 2 && s.get_char(0) == '0' && s.get_char(1) == 'x' {
        parse_u16_hex_from(s, 2)
    } else {
        None
    }
}

proof fn lemma_push_view<'a>(v: Seq<Token<'a>>, t: Token<'a>)
    ensures
        tokens_view(v.push(t)) == tokens_view(v).push(t@),
{
    assert(tokens_view(v.push(t)) =~= tokens_view(v).push(t@));
}

fn push_token<'a>(tokens: &mut Vec<Token<'a>>, t: Token<'a>)
    ensures
        tokens_view(final(tokens)@) == tokens_view(old(tokens)@) + seq![t@],
{
    tokens.push(t);
    proof {
        lemma_push_view(old(tokens)@, t);
        assert(tokens_view(old(tokens)@).push(t@) =~= tokens_view(old(tokens)@) + seq![t@]);
    }
}

/// Splits `s` at the character index `i`, dropping that character.
fn split_around<'a>(s: &'a str, i: usize) -> (r: (&'a str, &'a str))
    requires
        i < s@.len(),
    ensures
        r.0@ == s@.take(i as int),
        r.1@ == s@.skip(i + 1),
{
    let n = s.unicode_len();
    let a = s.substring_char(0, i);
    let b = s.substring_char(i + 1, n);
    assert(a@ =~= s@.take(i as int));
    assert(b@ =~= s@.skip(i + 1));
    (a, b)
}

/// Appends the tokens of one word to `tokens`.
#[verifier::spinoff_prover]
pub fn extract_token<'a>(s: &'a str, tokens: &mut Vec<Token<'a>>)
    ensures
        tokens_view(final(tokens)@) == tokens_view(old(tokens)@) + word_tokens(s@),
    decreases s@.len(),
{
    if let Some(t) = keyword(s) {
        push_token(tokens, t);
        return ;
    }
    let n = s.unicode_len();
    if n == 0 {
        assert(tokens_view(old(tokens)@) + word_tokens(s@) =~= tokens_view(old(tokens)@));
        return ;
    }
    let ghost before = tokens_view(tokens@);
    if let Some(i) = find_char_exec(s, '{') {
        proof {
            lemma_find_char(s@, '{');
        }
        let (a, b) = split_around(s, i);
        extract_token(a, tokens);
        push_token(tokens, Token::LB);
        extract_token(b, tokens);
        assert(tokens_view(tokens@) =~= before + word_tokens(s@));
    } else if let Some(i) = find_char_exec(s, '}') {
        proof {
            lemma_find_char(s@, '}');
        }
        let (a, b) = split_around(s, i);
        extract_token(a, tokens);
        push_token(tokens, Token::RB);
        extract_token(b, tokens);
        assert(tokens_view(tokens@) =~= before + word_tokens(s@));
    } else if let Some(i) = find_char_exec(s, ',') {
        proof {
            lemma_find_char(s@, ',');
        }
        let (a, b) = split_around(s, i);
        extract_token(a, tokens);
        push_token(tokens, Token::CM);
        extract_token(b, tokens);
        assert(tokens_view(tokens@) =~= before + word_tokens(s@));
    } else if s.get_char(0) == '~' {
        let rest = s.substring_char(1, n);
        assert(rest@ =~= s@.drop_first());
        push_token(tokens, Token::TL);
        extract_token(rest, tokens);
        assert(tokens_view(tokens@) =~= before + word_tokens(s@));
    } else if let Some(v) = parse_xperm_hex(s) {
        push_token(tokens, Token::HX(v));
    } else {
        push_token(tokens, Token::ID(s));
    }
}

/// The tokens of a statement: its action first, then its arguments.
/// Indexing reaches every token, the action at 0; `len` counts the
/// arguments, the tokens after the action.
pub struct StatementTokens<'a> {
    toks: Vec<Token<'a>>,
}

impl<'a> View for StatementTokens<'a> {
    type V = Seq<SpecToken>;

    /// Every token, the action first.
    closed spec fn view(&self) -> Seq<SpecToken> {
        tokens_view(self.toks@)
    }
}

impl<'a> StatementTokens<'a> {
    /// The number of arguments: the tokens after the action.
    pub fn len(&self) -> (n: usize)
        ensures
            n == if self@.len() == 0 {
                0
            } else {
                self@.len() - 1
            },
    {
        if self.toks.len() == 0 {
            0
        } else {
            self.toks.len() - 1
        }
    }

    /// Every token, the action first.
    pub fn into_vec(self) -> (v: Vec<Token<'a>>)
        ensures
            tokens_view(v@) == self@,
    {
        self.toks
    }
}

impl<'a> core::ops::Deref for StatementTokens<'a> {
    type Target = [Token<'a>];

    fn deref(&self) -> &[Token<'a>] {
        self.toks.as_slice()
    }
}

/// Splits a statement into tokens.
pub fn tokenize_statement(statement: &str) -> (tokens: StatementTokens<'_>)
    ensures
        tokens@ == statement_tokens(statement@),
{
    StatementTokens { toks: statement_token_vec(statement) }
}

/// The tokens of a statement, in order.
#[verifier::spinoff_prover]
fn statement_token_vec(statement: &str) -> (tokens: Vec<Token<'_>>)
    ensures
        tokens_view(tokens@) == statement_tokens(statement@),
{
    let mut tokens: Vec<Token<'_>> = Vec::new();
    let n = statement.unicode_len();
    let mut i: usize = 0;
    assert(statement@.skip(0) =~= statement@);
    assert(tokens_view(tokens@) =~= Seq::<SpecToken>::empty());
    while i < n
        invariant
            i <= n,
            n == statement@.len(),
            statement_tokens(statement@) == tokens_view(tokens@) + statement_tokens(
                statement@.skip(i as int),
            ),
        decreases n - i,
    {
        let ghost rest = statement@.skip(i as int);
        if char_is_ws(statement.get_char(i)) {
            assert(rest.drop_first() =~= statement@.skip(i + 1));
            i = i + 1;
        } else {
            let mut j = i + 1;
            while j < n && !char_is_ws(statement.get_char(j))
                invariant
                    i < j <= n,
                    n == statement@.len(),
                    forall|k: int| i <= k < j ==> !is_ws(#[trigger] statement@[k]),
                decreases n - j,
            {
                j = j + 1;
            }
            proof {
                assert forall|k: int| 0 <= k < j - i implies !is_ws(#[trigger] rest[k]) by {
                    assert(rest[k] == statement@[i + k]);
                }
                if j < n {
                    assert(rest[j - i] == statement@[j as int]);
                }
                lemma_word_len_at(rest, j - i);
            }
            let word = statement.substring_char(i, j);
            assert(word@ =~= rest.take(j - i));
            assert(rest.skip(j - i) =~= statement@.skip(j as int));
            let ghost prev = tokens_view(tokens@);
            extract_token(word, &mut tokens);
            assert(prev + statement_tokens(rest) =~= tokens_view(tokens@) + statement_tokens(
                statement@.skip(j as int),
            ));
            i = j;
        }
    }
    assert(statement@.skip(n as int) =~= Seq::<char>::empty());
    assert(tokens_view(tokens@) + statement_tokens(statement@.skip(n as int)) =~= tokens_view(
        tokens@,
    ));
    tokens
}

} // verus!
