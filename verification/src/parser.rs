//! The grammar of policy statements: from tokens to commands.

use vstd::prelude::*;

use crate::lexer::{find_char, find_char_exec, lemma_find_char};
use crate::token::{parse_xperm_hex, parse_xperm_hex_spec, str_equals, tokens_view, SpecToken, Token};
use crate::xperm::Xperm;

verus! {

/// Parse error.
#[derive(Debug)]
pub enum ParseError<'a> {
    General,
    AvtabAv(Token<'a>),
    AvtabXperms(Token<'a>),
    AvtabType(Token<'a>),
    TypeState(Token<'a>),
    TypeAttr,
    TypeTrans,
    NewType,
    NewAttr,
    GenfsCon,
    ShowHelp,
    UnknownAction(Token<'a>),
}

/// The mathematical value of a parse error.
pub enum SpecParseError {
    General,
    AvtabAv(SpecToken),
    AvtabXperms(SpecToken),
    AvtabType(SpecToken),
    TypeState(SpecToken),
    TypeAttr,
    TypeTrans,
    NewType,
    NewAttr,
    GenfsCon,
    ShowHelp,
    UnknownAction(SpecToken),
}

impl<'a> View for ParseError<'a> {
    type V = SpecParseError;

    open spec fn view(&self) -> SpecParseError {
        match self {
            ParseError::General => SpecParseError::General,
            ParseError::AvtabAv(t) => SpecParseError::AvtabAv(t@),
            ParseError::AvtabXperms(t) => SpecParseError::AvtabXperms(t@),
            ParseError::AvtabType(t) => SpecParseError::AvtabType(t@),
            ParseError::TypeState(t) => SpecParseError::TypeState(t@),
            ParseError::TypeAttr => SpecParseError::TypeAttr,
            ParseError::TypeTrans => SpecParseError::TypeTrans,
            ParseError::NewType => SpecParseError::NewType,
            ParseError::NewAttr => SpecParseError::NewAttr,
            ParseError::GenfsCon => SpecParseError::GenfsCon,
            ParseError::ShowHelp => SpecParseError::ShowHelp,
            ParseError::UnknownAction(t) => SpecParseError::UnknownAction(t@),
        }
    }
}

/// A token stream: the tokens and the position of the next one.
pub struct Tokens<'a> {
    toks: Vec<Token<'a>>,
    pos: usize,
}

impl<'a> Tokens<'a> {
    /// The tokens, as values.
    pub closed spec fn toks(&self) -> Seq<SpecToken> {
        self.toks@.map_values(|t: Token<'a>| t@)
    }

    /// The position of the next token.
    pub closed spec fn pos(&self) -> int {
        self.pos as int
    }

    pub closed spec fn wf(&self) -> bool {
        self.pos <= self.toks@.len()
    }

    /// A stream positioned at the first of `toks`.
    pub fn new(toks: Vec<Token<'a>>) -> (r: Self)
        ensures
            r.wf(),
            r.toks() == tokens_view(toks@),
            r.pos() == 0,
    {
        Tokens { toks, pos: 0 }
    }

    /// The next token, without consuming it.
    pub fn peek(&self) -> (r: Option<Token<'a>>)
        requires
            self.wf(),
        ensures
            r matches Some(t) ==> self.pos() < self.toks().len() && t@ == self.toks()[self.pos()],
            r is None ==> self.pos() == self.toks().len(),
    {
        if self.pos < self.toks.len() {
            Some(self.toks[self.pos])
        } else {
            None
        }
    }

    /// The next token, consumed.
    pub fn next(&mut self) -> (r: Option<Token<'a>>)
        requires
            old(self).wf(),
        ensures
            final(self).wf(),
            final(self).toks() == old(self).toks(),
            0 <= old(self).pos(),
            r matches Some(t) ==> old(self).pos() < old(self).toks().len() && t@ == old(
                self,
            ).toks()[old(self).pos()] && final(self).pos() == old(self).pos() + 1,
            r is None ==> old(self).pos() == old(self).toks().len() && final(self).pos() == old(
                self,
            ).pos(),
    {
        if self.pos < self.toks.len() {
            let t = self.toks[self.pos];
            self.pos = self.pos + 1;
            Some(t)
        } else {
            None
        }
    }
}

/// The values of a list of names.
pub open spec fn names_view<'a>(v: Seq<&'a str>) -> Seq<Seq<char>> {
    v.map_values(|s: &'a str| s@)
}

proof fn lemma_names_push<'a>(v: Seq<&'a str>, s: &'a str)
    ensures
        names_view(v.push(s)) == names_view(v).push(s@),
{
    assert(names_view(v.push(s)) =~= names_view(v).push(s@));
}

/// The token at `p`, if there is one.
pub open spec fn tok_at(t: Seq<SpecToken>, p: int) -> Option<SpecToken> {
    if 0 <= p < t.len() {
        Some(t[p])
    } else {
        None
    }
}

/// An identifier.
pub open spec fn spec_id(t: Seq<SpecToken>, p: int) -> Option<(Seq<char>, int)> {
    match tok_at(t, p) {
        Some(SpecToken::ID(s)) => Some((s, p + 1)),
        _ => None,
    }
}

/// The rest of a braced list of identifiers, after `acc`.
pub open spec fn spec_names(t: Seq<SpecToken>, p: int, acc: Seq<Seq<char>>) -> Option<
    (Seq<Seq<char>>, int),
>
    decreases t.len() - p,
{
    if 0 <= p < t.len() {
        match t[p] {
            SpecToken::ID(s) => spec_names(t, p + 1, acc.push(s)),
            SpecToken::RB => Some((acc, p + 1)),
            _ => None,
        }
    } else {
        None
    }
}

/// One identifier, or a braced list of identifiers.
pub open spec fn spec_term(t: Seq<SpecToken>, p: int) -> Option<(Seq<Seq<char>>, int)> {
    match tok_at(t, p) {
        Some(SpecToken::ID(s)) => Some((seq![s], p + 1)),
        Some(SpecToken::LB) => spec_names(t, p + 1, seq![]),
        _ => None,
    }
}

/// The rest of a braced list of identifiers that may hold `*`; `None`
/// accumulates a list that matches everything.
pub open spec fn spec_snames(t: Seq<SpecToken>, p: int, acc: Option<Seq<Seq<char>>>) -> Option<
    (Seq<Seq<char>>, int),
>
    decreases t.len() - p,
{
    if 0 <= p < t.len() {
        match t[p] {
            SpecToken::ID(s) => spec_snames(
                t,
                p + 1,
                match acc {
                    Some(a) => Some(a.push(s)),
                    None => None,
                },
            ),
            SpecToken::ST => spec_snames(t, p + 1, None),
            SpecToken::RB => Some(
                (
                    match acc {
                        Some(a) => a,
                        None => seq![],
                    },
                    p + 1,
                ),
            ),
            _ => None,
        }
    } else {
        None
    }
}

/// One identifier, `*`, or a braced list; the empty list matches everything.
pub open spec fn spec_sterm(t: Seq<SpecToken>, p: int) -> Option<(Seq<Seq<char>>, int)> {
    match tok_at(t, p) {
        Some(SpecToken::ID(s)) => Some((seq![s], p + 1)),
        Some(SpecToken::ST) => Some((seq![], p + 1)),
        Some(SpecToken::LB) => spec_snames(t, p + 1, Some(seq![])),
        _ => None,
    }
}

/// `0xLOW-0xHIGH` in one word.
pub open spec fn spec_xperm_range(s: Seq<char>) -> Option<(u16, u16)> {
    match find_char(s, '-') {
        Some(i) => match (parse_xperm_hex_spec(s.take(i)), parse_xperm_hex_spec(s.skip(i + 1))) {
            (Some(l), Some(h)) => Some((l, h)),
            _ => None,
        },
        None => None,
    }
}

/// One value or range of an xperm list.
pub open spec fn spec_xperm(t: Seq<SpecToken>, p: int) -> Option<(Xperm, int)> {
    match tok_at(t, p) {
        Some(SpecToken::HX(low)) => match tok_at(t, p + 1) {
            Some(SpecToken::HP) => match tok_at(t, p + 2) {
                Some(SpecToken::HX(high)) => Some((Xperm { low, high, reset: false }, p + 3)),
                _ => None,
            },
            _ => Some((Xperm { low, high: low, reset: false }, p + 1)),
        },
        Some(SpecToken::ID(s)) => match spec_xperm_range(s) {
            Some((low, high)) => Some((Xperm { low, high, reset: false }, p + 1)),
            None => None,
        },
        _ => None,
    }
}

/// The rest of a braced xperm list, after `acc`.
pub open spec fn spec_xperm_list(t: Seq<SpecToken>, p: int, reset: bool, acc: Seq<Xperm>) -> Option<
    (Seq<Xperm>, int),
>
    decreases t.len() - p,
{
    if 0 <= p < t.len() {
        match spec_xperm(t, p) {
            Some((x, q)) => {
                let acc2 = acc.push(Xperm { low: x.low, high: x.high, reset });
                match tok_at(t, q) {
                    Some(SpecToken::RB) => Some((acc2, q + 1)),
                    _ => spec_xperm_list(t, q, reset, acc2),
                }
            },
            None => None,
        }
    } else {
        None
    }
}

/// The full xperm range with the given complement flag.
pub open spec fn full_xperm(reset: bool) -> Xperm {
    Xperm { low: 0x0000, high: 0xFFFF, reset }
}

/// An xperm set after a leading `~`, if any.
pub open spec fn spec_xperm_body(t: Seq<SpecToken>, p: int, reset: bool) -> Option<
    (Seq<Xperm>, int),
> {
    match tok_at(t, p) {
        Some(SpecToken::LB) => spec_xperm_list(t, p + 1, reset, seq![]),
        Some(SpecToken::ST) => Some((seq![full_xperm(reset)], p + 1)),
        Some(SpecToken::HX(low)) => if low > 0 {
            Some((seq![Xperm { low, high: low, reset }], p + 1))
        } else {
            Some((seq![full_xperm(true)], p + 1))
        },
        Some(SpecToken::ID(s)) => match spec_xperm_range(s) {
            Some((low, high)) => Some((seq![Xperm { low, high, reset }], p + 1)),
            None => None,
        },
        _ => None,
    }
}

/// An xperm set: `~` marks the complement of a braced list; `*` means
/// every command; the value 0 alone is the complement of every command,
/// which clears the rules.
pub open spec fn spec_xperms(t: Seq<SpecToken>, p: int) -> Option<(Seq<Xperm>, int)> {
    match tok_at(t, p) {
        Some(SpecToken::TL) => match tok_at(t, p + 1) {
            Some(SpecToken::LB) => spec_xperm_body(t, p + 1, true),
            _ => None,
        },
        _ => spec_xperm_body(t, p, false),
    }
}

/// The identifier `pattern`.
pub open spec fn spec_match_string(t: Seq<SpecToken>, p: int, pattern: Seq<char>) -> Option<int> {
    match tok_at(t, p) {
        Some(SpecToken::ID(s)) => if s == pattern {
            Some(p + 1)
        } else {
            None
        },
        _ => None,
    }
}

/// The result of a parse step matches the grammar: the value and the
/// position after it on success; an error of the grammar helpers is always
/// `General`.
pub open spec fn step_ok<T, U>(r: Result<T, ParseError>, v: Option<(U, int)>, view: spec_fn(
    T,
) -> U, after: int) -> bool {
    match v {
        Some((u, q)) => r matches Ok(x) && view(x) == u && after == q,
        None => r matches Err(e) && e@ == SpecParseError::General,
    }
}

/// Parses an identifier.
pub fn parse_id<'a>(tokens: &mut Tokens<'a>) -> (r: Result<&'a str, ParseError<'a>>)
    requires
        old(tokens).wf(),
    ensures
        final(tokens).wf(),
        final(tokens).toks() == old(tokens).toks(),
        step_ok(
            r,
            spec_id(old(tokens).toks(), old(tokens).pos()),
            |s: &'a str| s@,
            final(tokens).pos(),
        ),
        final(tokens).pos() == if old(tokens).pos() < old(tokens).toks().len() {
            old(tokens).pos() + 1
        } else {
            old(tokens).pos()
        },
{
    match tokens.next() {
        Some(Token::ID(name)) => Ok(name),
        _ => Err(ParseError::General),
    }
}

/// Parses one identifier or a braced list of identifiers.
pub fn parse_term<'a>(tokens: &mut Tokens<'a>) -> (r: Result<Vec<&'a str>, ParseError<'a>>)
    requires
        old(tokens).wf(),
    ensures
        final(tokens).wf(),
        final(tokens).toks() == old(tokens).toks(),
        step_ok(
            r,
            spec_term(old(tokens).toks(), old(tokens).pos()),
            |v: Vec<&'a str>| names_view(v@),
            final(tokens).pos(),
        ),
{
    let ghost t = tokens.toks();
    let ghost p0 = tokens.pos();
    match tokens.next() {
        Some(Token::ID(name)) => {
            let v = vec![name];
            assert(names_view(v@) =~= seq![name@]);
            Ok(v)
        },
        Some(Token::LB) => {
            let mut names: Vec<&'a str> = Vec::new();
            assert(names_view(names@) =~= Seq::<Seq<char>>::empty());
            loop
                invariant
                    tokens.wf(),
                    tokens.toks() == t,
                    t == old(tokens).toks(),
                    p0 == old(tokens).pos(),
                    spec_names(t, tokens.pos(), names_view(names@)) == spec_term(t, p0),
                decreases t.len() - tokens.pos(),
            {
                match tokens.next() {
                    Some(Token::ID(name)) => {
                        proof {
                            lemma_names_push(names@, name);
                        }
                        names.push(name);
                    },
                    Some(Token::RB) => return Ok(names),
                    _ => return Err(ParseError::General),
                }
            }
        },
        _ => Err(ParseError::General),
    }
}

/// Parses one identifier, `*`, or a braced list that may hold `*`; a list
/// that matches everything is empty.
pub fn parse_sterm<'a>(tokens: &mut Tokens<'a>) -> (r: Result<Vec<&'a str>, ParseError<'a>>)
    requires
        old(tokens).wf(),
    ensures
        final(tokens).wf(),
        final(tokens).toks() == old(tokens).toks(),
        step_ok(
            r,
            spec_sterm(old(tokens).toks(), old(tokens).pos()),
            |v: Vec<&'a str>| names_view(v@),
            final(tokens).pos(),
        ),
{
    let ghost t = tokens.toks();
    let ghost p0 = tokens.pos();
    match tokens.next() {
        Some(Token::ID(name)) => {
            let v = vec![name];
            assert(names_view(v@) =~= seq![name@]);
            Ok(v)
        },
        Some(Token::ST) => {
            let v: Vec<&'a str> = Vec::new();
            assert(names_view(v@) =~= Seq::<Seq<char>>::empty());
            Ok(v)
        },
        Some(Token::LB) => {
            let mut names: Vec<&'a str> = Vec::new();
            let mut all = false;
            assert(names_view(names@) =~= Seq::<Seq<char>>::empty());
            loop
                invariant
                    tokens.wf(),
                    tokens.toks() == t,
                    spec_snames(
                        t,
                        tokens.pos(),
                        if all {
                            None
                        } else {
                            Some(names_view(names@))
                        },
                    ) == spec_sterm(t, p0),
                    t == old(tokens).toks(),
                    p0 == old(tokens).pos(),
                decreases t.len() - tokens.pos(),
            {
                match tokens.next() {
                    Some(Token::ID(name)) => {
                        if !all {
                            proof {
                                lemma_names_push(names@, name);
                            }
                            names.push(name);
                        }
                    },
                    Some(Token::ST) => {
                        all = true;
                    },
                    Some(Token::RB) => {
                        if all {
                            let v: Vec<&'a str> = Vec::new();
                            assert(names_view(v@) =~= Seq::<Seq<char>>::empty());
                            return Ok(v);
                        } else {
                            return Ok(names);
                        }
                    },
                    _ => return Err(ParseError::General),
                }
            }
        },
        _ => Err(ParseError::General),
    }
}

/// Parses `0xLOW-0xHIGH`.
pub fn parse_xperm_range(s: &str) -> (r: Option<(u16, u16)>)
    ensures
        r == spec_xperm_range(s@),
{
    match find_char_exec(s, '-') {
        Some(i) => {
            proof {
                lemma_find_char(s@, '-');
            }
            let n = s.unicode_len();
            let a = s.substring_char(0, i);
            let b = s.substring_char(i + 1, n);
            assert(a@ =~= s@.take(i as int));
            assert(b@ =~= s@.skip(i + 1));
            match (parse_xperm_hex(a), parse_xperm_hex(b)) {
                (Some(l), Some(h)) => Some((l, h)),
                _ => None,
            }
        },
        None => None,
    }
}

/// Parses one value or range of an xperm list.
pub fn parse_xperm<'a>(tokens: &mut Tokens<'a>) -> (r: Result<Xperm, ParseError<'a>>)
    requires
        old(tokens).wf(),
    ensures
        final(tokens).wf(),
        final(tokens).toks() == old(tokens).toks(),
        step_ok(
            r,
            spec_xperm(old(tokens).toks(), old(tokens).pos()),
            |x: Xperm| x,
            final(tokens).pos(),
        ),
{
    let (low, high) = match tokens.next() {
        Some(Token::HX(low)) => {
            let high = match tokens.peek() {
                Some(Token::HP) => {
                    tokens.next();
                    match tokens.next() {
                        Some(Token::HX(high)) => high,
                        _ => return Err(ParseError::General),
                    }
                },
                _ => low,
            };
            (low, high)
        },
        Some(Token::ID(s)) => {
            if let Some((low, high)) = parse_xperm_range(s) {
                (low, high)
            } else {
                return Err(ParseError::General);
            }
        },
        _ => return Err(ParseError::General),
    };
    Ok(Xperm { low, high, reset: false })
}

/// Parses an xperm set: a value, a range, `*`, or a braced list, each
/// optionally preceded by `~` (a list only).
pub fn parse_xperms<'a>(tokens: &mut Tokens<'a>) -> (r: Result<Vec<Xperm>, ParseError<'a>>)
    requires
        old(tokens).wf(),
    ensures
        final(tokens).wf(),
        final(tokens).toks() == old(tokens).toks(),
        step_ok(
            r,
            spec_xperms(old(tokens).toks(), old(tokens).pos()),
            |v: Vec<Xperm>| v@,
            final(tokens).pos(),
        ),
{
    let ghost t = tokens.toks();
    let ghost p0 = tokens.pos();
    let mut xperms: Vec<Xperm> = Vec::new();
    let reset = match tokens.peek() {
        Some(Token::TL) => {
            tokens.next();
            match tokens.peek() {
                Some(Token::LB) => {},
                _ => return Err(ParseError::General),
            }
            true
        },
        _ => false,
    };
    assert(spec_xperms(t, p0) == spec_xperm_body(t, tokens.pos(), reset));
    match tokens.next() {
        Some(Token::LB) => {
            assert(xperms@ =~= Seq::<Xperm>::empty());
            loop
                invariant
                    tokens.wf(),
                    tokens.toks() == t,
                    spec_xperm_list(t, tokens.pos(), reset, xperms@) == spec_xperms(t, p0),
                    t == old(tokens).toks(),
                    p0 == old(tokens).pos(),
                decreases t.len() - tokens.pos(),
            {
                if tokens.pos >= tokens.toks.len() {
                    return Err(ParseError::General);
                }
                let mut xperm = parse_xperm(tokens)?;
                xperm.reset = reset;
                xperms.push(xperm);
                match tokens.peek() {
                    Some(Token::RB) => {
                        tokens.next();
                        return Ok(xperms);
                    },
                    _ => {},
                }
            }
        },
        Some(Token::ST) => {
            xperms.push(Xperm { low: 0x0000, high: 0xFFFF, reset });
            Ok(xperms)
        },
        Some(Token::HX(low)) => {
            if low > 0 {
                xperms.push(Xperm { low, high: low, reset });
            } else {
                xperms.push(Xperm { low: 0x0000, high: 0xFFFF, reset: true });
            }
            Ok(xperms)
        },
        Some(Token::ID(s)) => {
            if let Some((low, high)) = parse_xperm_range(s) {
                xperms.push(Xperm { low, high, reset });
                Ok(xperms)
            } else {
                Err(ParseError::General)
            }
        },
        _ => Err(ParseError::General),
    }
}

/// Consumes the identifier `pattern`.
pub fn match_string<'a>(tokens: &mut Tokens<'a>, pattern: &str) -> (r: Result<(), ParseError<'a>>)
    requires
        old(tokens).wf(),
    ensures
        final(tokens).wf(),
        final(tokens).toks() == old(tokens).toks(),
        match spec_match_string(old(tokens).toks(), old(tokens).pos(), pattern@) {
            Some(q) => r is Ok && final(tokens).pos() == q,
            None => r matches Err(e) && e@ == SpecParseError::General,
        },
        final(tokens).pos() == if old(tokens).pos() < old(tokens).toks().len() {
            old(tokens).pos() + 1
        } else {
            old(tokens).pos()
        },
{
    if let Some(Token::ID(s)) = tokens.next() {
        if str_equals(s, pattern) {
            return Ok(());
        }
    }
    Err(ParseError::General)
}

} // verus!
