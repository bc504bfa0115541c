//! What the statement language promises of its tokens, ioctl sets and
//! numbers: a statement's tokens are those of its words in order, an
//! identifier is what no other token claims, an ioctl set is never empty
//! and its complement flag follows its `~`, and every 16-bit value written
//! in hexadecimal reads back.

use vstd::prelude::*;

use crate::lexer::{
    all_hex, find_char, hex_number, hex_value, is_ws, lemma_find_char, lemma_find_unique,
    parse_u16_hex, trim, trim_end, trim_start,
};
use crate::sepol::PolicyView;
use crate::statement::{is_blank, lines_result, statement_line_result, strip_cr, text_lines};
use crate::parser::{
    full_xperm, spec_xperm, spec_xperm_body, spec_xperm_list, spec_xperms, tok_at,
};
use crate::token::{
    keyword_token, lemma_word_len, parse_xperm_hex_spec, statement_tokens, word_len, word_tokens,
    SpecToken,
};
use crate::text::{hex4, hex_digit};
use crate::xperm::Xperm;
use vstd::arithmetic::div_mod::{lemma_div_denominator, lemma_fundamental_div_mod};

verus! {

// ---- tokens ----

/// The white-space separated words of a statement, in order.
pub open spec fn words(s: Seq<char>) -> Seq<Seq<char>>
    decreases s.len(),
{
    if s.len() == 0 {
        seq![]
    } else if is_ws(s[0]) {
        words(s.drop_first())
    } else {
        proof {
            lemma_word_len(s);
        }
        seq![s.take(word_len(s) as int)] + words(s.skip(word_len(s) as int))
    }
}

/// The tokens of each word, one word after another.
pub open spec fn tokens_of_words(ws: Seq<Seq<char>>) -> Seq<SpecToken>
    decreases ws.len(),
{
    if ws.len() == 0 {
        seq![]
    } else {
        word_tokens(ws[0]) + tokens_of_words(ws.drop_first())
    }
}

/// A statement's tokens are the tokens of its words, in order; each word
/// is non-empty and holds no white space.
pub proof fn law_tokens_of_words(s: Seq<char>)
    ensures
        statement_tokens(s) == tokens_of_words(words(s)),
        forall|i: int, j: int|
            0 <= i < words(s).len() && 0 <= j < words(s)[i].len() ==> !is_ws(
                #[trigger] words(s)[i][j],
            ),
        forall|i: int| 0 <= i < words(s).len() ==> (#[trigger] words(s)[i]).len() > 0,
    decreases s.len(),
{
    if s.len() > 0 {
        if is_ws(s[0]) {
            law_tokens_of_words(s.drop_first());
        } else {
            lemma_word_len(s);
            let n = word_len(s) as int;
            let w = s.take(n);
            let rest = s.skip(n);
            law_tokens_of_words(rest);
            let ws = seq![w] + words(rest);
            assert(words(s) == ws);
            assert(ws[0] == w);
            assert(ws.drop_first() =~= words(rest));
            assert(tokens_of_words(ws) == word_tokens(w) + tokens_of_words(words(rest)));
            assert forall|i: int, j: int| 0 <= i < ws.len() && 0 <= j < ws[i].len() implies !is_ws(
                #[trigger] ws[i][j],
            ) by {
                if i > 0 {
                    assert(ws[i] == words(rest)[i - 1]);
                } else {
                    assert(ws[i][j] == s[j]);
                }
            }
            assert forall|i: int| 0 <= i < ws.len() implies (#[trigger] ws[i]).len() > 0 by {
                if i > 0 {
                    assert(ws[i] == words(rest)[i - 1]);
                }
            }
        }
    }
}

/// What an identifier token holds: a non-empty run of characters with no
/// white space, brace or comma, not led by `~`, no `0x` number and no
/// keyword or operator.
pub open spec fn id_ok(x: Seq<char>) -> bool {
    &&& x.len() > 0
    &&& forall|j: int|
        0 <= j < x.len() ==> {
            let c = #[trigger] x[j];
            !is_ws(c) && c != '{' && c != '}' && c != ','
        }
    &&& x[0] != '~'
    &&& parse_xperm_hex_spec(x) is None
    &&& keyword_token(x) is None
}

/// Every identifier among the tokens of a word without white space is what
/// no other token claims.
pub proof fn law_word_ids(w: Seq<char>)
    requires
        forall|j: int| 0 <= j < w.len() ==> !is_ws(#[trigger] w[j]),
    ensures
        forall|k: int|
            0 <= k < word_tokens(w).len() ==> (#[trigger] word_tokens(w)[k] matches SpecToken::ID(x)
                ==> id_ok(x)),
    decreases w.len(),
{
    let wt = word_tokens(w);
    if keyword_token(w) is Some || w.len() == 0 {
    } else if find_char(w, '{') is Some || find_char(w, '}') is Some || find_char(w, ',') is Some {
        let c = if find_char(w, '{') is Some {
            '{'
        } else if find_char(w, '}') is Some {
            '}'
        } else {
            ','
        };
        let tok = if c == '{' {
            SpecToken::LB
        } else if c == '}' {
            SpecToken::RB
        } else {
            SpecToken::CM
        };
        lemma_find_char(w, c);
        let i = find_char(w, c).unwrap();
        let a = w.take(i);
        let b = w.skip(i + 1);
        assert forall|j: int| 0 <= j < a.len() implies !is_ws(#[trigger] a[j]) by {
            assert(a[j] == w[j]);
        }
        assert forall|j: int| 0 <= j < b.len() implies !is_ws(#[trigger] b[j]) by {
            assert(b[j] == w[j + i + 1]);
        }
        law_word_ids(a);
        law_word_ids(b);
        assert(wt == word_tokens(a) + seq![tok] + word_tokens(b));
        assert forall|k: int| 0 <= k < wt.len() implies (#[trigger] wt[k] matches SpecToken::ID(x)
            ==> id_ok(x)) by {
            let la = word_tokens(a).len() as int;
            if k < la {
                assert(wt[k] == word_tokens(a)[k]);
            } else if k > la {
                assert(wt[k] == word_tokens(b)[k - la - 1]);
            }
        }
    } else if w[0] == '~' {
        let b = w.drop_first();
        assert forall|j: int| 0 <= j < b.len() implies !is_ws(#[trigger] b[j]) by {
            assert(b[j] == w[j + 1]);
        }
        law_word_ids(b);
        assert(wt == seq![SpecToken::TL] + word_tokens(b));
        assert forall|k: int| 0 <= k < wt.len() implies (#[trigger] wt[k] matches SpecToken::ID(x)
            ==> id_ok(x)) by {
            if k > 0 {
                assert(wt[k] == word_tokens(b)[k - 1]);
            }
        }
    } else if parse_xperm_hex_spec(w) is Some {
    } else {
        lemma_find_char(w, '{');
        lemma_find_char(w, '}');
        lemma_find_char(w, ',');
        assert(wt == seq![SpecToken::ID(w)]);
        assert(id_ok(w));
    }
}

/// Every identifier among a statement's tokens is what no other token
/// claims.
pub proof fn law_statement_ids(s: Seq<char>)
    ensures
        forall|k: int|
            0 <= k < statement_tokens(s).len() ==> (#[trigger] statement_tokens(s)[k] matches SpecToken::ID(
                x,
            ) ==> id_ok(x)),
    decreases s.len(),
{
    let st = statement_tokens(s);
    if s.len() > 0 {
        if is_ws(s[0]) {
            law_statement_ids(s.drop_first());
        } else {
            lemma_word_len(s);
            let n = word_len(s) as int;
            let w = s.take(n);
            let rest = s.skip(n);
            law_statement_ids(rest);
            assert forall|j: int| 0 <= j < w.len() implies !is_ws(#[trigger] w[j]) by {
                assert(w[j] == s[j]);
            }
            law_word_ids(w);
            assert(st == word_tokens(w) + statement_tokens(rest));
            assert forall|k: int| 0 <= k < st.len() implies (#[trigger] st[k] matches SpecToken::ID(
                x,
            ) ==> id_ok(x)) by {
                let lw = word_tokens(w).len() as int;
                if k < lw {
                    assert(st[k] == word_tokens(w)[k]);
                } else {
                    assert(st[k] == statement_tokens(rest)[k - lw]);
                }
            }
        }
    }
}


// ---- ioctl sets ----

proof fn lemma_xperm_list(t: Seq<SpecToken>, p: int, reset: bool, acc: Seq<Xperm>)
    ensures
        spec_xperm_list(t, p, reset, acc) matches Some((v, q)) ==> {
            &&& v.len() > acc.len()
            &&& forall|i: int| 0 <= i < acc.len() ==> v[i] == acc[i]
            &&& forall|i: int| acc.len() <= i < v.len() ==> (#[trigger] v[i]).reset == reset
        },
    decreases t.len() - p,
{
    if 0 <= p < t.len() {
        match spec_xperm(t, p) {
            Some((x, q)) => {
                let acc2 = acc.push(Xperm { low: x.low, high: x.high, reset });
                assert(q > p);
                match tok_at(t, q) {
                    Some(SpecToken::RB) => {},
                    _ => {
                        lemma_xperm_list(t, q, reset, acc2);
                        match spec_xperm_list(t, q, reset, acc2) {
                            Some((v, q2)) => {
                                assert forall|i: int| 0 <= i < acc.len() implies v[i] == acc[i] by {
                                    assert(v[i] == acc2[i]);
                                }
                                assert forall|i: int| acc.len() <= i < v.len() implies (#[trigger] v[i]).reset
                                    == reset by {
                                    if i == acc.len() {
                                        assert(v[i] == acc2[i]);
                                    }
                                }
                            },
                            None => {},
                        }
                    },
                }
            },
            None => {},
        }
    }
}

/// An ioctl set is never empty. After `~` every range of it is a
/// complement; after `{`, `*`, a range or a non-zero value none is; the
/// value 0 alone is the complement of every command, which clears the
/// rules. A set that starts with no token of these kinds is refused.
pub proof fn law_xperms_shape(t: Seq<SpecToken>, p: int)
    ensures
        spec_xperms(t, p) matches Some((v, q)) ==> v.len() >= 1,
        tok_at(t, p) == Some(SpecToken::TL) ==> (spec_xperms(t, p) matches Some((v, q))
            ==> forall|i: int| 0 <= i < v.len() ==> (#[trigger] v[i]).reset),
        (tok_at(t, p) == Some(SpecToken::LB) || tok_at(t, p) == Some(SpecToken::ST) || tok_at(t, p)
            matches Some(SpecToken::ID(_)) || (tok_at(t, p) matches Some(SpecToken::HX(n)) && n > 0))
            ==> (spec_xperms(t, p) matches Some((v, q)) ==> forall|i: int|
            0 <= i < v.len() ==> !(#[trigger] v[i]).reset),
        tok_at(t, p) == Some(SpecToken::HX(0)) ==> spec_xperms(t, p) == Some(
            (seq![full_xperm(true)], p + 1),
        ),
        !(tok_at(t, p) matches Some(x) && (x is TL || x is LB || x is ST || x is HX || x is ID))
            ==> spec_xperms(t, p) is None,
{
    match tok_at(t, p) {
        Some(SpecToken::TL) => {
            lemma_xperm_list(t, p + 2, true, seq![]);
        },
        Some(SpecToken::LB) => {
            lemma_xperm_list(t, p + 1, false, seq![]);
        },
        _ => {},
    }
}


// ---- numbers ----

/// A hexadecimal digit in lower case.
pub open spec fn lower_hex_digit(d: int) -> char {
    let d = d % 16;
    if d < 10 {
        (('0' as int) + d) as char
    } else {
        (('a' as int) + d - 10) as char
    }
}

/// A hexadecimal digit in the given case.
pub open spec fn case_digit(d: int, upper: bool) -> char {
    if upper {
        hex_digit(d)
    } else {
        lower_hex_digit(d)
    }
}

/// Four lower-case hexadecimal digits of `v`, most significant first.
pub open spec fn hex4_lower(v: u16) -> Seq<char> {
    seq![
        lower_hex_digit(v as int / 4096),
        lower_hex_digit(v as int / 256),
        lower_hex_digit(v as int / 16),
        lower_hex_digit(v as int),
    ]
}

/// The hexadecimal digits of `n` in the given case, most significant
/// first, with no leading zero.
pub open spec fn hex_digits(n: nat, upper: bool) -> Seq<char>
    decreases n,
{
    if n < 16 {
        seq![case_digit(n as int, upper)]
    } else {
        hex_digits(n / 16, upper).push(case_digit(n as int % 16, upper))
    }
}

proof fn lemma_case_digit(d: int, upper: bool)
    requires
        0 <= d < 16,
    ensures
        hex_value(case_digit(d, upper)) == Some(d),
        hex_value(case_digit(d + 16, upper)) == Some(d),
{
    let c = case_digit(d, upper);
    if upper {
        crate::properties::lemma_hex_digit(d);
        assert(hex_digit(d + 16) == hex_digit(d));
    } else {
        if d < 10 {
            assert(c as u32 == 48 + d);
        } else {
            assert(c as u32 == 87 + d);
        }
        assert(lower_hex_digit(d + 16) == lower_hex_digit(d));
    }
}

proof fn lemma_hex_digits(n: nat, upper: bool)
    ensures
        hex_digits(n, upper).len() > 0,
        all_hex(hex_digits(n, upper)),
        hex_number(hex_digits(n, upper)) == n,
    decreases n,
{
    let h = hex_digits(n, upper);
    if n < 16 {
        lemma_case_digit(n as int, upper);
        assert(h.drop_last() =~= Seq::<char>::empty());
        assert(h.last() == h[0]);
        assert(hex_number(h.drop_last()) == 0);
        assert(hex_number(h) == hex_number(h.drop_last()) * 16 + hex_value(h.last()).unwrap());
    } else {
        lemma_hex_digits(n / 16, upper);
        lemma_case_digit(n as int % 16, upper);
        let prev = hex_digits(n / 16, upper);
        assert(h.drop_last() =~= prev);
        assert(h.last() == case_digit(n as int % 16, upper));
        assert(hex_number(h) == hex_number(prev) * 16 + (n as int % 16));
        assert((n / 16) as int * 16 + (n as int % 16) == n);
        assert forall|i: int| 0 <= i < h.len() implies (#[trigger] hex_value(h[i])) is Some by {
            if i < prev.len() {
                assert(h[i] == prev[i]);
            }
        }
    }
}

proof fn lemma_hex4_lower(v: u16)
    ensures
        all_hex(hex4_lower(v)),
        hex_number(hex4_lower(v)) == v,
{
    let x = v as int;
    let a = x / 4096;
    let b = x / 256;
    let c = x / 16;
    let h = hex4_lower(v);
    lemma_case_digit(a % 16, false);
    lemma_case_digit(b % 16, false);
    lemma_case_digit(c % 16, false);
    lemma_case_digit(x % 16, false);
    assert(lower_hex_digit(a) == lower_hex_digit(a % 16));
    assert(lower_hex_digit(b) == lower_hex_digit(b % 16));
    assert(lower_hex_digit(c) == lower_hex_digit(c % 16));
    assert(lower_hex_digit(x) == lower_hex_digit(x % 16));
    lemma_fundamental_div_mod(b, 16);
    lemma_fundamental_div_mod(c, 16);
    lemma_fundamental_div_mod(x, 16);
    lemma_div_denominator(x, 256, 16);
    lemma_div_denominator(x, 16, 16);
    assert(a < 16);
    assert(a % 16 == a);
    assert forall|i: int| 0 <= i < h.len() implies (#[trigger] hex_value(h[i])) is Some by {}
    let h3 = h.drop_last();
    let h2 = h3.drop_last();
    let h1 = h2.drop_last();
    let h0 = h1.drop_last();
    assert(hex_number(h0) == 0);
    assert(h1.last() == h[0]);
    assert(hex_number(h1) == a);
    assert(h2.last() == h[1]);
    assert(hex_number(h2) == a * 16 + b % 16);
    assert(h3.last() == h[2]);
    assert(hex_number(h3) == b * 16 + c % 16);
    assert(h.last() == h[3]);
    assert(hex_number(h) == c * 16 + x % 16);
}

proof fn lemma_prefixed(d: Seq<char>)
    ensures
        parse_xperm_hex_spec("0x"@ + d) == parse_u16_hex(d),
{
    reveal_strlit("0x");
    let s = "0x"@ + d;
    assert(s[0] == '0' && s[1] == 'x');
    assert(s.skip(2) =~= d);
}

/// Every 16-bit value written as `0x` and hexadecimal digits, upper or
/// lower case, four digits or no leading zero, reads back as itself. Text
/// without the `0x` prefix, `0x` alone, and a value above `0xFFFF` read as
/// no number.
pub proof fn law_hex_reads_back(v: u16, s: Seq<char>, d: Seq<char>)
    ensures
        parse_xperm_hex_spec("0x"@ + hex4(v)) == Some(v),
        parse_xperm_hex_spec("0x"@ + hex4_lower(v)) == Some(v),
        parse_xperm_hex_spec("0x"@ + hex_digits(v as nat, true)) == Some(v),
        parse_xperm_hex_spec("0x"@ + hex_digits(v as nat, false)) == Some(v),
        !(s.len() >= 2 && s[0] == '0' && s[1] == 'x') ==> parse_xperm_hex_spec(s) is None,
        parse_xperm_hex_spec("0x"@) is None,
        all_hex(d) && hex_number(d) > 0xFFFF ==> parse_xperm_hex_spec("0x"@ + d) is None,
{
    crate::properties::lemma_hex4(v);
    lemma_hex4_lower(v);
    lemma_hex_digits(v as nat, true);
    lemma_hex_digits(v as nat, false);
    lemma_prefixed(hex4(v));
    lemma_prefixed(hex4_lower(v));
    lemma_prefixed(hex_digits(v as nat, true));
    lemma_prefixed(hex_digits(v as nat, false));
    lemma_prefixed(d);
    lemma_prefixed(Seq::<char>::empty());
    assert("0x"@ + Seq::<char>::empty() =~= "0x"@);
    assert(hex_value('+') is None);
    if all_hex(d) && d.len() > 0 {
        assert(hex_value(d[0]) is Some);
    }
    assert(hex_value(hex4(v)[0]) is Some);
    assert(hex_value(hex4_lower(v)[0]) is Some);
    assert(hex_value(hex_digits(v as nat, true)[0]) is Some);
    assert(hex_value(hex_digits(v as nat, false)[0]) is Some);
}


// ---- rule texts ----

/// Reading lines one after another: the lines `a` then the lines `b` give
/// what `a + b` gives, diagnostics in order.
pub proof fn law_lines_in_order(db: PolicyView, a: Seq<Seq<char>>, b: Seq<Seq<char>>)
    ensures
        lines_result(db, a + b) == ({
            let (d1, m1) = lines_result(db, a);
            let (d2, m2) = lines_result(d1, b);
            (d2, m1 + m2)
        }),
    decreases a.len(),
{
    if a.len() == 0 {
        assert(a + b =~= b);
        assert(Seq::<Seq<char>>::empty() + lines_result(db, b).1 =~= lines_result(db, b).1);
    } else {
        let (d0, m0) = statement_line_result(db, a[0]);
        law_lines_in_order(d0, a.drop_first(), b);
        assert((a + b)[0] == a[0]);
        assert((a + b).drop_first() =~= a.drop_first() + b);
        let (d1, m1) = lines_result(d0, a.drop_first());
        let (d2, m2) = lines_result(d1, b);
        assert(m0 + (m1 + m2) =~= (m0 + m1) + m2);
    }
}

proof fn lemma_trim_drop_ws(l: Seq<char>)
    requires
        l.len() > 0,
        is_ws(l.last()),
    ensures
        trim(l.drop_last()) == trim(l),
    decreases l.len(),
{
    if is_ws(l[0]) {
        if l.len() == 1 {
            assert(l.drop_first() =~= Seq::<char>::empty());
            assert(l.drop_last() =~= Seq::<char>::empty());
        } else {
            let f = l.drop_first();
            assert(f.last() == l.last());
            lemma_trim_drop_ws(f);
            assert(l.drop_last()[0] == l[0]);
            assert(l.drop_last().drop_first() =~= f.drop_last());
        }
    } else {
        assert(l.len() >= 2);
        assert(l.drop_last()[0] == l[0]);
    }
}

/// A line reads the same with or without the carriage return of a CRLF
/// ending.
proof fn lemma_strip_cr_same(db: PolicyView, l: Seq<char>)
    ensures
        statement_line_result(db, strip_cr(l)) == statement_line_result(db, l),
{
    if l.len() > 0 && l.last() == '\r' {
        assert(is_ws('\r'));
        lemma_trim_drop_ws(l);
    }
}

/// Rules joined by a line feed do what the first rules and then the second
/// do: `parse_rules(p, a + "\n" + b)` is `parse_rules(p, a)` followed by
/// `parse_rules(p, b)`, diagnostics in order.
pub proof fn law_rules_split(db: PolicyView, x: Seq<char>, y: Seq<char>)
    ensures
        lines_result(db, text_lines(x + "\n"@ + y)) == ({
            let (d1, m1) = lines_result(db, text_lines(x));
            let (d2, m2) = lines_result(d1, text_lines(y));
            (d2, m1 + m2)
        }),
    decreases x.len(),
{
    reveal_strlit("\n");
    let z = x + "\n"@ + y;
    assert(z.len() > 0);
    lemma_find_char(x, '\n');
    match find_char(x, '\n') {
        Some(i) => {
            assert forall|j: int| 0 <= j <= i implies z[j] == x[j] by {}
            lemma_find_unique(z, '\n', i);
            let rest = x.skip(i + 1);
            assert(z.take(i) =~= x.take(i));
            assert(z.skip(i + 1) =~= rest + "\n"@ + y);
            law_rules_split(statement_line_result(db, strip_cr(x.take(i))).0, rest, y);
            let l = strip_cr(x.take(i));
            let lz = text_lines(z);
            let lx = text_lines(x);
            assert(lz == seq![l] + text_lines(rest + "\n"@ + y));
            assert(lx == seq![l] + text_lines(rest));
            assert(lz[0] == l && lz.drop_first() =~= text_lines(rest + "\n"@ + y));
            assert(lx[0] == l && lx.drop_first() =~= text_lines(rest));
            let (d0, m0) = statement_line_result(db, l);
            let (d1, m1) = lines_result(d0, text_lines(rest));
            let (d2, m2) = lines_result(d1, text_lines(y));
            assert(m0 + (m1 + m2) =~= (m0 + m1) + m2);
        },
        None => {
            assert(z[x.len() as int] == '\n');
            assert forall|j: int| 0 <= j < x.len() implies z[j] != '\n' by {
                assert(z[j] == x[j]);
            }
            lemma_find_unique(z, '\n', x.len() as int);
            assert(z.take(x.len() as int) =~= x);
            assert(z.skip(x.len() as int + 1) =~= y);
            let lz = text_lines(z);
            assert(lz == seq![strip_cr(x)] + text_lines(y));
            assert(lz[0] == strip_cr(x) && lz.drop_first() =~= text_lines(y));
            lemma_strip_cr_same(db, x);
            let (d0, m0) = statement_line_result(db, x);
            if x.len() == 0 {
                assert(text_lines(x) == Seq::<Seq<char>>::empty());
                assert(is_blank(trim(x))) by {
                    assert(trim_start(x) == x);
                    assert(trim_end(x) == x);
                }
                assert(m0 =~= Seq::<Seq<char>>::empty());
                assert(m0 + lines_result(d0, text_lines(y)).1 =~= lines_result(d0, text_lines(y)).1);
            } else {
                let lx = text_lines(x);
                assert(lx == seq![x]);
                assert(lx[0] == x && lx.drop_first() =~= Seq::<Seq<char>>::empty());
                assert(lines_result(d0, Seq::<Seq<char>>::empty()) == (d0, Seq::<Seq<char>>::empty()));
                assert(m0 + Seq::<Seq<char>>::empty() =~= m0);
            }
        },
    }
}

} // verus!
