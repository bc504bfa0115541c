//! Policy statements: parsing a statement, carrying it out on a policy,
//! and the texts of tokens, errors and the statement help.

use vstd::prelude::*;

pub use crate::parser::{
    match_string, parse_id, parse_sterm, parse_term, parse_xperm, parse_xperm_range, parse_xperms,
    ParseError,
};
pub use crate::token::{extract_token, parse_xperm_hex, tokenize_statement, Token};

use crate::lexer::{find_char, find_char_exec, lemma_find_char, trim, trim_str};
use crate::parser::{
    names_view, spec_id, spec_match_string, spec_sterm, spec_term, spec_xperms, tok_at,
    SpecParseError, Tokens,
};
use crate::policy::{
    av_rule, c_name, c_names, fold_joins, fold_names, fold_rules, genfscon_step, new_attr_step,
    new_type_step, state_rule, type_rule_step, type_transition_step, wildcard, xp_plan, xp_rule, SePolicy,
    genfscon_notes, type_transition_notes, xp_notes,
};
use crate::sepol::{
    PolicyView, AVTAB_ALLOWED, AVTAB_AUDITALLOW, AVTAB_AUDITDENY, AVTAB_CHANGE, AVTAB_MEMBER,
    AVTAB_XPERMS_ALLOWED, AVTAB_XPERMS_AUDITALLOW, AVTAB_XPERMS_DONTAUDIT,
};
use crate::sepol_print::lines_view;
use crate::token::{statement_tokens, token_text, SpecToken};
use crate::xperm::Xperm;

verus! {

// ---- texts ----

/// The opening of the statement help, up to the list of statements.
pub const HELP_HEAD: &'static str = "** Policy statements:

One policy statement should be treated as a single parameter;
this means each policy statement should be enclosed in quotes.
Multiple policy statements can be provided in a single command.

Statements has a format of \"<rule_name> [args...]\".
Arguments labeled with (^) can accept one or more entries.
Multiple entries consist of a space separated list enclosed in braces ({}).
Arguments labeled with (*) are the same as (^), but additionally
support the match-all operator (*).

Example: \"allow { s1 s2 } { t1 t2 } class *\"
Will be expanded to:

allow s1 t1 class { all-permissions-of-class }
allow s1 t2 class { all-permissions-of-class }
allow s2 t1 class { all-permissions-of-class }
allow s2 t2 class { all-permissions-of-class }

** Extended permissions:

The only supported operation for extended permissions right now is 'ioctl'.
xperm_set is one or multiple hexadecimal numeric values ranging from 0x0000 to 0xFFFF.
Multiple values consist of a space separated list enclosed in braces ({}).
Use the complement operator (~) to specify all permissions except those explicitly listed.
Use the range operator (-) to specify all permissions within the low – high range.
Use the match all operator (*) to match all ioctl commands (0x0000-0xFFFF).
The special value 0 is used to clear all rules.

Some examples:
allowxperm source target class ioctl 0x8910
allowxperm source target class ioctl { 0x8910-0x8926 0x892A-0x8935 }
allowxperm source target class ioctl ~{ 0x8910 0x892A }
allowxperm source target class ioctl *

** Supported policy statements:

";

/// The usage line of a statement, as an error other than the help
/// request shows it.
pub open spec fn usage_text(e: SpecParseError) -> Seq<char> {
    match e {
        SpecParseError::General => "General parse error"@,
        SpecParseError::AvtabAv(a) => token_text(a) + " *source_type *target_type *class *perm_set"@,
        SpecParseError::AvtabXperms(a) => token_text(a)
            + " *source_type *target_type *class operation xperm_set"@,
        SpecParseError::AvtabType(a) => token_text(a) + " source_type target_type class default_type"@,
        SpecParseError::TypeState(a) => token_text(a) + " *type"@,
        SpecParseError::TypeAttr => "typeattribute ^type ^attribute"@,
        SpecParseError::TypeTrans => "type_transition source_type target_type class default_type (object_name)"@,
        SpecParseError::NewType => "type type_name ^(attribute)"@,
        SpecParseError::NewAttr => "attribute attribute_name"@,
        SpecParseError::GenfsCon => "genfscon fs_name partial_path fs_context"@,
        SpecParseError::ShowHelp => seq![],
        SpecParseError::UnknownAction(a) => "Unknown action: \""@ + token_text(a) + "\""@,
    }
}

/// The statement help: the opening, then the usage of every statement, one
/// per line.
pub open spec fn statement_help() -> Seq<char> {
    HELP_HEAD@ + usage_text(SpecParseError::AvtabAv(SpecToken::AL)) + "\n"@ + usage_text(
        SpecParseError::AvtabAv(SpecToken::DN),
    ) + "\n"@ + usage_text(SpecParseError::AvtabAv(SpecToken::AA)) + "\n"@ + usage_text(
        SpecParseError::AvtabAv(SpecToken::DA),
    ) + "\n"@ + usage_text(SpecParseError::AvtabXperms(SpecToken::AX)) + "\n"@ + usage_text(
        SpecParseError::AvtabXperms(SpecToken::AY),
    ) + "\n"@ + usage_text(SpecParseError::AvtabXperms(SpecToken::DX)) + "\n"@ + usage_text(
        SpecParseError::TypeState(SpecToken::PM),
    ) + "\n"@ + usage_text(SpecParseError::TypeState(SpecToken::EF)) + "\n"@ + usage_text(
        SpecParseError::TypeAttr,
    ) + "\n"@ + usage_text(SpecParseError::NewType) + "\n"@ + usage_text(SpecParseError::NewAttr)
        + "\n"@ + usage_text(SpecParseError::TypeTrans) + "\n"@ + usage_text(
        SpecParseError::AvtabType(SpecToken::TC),
    ) + "\n"@ + usage_text(SpecParseError::AvtabType(SpecToken::TM)) + "\n"@ + usage_text(
        SpecParseError::GenfsCon,
    ) + "\n"@
}

/// The text of an error: the help for a help request, else its usage line
/// or message.
pub open spec fn error_text(e: SpecParseError) -> Seq<char> {
    match e {
        SpecParseError::ShowHelp => statement_help(),
        _ => usage_text(e),
    }
}

fn push_str(out: &mut String, s: &str)
    ensures
        final(out)@ == old(out)@ + s@,
{
    out.append(s);
}

fn usage<'a>(e: &ParseError<'a>) -> (r: String)
    ensures
        r@ == usage_text(e@),
{
    match e {
        ParseError::General => String::from_str("General parse error"),
        ParseError::AvtabAv(a) => {
            let mut r = a.to_text();
            push_str(&mut r, " *source_type *target_type *class *perm_set");
            r
        },
        ParseError::AvtabXperms(a) => {
            let mut r = a.to_text();
            push_str(&mut r, " *source_type *target_type *class operation xperm_set");
            r
        },
        ParseError::AvtabType(a) => {
            let mut r = a.to_text();
            push_str(&mut r, " source_type target_type class default_type");
            r
        },
        ParseError::TypeState(a) => {
            let mut r = a.to_text();
            push_str(&mut r, " *type");
            r
        },
        ParseError::TypeAttr => String::from_str("typeattribute ^type ^attribute"),
        ParseError::TypeTrans => String::from_str(
            "type_transition source_type target_type class default_type (object_name)",
        ),
        ParseError::NewType => String::from_str("type type_name ^(attribute)"),
        ParseError::NewAttr => String::from_str("attribute attribute_name"),
        ParseError::GenfsCon => String::from_str("genfscon fs_name partial_path fs_context"),
        ParseError::ShowHelp => String::new(),
        ParseError::UnknownAction(a) => {
            let mut r = String::from_str("Unknown action: \"");
            let t = a.to_text();
            push_str(&mut r, t.as_str());
            push_str(&mut r, "\"");
            r
        },
    }
}

fn push_usage(out: &mut String, e: ParseError<'static>)
    ensures
        final(out)@ == old(out)@ + usage_text(e@) + "\n"@,
{
    let u = usage(&e);
    push_str(out, u.as_str());
    push_str(out, "\n");
}

/// Format statement help text.
pub fn format_statement_help() -> (r: String)
    ensures
        r@ == statement_help(),
{
    let mut r = String::from_str(HELP_HEAD);
    push_usage(&mut r, ParseError::AvtabAv(Token::AL));
    push_usage(&mut r, ParseError::AvtabAv(Token::DN));
    push_usage(&mut r, ParseError::AvtabAv(Token::AA));
    push_usage(&mut r, ParseError::AvtabAv(Token::DA));
    push_usage(&mut r, ParseError::AvtabXperms(Token::AX));
    push_usage(&mut r, ParseError::AvtabXperms(Token::AY));
    push_usage(&mut r, ParseError::AvtabXperms(Token::DX));
    push_usage(&mut r, ParseError::TypeState(Token::PM));
    push_usage(&mut r, ParseError::TypeState(Token::EF));
    push_usage(&mut r, ParseError::TypeAttr);
    push_usage(&mut r, ParseError::NewType);
    push_usage(&mut r, ParseError::NewAttr);
    push_usage(&mut r, ParseError::TypeTrans);
    push_usage(&mut r, ParseError::AvtabType(Token::TC));
    push_usage(&mut r, ParseError::AvtabType(Token::TM));
    push_usage(&mut r, ParseError::GenfsCon);
    r
}

impl<'a> ParseError<'a> {
    /// The text of the error, as a diagnostic shows it.
    pub fn to_text(&self) -> (r: String)
        ensures
            r@ == error_text(self@),
    {
        match self {
            ParseError::ShowHelp => format_statement_help(),
            _ => usage(self),
        }
    }
}

// ---- statements ----

/// The value of a parsed statement.
pub enum Command {
    Av { effect: u16, invert: bool, s: Seq<Seq<char>>, t: Seq<Seq<char>>, c: Seq<Seq<char>>, p: Seq<Seq<char>> },
    Xp { effect: u16, s: Seq<Seq<char>>, t: Seq<Seq<char>>, c: Seq<Seq<char>>, x: Seq<Xperm> },
    State { permissive: bool, types: Seq<Seq<char>> },
    Attr { types: Seq<Seq<char>>, attrs: Seq<Seq<char>> },
    NewType { name: Seq<char>, attrs: Seq<Seq<char>> },
    NewAttr { name: Seq<char> },
    TypeRule { effect: u16, src: Seq<char>, tgt: Seq<char>, cls: Seq<char>, def: Seq<char> },
    Trans { src: Seq<char>, tgt: Seq<char>, cls: Seq<char>, def: Seq<char>, obj: Seq<char> },
    Genfs { fs: Seq<char>, path: Seq<char>, ctx: Seq<char> },
}

/// `allow`, `deny`, `auditallow` or `dontaudit` from position `p` on:
/// source, target, class and permissions, and nothing after.
pub open spec fn spec_av_statement(t: Seq<SpecToken>, p: int, effect: u16, invert: bool) -> Result<Command, SpecParseError> {
    match spec_sterm(t, p) {
        None => Err(SpecParseError::General),
        Some((s, q1)) => match spec_sterm(t, q1) {
            None => Err(SpecParseError::General),
            Some((tt, q2)) => match spec_sterm(t, q2) {
                None => Err(SpecParseError::General),
                Some((c, q3)) => match spec_sterm(t, q3) {
                    None => Err(SpecParseError::General),
                    Some((ps, q4)) => if q4 == t.len() {
                        Ok(Command::Av { effect, invert, s, t: tt, c, p: ps })
                    } else {
                        Err(SpecParseError::General)
                    },
                },
            },
        },
    }
}

/// An ioctl statement from position `p` on: source, target, class,
/// `ioctl`, the ranges, and nothing after.
pub open spec fn spec_xp_statement(t: Seq<SpecToken>, p: int, effect: u16) -> Result<Command, SpecParseError> {
    match spec_sterm(t, p) {
        None => Err(SpecParseError::General),
        Some((s, q1)) => match spec_sterm(t, q1) {
            None => Err(SpecParseError::General),
            Some((tt, q2)) => match spec_sterm(t, q2) {
                None => Err(SpecParseError::General),
                Some((c, q3)) => match spec_match_string(t, q3, "ioctl"@) {
                    None => Err(SpecParseError::General),
                    Some(q4) => match spec_xperms(t, q4) {
                        None => Err(SpecParseError::General),
                        Some((x, q5)) => if q5 == t.len() {
                            Ok(Command::Xp { effect, s, t: tt, c, x })
                        } else {
                            Err(SpecParseError::General)
                        },
                    },
                },
            },
        },
    }
}

/// `permissive` or `enforce` from position `p` on.
pub open spec fn spec_state_statement(t: Seq<SpecToken>, p: int, permissive: bool) -> Result<Command, SpecParseError> {
    match spec_sterm(t, p) {
        None => Err(SpecParseError::General),
        Some((ts, q1)) => if q1 == t.len() {
            Ok(Command::State { permissive, types: ts })
        } else {
            Err(SpecParseError::General)
        },
    }
}

/// `typeattribute` from position `p` on.
pub open spec fn spec_attr_statement(t: Seq<SpecToken>, p: int) -> Result<Command, SpecParseError> {
    match spec_term(t, p) {
        None => Err(SpecParseError::General),
        Some((ts, q1)) => match spec_term(t, q1) {
            None => Err(SpecParseError::General),
            Some((a, q2)) => if q2 == t.len() {
                Ok(Command::Attr { types: ts, attrs: a })
            } else {
                Err(SpecParseError::General)
            },
        },
    }
}

/// `type` from position `p` on: a name, then attributes if anything
/// follows.
pub open spec fn spec_type_statement(t: Seq<SpecToken>, p: int) -> Result<Command, SpecParseError> {
    match spec_id(t, p) {
        None => Err(SpecParseError::General),
        Some((name, q1)) => if q1 == t.len() {
            Ok(Command::NewType { name, attrs: seq![] })
        } else {
            match spec_term(t, q1) {
                None => Err(SpecParseError::General),
                Some((a, q2)) => if q2 == t.len() {
                    Ok(Command::NewType { name, attrs: a })
                } else {
                    Err(SpecParseError::General)
                },
            }
        },
    }
}

/// `attribute` from position `p` on.
pub open spec fn spec_attribute_statement(t: Seq<SpecToken>, p: int) -> Result<Command, SpecParseError> {
    match spec_id(t, p) {
        None => Err(SpecParseError::General),
        Some((name, q1)) => if q1 == t.len() {
            Ok(Command::NewAttr { name })
        } else {
            Err(SpecParseError::General)
        },
    }
}

/// Four names from position `p` on.
pub open spec fn spec_four_ids(t: Seq<SpecToken>, p: int) -> Option<(Seq<char>, Seq<char>, Seq<char>, Seq<char>, int)> {
    match spec_id(t, p) {
        None => None,
        Some((s, q1)) => match spec_id(t, q1) {
            None => None,
            Some((tt, q2)) => match spec_id(t, q2) {
                None => None,
                Some((c, q3)) => match spec_id(t, q3) {
                    None => None,
                    Some((d, q4)) => Some((s, tt, c, d, q4)),
                },
            },
        },
    }
}

/// `type_change` or `type_member` from position `p` on.
pub open spec fn spec_type_rule_statement(t: Seq<SpecToken>, p: int, effect: u16) -> Result<Command, SpecParseError> {
    match spec_four_ids(t, p) {
        None => Err(SpecParseError::General),
        Some((s, tt, c, d, q)) => if q == t.len() {
            Ok(Command::TypeRule { effect, src: s, tgt: tt, cls: c, def: d })
        } else {
            Err(SpecParseError::General)
        },
    }
}

/// `type_transition` from position `p` on: four names and an optional
/// object name.
pub open spec fn spec_trans_statement(t: Seq<SpecToken>, p: int) -> Result<Command, SpecParseError> {
    match spec_four_ids(t, p) {
        None => Err(SpecParseError::General),
        Some((s, tt, c, d, q)) => if q == t.len() {
            Ok(Command::Trans { src: s, tgt: tt, cls: c, def: d, obj: seq![] })
        } else {
            match spec_id(t, q) {
                None => Err(SpecParseError::General),
                Some((o, q2)) => if q2 == t.len() {
                    Ok(Command::Trans { src: s, tgt: tt, cls: c, def: d, obj: o })
                } else {
                    Err(SpecParseError::General)
                },
            }
        },
    }
}

/// `genfscon` from position `p` on.
pub open spec fn spec_genfs_statement(t: Seq<SpecToken>, p: int) -> Result<Command, SpecParseError> {
    match spec_id(t, p) {
        None => Err(SpecParseError::General),
        Some((fs, q1)) => match spec_id(t, q1) {
            None => Err(SpecParseError::General),
            Some((path, q2)) => match spec_id(t, q2) {
                None => Err(SpecParseError::General),
                Some((ctx, q3)) => if q3 == t.len() {
                    Ok(Command::Genfs { fs, path, ctx })
                } else {
                    Err(SpecParseError::General)
                },
            },
        },
    }
}

/// The statement the tokens from position `p` on make: no token asks for
/// the help; the first token names the statement.
pub open spec fn spec_statement(t: Seq<SpecToken>, p: int) -> Result<Command, SpecParseError> {
    match tok_at(t, p) {
        None => Err(SpecParseError::ShowHelp),
        Some(action) => match action {
            SpecToken::AL => spec_av_statement(t, p + 1, AVTAB_ALLOWED, false),
            SpecToken::DN => spec_av_statement(t, p + 1, AVTAB_ALLOWED, true),
            SpecToken::AA => spec_av_statement(t, p + 1, AVTAB_AUDITALLOW, false),
            SpecToken::DA => spec_av_statement(t, p + 1, AVTAB_AUDITDENY, true),
            SpecToken::AX => spec_xp_statement(t, p + 1, AVTAB_XPERMS_ALLOWED),
            SpecToken::AY => spec_xp_statement(t, p + 1, AVTAB_XPERMS_AUDITALLOW),
            SpecToken::DX => spec_xp_statement(t, p + 1, AVTAB_XPERMS_DONTAUDIT),
            SpecToken::PM => spec_state_statement(t, p + 1, true),
            SpecToken::EF => spec_state_statement(t, p + 1, false),
            SpecToken::TA => spec_attr_statement(t, p + 1),
            SpecToken::TY => spec_type_statement(t, p + 1),
            SpecToken::AT => spec_attribute_statement(t, p + 1),
            SpecToken::TC => spec_type_rule_statement(t, p + 1, AVTAB_CHANGE),
            SpecToken::TM => spec_type_rule_statement(t, p + 1, AVTAB_MEMBER),
            SpecToken::TT => spec_trans_statement(t, p + 1),
            SpecToken::GF => spec_genfs_statement(t, p + 1),
            _ => Err(SpecParseError::UnknownAction(action)),
        },
    }
}

/// Every name of a statement can be passed on.
pub open spec fn command_c_names(cmd: Command) -> bool {
    match cmd {
        Command::Av { s, t, c, p, .. } => c_names(s) && c_names(t) && c_names(c) && c_names(p),
        Command::Xp { s, t, c, .. } => c_names(s) && c_names(t) && c_names(c),
        Command::State { types, .. } => c_names(types),
        Command::Attr { types, attrs } => c_names(types) && c_names(attrs),
        Command::NewType { name, attrs } => c_name(name) && c_names(attrs),
        Command::NewAttr { name } => c_name(name),
        Command::TypeRule { src, tgt, cls, def, .. } => c_name(src) && c_name(tgt) && c_name(cls)
            && c_name(def),
        Command::Trans { src, tgt, cls, def, obj } => c_name(src) && c_name(tgt) && c_name(cls)
            && c_name(def) && c_name(obj),
        Command::Genfs { fs, path, ctx } => c_name(fs) && c_name(path) && c_name(ctx),
    }
}

/// The database after a statement.
pub open spec fn apply_command(db: PolicyView, cmd: Command) -> PolicyView {
    match cmd {
        Command::Av { effect, invert, s, t, c, p } => fold_rules(
            db,
            wildcard(s),
            wildcard(t),
            wildcard(c),
            wildcard(p),
            av_rule(effect, invert),
        ),
        Command::Xp { effect, s, t, c, x } => fold_rules(
            db,
            wildcard(s),
            wildcard(t),
            wildcard(c),
            xp_plan(x),
            xp_rule(effect),
        ),
        Command::State { permissive, types } => fold_names(db, wildcard(types), state_rule(permissive)),
        Command::Attr { types, attrs } => fold_joins(db, types, attrs),
        Command::NewType { name, attrs } => new_type_step(db, name, attrs),
        Command::NewAttr { name } => new_attr_step(db, name),
        Command::TypeRule { effect, src, tgt, cls, def } => type_rule_step(db, src, tgt, cls, def, effect),
        Command::Trans { src, tgt, cls, def, obj } => type_transition_step(db, src, tgt, cls, def, obj),
        Command::Genfs { fs, path, ctx } => genfscon_step(db, fs, path, ctx),
    }
}

/// What carrying out a statement gives: the database after it and `Ok`,
/// or the database unchanged and the error.
pub open spec fn statement_outcome(db: PolicyView, r: Result<Command, SpecParseError>) -> PolicyView {
    match r {
        Ok(cmd) => apply_command(db, cmd),
        Err(_) => db,
    }
}

/// What carrying out a statement reports: the refusals of the operation
/// it stands for; nothing for a statement that does not parse.
pub open spec fn statement_notes(db: PolicyView, r: Result<Command, SpecParseError>) -> Seq<Seq<char>> {
    match r {
        Ok(cmd) => command_notes(db, cmd),
        Err(_) => seq![],
    }
}

/// The refusals a command reports: an ioctl rule on a policy too old for
/// it, a name-based transition naming what does not exist, a context that
/// does not parse.
pub open spec fn command_notes(db: PolicyView, cmd: Command) -> Seq<Seq<char>> {
    match cmd {
        Command::Xp { s, t, c, x, .. } => xp_notes(db, wildcard(s), wildcard(t), wildcard(c), x.len()),
        Command::Trans { src, tgt, cls, def, obj } => type_transition_notes(db, src, tgt, cls, def, obj),
        Command::Genfs { ctx, .. } => genfscon_notes(db, ctx),
        _ => seq![],
    }
}

/// The names of the statement the tokens make, if they make one, can be
/// passed on.
pub open spec fn statement_c_names(t: Seq<SpecToken>, p: int) -> bool {
    match spec_statement(t, p) {
        Ok(cmd) => command_c_names(cmd),
        Err(_) => true,
    }
}

fn at_end<'a>(tokens: &Tokens<'a>) -> (r: Result<(), ParseError<'a>>)
    requires
        tokens.wf(),
    ensures
        r is Ok <==> tokens.pos() == tokens.toks().len(),
        r matches Err(e) ==> e@ == SpecParseError::General,
{
    if tokens.peek().is_none() {
        Ok(())
    } else {
        Err(ParseError::General)
    }
}

fn exec_av<'a>(policy: &mut SePolicy, tokens: &mut Tokens<'a>, action: Token<'a>) -> (r: Result<(), ParseError<'a>>)
    requires
        old(tokens).wf(),
        action@ is AL || action@ is DN || action@ is AA || action@ is DA,
        statement_c_names(old(tokens).toks(), old(tokens).pos() - 1),
        tok_at(old(tokens).toks(), old(tokens).pos() - 1) == Some(action@),
    ensures
        ({
            let res = spec_statement(old(tokens).toks(), old(tokens).pos() - 1);
            &&& final(policy)@ == statement_outcome(old(policy)@, res)
            &&& final(policy).notes() == old(policy).notes() + statement_notes(old(policy)@, res)
            &&& match res {
                Ok(_) => r is Ok,
                Err(e) => r matches Err(x) && x@ == e,
            }
        }),
{
    let s = match parse_sterm(tokens) {
        Ok(v) => v,
        Err(e) => return Err(e),
    };
    let t = match parse_sterm(tokens) {
        Ok(v) => v,
        Err(e) => return Err(e),
    };
    let c = match parse_sterm(tokens) {
        Ok(v) => v,
        Err(e) => return Err(e),
    };
    let p = match parse_sterm(tokens) {
        Ok(v) => v,
        Err(e) => return Err(e),
    };
    match at_end(tokens) {
        Ok(()) => {},
        Err(e) => return Err(e),
    }
    match action {
        Token::AL => policy.allow(s.as_slice(), t.as_slice(), c.as_slice(), p.as_slice()),
        Token::DN => policy.deny(s.as_slice(), t.as_slice(), c.as_slice(), p.as_slice()),
        Token::AA => policy.auditallow(s.as_slice(), t.as_slice(), c.as_slice(), p.as_slice()),
        _ => policy.dontaudit(s.as_slice(), t.as_slice(), c.as_slice(), p.as_slice()),
    }
    Ok(())
}

fn exec_xp<'a>(policy: &mut SePolicy, tokens: &mut Tokens<'a>, action: Token<'a>) -> (r: Result<(), ParseError<'a>>)
    requires
        old(tokens).wf(),
        action@ is AX || action@ is AY || action@ is DX,
        statement_c_names(old(tokens).toks(), old(tokens).pos() - 1),
        tok_at(old(tokens).toks(), old(tokens).pos() - 1) == Some(action@),
    ensures
        ({
            let res = spec_statement(old(tokens).toks(), old(tokens).pos() - 1);
            &&& final(policy)@ == statement_outcome(old(policy)@, res)
            &&& final(policy).notes() == old(policy).notes() + statement_notes(old(policy)@, res)
            &&& match res {
                Ok(_) => r is Ok,
                Err(e) => r matches Err(x) && x@ == e,
            }
        }),
{
    let s = match parse_sterm(tokens) {
        Ok(v) => v,
        Err(e) => return Err(e),
    };
    let t = match parse_sterm(tokens) {
        Ok(v) => v,
        Err(e) => return Err(e),
    };
    let c = match parse_sterm(tokens) {
        Ok(v) => v,
        Err(e) => return Err(e),
    };
    match match_string(tokens, "ioctl") {
        Ok(()) => {},
        Err(e) => return Err(e),
    }
    let p = match parse_xperms(tokens) {
        Ok(v) => v,
        Err(e) => return Err(e),
    };
    match at_end(tokens) {
        Ok(()) => {},
        Err(e) => return Err(e),
    }
    match action {
        Token::AX => policy.allowxperm(s.as_slice(), t.as_slice(), c.as_slice(), p.as_slice()),
        Token::AY => policy.auditallowxperm(s.as_slice(), t.as_slice(), c.as_slice(), p.as_slice()),
        _ => policy.dontauditxperm(s.as_slice(), t.as_slice(), c.as_slice(), p.as_slice()),
    }
    Ok(())
}

fn exec_state<'a>(policy: &mut SePolicy, tokens: &mut Tokens<'a>, action: Token<'a>) -> (r: Result<(), ParseError<'a>>)
    requires
        old(tokens).wf(),
        action@ is PM || action@ is EF,
        statement_c_names(old(tokens).toks(), old(tokens).pos() - 1),
        tok_at(old(tokens).toks(), old(tokens).pos() - 1) == Some(action@),
    ensures
        ({
            let res = spec_statement(old(tokens).toks(), old(tokens).pos() - 1);
            &&& final(policy)@ == statement_outcome(old(policy)@, res)
            &&& final(policy).notes() == old(policy).notes() + statement_notes(old(policy)@, res)
            &&& match res {
                Ok(_) => r is Ok,
                Err(e) => r matches Err(x) && x@ == e,
            }
        }),
{
    let t = match parse_sterm(tokens) {
        Ok(v) => v,
        Err(e) => return Err(e),
    };
    match at_end(tokens) {
        Ok(()) => {},
        Err(e) => return Err(e),
    }
    match action {
        Token::PM => policy.permissive(t.as_slice()),
        _ => policy.enforce(t.as_slice()),
    }
    Ok(())
}

fn exec_attr<'a>(policy: &mut SePolicy, tokens: &mut Tokens<'a>) -> (r: Result<(), ParseError<'a>>)
    requires
        old(tokens).wf(),
        statement_c_names(old(tokens).toks(), old(tokens).pos() - 1),
        tok_at(old(tokens).toks(), old(tokens).pos() - 1) == Some(SpecToken::TA),
    ensures
        ({
            let res = spec_statement(old(tokens).toks(), old(tokens).pos() - 1);
            &&& final(policy)@ == statement_outcome(old(policy)@, res)
            &&& final(policy).notes() == old(policy).notes() + statement_notes(old(policy)@, res)
            &&& match res {
                Ok(_) => r is Ok,
                Err(e) => r matches Err(x) && x@ == e,
            }
        }),
{
    let t = match parse_term(tokens) {
        Ok(v) => v,
        Err(e) => return Err(e),
    };
    let a = match parse_term(tokens) {
        Ok(v) => v,
        Err(e) => return Err(e),
    };
    match at_end(tokens) {
        Ok(()) => {},
        Err(e) => return Err(e),
    }
    policy.typeattribute(t.as_slice(), a.as_slice());
    Ok(())
}

fn exec_type<'a>(policy: &mut SePolicy, tokens: &mut Tokens<'a>) -> (r: Result<(), ParseError<'a>>)
    requires
        old(tokens).wf(),
        statement_c_names(old(tokens).toks(), old(tokens).pos() - 1),
        tok_at(old(tokens).toks(), old(tokens).pos() - 1) == Some(SpecToken::TY),
    ensures
        ({
            let res = spec_statement(old(tokens).toks(), old(tokens).pos() - 1);
            &&& final(policy)@ == statement_outcome(old(policy)@, res)
            &&& final(policy).notes() == old(policy).notes() + statement_notes(old(policy)@, res)
            &&& match res {
                Ok(_) => r is Ok,
                Err(e) => r matches Err(x) && x@ == e,
            }
        }),
{
    let t = match parse_id(tokens) {
        Ok(v) => v,
        Err(e) => return Err(e),
    };
    let a = if tokens.peek().is_none() {
        let v: Vec<&'a str> = Vec::new();
        assert(names_view(v@) =~= Seq::<Seq<char>>::empty());
        v
    } else {
        match parse_term(tokens) {
            Ok(v) => v,
            Err(e) => return Err(e),
        }
    };
    match at_end(tokens) {
        Ok(()) => {},
        Err(e) => return Err(e),
    }
    policy.type_(t, a.as_slice());
    Ok(())
}

fn exec_attribute<'a>(policy: &mut SePolicy, tokens: &mut Tokens<'a>) -> (r: Result<(), ParseError<'a>>)
    requires
        old(tokens).wf(),
        statement_c_names(old(tokens).toks(), old(tokens).pos() - 1),
        tok_at(old(tokens).toks(), old(tokens).pos() - 1) == Some(SpecToken::AT),
    ensures
        ({
            let res = spec_statement(old(tokens).toks(), old(tokens).pos() - 1);
            &&& final(policy)@ == statement_outcome(old(policy)@, res)
            &&& final(policy).notes() == old(policy).notes() + statement_notes(old(policy)@, res)
            &&& match res {
                Ok(_) => r is Ok,
                Err(e) => r matches Err(x) && x@ == e,
            }
        }),
{
    let t = match parse_id(tokens) {
        Ok(v) => v,
        Err(e) => return Err(e),
    };
    match at_end(tokens) {
        Ok(()) => {},
        Err(e) => return Err(e),
    }
    policy.attribute(t);
    Ok(())
}

fn parse_four_ids<'a>(tokens: &mut Tokens<'a>) -> (r: Result<(&'a str, &'a str, &'a str, &'a str), ParseError<'a>>)
    requires
        old(tokens).wf(),
    ensures
        final(tokens).wf(),
        final(tokens).toks() == old(tokens).toks(),
        match spec_four_ids(old(tokens).toks(), old(tokens).pos()) {
            Some((s, t, c, d, q)) => r matches Ok((a, b, x, y)) && a@ == s && b@ == t && x@ == c
                && y@ == d && final(tokens).pos() == q,
            None => r matches Err(e) && e@ == SpecParseError::General,
        },
{
    let s = match parse_id(tokens) {
        Ok(v) => v,
        Err(e) => return Err(e),
    };
    let t = match parse_id(tokens) {
        Ok(v) => v,
        Err(e) => return Err(e),
    };
    let c = match parse_id(tokens) {
        Ok(v) => v,
        Err(e) => return Err(e),
    };
    let d = match parse_id(tokens) {
        Ok(v) => v,
        Err(e) => return Err(e),
    };
    Ok((s, t, c, d))
}

fn exec_type_rule<'a>(policy: &mut SePolicy, tokens: &mut Tokens<'a>, action: Token<'a>) -> (r: Result<(), ParseError<'a>>)
    requires
        old(tokens).wf(),
        action@ is TC || action@ is TM,
        statement_c_names(old(tokens).toks(), old(tokens).pos() - 1),
        tok_at(old(tokens).toks(), old(tokens).pos() - 1) == Some(action@),
    ensures
        ({
            let res = spec_statement(old(tokens).toks(), old(tokens).pos() - 1);
            &&& final(policy)@ == statement_outcome(old(policy)@, res)
            &&& final(policy).notes() == old(policy).notes() + statement_notes(old(policy)@, res)
            &&& match res {
                Ok(_) => r is Ok,
                Err(e) => r matches Err(x) && x@ == e,
            }
        }),
{
    let (s, t, c, d) = match parse_four_ids(tokens) {
        Ok(v) => v,
        Err(e) => return Err(e),
    };
    match at_end(tokens) {
        Ok(()) => {},
        Err(e) => return Err(e),
    }
    match action {
        Token::TC => policy.type_change(s, t, c, d),
        _ => policy.type_member(s, t, c, d),
    }
    Ok(())
}

fn exec_trans<'a>(policy: &mut SePolicy, tokens: &mut Tokens<'a>) -> (r: Result<(), ParseError<'a>>)
    requires
        old(tokens).wf(),
        statement_c_names(old(tokens).toks(), old(tokens).pos() - 1),
        tok_at(old(tokens).toks(), old(tokens).pos() - 1) == Some(SpecToken::TT),
    ensures
        ({
            let res = spec_statement(old(tokens).toks(), old(tokens).pos() - 1);
            &&& final(policy)@ == statement_outcome(old(policy)@, res)
            &&& final(policy).notes() == old(policy).notes() + statement_notes(old(policy)@, res)
            &&& match res {
                Ok(_) => r is Ok,
                Err(e) => r matches Err(x) && x@ == e,
            }
        }),
{
    let (s, t, c, d) = match parse_four_ids(tokens) {
        Ok(v) => v,
        Err(e) => return Err(e),
    };
    let o = if tokens.peek().is_none() {
        let e = "";
        proof {
            reveal_strlit("");
        }
        assert(e@ =~= Seq::<char>::empty());
        e
    } else {
        match parse_id(tokens) {
            Ok(v) => v,
            Err(e) => return Err(e),
        }
    };
    match at_end(tokens) {
        Ok(()) => {},
        Err(e) => return Err(e),
    }
    policy.type_transition(s, t, c, d, o);
    Ok(())
}

fn exec_genfs<'a>(policy: &mut SePolicy, tokens: &mut Tokens<'a>) -> (r: Result<(), ParseError<'a>>)
    requires
        old(tokens).wf(),
        statement_c_names(old(tokens).toks(), old(tokens).pos() - 1),
        tok_at(old(tokens).toks(), old(tokens).pos() - 1) == Some(SpecToken::GF),
    ensures
        ({
            let res = spec_statement(old(tokens).toks(), old(tokens).pos() - 1);
            &&& final(policy)@ == statement_outcome(old(policy)@, res)
            &&& final(policy).notes() == old(policy).notes() + statement_notes(old(policy)@, res)
            &&& match res {
                Ok(_) => r is Ok,
                Err(e) => r matches Err(x) && x@ == e,
            }
        }),
{
    let s = match parse_id(tokens) {
        Ok(v) => v,
        Err(e) => return Err(e),
    };
    let t = match parse_id(tokens) {
        Ok(v) => v,
        Err(e) => return Err(e),
    };
    let c = match parse_id(tokens) {
        Ok(v) => v,
        Err(e) => return Err(e),
    };
    match at_end(tokens) {
        Ok(()) => {},
        Err(e) => return Err(e),
    }
    policy.genfscon(s, t, c);
    Ok(())
}

/// Parses the statement the tokens make and carries it out on the policy:
/// the help is asked for when there is no token, an unknown first token is
/// refused, and a statement that does not parse changes nothing.
pub fn exec_statement<'a>(policy: &mut SePolicy, tokens: &mut Tokens<'a>) -> (r: Result<(), ParseError<'a>>)
    requires
        old(tokens).wf(),
        statement_c_names(old(tokens).toks(), old(tokens).pos()),
    ensures
        ({
            let res = spec_statement(old(tokens).toks(), old(tokens).pos());
            &&& final(policy)@ == statement_outcome(old(policy)@, res)
            &&& final(policy).notes() == old(policy).notes() + statement_notes(old(policy)@, res)
            &&& match res {
                Ok(_) => r is Ok,
                Err(e) => r matches Err(x) && x@ == e,
            }
        }),
{
    let action = match tokens.next() {
        Some(t) => t,
        None => return Err(ParseError::ShowHelp),
    };
    assert(tok_at(tokens.toks(), tokens.pos() - 1) == Some(action@));
    match action {
        Token::AL => exec_av(policy, tokens, action),
        Token::DN => exec_av(policy, tokens, action),
        Token::AA => exec_av(policy, tokens, action),
        Token::DA => exec_av(policy, tokens, action),
        Token::AX => exec_xp(policy, tokens, action),
        Token::AY => exec_xp(policy, tokens, action),
        Token::DX => exec_xp(policy, tokens, action),
        Token::PM | Token::EF => exec_state(policy, tokens, action),
        Token::TA => exec_attr(policy, tokens),
        Token::TY => exec_type(policy, tokens),
        Token::AT => exec_attribute(policy, tokens),
        Token::TC | Token::TM => exec_type_rule(policy, tokens, action),
        Token::TT => exec_trans(policy, tokens),
        Token::GF => exec_genfs(policy, tokens),
        _ => Err(ParseError::UnknownAction(action)),
    }
}

// ---- statement lines and rule texts ----

/// Whether a trimmed line is no statement: empty, or a comment.
pub open spec fn is_blank(st: Seq<char>) -> bool {
    st.len() == 0 || st[0] == '#'
}

/// The diagnostics for a statement that does not parse.
pub open spec fn syntax_error_lines(st: Seq<char>, e: SpecParseError) -> Seq<Seq<char>> {
    seq!["Syntax error in: \""@ + st + "\""@, "Hint: "@ + error_text(e)]
}

/// What a statement line gives: the database after it, and the
/// diagnostics. The line is trimmed; an empty line or a comment does
/// nothing; a statement that does not parse changes nothing and is
/// reported with the hint of its error; one that parses reports the
/// refusals of its operation.
pub open spec fn statement_line_result(db: PolicyView, line: Seq<char>) -> (PolicyView, Seq<Seq<char>>) {
    let st = trim(line);
    if is_blank(st) {
        (db, seq![])
    } else {
        match spec_statement(statement_tokens(st), 0) {
            Ok(cmd) => (apply_command(db, cmd), command_notes(db, cmd)),
            Err(e) => (db, syntax_error_lines(st, e)),
        }
    }
}

/// The names of the statement of a line can be passed on.
pub open spec fn line_c_names(line: Seq<char>) -> bool {
    let st = trim(line);
    is_blank(st) || statement_c_names(statement_tokens(st), 0)
}

/// Parse and execute a statement on the policy; returns the diagnostics
/// of a statement that does not parse.
#[verifier::spinoff_prover]
pub fn parse_statement(policy: &mut SePolicy, statement: &str) -> (diag: Vec<String>)
    requires
        line_c_names(statement@),
    ensures
        (final(policy)@, lines_view(diag@)) == statement_line_result(old(policy)@, statement@),
        final(policy).notes() == old(policy).notes(),
{
    let st = trim_str(statement);
    if st.unicode_len() == 0 || st.get_char(0) == '#' {
        let d: Vec<String> = Vec::new();
        assert(lines_view(d@) =~= Seq::<Seq<char>>::empty());
        return d;
    }
    let toks = tokenize_statement(st).into_vec();
    let mut tokens = Tokens::new(toks);
    let saved = policy.take_notes();
    let r = exec_statement(policy, &mut tokens);
    let produced = policy.take_notes();
    policy.set_notes(saved);
    match r {
        Ok(()) => produced,
        Err(e) => {
            let mut l1 = String::from_str("Syntax error in: \"");
            push_str(&mut l1, st);
            push_str(&mut l1, "\"");
            let mut l2 = String::from_str("Hint: ");
            let t = e.to_text();
            push_str(&mut l2, t.as_str());
            let d = vec![l1, l2];
            assert(lines_view(d@) =~= syntax_error_lines(st@, e@));
            d
        },
    }
}

/// A line without the carriage return of a CRLF ending.
pub open spec fn strip_cr(l: Seq<char>) -> Seq<char> {
    if l.len() > 0 && l.last() == '\r' {
        l.drop_last()
    } else {
        l
    }
}

/// The lines of a text, as `BufRead::lines` reads them: split at each
/// line feed, a carriage return before it dropped; no line after a final
/// line feed.
pub open spec fn text_lines(s: Seq<char>) -> Seq<Seq<char>>
    decreases s.len(),
{
    if s.len() == 0 {
        seq![]
    } else {
        match find_char(s, '\n') {
            Some(i) => {
                proof {
                    lemma_find_char(s, '\n');
                }
                seq![strip_cr(s.take(i))] + text_lines(s.skip(i + 1))
            },
            None => seq![s],
        }
    }
}

/// What the lines give, in order: the database after them and the
/// diagnostics of each.
pub open spec fn lines_result(db: PolicyView, lines: Seq<Seq<char>>) -> (PolicyView, Seq<Seq<char>>)
    decreases lines.len(),
{
    if lines.len() == 0 {
        (db, seq![])
    } else {
        let (d1, m1) = statement_line_result(db, lines[0]);
        let (d2, m2) = lines_result(d1, lines.drop_first());
        (d2, m1 + m2)
    }
}

/// The names of the statements of every line can be passed on.
pub open spec fn rules_c_names(s: Seq<char>) -> bool {
    forall|i: int| 0 <= i < text_lines(s).len() ==> line_c_names(#[trigger] text_lines(s)[i])
}

fn strip_cr_str(l: &str) -> (r: &str)
    ensures
        r@ == strip_cr(l@),
{
    let n = l.unicode_len();
    if n > 0 && l.get_char(n - 1) == '\r' {
        let r = l.substring_char(0, n - 1);
        assert(r@ =~= l@.drop_last());
        r
    } else {
        l
    }
}

/// Parse multiple rules from a string, one statement per line; returns
/// the diagnostics of the lines that do not parse.
#[verifier::spinoff_prover]
pub fn parse_rules(policy: &mut SePolicy, rules: &str) -> (diag: Vec<String>)
    requires
        rules_c_names(rules@),
    ensures
        (final(policy)@, lines_view(diag@)) == lines_result(old(policy)@, text_lines(rules@)),
        final(policy).notes() == old(policy).notes(),
{
    let mut diag: Vec<String> = Vec::new();
    let mut rest = rules;
    let ghost whole = lines_result(old(policy)@, text_lines(rules@));
    assert(lines_view(diag@) + whole.1 =~= whole.1);
    loop
        invariant
            whole == lines_result(old(policy)@, text_lines(rules@)),
            policy.notes() == old(policy).notes(),
            whole.0 == lines_result(policy@, text_lines(rest@)).0,
            whole.1 == lines_view(diag@) + lines_result(policy@, text_lines(rest@)).1,
            forall|i: int|
                0 <= i < text_lines(rest@).len() ==> line_c_names(#[trigger] text_lines(rest@)[i]),
        decreases rest@.len(),
    {
        let n = rest.unicode_len();
        if n == 0 {
            assert(lines_view(diag@) + Seq::<Seq<char>>::empty() =~= lines_view(diag@));
            return diag;
        }
        let ghost ls = text_lines(rest@);
        let (line, next) = match find_char_exec(rest, '\n') {
            Some(i) => {
                proof {
                    lemma_find_char(rest@, '\n');
                }
                let l = rest.substring_char(0, i);
                let nx = rest.substring_char(i + 1, n);
                assert(l@ =~= rest@.take(i as int));
                assert(nx@ =~= rest@.skip(i + 1));
                (strip_cr_str(l), nx)
            },
            None => {
                let e = "";
                proof {
                    reveal_strlit("");
                }
                assert(e@ =~= Seq::<char>::empty());
                (rest, e)
            },
        };
        assert(ls[0] == line@);
        assert(ls.drop_first() =~= text_lines(next@));
        assert(line_c_names(ls[0]));
        let ghost before = lines_view(diag@);
        let d = parse_statement(policy, line);
        let mut k: usize = 0;
        while k < d.len()
            invariant
                k <= d@.len(),
                lines_view(diag@) == before + lines_view(d@).take(k as int),
            decreases d@.len() - k,
        {
            let ghost b2 = lines_view(diag@);
            diag.push(d[k].clone());
            assert(lines_view(diag@) =~= b2.push(d@[k as int]@));
            assert(lines_view(d@).take(k + 1) =~= lines_view(d@).take(k as int).push(d@[k as int]@));
            k = k + 1;
        }
        assert(lines_view(d@).take(d@.len() as int) =~= lines_view(d@));
        assert forall|i: int| 0 <= i < text_lines(next@).len() implies line_c_names(#[trigger] text_lines(next@)[i]) by {
            assert(text_lines(next@)[i] == ls[i + 1]);
        }
        rest = next;
    }
}

} // verus!
