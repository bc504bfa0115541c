//! SELinux policy manipulation: the statement language, extended-permission
//! ranges, and an in-memory model of the policy database that rules are
//! applied to.

pub mod grammar_laws;
pub mod lexer;
pub mod parser;
pub mod policy;
pub mod properties;
pub mod rule_laws;
pub mod sepol;
pub mod sepol_impl;
pub mod sepol_print;
pub mod seqs;
pub mod statement;
pub mod text;
pub mod xperm_laws;
pub mod token;
pub mod xperm;

pub use policy::{PolicyError, SePolicy};
pub use statement::format_statement_help;
pub use xperm::Xperm;
