//! A verified core for a bash-like shell.
//!
//! A command buffer becomes tokens ([`lexer`]), tokens become a syntax tree ([`parser`], after
//! the rules in [`grammar`]), and a tree becomes a run that says which command comes next
//! ([`executor`]) and what it asks of the system ([`spawn`]). Starting processes, opening files
//! and reading lines is left to the program around this library.
//!
//! Besides the contracts of the functions there are laws, which say what the parts are for: how
//! text is split ([`splitting`]) and what words read as ([`spelling`]), that trees which are
//! written down are read back ([`written`]), what whole lines ask for ([`requests`], [`lines`]),
//! what single operations do ([`conduct`]) and what the functions that do them answer
//! ([`answers`]), and what holds of several of them together ([`laws`], [`commands`],
//! [`separators`]). [`views`] says that the contracts see every field.

pub mod answers;
pub mod ascii;
pub mod ast;
pub mod builtins;
pub mod commands;
pub mod conduct;
pub mod executor;
pub mod grammar;
pub mod laws;
pub mod lexer;
pub mod lines;
pub mod parser;
pub mod requests;
pub mod scan;
pub mod separators;
pub mod spawn;
pub mod spelling;
pub mod splitting;
pub mod text;
pub mod token;
pub mod validate;
pub mod vars;
pub mod views;
pub mod word;
pub mod written;
