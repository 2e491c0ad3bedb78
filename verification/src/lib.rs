//! Analysis core for TOML documents: a lossless syntax tree, typed views over
//! it, a validated document model and the diagnostics derived from both.

pub mod builder;
pub mod coords;
pub mod diagnostics;
pub mod dom;
pub mod error;
pub mod grammar;
pub mod invariants;
pub mod key;
pub mod kind;
pub mod lexer;
pub mod parser;
pub mod rowan_tree;
pub mod syntax;
pub mod text;
pub mod typed;
