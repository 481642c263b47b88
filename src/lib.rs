//! Netlist front end for SPICE-style circuit descriptions: a tokenizer, a card
//! assembler, a scoped symbol table and a parser that builds a circuit while
//! collecting every lexical, syntax and semantic error in one pass.
//!
//! Each stage is specified by spec functions (`lexer::lex_tokens`,
//! `lexer::cards_of`, `literal::literal_at`, `parser::parse_cards`) and the
//! executable code is proved to compute exactly those; `laws` proves general
//! properties of them.

pub mod error;
pub mod token;
pub mod lexer;
pub mod literal;
pub mod sym_table;
pub mod circuit;
pub mod parser;
pub mod laws;

pub use parser::parse_netlist;
