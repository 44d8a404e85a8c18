//! A small markup-language front end: a lexer that turns raw markup text
//! into a flat token sequence, a structural validator over that sequence,
//! and a parser that builds an ordered forest of element and text nodes.
//!
//! The lexer, validator and parser are specified against mathematical
//! models of the scan (see `lexer::lex_spec`, `lexer::validate_spec`) and
//! of the tree construction (see `parser::build_spec`), and verified
//! against those models.

pub mod chars;
pub mod lexer;
pub mod parser;
pub mod style;
