//! A small INI parser with machine-checked contracts.
//!
//! Text is parsed in two phases: comments are stripped line by line, then a
//! single pass classifies each line as blank, a `[section]` header or a
//! `key = value` pair and assembles the document.
pub mod document;
pub mod laws;
pub mod parser;
pub mod text;

pub use document::{Ini, Section};
pub use parser::{parse_ini, strip_comments, IniParser, ParseError};
