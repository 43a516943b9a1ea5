//! G-code lexing and modal parsing for a CNC workstation, with exact decimal
//! arithmetic for every coordinate, feed and code value.

pub mod decimal;
pub mod text;
pub mod domain;
pub mod lexer;
pub mod words;
pub mod modal;
pub mod parser;
pub mod laws;
pub mod lex_laws;
pub mod motion;
pub mod report;
