//! Lexical analysis for a small arithmetic language: source text in,
//! classified tokens out, or a diagnostic naming the first span that
//! no recognizer accepts.

pub mod chars;
pub mod token;
pub mod text;
pub mod scanner;
pub mod laws;
