//! The token taxonomy and the diagnostics that a scan can end with.

use vstd::prelude::*;

verus! {

/// One lexical unit of the language.
///
/// `Ident` and the keyword markers belong to the taxonomy so that later
/// stages can rely on them; no recognizer produces them yet.
#[derive(Debug, Clone, PartialEq, Eq)]
pub enum Token {
    Plus,
    Subtract,
    Multiply,
    Divide,
    Modulus,
    Assign,
    Num(i32),
    Ident(String),
    If,
    While,
    Read,
    Func,
    Return,
    Int,
    End,
}

/// Why a scan failed, with the literal text of the offending span.
#[derive(Debug, Clone, PartialEq, Eq)]
pub enum Diagnostic {
    /// No recognizer accepts the text at this point; the span is the run of
    /// non-whitespace characters that starts there.
    UnrecognizedSymbol(String),
    /// A run of digits denotes a value above `i32::MAX`; the span is the run.
    IntegerOverflow(String),
}

/// A diagnostic with its span as a sequence of characters.
pub enum DiagnosticView {
    UnrecognizedSymbol(Seq<char>),
    IntegerOverflow(Seq<char>),
}

impl View for Diagnostic {
    type V = DiagnosticView;

    open spec fn view(&self) -> DiagnosticView {
        match self {
            Diagnostic::UnrecognizedSymbol(s) => DiagnosticView::UnrecognizedSymbol(s@),
            Diagnostic::IntegerOverflow(s) => DiagnosticView::IntegerOverflow(s@),
        }
    }
}

} // verus!
