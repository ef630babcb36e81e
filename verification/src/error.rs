//! The diagnostic type: the single error currency of the lexer, the parser
//! and the interpreter. A diagnostic is data, never a control-flow signal;
//! every producer accumulates diagnostics and keeps going.

use vstd::prelude::*;

verus! {

/// The mathematical view of a [`DiagnosticError`].
pub ghost struct SDiag {
    /// The message text.
    pub msg: Seq<char>,
    /// The 1-based source line.
    pub line: int,
    /// The 1-based column, measured from the start of the line containing
    /// the byte offset the diagnostic points at.
    pub col: int,
}

/// A recoverable error record: a message and a source position.
/// Immutable once created.
#[derive(Clone, Debug)]
pub struct DiagnosticError {
    msg: String,
    line: usize,
    column: usize,
}

impl View for DiagnosticError {
    type V = SDiag;

    closed spec fn view(&self) -> SDiag {
        SDiag { msg: self.msg@, line: self.line as int, col: self.column as int }
    }
}

impl DiagnosticError {
    /// Creates a diagnostic from its message, line and column.
    pub fn new(msg: String, line: usize, col: usize) -> (d: DiagnosticError)
        ensures
            d@ == (SDiag { msg: msg@, line: line as int, col: col as int }),
    {
        DiagnosticError { msg, line, column: col }
    }

    /// Returns the 1-based line of this diagnostic.
    pub fn line(&self) -> (l: usize)
        ensures
            l == self@.line,
    {
        self.line
    }

    /// Returns the 1-based column of this diagnostic.
    pub fn column(&self) -> (c: usize)
        ensures
            c == self@.col,
    {
        self.column
    }

    /// Returns the message of this diagnostic.
    pub fn message(&self) -> (m: &str)
        ensures
            m@ == self@.msg,
    {
        self.msg.as_str()
    }
}

} // verus!
