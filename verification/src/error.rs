//! The parser's error model: every failure carries a source position and one
//! of a small set of kinds.

use vstd::prelude::*;

verus! {

/// What went wrong.
#[derive(Clone, Copy, Debug, PartialEq, Eq, Structural)]
pub enum ErrorKind {
    /// The input did not begin with a recognized syntax statement.
    SyntaxMissing,
    /// More than one package statement in the same file.
    DuplicatePackage,
    /// A type keyword in a field position was not one of the scalar types.
    UnknownType,
    /// A statement began with a recognized keyword but did not finish in the
    /// expected form.
    MalformedStatement,
    /// No statement parser advanced and non-whitespace input remained.
    UnconsumedInput,
    /// The resolver could not locate an rpc input or output type.
    TypeNotFound,
}

/// A parse failure: its kind and the 1-based line and column it was
/// detected at.  Failures reported by the cross-file resolver carry no
/// source position and use line 0, column 0.
#[derive(Clone, Copy, Debug, PartialEq, Eq, Structural)]
pub struct ParseError {
    pub kind: ErrorKind,
    pub line: usize,
    pub col: usize,
}

impl ParseError {
    /// An error of kind `kind` at the position of cursor `line`/`col`.
    pub fn at(kind: ErrorKind, line: usize, col: usize) -> (e: ParseError)
        ensures
            e.kind == kind,
            e.line == line,
            e.col == col,
    {
        ParseError { kind, line, col }
    }
}

} // verus!
