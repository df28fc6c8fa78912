//! Error and source-position types.
use vstd::prelude::*;

verus! {

/// One-based line and column, plus zero-based byte offset into the input.
#[derive(Debug, Clone, Copy, PartialEq, Eq)]
pub struct Position {
    pub line: usize,
    pub column: usize,
    pub offset: usize,
}

/// The mathematical counterpart of a [`Position`].
pub struct Loc {
    pub line: nat,
    pub column: nat,
    pub offset: nat,
}

impl View for Position {
    type V = Loc;

    open spec fn view(&self) -> Loc {
        Loc { line: self.line as nat, column: self.column as nat, offset: self.offset as nat }
    }
}

/// The position of the first byte of the input.
pub open spec fn start_loc() -> Loc {
    Loc { line: 1, column: 1, offset: 0 }
}

impl Position {
    /// The position of the first byte of the input.
    pub fn start() -> (p: Position)
        ensures
            p@ == start_loc(),
    {
        Position { line: 1, column: 1, offset: 0 }
    }
}

#[derive(Debug, Clone, PartialEq)]
pub enum Error {
    UnexpectedChar { ch: char, pos: Position },
    UnexpectedEof { pos: Position },
    InvalidEscape { pos: Position },
    InvalidUnicodeEscape { pos: Position },
    InvalidSurrogatePair { pos: Position },
    InvalidNumber { pos: Position },
    NumberOutOfRange { pos: Position },
    InvalidLiteral { pos: Position },
    NestingLimitExceeded { pos: Position },
    InvalidUtf8 { pos: Position },
    TrailingData { pos: Position },
    UnexpectedToken { pos: Position },
}

/// The mathematical counterpart of an [`Error`].
pub enum ErrorView {
    UnexpectedChar { ch: char, pos: Loc },
    UnexpectedEof { pos: Loc },
    InvalidEscape { pos: Loc },
    InvalidUnicodeEscape { pos: Loc },
    InvalidSurrogatePair { pos: Loc },
    InvalidNumber { pos: Loc },
    NumberOutOfRange { pos: Loc },
    InvalidLiteral { pos: Loc },
    NestingLimitExceeded { pos: Loc },
    InvalidUtf8 { pos: Loc },
    TrailingData { pos: Loc },
    UnexpectedToken { pos: Loc },
}

impl View for Error {
    type V = ErrorView;

    open spec fn view(&self) -> ErrorView {
        match *self {
            Error::UnexpectedChar { ch, pos } => ErrorView::UnexpectedChar { ch, pos: pos@ },
            Error::UnexpectedEof { pos } => ErrorView::UnexpectedEof { pos: pos@ },
            Error::InvalidEscape { pos } => ErrorView::InvalidEscape { pos: pos@ },
            Error::InvalidUnicodeEscape { pos } => ErrorView::InvalidUnicodeEscape { pos: pos@ },
            Error::InvalidSurrogatePair { pos } => ErrorView::InvalidSurrogatePair { pos: pos@ },
            Error::InvalidNumber { pos } => ErrorView::InvalidNumber { pos: pos@ },
            Error::NumberOutOfRange { pos } => ErrorView::NumberOutOfRange { pos: pos@ },
            Error::InvalidLiteral { pos } => ErrorView::InvalidLiteral { pos: pos@ },
            Error::NestingLimitExceeded { pos } => ErrorView::NestingLimitExceeded { pos: pos@ },
            Error::InvalidUtf8 { pos } => ErrorView::InvalidUtf8 { pos: pos@ },
            Error::TrailingData { pos } => ErrorView::TrailingData { pos: pos@ },
            Error::UnexpectedToken { pos } => ErrorView::UnexpectedToken { pos: pos@ },
        }
    }
}

impl ErrorView {
    /// The source position the error refers to.
    pub open spec fn pos(self) -> Loc {
        match self {
            ErrorView::UnexpectedChar { pos, .. } => pos,
            ErrorView::UnexpectedEof { pos } => pos,
            ErrorView::InvalidEscape { pos } => pos,
            ErrorView::InvalidUnicodeEscape { pos } => pos,
            ErrorView::InvalidSurrogatePair { pos } => pos,
            ErrorView::InvalidNumber { pos } => pos,
            ErrorView::NumberOutOfRange { pos } => pos,
            ErrorView::InvalidLiteral { pos } => pos,
            ErrorView::NestingLimitExceeded { pos } => pos,
            ErrorView::InvalidUtf8 { pos } => pos,
            ErrorView::TrailingData { pos } => pos,
            ErrorView::UnexpectedToken { pos } => pos,
        }
    }
}

impl Error {
    /// Return the source position the error refers to.
    pub fn position(&self) -> (p: Position)
        ensures
            p@ == self@.pos(),
    {
        match self {
            Error::UnexpectedChar { pos, .. } => *pos,
            Error::UnexpectedEof { pos } => *pos,
            Error::InvalidEscape { pos } => *pos,
            Error::InvalidUnicodeEscape { pos } => *pos,
            Error::InvalidSurrogatePair { pos } => *pos,
            Error::InvalidNumber { pos } => *pos,
            Error::NumberOutOfRange { pos } => *pos,
            Error::InvalidLiteral { pos } => *pos,
            Error::NestingLimitExceeded { pos } => *pos,
            Error::InvalidUtf8 { pos } => *pos,
            Error::TrailingData { pos } => *pos,
            Error::UnexpectedToken { pos } => *pos,
        }
    }
}

} // verus!
