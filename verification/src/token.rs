//! JSON tokens per RFC 8259.
use vstd::prelude::*;

use crate::error::{Loc, Position};
use crate::value::Number;

verus! {

#[derive(Debug, Clone, PartialEq)]
pub enum Token {
    /// `{` — RFC 8259 §4 begin-object
    BeginObject,
    /// `}` — RFC 8259 §4 end-object
    EndObject,
    /// `[` — RFC 8259 §5 begin-array
    BeginArray,
    /// `]` — RFC 8259 §5 end-array
    EndArray,
    /// `:` — RFC 8259 §4 name-separator
    NameSeparator,
    /// `,` — RFC 8259 §4/§5 value-separator
    ValueSeparator,
    /// `null` — RFC 8259 §3
    Null,
    /// `true` — RFC 8259 §3
    True,
    /// `false` — RFC 8259 §3
    False,
    /// JSON number per RFC 8259 §6, held as its text
    Number(Number),
    /// JSON string per RFC 8259 §7, with escape sequences already resolved
    String(String),
}

/// The mathematical counterpart of a [`Token`].
pub enum TokenView {
    BeginObject,
    EndObject,
    BeginArray,
    EndArray,
    NameSeparator,
    ValueSeparator,
    Null,
    True,
    False,
    Number(Option<Seq<char>>),
    String(Seq<char>),
}

impl View for Token {
    type V = TokenView;

    open spec fn view(&self) -> TokenView {
        match self {
            Token::BeginObject => TokenView::BeginObject,
            Token::EndObject => TokenView::EndObject,
            Token::BeginArray => TokenView::BeginArray,
            Token::EndArray => TokenView::EndArray,
            Token::NameSeparator => TokenView::NameSeparator,
            Token::ValueSeparator => TokenView::ValueSeparator,
            Token::Null => TokenView::Null,
            Token::True => TokenView::True,
            Token::False => TokenView::False,
            Token::Number(n) => TokenView::Number(n@),
            Token::String(s) => TokenView::String(s@),
        }
    }
}

/// A token with the position of its first byte (`pos`) and the position
/// just after its last byte (`end`).
#[derive(Debug, Clone, PartialEq)]
pub struct PositionedToken {
    pub token: Token,
    pub pos: Position,
    pub end: Position,
}

/// The mathematical counterpart of a [`PositionedToken`].
pub struct PosTok {
    pub token: TokenView,
    pub pos: Loc,
    pub end: Loc,
}

impl View for PositionedToken {
    type V = PosTok;

    open spec fn view(&self) -> PosTok {
        PosTok { token: self.token@, pos: self.pos@, end: self.end@ }
    }
}

pub open spec fn toks_view(v: Seq<PositionedToken>) -> Seq<PosTok> {
    v.map_values(|t: PositionedToken| t@)
}

} // verus!
