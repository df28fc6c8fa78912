//! RFC 8259 parser.
//!
//! Consumes a UTF-8 byte slice and produces a `Value` tree. Enforces a
//! configurable maximum nesting depth to prevent stack overflow on
//! adversarial input (matches cJSON's `CJSON_NESTING_LIMIT` default of
//! 1000).
use vstd::prelude::*;

use crate::error::{start_loc, Error, ErrorView, Loc, Position};
use crate::token::{toks_view, PosTok, PositionedToken, Token, TokenView};
use crate::tokeniser::{tokenise_prefix_spec, tokenise_spec, Tokeniser};
use crate::value::{items_view, members_view, Value, ValueView};

verus! {

/// The nesting limit of the parser's default options.
pub open spec fn default_nesting_limit() -> nat {
    1000
}

/// Parser configuration.
#[derive(Debug, Clone, Copy, PartialEq, Eq)]
pub struct ParserOptions {
    /// Maximum depth of nested arrays and objects before parsing is
    /// rejected. Default 1000, matching cJSON's `CJSON_NESTING_LIMIT`.
    pub nesting_limit: usize,
}

impl Default for ParserOptions {
    fn default() -> (r: Self)
        ensures
            r.nesting_limit == default_nesting_limit(),
    {
        Self { nesting_limit: 1000 }
    }
}

// ---------------------------------------------------------------------
// The grammar of values over tokens.
// ---------------------------------------------------------------------

/// The position that errors at token `c` refer to: that of token `c`, or of
/// the last token where there is none, or the start of the input.
pub open spec fn peek_pos(ts: Seq<PosTok>, c: nat) -> Loc {
    if c < ts.len() {
        ts[c as int].pos
    } else if ts.len() > 0 {
        ts.last().pos
    } else {
        start_loc()
    }
}

pub open spec fn is_end_array(ts: Seq<PosTok>, c: nat) -> bool {
    c < ts.len() && ts[c as int].token is EndArray
}

pub open spec fn is_end_object(ts: Seq<PosTok>, c: nat) -> bool {
    c < ts.len() && ts[c as int].token is EndObject
}

/// RFC 8259 §3: the value that starts at token `c`, at nesting depth `d`
/// under the limit `l`, and the index of the token after it.
pub open spec fn parse_value_at(ts: Seq<PosTok>, c: nat, d: nat, l: nat) -> Result<
    (ValueView, nat),
    ErrorView,
>
    decreases ts.len() - c, 1nat,
{
    if c >= ts.len() {
        Err(ErrorView::UnexpectedEof { pos: peek_pos(ts, c) })
    } else {
        let pos = ts[c as int].pos;
        match ts[c as int].token {
            TokenView::Null => Ok((ValueView::Null, c + 1)),
            TokenView::True => Ok((ValueView::Bool(true), c + 1)),
            TokenView::False => Ok((ValueView::Bool(false), c + 1)),
            TokenView::Number(n) => Ok((ValueView::Number(n), c + 1)),
            TokenView::String(s) => Ok((ValueView::String(s), c + 1)),
            TokenView::BeginArray => {
                if d >= l {
                    Err(ErrorView::NestingLimitExceeded { pos })
                } else if is_end_array(ts, c + 1) {
                    Ok((ValueView::Array(Seq::empty()), c + 2))
                } else {
                    array_items(ts, c + 1, d + 1, l, Seq::empty())
                }
            },
            TokenView::BeginObject => {
                if d >= l {
                    Err(ErrorView::NestingLimitExceeded { pos })
                } else if is_end_object(ts, c + 1) {
                    Ok((ValueView::Object(Seq::empty()), c + 2))
                } else {
                    object_members(ts, c + 1, d + 1, l, Seq::empty())
                }
            },
            _ => Err(ErrorView::UnexpectedToken { pos }),
        }
    }
}

/// RFC 8259 §5: the items of an array from token `c` on, `acc` those read
/// so far; the array and the index of the token after its `]`.
pub open spec fn array_items(ts: Seq<PosTok>, c: nat, d: nat, l: nat, acc: Seq<ValueView>) -> Result<
    (ValueView, nat),
    ErrorView,
>
    decreases ts.len() - c, 2nat,
{
    match parse_value_at(ts, c, d, l) {
        Err(e) => Err(e),
        Ok((v, c2)) => {
            let items = acc.push(v);
            if c2 >= ts.len() {
                Err(ErrorView::UnexpectedEof { pos: peek_pos(ts, c2) })
            } else {
                match ts[c2 as int].token {
                    TokenView::ValueSeparator => {
                        // Reject trailing comma: next token must start a value, not close.
                        if is_end_array(ts, c2 + 1) || c2 < c {
                            Err(ErrorView::UnexpectedToken { pos: ts[c2 as int].pos })
                        } else {
                            array_items(ts, c2 + 1, d, l, items)
                        }
                    },
                    TokenView::EndArray => Ok((ValueView::Array(items), c2 + 1)),
                    _ => Err(ErrorView::UnexpectedToken { pos: ts[c2 as int].pos }),
                }
            }
        },
    }
}

/// RFC 8259 §4: the members of an object from token `c` on, `acc` those
/// read so far; the object and the index of the token after its `}`.
pub open spec fn object_members(
    ts: Seq<PosTok>,
    c: nat,
    d: nat,
    l: nat,
    acc: Seq<(Seq<char>, ValueView)>,
) -> Result<(ValueView, nat), ErrorView>
    decreases ts.len() - c, 2nat,
{
    if c >= ts.len() {
        Err(ErrorView::UnexpectedEof { pos: peek_pos(ts, c) })
    } else {
        match ts[c as int].token {
            TokenView::String(key) => {
                if c + 1 >= ts.len() {
                    Err(ErrorView::UnexpectedEof { pos: peek_pos(ts, c + 1) })
                } else if !(ts[(c + 1) as int].token is NameSeparator) {
                    Err(ErrorView::UnexpectedToken { pos: ts[(c + 1) as int].pos })
                } else {
                    match parse_value_at(ts, c + 2, d, l) {
                        Err(e) => Err(e),
                        Ok((v, c2)) => {
                            let members = acc.push((key, v));
                            if c2 >= ts.len() {
                                Err(ErrorView::UnexpectedEof { pos: peek_pos(ts, c2) })
                            } else {
                                match ts[c2 as int].token {
                                    TokenView::ValueSeparator => {
                                        if is_end_object(ts, c2 + 1) || c2 < c {
                                            Err(
                                                ErrorView::UnexpectedToken {
                                                    pos: ts[c2 as int].pos,
                                                },
                                            )
                                        } else {
                                            object_members(ts, c2 + 1, d, l, members)
                                        }
                                    },
                                    TokenView::EndObject => Ok(
                                        (ValueView::Object(members), c2 + 1),
                                    ),
                                    _ => Err(ErrorView::UnexpectedToken { pos: ts[c2 as int].pos }),
                                }
                            }
                        },
                    }
                }
            },
            _ => Err(ErrorView::UnexpectedToken { pos: ts[c as int].pos }),
        }
    }
}

/// A whole token stream as one value, under the nesting limit `l`.
pub open spec fn parse_tokens(ts: Seq<PosTok>, l: nat) -> Result<ValueView, ErrorView> {
    match parse_value_at(ts, 0, 0, l) {
        Err(e) => Err(e),
        Ok((v, c)) => {
            if c < ts.len() {
                Err(ErrorView::TrailingData { pos: ts[c as int].pos })
            } else {
                Ok(v)
            }
        },
    }
}

/// The value of a JSON text under the nesting limit `l`, or the first error.
pub open spec fn parse_spec(input: Seq<u8>, l: nat) -> Result<ValueView, ErrorView> {
    match tokenise_spec(input) {
        Err(e) => Err(e),
        Ok(ts) => parse_tokens(ts, l),
    }
}

/// The value at the start of the input and the offset just after its last
/// token, or the first error.
pub open spec fn parse_prefix_spec(input: Seq<u8>) -> Result<(ValueView, nat), ErrorView> {
    let ts = tokenise_prefix_spec(input).0;
    match parse_value_at(ts, 0, 0, default_nesting_limit()) {
        Err(e) => Err(e),
        Ok((v, c)) => Ok((v, ts[(c - 1) as int].end.offset)),
    }
}

/// What starts with `[` or `{` is read, if at all, as an array or an object
/// that ends after its first token, and is refused at the nesting limit.
pub proof fn lemma_container_shape(ts: Seq<PosTok>, c: nat, d: nat, l: nat)
    requires
        c < ts.len(),
        ts[c as int].token is BeginArray || ts[c as int].token is BeginObject,
    ensures
        d >= l ==> parse_value_at(ts, c, d, l) == Err::<(ValueView, nat), ErrorView>(
            ErrorView::NestingLimitExceeded { pos: ts[c as int].pos },
        ),
        parse_value_at(ts, c, d, l) matches Ok((v, c2)) ==> c < c2 && (ts[c as int].token
            is BeginArray ==> v is Array) && (ts[c as int].token is BeginObject ==> v is Object),
{
    lemma_parse_advances(ts, c, d, l);
    if d < l {
        if ts[c as int].token is BeginArray && !is_end_array(ts, c + 1) {
            lemma_items_shape(ts, c + 1, d + 1, l, Seq::empty());
        }
        if ts[c as int].token is BeginObject && !is_end_object(ts, c + 1) {
            lemma_members_shape(ts, c + 1, d + 1, l, Seq::empty());
        }
    }
}

proof fn lemma_items_shape(ts: Seq<PosTok>, c: nat, d: nat, l: nat, acc: Seq<ValueView>)
    ensures
        array_items(ts, c, d, l, acc) matches Ok((v, _)) ==> v is Array,
    decreases ts.len() - c,
{
    if let Ok((v, c2)) = parse_value_at(ts, c, d, l) {
        if c2 < ts.len() && ts[c2 as int].token is ValueSeparator && !(is_end_array(ts, c2 + 1)
            || c2 < c) {
            lemma_items_shape(ts, c2 + 1, d, l, acc.push(v));
        }
    }
}

proof fn lemma_members_shape(
    ts: Seq<PosTok>,
    c: nat,
    d: nat,
    l: nat,
    acc: Seq<(Seq<char>, ValueView)>,
)
    ensures
        object_members(ts, c, d, l, acc) matches Ok((v, _)) ==> v is Object,
    decreases ts.len() - c,
{
    if c + 1 < ts.len() {
        if let TokenView::String(key) = ts[c as int].token {
            if let Ok((v, c2)) = parse_value_at(ts, c + 2, d, l) {
                if c2 < ts.len() && ts[c2 as int].token is ValueSeparator && !(is_end_object(
                    ts,
                    c2 + 1,
                ) || c2 < c) {
                    lemma_members_shape(ts, c2 + 1, d, l, acc.push((key, v)));
                }
            }
        }
    }
}

pub proof fn lemma_parse_advances(ts: Seq<PosTok>, c: nat, d: nat, l: nat)
    ensures
        parse_value_at(ts, c, d, l) matches Ok((v, c2)) ==> c < c2 <= ts.len(),
    decreases ts.len() - c, 1nat,
{
    if c < ts.len() {
        match ts[c as int].token {
            TokenView::BeginArray => {
                if d < l && !is_end_array(ts, c + 1) {
                    lemma_array_items_advances(ts, c + 1, d + 1, l, Seq::empty());
                }
            },
            TokenView::BeginObject => {
                if d < l && !is_end_object(ts, c + 1) {
                    lemma_object_members_advances(ts, c + 1, d + 1, l, Seq::empty());
                }
            },
            _ => {},
        }
    }
}

pub proof fn lemma_array_items_advances(
    ts: Seq<PosTok>,
    c: nat,
    d: nat,
    l: nat,
    acc: Seq<ValueView>,
)
    ensures
        array_items(ts, c, d, l, acc) matches Ok((v, c2)) ==> c < c2 <= ts.len(),
    decreases ts.len() - c, 2nat,
{
    lemma_parse_advances(ts, c, d, l);
    if let Ok((v, c2)) = parse_value_at(ts, c, d, l) {
        if c2 < ts.len() && ts[c2 as int].token is ValueSeparator && !is_end_array(ts, c2 + 1) {
            lemma_array_items_advances(ts, c2 + 1, d, l, acc.push(v));
        }
    }
}

pub proof fn lemma_object_members_advances(
    ts: Seq<PosTok>,
    c: nat,
    d: nat,
    l: nat,
    acc: Seq<(Seq<char>, ValueView)>,
)
    ensures
        object_members(ts, c, d, l, acc) matches Ok((v, c2)) ==> c < c2 <= ts.len(),
    decreases ts.len() - c, 2nat,
{
    if c + 1 < ts.len() {
        lemma_parse_advances(ts, c + 2, d, l);
        if let Ok((v, c2)) = parse_value_at(ts, c + 2, d, l) {
            if c2 < ts.len() && ts[c2 as int].token is ValueSeparator && !is_end_object(
                ts,
                c2 + 1,
            ) {
                if let TokenView::String(key) = ts[c as int].token {
                    lemma_object_members_advances(ts, c2 + 1, d, l, acc.push((key, v)));
                }
            }
        }
    }
}

// ---------------------------------------------------------------------
// The parser.
// ---------------------------------------------------------------------

struct Parser {
    tokens: Vec<PositionedToken>,
    cursor: usize,
    depth: usize,
    limit: usize,
}

impl Parser {
    spec fn ts(&self) -> Seq<PosTok> {
        toks_view(self.tokens@)
    }

    spec fn wf(&self) -> bool {
        self.cursor <= self.tokens@.len() <= usize::MAX
    }

    fn new(tokens: Vec<PositionedToken>, limit: usize) -> (p: Parser)
        ensures
            p.wf(),
            p.tokens == tokens,
            p.cursor == 0,
            p.depth == 0,
            p.limit == limit,
    {
        let _n = tokens.len();
        Parser { tokens, cursor: 0, depth: 0, limit }
    }

    fn peek(&self) -> (r: Option<&Token>)
        ensures
            self.cursor < self.tokens@.len() ==> (r matches Some(t) && t@ == self.ts()[self.cursor as int].token),
            self.cursor >= self.tokens@.len() ==> r is None,
    {
        if self.cursor < self.tokens.len() {
            Some(&self.tokens[self.cursor].token)
        } else {
            None
        }
    }

    fn peek_pos(&self) -> (r: Position)
        ensures
            r@ == peek_pos(self.ts(), self.cursor as nat),
    {
        if self.cursor < self.tokens.len() {
            self.tokens[self.cursor].pos
        } else if self.tokens.len() > 0 {
            self.tokens[self.tokens.len() - 1].pos
        } else {
            Position::start()
        }
    }

    fn advance(&mut self)
        requires
            old(self).wf(),
            old(self).cursor < old(self).tokens@.len(),
        ensures
            final(self).wf(),
            final(self).cursor == old(self).cursor + 1,
            final(self).tokens == old(self).tokens,
            final(self).depth == old(self).depth,
            final(self).limit == old(self).limit,
    {
        self.cursor = self.cursor + 1;
    }

    fn enter(&mut self, pos: Position) -> (r: Result<(), Error>)
        ensures
            final(self).cursor == old(self).cursor,
            final(self).tokens == old(self).tokens,
            final(self).limit == old(self).limit,
            old(self).depth >= old(self).limit ==> (r matches Err(e) && e@
                == ErrorView::NestingLimitExceeded { pos: pos@ }),
            old(self).depth < old(self).limit ==> r is Ok && final(self).depth == old(self).depth
                + 1,
    {
        if self.depth >= self.limit {
            return Err(Error::NestingLimitExceeded { pos });
        }
        self.depth = self.depth + 1;
        Ok(())
    }

    fn leave(&mut self)
        requires
            old(self).depth > 0,
        ensures
            final(self).depth == old(self).depth - 1,
            final(self).cursor == old(self).cursor,
            final(self).tokens == old(self).tokens,
            final(self).limit == old(self).limit,
    {
        self.depth = self.depth - 1;
    }

    /// RFC 8259 §3: value = false / null / true / object / array / number / string
    fn parse_value(&mut self) -> (r: Result<Value, Error>)
        requires
            old(self).wf(),
        ensures
            final(self).wf(),
            final(self).tokens == old(self).tokens,
            final(self).limit == old(self).limit,
            parse_value_at(old(self).ts(), old(self).cursor as nat, old(self).depth as nat, old(self).limit as nat) matches Ok((v, c))
                ==> (r matches Ok(x) && x@ == v) && final(self).cursor == c && final(self).depth == old(self).depth,
            parse_value_at(old(self).ts(), old(self).cursor as nat, old(self).depth as nat, old(self).limit as nat) matches Err(e)
                ==> (r matches Err(x) && x@ == e),
        decreases old(self).tokens@.len() - old(self).cursor, 1nat,
    {
        let pos = self.peek_pos();
        if self.cursor >= self.tokens.len() {
            return Err(Error::UnexpectedEof { pos });
        }
        let tok = &self.tokens[self.cursor].token;
        match tok {
            Token::Null => {
                self.advance();
                Ok(Value::Null)
            },
            Token::True => {
                self.advance();
                Ok(Value::Bool(true))
            },
            Token::False => {
                self.advance();
                Ok(Value::Bool(false))
            },
            Token::Number(n) => {
                let n = n.clone();
                self.advance();
                Ok(Value::Number(n))
            },
            Token::String(s) => {
                let s = s.clone();
                self.advance();
                Ok(Value::String(s))
            },
            Token::BeginArray => self.parse_array(),
            Token::BeginObject => self.parse_object(),
            _ => Err(Error::UnexpectedToken { pos }),
        }
    }

    /// RFC 8259 §5: array = begin-array [ value *( value-separator value ) ] end-array
    fn parse_array(&mut self) -> (r: Result<Value, Error>)
        requires
            old(self).wf(),
            old(self).cursor < old(self).tokens@.len(),
            old(self).ts()[old(self).cursor as int].token is BeginArray,
        ensures
            final(self).wf(),
            old(self).depth >= old(self).limit ==> (parse_value_at(
                old(self).ts(),
                old(self).cursor as nat,
                old(self).depth as nat,
                old(self).limit as nat,
            ) matches Err(e) && e is NestingLimitExceeded),
            parse_value_at(
                old(self).ts(),
                old(self).cursor as nat,
                old(self).depth as nat,
                old(self).limit as nat,
            ) matches Ok((v, c)) ==> v is Array && c > old(self).cursor,
            final(self).tokens == old(self).tokens,
            final(self).limit == old(self).limit,
            parse_value_at(old(self).ts(), old(self).cursor as nat, old(self).depth as nat, old(self).limit as nat) matches Ok((v, c))
                ==> (r matches Ok(x) && x@ == v) && final(self).cursor == c && final(self).depth == old(self).depth,
            parse_value_at(old(self).ts(), old(self).cursor as nat, old(self).depth as nat, old(self).limit as nat) matches Err(e)
                ==> (r matches Err(x) && x@ == e),
        decreases old(self).tokens@.len() - old(self).cursor, 0nat,
    {
        let ghost ts = self.ts();
        let ghost c0 = self.cursor as nat;
        let ghost d0 = self.depth as nat;
        let ghost l = self.limit as nat;
        proof {
            lemma_container_shape(ts, c0, d0, l);
        }
        let open_pos = self.peek_pos();
        match self.enter(open_pos) {
            Ok(()) => {},
            Err(e) => return Err(e),
        }
        self.advance(); // consume [

        let mut items: Vec<Value> = Vec::new();

        if self.cursor < self.tokens.len() && self.tokens[self.cursor].token.is_end_array() {
            self.advance();
            self.leave();
            return Ok(Value::Array(items));
        }
        let ghost target = array_items(ts, c0 + 1, d0 + 1, l, Seq::empty());
        loop
            invariant
                self.wf(),
                self.ts() == ts,
                self.tokens == old(self).tokens,
                self.limit == old(self).limit,
                c0 == old(self).cursor,
                d0 == old(self).depth,
                ts == old(self).ts(),
                d0 >= l ==> (parse_value_at(ts, c0, d0, l) matches Err(e)
                    && e is NestingLimitExceeded),
                parse_value_at(ts, c0, d0, l) matches Ok((v, c)) ==> v is Array && c > c0,
                self.limit as nat == l,
                self.depth as nat == d0 + 1,
                c0 < self.cursor,
                target == array_items(ts, c0 + 1, d0 + 1, l, Seq::empty()),
                array_items(ts, self.cursor as nat, d0 + 1, l, items_view(items@)) == target,
                parse_value_at(ts, c0, d0, l) == target,
            decreases ts.len() - self.cursor,
        {
            let ghost c1 = self.cursor as nat;
            proof {
                lemma_parse_advances(ts, c1, d0 + 1, l);
            }
            let v = match self.parse_value() {
                Ok(v) => v,
                Err(e) => return Err(e),
            };
            let ghost before = items@;
            items.push(v);
            proof {
                assert(items@.drop_last() =~= before);
            }
            match self.peek() {
                Some(Token::ValueSeparator) => {
                    let comma_pos = self.peek_pos();
                    self.advance();
                    // Reject trailing comma: next token must start a value, not close.
                    if self.cursor < self.tokens.len() && self.tokens[self.cursor].token.is_end_array() {
                        return Err(Error::UnexpectedToken { pos: comma_pos });
                    }
                },
                Some(Token::EndArray) => {
                    self.advance();
                    self.leave();
                    return Ok(Value::Array(items));
                },
                Some(_) => {
                    return Err(Error::UnexpectedToken { pos: self.peek_pos() });
                },
                None => {
                    return Err(Error::UnexpectedEof { pos: self.peek_pos() });
                },
            }
        }
    }

    /// RFC 8259 §4: object = begin-object [ member *( value-separator member ) ] end-object
    ///              member = string name-separator value
    fn parse_object(&mut self) -> (r: Result<Value, Error>)
        requires
            old(self).wf(),
            old(self).cursor < old(self).tokens@.len(),
            old(self).ts()[old(self).cursor as int].token is BeginObject,
        ensures
            final(self).wf(),
            old(self).depth >= old(self).limit ==> (parse_value_at(
                old(self).ts(),
                old(self).cursor as nat,
                old(self).depth as nat,
                old(self).limit as nat,
            ) matches Err(e) && e is NestingLimitExceeded),
            parse_value_at(
                old(self).ts(),
                old(self).cursor as nat,
                old(self).depth as nat,
                old(self).limit as nat,
            ) matches Ok((v, c)) ==> v is Object && c > old(self).cursor,
            final(self).tokens == old(self).tokens,
            final(self).limit == old(self).limit,
            parse_value_at(old(self).ts(), old(self).cursor as nat, old(self).depth as nat, old(self).limit as nat) matches Ok((v, c))
                ==> (r matches Ok(x) && x@ == v) && final(self).cursor == c && final(self).depth == old(self).depth,
            parse_value_at(old(self).ts(), old(self).cursor as nat, old(self).depth as nat, old(self).limit as nat) matches Err(e)
                ==> (r matches Err(x) && x@ == e),
        decreases old(self).tokens@.len() - old(self).cursor, 0nat,
    {
        let ghost ts = self.ts();
        let ghost c0 = self.cursor as nat;
        let ghost d0 = self.depth as nat;
        let ghost l = self.limit as nat;
        proof {
            lemma_container_shape(ts, c0, d0, l);
        }
        let open_pos = self.peek_pos();
        match self.enter(open_pos) {
            Ok(()) => {},
            Err(e) => return Err(e),
        }
        self.advance(); // consume {

        let mut members: Vec<(String, Value)> = Vec::new();

        if self.cursor < self.tokens.len() && self.tokens[self.cursor].token.is_end_object() {
            self.advance();
            self.leave();
            return Ok(Value::Object(members));
        }
        let ghost target = object_members(ts, c0 + 1, d0 + 1, l, Seq::empty());
        loop
            invariant
                self.wf(),
                self.ts() == ts,
                self.tokens == old(self).tokens,
                self.limit == old(self).limit,
                c0 == old(self).cursor,
                d0 == old(self).depth,
                ts == old(self).ts(),
                d0 >= l ==> (parse_value_at(ts, c0, d0, l) matches Err(e)
                    && e is NestingLimitExceeded),
                parse_value_at(ts, c0, d0, l) matches Ok((v, c)) ==> v is Object && c > c0,
                self.limit as nat == l,
                self.depth as nat == d0 + 1,
                c0 < self.cursor,
                target == object_members(ts, c0 + 1, d0 + 1, l, Seq::empty()),
                object_members(ts, self.cursor as nat, d0 + 1, l, members_view(members@)) == target,
                parse_value_at(ts, c0, d0, l) == target,
            decreases ts.len() - self.cursor,
        {
            let ghost c1 = self.cursor as nat;
            // Expect string key.
            let key_pos = self.peek_pos();
            let key = match self.peek() {
                Some(Token::String(s)) => {
                    let s = s.clone();
                    self.advance();
                    s
                },
                Some(_) => return Err(Error::UnexpectedToken { pos: key_pos }),
                None => return Err(Error::UnexpectedEof { pos: key_pos }),
            };

            // Expect name-separator (:).
            match self.peek() {
                Some(Token::NameSeparator) => self.advance(),
                Some(_) => {
                    return Err(Error::UnexpectedToken { pos: self.peek_pos() });
                },
                None => {
                    return Err(Error::UnexpectedEof { pos: self.peek_pos() });
                },
            }
            proof {
                lemma_parse_advances(ts, c1 + 2, d0 + 1, l);
            }

            // Parse value.
            let value = match self.parse_value() {
                Ok(v) => v,
                Err(e) => return Err(e),
            };
            let ghost before = members@;
            members.push((key, value));
            proof {
                assert(members@.drop_last() =~= before);
            }

            // Expect value-separator (,) or end-object (}).
            match self.peek() {
                Some(Token::ValueSeparator) => {
                    let comma_pos = self.peek_pos();
                    self.advance();
                    if self.cursor < self.tokens.len() && self.tokens[self.cursor].token.is_end_object() {
                        return Err(Error::UnexpectedToken { pos: comma_pos });
                    }
                },
                Some(Token::EndObject) => {
                    self.advance();
                    self.leave();
                    return Ok(Value::Object(members));
                },
                Some(_) => {
                    return Err(Error::UnexpectedToken { pos: self.peek_pos() });
                },
                None => {
                    return Err(Error::UnexpectedEof { pos: self.peek_pos() });
                },
            }
        }
    }
}

impl Token {
    fn is_end_array(&self) -> (r: bool)
        ensures
            r == self@ is EndArray,
    {
        match self {
            Token::EndArray => true,
            _ => false,
        }
    }

    fn is_end_object(&self) -> (r: bool)
        ensures
            r == self@ is EndObject,
    {
        match self {
            Token::EndObject => true,
            _ => false,
        }
    }
}

/// The mathematical counterpart of a parse result.
pub open spec fn value_result_view(r: Result<Value, Error>) -> Result<ValueView, ErrorView> {
    match r {
        Ok(v) => Ok(v@),
        Err(e) => Err(e@),
    }
}

/// Parse a complete JSON document with default options.
pub fn parse(input: &[u8]) -> (r: Result<Value, Error>)
    requires
        input@.len() < usize::MAX,
    ensures
        value_result_view(r) == parse_spec(input@, default_nesting_limit()),
{
    parse_with_options(input, &ParserOptions::default())
}

/// Parse a complete JSON document with caller-supplied options.
pub fn parse_with_options(input: &[u8], opts: &ParserOptions) -> (r: Result<Value, Error>)
    requires
        input@.len() < usize::MAX,
    ensures
        value_result_view(r) == parse_spec(input@, opts.nesting_limit as nat),
{
    let tokens = match Tokeniser::tokenise(input) {
        Ok(t) => t,
        Err(e) => return Err(e),
    };
    let mut parser = Parser::new(tokens, opts.nesting_limit);
    let value = match parser.parse_value() {
        Ok(v) => v,
        Err(e) => return Err(e),
    };
    if parser.cursor < parser.tokens.len() {
        return Err(Error::TrailingData { pos: parser.tokens[parser.cursor].pos });
    }
    Ok(value)
}

/// Parse a single JSON value from the prefix of `input` and return both the
/// value and the byte offset immediately after its last consumed byte (i.e.
/// not counting any trailing whitespace or unparsed bytes). Trailing
/// whitespace, garbage, or extra values are allowed and ignored.
pub fn parse_prefix(input: &[u8]) -> (r: Result<(Value, usize), Error>)
    requires
        input@.len() < usize::MAX,
    ensures
        parse_prefix_spec(input@) matches Ok((v, end)) ==> (r matches Ok((x, n)) && x@ == v && n
            == end),
        parse_prefix_spec(input@) matches Err(e) ==> (r matches Err(x) && x@ == e),
{
    let (tokens, _) = Tokeniser::tokenise_prefix(input);
    let mut parser = Parser::new(tokens, ParserOptions::default().nesting_limit);
    proof {
        lemma_parse_advances(parser.ts(), 0, 0, default_nesting_limit());
    }
    let value = match parser.parse_value() {
        Ok(v) => v,
        Err(e) => return Err(e),
    };
    // parse_value consumed at least one token, so cursor >= 1 and the
    // expression below is safe.
    let parse_end = parser.tokens[parser.cursor - 1].end.offset;
    Ok((value, parse_end))
}

} // verus!
