//! The JSON value model.
use vstd::prelude::*;

use vstd::string::StrSliceExecFns;
use vstd::utf8::is_ascii_chars_encode_utf8;

use crate::range::number_too_large;
use crate::tokeniser::{is_number_text, scan_number, text_bytes};

verus! {

/// A JSON number, held as the decimal text that denotes it (RFC 8259 §6),
/// or a number that JSON text cannot denote (a non-finite value), which the
/// serialiser writes as `null`.
///
/// The text is kept as read, not converted to a `double`: it is written back
/// as it is (`1.0` stays `1.0`), and numbers compare by their texts (`1.0`
/// differs from `1`, and the derived `==` compares texts too). The library
/// does no floating-point work; the C interface converts to and from
/// `double`.
#[derive(Debug, PartialEq, Eq)]
pub struct Number {
    text: Option<String>,
}

impl Number {
    /// A number's text is always the text of a JSON number.
    #[verifier::type_invariant]
    spec fn inv(self) -> bool {
        self.text matches Some(s) ==> is_number_text(s@)
    }
}

impl Clone for Number {
    fn clone(&self) -> (r: Number)
        ensures
            r@ == self@,
    {
        proof {
            use_type_invariant(self);
        }
        match &self.text {
            Some(s) => Number { text: Some(s.clone()) },
            None => Number { text: None },
        }
    }
}

impl View for Number {
    type V = Option<Seq<char>>;

    /// The text of the number, `None` for a non-finite one. (By the type
    /// invariant the text is always a JSON number text; the view says so
    /// for every value of the type, ghost ones included.)
    closed spec fn view(&self) -> Option<Seq<char>> {
        match self.text {
            Some(s) => if is_number_text(s@) {
                Some(s@)
            } else {
                None
            },
            None => None,
        }
    }
}

/// Every number's text is the text of a JSON number.
pub proof fn lemma_number_view(n: Number)
    ensures
        n@ matches Some(t) ==> is_number_text(t),
{
}

/// `String::push`: appends the character `c` to `s`; the contract claims
/// that the text afterwards is the old text followed by `c`.
#[verifier::external_body]
pub(crate) fn push_char(s: &mut String, c: char)
    ensures
        final(s)@ == old(s)@.push(c),
{
    s.push(c);
}

impl Number {
    /// The number denoted by `text`, when `text` is a JSON number (RFC 8259 §6).
    pub fn from_text(text: &str) -> (r: Option<Number>)
        ensures
            r is Some <==> is_number_text(text@),
            r matches Some(n) ==> n@ == Some(text@),
    {
        if !text.is_ascii() {
            return None;
        }
        let bytes = text.as_bytes();
        proof {
            is_ascii_chars_encode_utf8(text@);
            assert(bytes@ =~= text_bytes(text@));
        }
        match scan_number(bytes, 0) {
            Some(end) => {
                if end == bytes.len() && !number_too_large(bytes, 0, end) {
                    Some(Number { text: Some(text.to_owned()) })
                } else {
                    None
                }
            },
            None => None,
        }
    }

    /// A number that JSON text cannot denote.
    pub fn non_finite() -> (r: Number)
        ensures
            r@ is None,
    {
        Number { text: None }
    }

    /// Whether the number is one that JSON text can denote.
    pub fn is_finite(&self) -> (r: bool)
        ensures
            r == self@ is Some,
    {
        proof {
            use_type_invariant(self);
        }
        self.text.is_some()
    }

    /// The decimal text of the number, when it has one.
    pub fn text(&self) -> (r: Option<&String>)
        ensures
            r matches Some(s) ==> self@ == Some(s@),
            r is None ==> self@ is None,
    {
        proof {
            use_type_invariant(self);
        }
        match &self.text {
            Some(s) => Some(s),
            None => None,
        }
    }

    /// Whether the two numbers are equal as cJSON compares them (see
    /// [`numbers_equal`]).
    pub fn equals(&self, other: &Number) -> (r: bool)
        ensures
            r == numbers_equal(self@, other@),
    {
        proof {
            use_type_invariant(self);
            use_type_invariant(other);
        }
        match (&self.text, &other.text) {
            (Some(a), Some(b)) => *a == *b || (text_is_zero(a.as_str()) && text_is_zero(
                b.as_str(),
            )),
            (None, None) => true,
            _ => false,
        }
    }

    pub(crate) fn from_lexeme(text: String) -> (r: Number)
        requires
            is_number_text(text@),
        ensures
            r@ == Some(text@),
    {
        Number { text: Some(text) }
    }
}

/// A number text that denotes zero, of either sign: up to its exponent it
/// has no digit but `0`.
pub open spec fn denotes_zero(t: Seq<char>) -> bool
    decreases t.len(),
{
    if t.len() == 0 {
        true
    } else if t[0] == 'e' || t[0] == 'E' {
        true
    } else {
        (t[0] == '-' || t[0] == '0' || t[0] == '.') && denotes_zero(t.drop_first())
    }
}

/// Two numbers held as texts are equal when they have the same text, or
/// both are zero (`0` equals `-0`), or neither is finite. (The original
/// compares `double`s, where `1.0` equals `1` and a NaN equals nothing; the
/// texts do not carry that.)
pub open spec fn numbers_equal(x: Option<Seq<char>>, y: Option<Seq<char>>) -> bool {
    x == y || (x matches Some(a) && y matches Some(b) && denotes_zero(a) && denotes_zero(b))
}

fn text_is_zero(s: &str) -> (r: bool)
    ensures
        r == denotes_zero(s@),
{
    let n = s.unicode_len();
    let mut i: usize = 0;
    proof {
        assert(s@.skip(0) =~= s@);
    }
    while i < n
        invariant
            n == s@.len(),
            i <= n,
            denotes_zero(s@) == denotes_zero(s@.skip(i as int)),
        decreases n - i,
    {
        let c = s.get_char(i);
        proof {
            assert(s@.skip(i as int)[0] == c);
            assert(s@.skip(i as int).drop_first() =~= s@.skip(i + 1));
        }
        if c == 'e' || c == 'E' {
            return true;
        }
        if !(c == '-' || c == '0' || c == '.') {
            return false;
        }
        i = i + 1;
    }
    proof {
        assert(s@.skip(n as int) =~= Seq::<char>::empty());
    }
    true
}

#[derive(Debug, PartialEq)]
pub enum Value {
    Null,
    Bool(bool),
    Number(Number),
    String(String),
    Array(Vec<Value>),
    Object(Vec<(String, Value)>),
}

impl Value {
    /// The members of an object; `None` for any other value.
    pub fn as_object(&self) -> (r: Option<&Vec<(String, Value)>>)
        ensures
            self is Object ==> r == Some(&self->Object_0),
            !(self is Object) ==> r is None,
    {
        match self {
            Value::Object(members) => Some(members),
            _ => None,
        }
    }
}

/// The mathematical counterpart of a [`Value`].
pub enum ValueView {
    Null,
    Bool(bool),
    Number(Option<Seq<char>>),
    String(Seq<char>),
    Array(Seq<ValueView>),
    Object(Seq<(Seq<char>, ValueView)>),
}

pub open spec fn value_view(v: Value) -> ValueView
    decreases v,
{
    match v {
        Value::Null => ValueView::Null,
        Value::Bool(b) => ValueView::Bool(b),
        Value::Number(n) => ValueView::Number(n@),
        Value::String(s) => ValueView::String(s@),
        Value::Array(items) => ValueView::Array(items_view(items@)),
        Value::Object(members) => ValueView::Object(members_view(members@)),
    }
}

pub open spec fn items_view(s: Seq<Value>) -> Seq<ValueView>
    decreases s,
{
    if s.len() == 0 {
        Seq::empty()
    } else {
        items_view(s.drop_last()).push(value_view(s.last()))
    }
}

pub open spec fn members_view(s: Seq<(String, Value)>) -> Seq<(Seq<char>, ValueView)>
    decreases s,
{
    if s.len() == 0 {
        Seq::empty()
    } else {
        members_view(s.drop_last()).push((s.last().0@, value_view(s.last().1)))
    }
}

impl View for Value {
    type V = ValueView;

    open spec fn view(&self) -> ValueView {
        value_view(*self)
    }
}

pub proof fn lemma_items_view(s: Seq<Value>)
    ensures
        items_view(s).len() == s.len(),
        forall|i: int| 0 <= i < s.len() ==> #[trigger] items_view(s)[i] == value_view(s[i]),
    decreases s.len(),
{
    if s.len() > 0 {
        lemma_items_view(s.drop_last());
    }
}

pub proof fn lemma_members_view(s: Seq<(String, Value)>)
    ensures
        members_view(s).len() == s.len(),
        forall|i: int|
            0 <= i < s.len() ==> #[trigger] members_view(s)[i] == (s[i].0@, value_view(s[i].1)),
    decreases s.len(),
{
    if s.len() > 0 {
        lemma_members_view(s.drop_last());
    }
}

} // verus!
