//! What the parser returns is well-formed: each number it reads is the text
//! of a JSON number.
use vstd::prelude::*;

use crate::prefix::lemma_number_take;
use crate::range::{
    exp_digits_start, frac_end, int_end, int_start, lemma_digit_run, lemma_number_parts,
    too_large,
};
use crate::roundtrip::{
    bytes_at, follows_value, lemma_bytes_at, lemma_digits_end_shift, lemma_too_large_shift,
};
use crate::error::Loc;
use crate::parser::{
    array_items, is_end_array, is_end_object, lemma_parse_advances, object_members,
    parse_value_at,
};
use crate::roundtrip::{items_wf, members_wf, value_wf};
use crate::token::{PosTok, TokenView};
use crate::tokeniser::{
    ascii_chars, byte_is, digit_at, digits_end, is_digit, is_number_text, lemma_next_token_advances,
    lemma_skip_ws, next_token, number_end, skip_ws, text_bytes, tokenise_from,
    tokenise_prefix_from,
};
use crate::serialiser::{
    colon, escape_char, escape_chars, height, hex_digit, items_height, lead, members_height,
    quoted, render, render_items, render_members, separator,
};
use crate::value::{
    items_view, lemma_items_view, lemma_members_view, lemma_number_view, members_view, Value,
    ValueView,
};

verus! {

/// The bytes of a number are ASCII, and its last byte is a digit.
pub proof fn lemma_number_bytes_ascii(input: Seq<u8>, q: nat, e: nat)
    requires
        number_end(input, q) == Some(e),
    ensures
        forall|k: int| q <= k < e ==> 0x2B <= #[trigger] input[k] < 0x80,
        q < e,
        is_digit(input[e - 1]),
{
    lemma_number_parts(input, q, e);
    let i0 = int_start(input, q);
    let i1 = int_end(input, q);
    let i2 = frac_end(input, q);
    let j = exp_digits_start(input, q);
    lemma_digit_run(input, i0 + 1);
    lemma_digit_run(input, i1 + 1);
    lemma_digit_run(input, j);
    assert forall|k: int| q <= k < e implies 0x2B <= #[trigger] input[k] < 0x80 by {
        if k < i0 {
            assert(byte_is(input, q, 0x2D));
        } else if k == i0 {
            assert(byte_is(input, i0, 0x30) || digit_at(input, i0));
        } else if k < i1 {
            assert(k < digits_end(input, i0 + 1));
        } else if k == i1 && i2 > i1 {
            assert(byte_is(input, i1, 0x2E));
        } else if k < i2 {
            assert(k < digits_end(input, i1 + 1));
        } else if k == i2 {
            assert(byte_is(input, i2, 0x65) || byte_is(input, i2, 0x45));
        } else if k < j {
            assert(byte_is(input, i2 + 1, 0x2B) || byte_is(input, i2 + 1, 0x2D));
        } else {
            assert(k < digits_end(input, j));
        }
    }
    let k = e - 1;
    if i2 < e {
        assert(j <= k < digits_end(input, j));
    } else if i2 > i1 {
        assert(i1 + 1 <= k < digits_end(input, i1 + 1));
    } else if k == i0 {
        assert(byte_is(input, i0, 0x30) || digit_at(input, i0));
    } else {
        assert(i0 + 1 <= k < digits_end(input, i0 + 1));
    }
}

/// A number read whole from `off`, with nothing after it that could
/// continue it, is read whole when it stands alone.
#[verifier::spinoff_prover]
#[verifier::rlimit(40)]
proof fn lemma_number_end_alone(input: Seq<u8>, off: nat, tb: Seq<u8>)
    requires
        bytes_at(input, off, tb),
        follows_value(input, off + tb.len()),
        number_end(input, off) == Some(off + tb.len()),
    ensures
        number_end(tb, 0) == Some(tb.len()),
{
    let n = tb.len();
    lemma_bytes_at(input, off, tb);
    assert forall|k: nat, b: u8| k < n implies #[trigger] byte_is(tb, k, b) == byte_is(
        input,
        off + k,
        b,
    ) by {
        assert(input[off + k as int] == tb[k as int]);
    }
    assert forall|k: nat| k < n implies #[trigger] digit_at(tb, k) == digit_at(input, off + k) by {
        assert(input[off + k as int] == tb[k as int]);
    }
    assert forall|i: nat| i <= n implies #[trigger] digits_end(tb, i) + off == digits_end(
        input,
        off + i,
    ) by {
        lemma_digits_end_shift(input, tb, off, i);
    }
    crate::tokeniser::lemma_number_end(input, off);
    lemma_number_parts(input, off, off + n);
    let i0 = int_start(input, off);
    let i1 = int_end(input, off);
    let i2 = frac_end(input, off);
    assert(n > 0);
    assert(byte_is(tb, 0, 0x2D) == byte_is(input, off, 0x2D));
    assert(int_start(tb, 0) + off == i0);
    assert(byte_is(tb, (i0 - off) as nat, 0x30) == byte_is(input, i0, 0x30));
    assert(digit_at(tb, (i0 - off) as nat) == digit_at(input, i0));
    assert(int_end(tb, 0) + off == i1);
    assert(byte_is(tb, (i1 - off) as nat, 0x2E) == byte_is(input, i1, 0x2E)) by {
        if i1 == off + n {
            assert(!byte_is(input, off + n, 0x2E));
        }
    }
    if byte_is(input, i1, 0x2E) {
        assert(digit_at(tb, (i1 + 1 - off) as nat) == digit_at(input, i1 + 1));
    }
    assert(frac_end(tb, 0) + off == i2);
    if i2 < off + n {
        assert(byte_is(tb, (i2 - off) as nat, 0x65) == byte_is(input, i2, 0x65));
        assert(byte_is(tb, (i2 - off) as nat, 0x45) == byte_is(input, i2, 0x45));
        assert(byte_is(tb, (i2 + 1 - off) as nat, 0x2B) == byte_is(input, i2 + 1, 0x2B));
        assert(byte_is(tb, (i2 + 1 - off) as nat, 0x2D) == byte_is(input, i2 + 1, 0x2D));
        let j = exp_digits_start(input, off);
        assert(exp_digits_start(tb, 0) + off == j);
        assert(digit_at(tb, (j - off) as nat) == digit_at(input, j));
    } else {
        assert(!byte_is(input, off + n, 0x65));
        assert(!byte_is(input, off + n, 0x45));
        assert(!byte_is(tb, n, 0x65));
        assert(!byte_is(tb, n, 0x45));
    }
}

/// The text of a number that the tokeniser reads is the text of a JSON
/// number.
pub proof fn lemma_number_text(input: Seq<u8>, q: nat, e: nat)
    requires
        number_end(input, q) == Some(e),
        !too_large(input, q, e),
    ensures
        is_number_text(ascii_chars(input, q, e)),
{
    lemma_number_parts(input, q, e);
    lemma_number_take(input, e, q, e);
    lemma_number_bytes_ascii(input, q, e);
    let t = input.take(e as int);
    let tb = input.subrange(q as int, e as int);
    let cs = ascii_chars(input, q, e);
    assert(t.subrange(q as int, e as int) =~= tb);
    assert(bytes_at(t, q, tb));
    lemma_number_end_alone(t, q, tb);
    lemma_too_large_shift(t, q, tb);
    assert(cs.len() == tb.len());
    assert forall|i: int| 0 <= i < cs.len() implies '\0' <= #[trigger] cs[i] <= '\u{7f}' by {
        assert(cs[i] == (tb[i] as char));
        assert(tb[i] == input[q + i]);
        assert(input[q + i] < 0x80);
    }
    assert forall|i: int| 0 <= i < cs.len() implies #[trigger] text_bytes(cs)[i] == tb[i] by {
        assert(cs[i] == (tb[i] as char));
        assert(input[q + i] < 0x80);
    }
    assert(text_bytes(cs) =~= tb);
}

// ---------------------------------------------------------------------
// Tokens.
// ---------------------------------------------------------------------

/// A token is well-formed when, being a number, it has the text of a JSON
/// number.
pub open spec fn token_wf(t: TokenView) -> bool {
    t matches TokenView::Number(n) ==> (n matches Some(x) && is_number_text(x))
}

pub open spec fn tokens_wf(ts: Seq<PosTok>) -> bool {
    forall|i: int| 0 <= i < ts.len() ==> token_wf(#[trigger] ts[i].token)
}

proof fn lemma_next_token_wf(input: Seq<u8>, q: Loc)
    ensures
        next_token(input, q) matches Ok((t, _)) ==> token_wf(t),
{
    let b = input[q.offset as int];
    if b == 0x2D || is_digit(b) {
        if let Some(e) = number_end(input, q.offset) {
            if !too_large(input, q.offset, e) {
                lemma_number_text(input, q.offset, e);
            }
        }
    }
}

proof fn lemma_tokens_cons_wf(t: PosTok, ts: Seq<PosTok>)
    requires
        token_wf(t.token),
        tokens_wf(ts),
    ensures
        tokens_wf(seq![t] + ts),
{
    let s = seq![t] + ts;
    assert forall|i: int| 0 <= i < s.len() implies token_wf(#[trigger] s[i].token) by {
        if i > 0 {
            assert(s[i] == ts[i - 1]);
        }
    }
}

/// The tokens of a whole text are well-formed.
pub proof fn lemma_tokenise_wf(input: Seq<u8>, p: Loc)
    ensures
        tokenise_from(input, p) matches Ok(ts) ==> tokens_wf(ts),
    decreases input.len() - p.offset,
{
    let q = skip_ws(input, p);
    if q.offset < input.len() {
        lemma_next_token_wf(input, q);
        if let Ok((t, e)) = next_token(input, q) {
            lemma_skip_ws(input, p);
            lemma_next_token_advances(input, q);
            lemma_tokenise_wf(input, e);
            if let Ok(ts) = tokenise_from(input, e) {
                lemma_tokens_cons_wf(PosTok { token: t, pos: q, end: e }, ts);
            }
        }
    }
}

/// The tokens of the start of a text are well-formed.
pub proof fn lemma_tokenise_prefix_wf(input: Seq<u8>, p: Loc, last: nat)
    ensures
        tokens_wf(tokenise_prefix_from(input, p, last).0),
    decreases input.len() - p.offset,
{
    let q = skip_ws(input, p);
    if q.offset < input.len() {
        lemma_next_token_wf(input, q);
        if let Ok((t, e)) = next_token(input, q) {
            lemma_skip_ws(input, p);
            lemma_next_token_advances(input, q);
            lemma_tokenise_prefix_wf(input, e, e.offset);
            lemma_tokens_cons_wf(
                PosTok { token: t, pos: q, end: e },
                tokenise_prefix_from(input, e, e.offset).0,
            );
        }
    }
}

// ---------------------------------------------------------------------
// Values.
// ---------------------------------------------------------------------

proof fn lemma_items_wf(s: Seq<ValueView>)
    requires
        forall|i: int| 0 <= i < s.len() ==> value_wf(#[trigger] s[i]),
    ensures
        items_wf(s),
    decreases s.len(),
{
    if s.len() > 0 {
        assert(value_wf(s[0]));
        assert forall|i: int| 0 <= i < s.drop_first().len() implies value_wf(
            #[trigger] s.drop_first()[i],
        ) by {
            assert(s.drop_first()[i] == s[i + 1]);
        }
        lemma_items_wf(s.drop_first());
    }
}

proof fn lemma_members_wf(s: Seq<(Seq<char>, ValueView)>)
    requires
        forall|i: int| 0 <= i < s.len() ==> value_wf(#[trigger] s[i].1),
    ensures
        members_wf(s),
    decreases s.len(),
{
    if s.len() > 0 {
        assert(value_wf(s[0].1));
        assert forall|i: int| 0 <= i < s.drop_first().len() implies value_wf(
            #[trigger] s.drop_first()[i].1,
        ) by {
            assert(s.drop_first()[i] == s[i + 1]);
        }
        lemma_members_wf(s.drop_first());
    }
}

/// A value read from well-formed tokens is well-formed.
pub proof fn lemma_value_wf(ts: Seq<PosTok>, c: nat, d: nat, l: nat)
    requires
        tokens_wf(ts),
    ensures
        parse_value_at(ts, c, d, l) matches Ok((v, _)) ==> value_wf(v),
    decreases ts.len() - c, 1nat,
{
    if c < ts.len() {
        assert(token_wf(ts[c as int].token));
        match ts[c as int].token {
            TokenView::BeginArray => {
                if d < l && !is_end_array(ts, c + 1) {
                    lemma_items_value_wf(ts, c + 1, d + 1, l, Seq::empty());
                }
            },
            TokenView::BeginObject => {
                if d < l && !is_end_object(ts, c + 1) {
                    lemma_members_value_wf(ts, c + 1, d + 1, l, Seq::empty());
                }
            },
            _ => {},
        }
    }
}

proof fn lemma_items_value_wf(ts: Seq<PosTok>, c: nat, d: nat, l: nat, acc: Seq<ValueView>)
    requires
        tokens_wf(ts),
        forall|i: int| 0 <= i < acc.len() ==> value_wf(#[trigger] acc[i]),
    ensures
        array_items(ts, c, d, l, acc) matches Ok((v, _)) ==> value_wf(v),
    decreases ts.len() - c, 2nat,
{
    lemma_value_wf(ts, c, d, l);
    lemma_parse_advances(ts, c, d, l);
    if let Ok((v, c2)) = parse_value_at(ts, c, d, l) {
        let items = acc.push(v);
        assert forall|i: int| 0 <= i < items.len() implies value_wf(#[trigger] items[i]) by {
            if i < acc.len() {
                assert(items[i] == acc[i]);
            }
        }
        if c2 < ts.len() {
            match ts[c2 as int].token {
                TokenView::ValueSeparator => {
                    if !(is_end_array(ts, c2 + 1) || c2 < c) {
                        lemma_items_value_wf(ts, c2 + 1, d, l, items);
                    }
                },
                TokenView::EndArray => {
                    lemma_items_wf(items);
                },
                _ => {},
            }
        }
    }
}

proof fn lemma_members_value_wf(
    ts: Seq<PosTok>,
    c: nat,
    d: nat,
    l: nat,
    acc: Seq<(Seq<char>, ValueView)>,
)
    requires
        tokens_wf(ts),
        forall|i: int| 0 <= i < acc.len() ==> value_wf(#[trigger] acc[i].1),
    ensures
        object_members(ts, c, d, l, acc) matches Ok((v, _)) ==> value_wf(v),
    decreases ts.len() - c, 2nat,
{
    if c < ts.len() {
        if let TokenView::String(key) = ts[c as int].token {
            if c + 1 < ts.len() && ts[(c + 1) as int].token is NameSeparator {
                lemma_value_wf(ts, c + 2, d, l);
                lemma_parse_advances(ts, c + 2, d, l);
                if let Ok((v, c2)) = parse_value_at(ts, c + 2, d, l) {
                    let members = acc.push((key, v));
                    assert forall|i: int| 0 <= i < members.len() implies value_wf(
                        #[trigger] members[i].1,
                    ) by {
                        if i < acc.len() {
                            assert(members[i] == acc[i]);
                        }
                    }
                    if c2 < ts.len() {
                        match ts[c2 as int].token {
                            TokenView::ValueSeparator => {
                                if !(is_end_object(ts, c2 + 1) || c2 < c) {
                                    lemma_members_value_wf(ts, c2 + 1, d, l, members);
                                }
                            },
                            TokenView::EndObject => {
                                lemma_members_wf(members);
                            },
                            _ => {},
                        }
                    }
                }
            }
        }
    }
}

// ---------------------------------------------------------------------
// Values with non-finite numbers.
// ---------------------------------------------------------------------

/// Every number of `v` is the text of a JSON number or non-finite.
pub open spec fn value_ok(v: ValueView) -> bool
    decreases v, 0nat,
{
    match v {
        ValueView::Number(n) => n matches Some(t) ==> is_number_text(t),
        ValueView::Array(items) => items_ok(items),
        ValueView::Object(members) => members_ok(members),
        _ => true,
    }
}

pub open spec fn items_ok(s: Seq<ValueView>) -> bool
    decreases s, 1nat,
{
    s.len() == 0 || (value_ok(s[0]) && items_ok(s.drop_first()))
}

pub open spec fn members_ok(s: Seq<(Seq<char>, ValueView)>) -> bool
    decreases s, 1nat,
{
    s.len() == 0 || (value_ok(s[0].1) && members_ok(s.drop_first()))
}

proof fn lemma_items_ok(s: Seq<ValueView>)
    requires
        forall|i: int| 0 <= i < s.len() ==> value_ok(#[trigger] s[i]),
    ensures
        items_ok(s),
    decreases s.len(),
{
    if s.len() > 0 {
        assert(value_ok(s[0]));
        assert forall|i: int| 0 <= i < s.drop_first().len() implies value_ok(
            #[trigger] s.drop_first()[i],
        ) by {
            assert(s.drop_first()[i] == s[i + 1]);
        }
        lemma_items_ok(s.drop_first());
    }
}

proof fn lemma_members_ok(s: Seq<(Seq<char>, ValueView)>)
    requires
        forall|i: int| 0 <= i < s.len() ==> value_ok(#[trigger] s[i].1),
    ensures
        members_ok(s),
    decreases s.len(),
{
    if s.len() > 0 {
        assert(value_ok(s[0].1));
        assert forall|i: int| 0 <= i < s.drop_first().len() implies value_ok(
            #[trigger] s.drop_first()[i].1,
        ) by {
            assert(s.drop_first()[i] == s[i + 1]);
        }
        lemma_members_ok(s.drop_first());
    }
}

/// Every value of the type `Value` has JSON number texts or non-finite
/// numbers only.
pub proof fn lemma_value_ok(v: Value)
    ensures
        value_ok(v@),
    decreases v,
{
    match v {
        Value::Number(n) => lemma_number_view(n),
        Value::Array(items) => {
            lemma_items_view(items@);
            assert forall|i: int| 0 <= i < items@.len() implies value_ok(
                #[trigger] items_view(items@)[i],
            ) by {
                assert(decreases_to!(v => items));
                assert(decreases_to!(items => items@));
                assert(decreases_to!(items@ => items@[i]));
                lemma_value_ok(items@[i]);
            }
            lemma_items_ok(items_view(items@));
        },
        Value::Object(members) => {
            lemma_members_view(members@);
            assert forall|i: int| 0 <= i < members@.len() implies value_ok(
                #[trigger] members_view(members@)[i].1,
            ) by {
                assert(decreases_to!(v => members));
                assert(decreases_to!(members => members@));
                assert(decreases_to!(members@ => members@[i]));
                assert(decreases_to!(members@[i] => members@[i].1));
                lemma_value_ok(members@[i].1);
            }
            lemma_members_ok(members_view(members@));
        },
        _ => {},
    }
}

/// `v` with each non-finite number replaced by `null`: what its text
/// denotes.
pub open spec fn nulled(v: ValueView) -> ValueView
    decreases v, 0nat,
{
    match v {
        ValueView::Number(None) => ValueView::Null,
        ValueView::Array(items) => ValueView::Array(nulled_items(items)),
        ValueView::Object(members) => ValueView::Object(nulled_members(members)),
        _ => v,
    }
}

pub open spec fn nulled_items(s: Seq<ValueView>) -> Seq<ValueView>
    decreases s, 1nat,
{
    if s.len() == 0 {
        Seq::empty()
    } else {
        seq![nulled(s[0])] + nulled_items(s.drop_first())
    }
}

pub open spec fn nulled_members(s: Seq<(Seq<char>, ValueView)>) -> Seq<(Seq<char>, ValueView)>
    decreases s, 1nat,
{
    if s.len() == 0 {
        Seq::empty()
    } else {
        seq![(s[0].0, nulled(s[0].1))] + nulled_members(s.drop_first())
    }
}

/// Replacing non-finite numbers by `null` changes neither the text, nor the
/// nesting, and leaves a value whose numbers are all JSON numbers; a value
/// whose numbers are all JSON numbers it leaves as it is.
pub proof fn lemma_nulled(v: ValueView, ind: Option<nat>, depth: nat)
    ensures
        render(nulled(v), ind, depth) == render(v, ind, depth),
        height(nulled(v)) == height(v),
        value_ok(v) ==> value_wf(nulled(v)),
        value_wf(v) ==> nulled(v) == v,
    decreases v, 0nat,
{
    match v {
        ValueView::Array(items) => {
            lemma_nulled_items(items, ind, depth);
        },
        ValueView::Object(members) => {
            lemma_nulled_members(members, ind, depth);
        },
        _ => {},
    }
}

proof fn lemma_nulled_items(s: Seq<ValueView>, ind: Option<nat>, depth: nat)
    ensures
        nulled_items(s).len() == s.len(),
        render_items(nulled_items(s), ind, depth) == render_items(s, ind, depth),
        items_height(nulled_items(s)) == items_height(s),
        items_ok(s) ==> items_wf(nulled_items(s)),
        items_wf(s) ==> nulled_items(s) == s,
    decreases s, 1nat,
{
    if s.len() > 0 {
        lemma_nulled(s[0], ind, depth + 1);
        lemma_nulled_items(s.drop_first(), ind, depth);
        let n = nulled_items(s);
        assert(n[0] == nulled(s[0]));
        assert(n.drop_first() =~= nulled_items(s.drop_first()));
        if items_wf(s) {
            assert(n =~= s);
        }
    }
}

proof fn lemma_nulled_members(s: Seq<(Seq<char>, ValueView)>, ind: Option<nat>, depth: nat)
    ensures
        nulled_members(s).len() == s.len(),
        render_members(nulled_members(s), ind, depth) == render_members(s, ind, depth),
        members_height(nulled_members(s)) == members_height(s),
        members_ok(s) ==> members_wf(nulled_members(s)),
        members_wf(s) ==> nulled_members(s) == s,
    decreases s, 1nat,
{
    if s.len() > 0 {
        lemma_nulled(s[0].1, ind, depth + 1);
        lemma_nulled_members(s.drop_first(), ind, depth);
        let n = nulled_members(s);
        assert(n[0] == (s[0].0, nulled(s[0].1)));
        assert(n.drop_first() =~= nulled_members(s.drop_first()));
        if members_wf(s) {
            assert(n =~= s);
        }
    }
}

// ---------------------------------------------------------------------
// The compact text has no control characters.
// ---------------------------------------------------------------------

/// No character of `s` is below U+0020.
pub open spec fn no_control(s: Seq<char>) -> bool {
    forall|i: int| 0 <= i < s.len() ==> 0x20 <= #[trigger] (s[i] as u32)
}

proof fn lemma_no_control_concat(a: Seq<char>, b: Seq<char>)
    requires
        no_control(a),
        no_control(b),
    ensures
        no_control(a + b),
{
    assert forall|i: int| 0 <= i < (a + b).len() implies 0x20 <= #[trigger] ((a + b)[i] as u32) by {
        if i >= a.len() {
            assert((a + b)[i] == b[i - a.len()]);
        }
    }
}

proof fn lemma_hex_digit_printable(n: nat)
    requires
        n < 16,
    ensures
        0x20 <= hex_digit(n) as u32,
{
    if n < 10 {
        assert(((0x30 + n) as u8) == 0x30 + n);
    } else {
        assert(((0x61 + n - 10) as u8) == 0x61 + n - 10);
    }
}

proof fn lemma_escape_no_control(s: Seq<char>)
    ensures
        no_control(escape_chars(s)),
    decreases s.len(),
{
    if s.len() > 0 {
        lemma_escape_no_control(s.drop_last());
        let c = s.last();
        let e = escape_char(c);
        if c == '"' || c == '\\' || c == '\n' || c == '\r' || c == '\t' || c == '\u{0008}' || c
            == '\u{000C}' {
            assert(e.len() == 2 && 0x20 <= e[0] as u32 && 0x20 <= e[1] as u32);
        } else if (c as u32) < 0x20 {
            lemma_hex_digit_printable((c as u32 / 16) as nat);
            lemma_hex_digit_printable((c as u32 % 16) as nat);
            assert(e.len() == 6);
        } else {
            assert(e == seq![c]);
            assert((c as u32) >= 0x20);
        }
        assert(no_control(escape_char(c)));
        lemma_no_control_concat(escape_chars(s.drop_last()), escape_char(c));
    }
}

proof fn lemma_quoted_no_control(s: Seq<char>)
    ensures
        no_control(quoted(s)),
{
    lemma_escape_no_control(s);
    lemma_no_control_concat(seq!['"'], escape_chars(s));
    lemma_no_control_concat(seq!['"'] + escape_chars(s), seq!['"']);
}

proof fn lemma_number_text_no_control(t: Seq<char>)
    requires
        is_number_text(t),
    ensures
        no_control(t),
{
    let b = text_bytes(t);
    lemma_number_bytes_ascii(b, 0, t.len());
    assert forall|i: int| 0 <= i < t.len() implies 0x20 <= #[trigger] (t[i] as u32) by {
        assert(b[i] == t[i] as u8);
        assert('\0' <= t[i] <= '\u{7f}');
    }
}

/// The compact text of a value whose numbers are JSON numbers or
/// non-finite has no character below U+0020: line breaks and other
/// control characters stand escaped inside strings.
pub proof fn lemma_compact_no_control(v: ValueView, depth: nat)
    requires
        value_ok(v),
    ensures
        no_control(render(v, None, depth)),
    decreases v, 0nat,
{
    match v {
        ValueView::Number(n) => {
            if let Some(t) = n {
                lemma_number_text_no_control(t);
            }
        },
        ValueView::String(s) => lemma_quoted_no_control(s),
        ValueView::Array(items) => {
            if items.len() > 0 {
                lemma_items_no_control(items, depth);
                lemma_no_control_concat(seq!['['], render_items(items, None, depth));
                lemma_no_control_concat(seq!['['] + render_items(items, None, depth), seq![']']);
            }
        },
        ValueView::Object(members) => {
            if members.len() > 0 {
                lemma_members_no_control(members, depth);
                lemma_no_control_concat(seq!['{'], render_members(members, None, depth));
                lemma_no_control_concat(
                    seq!['{'] + render_members(members, None, depth),
                    seq!['}'],
                );
            }
        },
        _ => {},
    }
}

proof fn lemma_items_no_control(s: Seq<ValueView>, depth: nat)
    requires
        items_ok(s),
    ensures
        no_control(render_items(s, None, depth)),
    decreases s, 1nat,
{
    if s.len() > 0 {
        lemma_compact_no_control(s[0], depth + 1);
        lemma_items_no_control(s.drop_first(), depth);
        let a = lead(None, depth) + render(s[0], None, depth + 1);
        assert(lead(None, depth) =~= Seq::<char>::empty());
        assert(a =~= render(s[0], None, depth + 1));
        lemma_no_control_concat(a, separator(None, s.len() > 1));
        lemma_no_control_concat(
            a + separator(None, s.len() > 1),
            render_items(s.drop_first(), None, depth),
        );
    }
}

proof fn lemma_members_no_control(s: Seq<(Seq<char>, ValueView)>, depth: nat)
    requires
        members_ok(s),
    ensures
        no_control(render_members(s, None, depth)),
    decreases s, 1nat,
{
    if s.len() > 0 {
        lemma_compact_no_control(s[0].1, depth + 1);
        lemma_members_no_control(s.drop_first(), depth);
        lemma_quoted_no_control(s[0].0);
        assert(lead(None, depth) =~= Seq::<char>::empty());
        let a = lead(None, depth) + quoted(s[0].0);
        assert(a =~= quoted(s[0].0));
        lemma_no_control_concat(a, colon(None));
        lemma_no_control_concat(a + colon(None), render(s[0].1, None, depth + 1));
        let b = a + colon(None) + render(s[0].1, None, depth + 1);
        lemma_no_control_concat(b, separator(None, s.len() > 1));
        lemma_no_control_concat(
            b + separator(None, s.len() > 1),
            render_members(s.drop_first(), None, depth),
        );
    }
}

} // verus!
