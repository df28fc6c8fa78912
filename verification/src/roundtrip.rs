//! Why the text that the serialiser writes reads back as the value it was
//! written from: the tokens of that text, and how the parser reads them.
use vstd::prelude::*;
use vstd::utf8::{
    char_u32_cast, decode_first_scalar, encode_scalar, encode_utf8, encode_utf8_first_scalar,
    has_width_1_encoding, is_ascii_chars, is_ascii_chars_encode_utf8, length_of_first_scalar,
    valid_first_scalar,
};

use crate::error::{start_loc, ErrorView, Loc};
use crate::parser::{
    array_items, is_end_array, is_end_object, object_members, parse_spec, parse_value_at,
};
use crate::serialiser::{
    colon, escape_char, escape_chars, height, hex_digit, indent, items_height, lead,
    members_height, quoted, render, render_items, render_members, separator, spaces,
};
use crate::range::{
    exp_digits_start, exponent_value, frac_digits, frac_end, int_end, int_start,
    lemma_number_parts, mantissa_digits, scale, too_large,
};
use crate::token::{PosTok, TokenView};
use crate::tokeniser::{
    ascii_chars, lemma_skip_ws, tokenise_spec, byte_is, cols, digit_at, digits_end, hex4, hex_run, hex_val, is_digit, is_hex,
    is_number_text, is_ws, lit_false, lit_null, lit_true, literal_at, next_token, number_end,
    prepend_tokens, rest, simple_escape, skip_ws, step, string_body, text_bytes, tokenise_from,
    unicode_escape,
};
use crate::value::ValueView;

verus! {

// ---------------------------------------------------------------------
// The tokens of a value.
// ---------------------------------------------------------------------

/// The value-separator after an item of a container, unless it is the last.
pub open spec fn sep_tokens(more: bool) -> Seq<TokenView> {
    if more {
        seq![TokenView::ValueSeparator]
    } else {
        Seq::empty()
    }
}

/// The tokens of the text of `v`.
pub open spec fn value_tokens(v: ValueView) -> Seq<TokenView>
    decreases v, 0nat,
{
    match v {
        ValueView::Null => seq![TokenView::Null],
        ValueView::Bool(b) => if b {
            seq![TokenView::True]
        } else {
            seq![TokenView::False]
        },
        ValueView::Number(n) => seq![TokenView::Number(n)],
        ValueView::String(s) => seq![TokenView::String(s)],
        ValueView::Array(items) => {
            if items.len() == 0 {
                seq![TokenView::BeginArray, TokenView::EndArray]
            } else {
                seq![TokenView::BeginArray] + items_tokens(items) + seq![TokenView::EndArray]
            }
        },
        ValueView::Object(members) => {
            if members.len() == 0 {
                seq![TokenView::BeginObject, TokenView::EndObject]
            } else {
                seq![TokenView::BeginObject] + members_tokens(members) + seq![
                    TokenView::EndObject,
                ]
            }
        },
    }
}

/// The tokens of the items of an array, separated by value-separators.
pub open spec fn items_tokens(s: Seq<ValueView>) -> Seq<TokenView>
    decreases s, 1nat,
{
    if s.len() == 0 {
        Seq::empty()
    } else {
        value_tokens(s[0]) + sep_tokens(s.len() > 1) + items_tokens(s.drop_first())
    }
}

/// The tokens of the members of an object, separated by value-separators.
pub open spec fn members_tokens(s: Seq<(Seq<char>, ValueView)>) -> Seq<TokenView>
    decreases s, 1nat,
{
    if s.len() == 0 {
        Seq::empty()
    } else {
        seq![TokenView::String(s[0].0), TokenView::NameSeparator] + value_tokens(s[0].1)
            + sep_tokens(s.len() > 1) + members_tokens(s.drop_first())
    }
}

/// The kinds of the tokens `ts`, without their positions.
pub open spec fn kinds(ts: Seq<PosTok>) -> Seq<TokenView> {
    ts.map_values(|t: PosTok| t.token)
}

/// The tokens of `ts` from index `c` on begin with the kinds `k`.
pub open spec fn tokens_at(ts: Seq<PosTok>, c: nat, k: Seq<TokenView>) -> bool {
    &&& c + k.len() <= ts.len()
    &&& forall|i: int| 0 <= i < k.len() ==> #[trigger] ts[c + i].token == k[i]
}

/// A token that can begin a value.
pub open spec fn starts_value(t: TokenView) -> bool {
    match t {
        TokenView::Null | TokenView::True | TokenView::False | TokenView::Number(_)
        | TokenView::String(_) | TokenView::BeginArray | TokenView::BeginObject => true,
        _ => false,
    }
}

pub proof fn lemma_value_tokens_start(v: ValueView)
    ensures
        value_tokens(v).len() >= 1,
        starts_value(value_tokens(v)[0]),
{
}

pub proof fn lemma_tokens_at_split(ts: Seq<PosTok>, c: nat, a: Seq<TokenView>, b: Seq<TokenView>)
    requires
        tokens_at(ts, c, a + b),
    ensures
        tokens_at(ts, c, a),
        tokens_at(ts, c + a.len(), b),
{
    assert forall|i: int| 0 <= i < a.len() implies #[trigger] ts[c + i].token == a[i] by {
        assert((a + b)[i] == a[i]);
        assert(ts[c + i].token == (a + b)[i]);
    }
    assert forall|i: int| 0 <= i < b.len() implies #[trigger] ts[(c + a.len()) + i].token
        == b[i] by {
        assert((a + b)[a.len() + i] == b[i]);
        assert(ts[c + (a.len() + i)].token == (a + b)[a.len() + i]);
    }
}

// ---------------------------------------------------------------------
// The parser reads the tokens of a value back as that value.
// ---------------------------------------------------------------------

#[verifier::spinoff_prover]
pub proof fn lemma_parse_value_tokens(ts: Seq<PosTok>, c: nat, d: nat, l: nat, v: ValueView)
    requires
        d + height(v) <= l,
        tokens_at(ts, c, value_tokens(v)),
    ensures
        parse_value_at(ts, c, d, l) == Ok::<(ValueView, nat), crate::error::ErrorView>(
            (v, c + value_tokens(v).len()),
        ),
    decreases v, 0nat,
{
    assert(ts[c + 0int].token == value_tokens(v)[0]);
    match v {
        ValueView::Array(items) => {
            if items.len() > 0 {
                let it = items_tokens(items);
                let end = seq![TokenView::EndArray];
                assert(value_tokens(v) == seq![TokenView::BeginArray] + (it + end));
                lemma_tokens_at_split(ts, c, seq![TokenView::BeginArray], it + end);
                lemma_items_tokens_start(items);
                assert(ts[(c + 1) + 0int].token == (it + end)[0]);
                assert(!is_end_array(ts, c + 1));
                assert(d < l && d + 1 + items_height(items) <= l);
                lemma_parse_items_tokens(ts, c + 1, d + 1, l, Seq::empty(), items);
                assert(Seq::<ValueView>::empty() + items =~= items);
                assert(value_tokens(v).len() == it.len() + 2);
                assert(parse_value_at(ts, c, d, l) == array_items(ts, c + 1, d + 1, l, Seq::empty()));
            } else {
                assert(value_tokens(v) == seq![TokenView::BeginArray, TokenView::EndArray]);
                assert(ts[c + 1int].token == value_tokens(v)[1]);
                assert(is_end_array(ts, c + 1));
                assert(height(v) >= 1);
            }
        },
        ValueView::Object(members) => {
            if members.len() > 0 {
                let mt = members_tokens(members);
                let end = seq![TokenView::EndObject];
                assert(value_tokens(v) == seq![TokenView::BeginObject] + (mt + end));
                lemma_tokens_at_split(ts, c, seq![TokenView::BeginObject], mt + end);
                assert(ts[(c + 1) + 0int].token == (mt + end)[0]);
                assert(!is_end_object(ts, c + 1));
                assert(d < l && d + 1 + members_height(members) <= l);
                lemma_parse_members_tokens(ts, c + 1, d + 1, l, Seq::empty(), members);
                assert(Seq::<(Seq<char>, ValueView)>::empty() + members =~= members);
                assert(value_tokens(v).len() == mt.len() + 2);
                assert(parse_value_at(ts, c, d, l) == object_members(ts, c + 1, d + 1, l, Seq::empty()));
            } else {
                assert(value_tokens(v) == seq![TokenView::BeginObject, TokenView::EndObject]);
                assert(ts[c + 1int].token == value_tokens(v)[1]);
                assert(is_end_object(ts, c + 1));
                assert(height(v) >= 1);
            }
        },
        _ => {},
    }
}

pub proof fn lemma_items_tokens_start(s: Seq<ValueView>)
    requires
        s.len() > 0,
    ensures
        items_tokens(s).len() >= 1,
        starts_value(items_tokens(s)[0]),
{
    lemma_value_tokens_start(s[0]);
}

pub proof fn lemma_parse_items_tokens(
    ts: Seq<PosTok>,
    c: nat,
    d: nat,
    l: nat,
    acc: Seq<ValueView>,
    items: Seq<ValueView>,
)
    requires
        items.len() > 0,
        d + items_height(items) <= l,
        tokens_at(ts, c, items_tokens(items) + seq![TokenView::EndArray]),
    ensures
        array_items(ts, c, d, l, acc) == Ok::<(ValueView, nat), crate::error::ErrorView>(
            (ValueView::Array(acc + items), c + items_tokens(items).len() + 1),
        ),
    decreases items, 1nat,
{
    let vt = value_tokens(items[0]);
    let st = sep_tokens(items.len() > 1);
    let rt = items_tokens(items.drop_first());
    let end = seq![TokenView::EndArray];
    assert(items_tokens(items) + end == vt + (st + rt + end));
    lemma_tokens_at_split(ts, c, vt, st + rt + end);
    crate::serialiser::lemma_items_height(items, 0);
    lemma_parse_value_tokens(ts, c, d, l, items[0]);
    let c2 = c + vt.len();
    assert(ts[c2 + 0int].token == (st + rt + end)[0]);
    if items.len() > 1 {
        assert(st + rt + end == st + (rt + end));
        lemma_tokens_at_split(ts, c2, st, rt + end);
        lemma_items_tokens_start(items.drop_first());
        assert(ts[(c2 + 1) + 0int].token == (rt + end)[0]);
        assert(!is_end_array(ts, c2 + 1));
        assert(items_height(items.drop_first()) <= items_height(items));
        lemma_parse_items_tokens(ts, c2 + 1, d, l, acc.push(items[0]), items.drop_first());
        assert(acc.push(items[0]) + items.drop_first() =~= acc + items);
    } else {
        assert(rt == Seq::<TokenView>::empty());
        assert(acc.push(items[0]) =~= acc + items);
    }
}

pub proof fn lemma_parse_members_tokens(
    ts: Seq<PosTok>,
    c: nat,
    d: nat,
    l: nat,
    acc: Seq<(Seq<char>, ValueView)>,
    members: Seq<(Seq<char>, ValueView)>,
)
    requires
        members.len() > 0,
        d + members_height(members) <= l,
        tokens_at(ts, c, members_tokens(members) + seq![TokenView::EndObject]),
    ensures
        object_members(ts, c, d, l, acc) == Ok::<(ValueView, nat), crate::error::ErrorView>(
            (ValueView::Object(acc + members), c + members_tokens(members).len() + 1),
        ),
    decreases members, 1nat,
{
    let kt = seq![TokenView::String(members[0].0), TokenView::NameSeparator];
    let vt = value_tokens(members[0].1);
    let st = sep_tokens(members.len() > 1);
    let rt = members_tokens(members.drop_first());
    let end = seq![TokenView::EndObject];
    assert(members_tokens(members) + end == kt + (vt + (st + rt + end)));
    lemma_tokens_at_split(ts, c, kt, vt + (st + rt + end));
    lemma_tokens_at_split(ts, c + 2, vt, st + rt + end);
    assert(ts[c + 0int].token == kt[0]);
    assert(ts[c + 1int].token == kt[1]);
    crate::serialiser::lemma_members_height(members, 0);
    lemma_parse_value_tokens(ts, c + 2, d, l, members[0].1);
    let c2 = c + 2 + vt.len();
    assert(ts[c2 + 0int].token == (st + rt + end)[0]);
    if members.len() > 1 {
        assert(st + rt + end == st + (rt + end));
        lemma_tokens_at_split(ts, c2, st, rt + end);
        let m1 = members.drop_first();
        assert(rt == seq![TokenView::String(m1[0].0), TokenView::NameSeparator] + value_tokens(
            m1[0].1,
        ) + sep_tokens(m1.len() > 1) + members_tokens(m1.drop_first()));
        assert(ts[(c2 + 1) + 0int].token == (rt + end)[0]);
        assert(!is_end_object(ts, c2 + 1));
        assert(members_height(m1) <= members_height(members));
        lemma_parse_members_tokens(ts, c2 + 1, d, l, acc.push(members[0]), m1);
        assert(acc.push(members[0]) + m1 =~= acc + members);
    } else {
        assert(rt == Seq::<TokenView>::empty());
        assert(acc.push(members[0]) =~= acc + members);
    }
}


// ---------------------------------------------------------------------
// Bytes of text, and the tokens that the tokeniser reads from them.
// ---------------------------------------------------------------------

/// The bytes `bs` stand in `input` from offset `i` on.
pub open spec fn bytes_at(input: Seq<u8>, i: nat, bs: Seq<u8>) -> bool {
    &&& i + bs.len() <= input.len()
    &&& input.subrange(i as int, (i + bs.len()) as int) == bs
}

pub proof fn lemma_bytes_at(input: Seq<u8>, i: nat, bs: Seq<u8>)
    requires
        bytes_at(input, i, bs),
    ensures
        forall|k: int| 0 <= k < bs.len() ==> #[trigger] input[i + k] == bs[k],
{
    assert forall|k: int| 0 <= k < bs.len() implies #[trigger] input[i + k] == bs[k] by {
        assert(input.subrange(i as int, (i + bs.len()) as int)[k] == input[i + k]);
    }
}

pub proof fn lemma_bytes_at_split(input: Seq<u8>, i: nat, a: Seq<u8>, b: Seq<u8>)
    requires
        bytes_at(input, i, a + b),
    ensures
        bytes_at(input, i, a),
        bytes_at(input, i + a.len(), b),
{
    lemma_bytes_at(input, i, a + b);
    assert forall|k: int| 0 <= k < a.len() implies #[trigger] input.subrange(i as int, (i + a.len()) as int)[k] == a[k] by {
        assert(input[i + k] == (a + b)[k]);
    }
    assert(input.subrange(i as int, (i + a.len()) as int) =~= a);
    assert forall|k: int| 0 <= k < b.len() implies #[trigger] input.subrange((i + a.len()) as int, (i + a.len() + b.len()) as int)[k] == b[k] by {
        assert(input[i + (a.len() + k)] == (a + b)[a.len() + k]);
    }
    assert(input.subrange((i + a.len()) as int, (i + a.len() + b.len()) as int) =~= b);
}

pub proof fn lemma_encode_concat(a: Seq<char>, b: Seq<char>)
    ensures
        encode_utf8(a + b) == encode_utf8(a) + encode_utf8(b),
    decreases a.len(),
{
    if a.len() == 0 {
        assert(a + b =~= b);
        assert(encode_utf8(a) + encode_utf8(b) =~= encode_utf8(b));
    } else {
        assert((a + b).drop_first() =~= a.drop_first() + b);
        assert((a + b)[0] == a[0]);
        lemma_encode_concat(a.drop_first(), b);
        assert(encode_utf8(a + b) =~= encode_scalar(a[0] as u32) + encode_utf8(a.drop_first())
            + encode_utf8(b));
    }
}

pub proof fn lemma_ascii_bytes(cs: Seq<char>)
    requires
        is_ascii_chars(cs),
    ensures
        encode_utf8(cs) == text_bytes(cs),
{
    is_ascii_chars_encode_utf8(cs);
    assert(encode_utf8(cs) =~= text_bytes(cs));
}

/// Reading from `p`, the tokeniser reads the tokens `ts` and then goes on
/// from `q`.
pub open spec fn reads(input: Seq<u8>, p: Loc, ts: Seq<PosTok>, q: Loc) -> bool {
    tokenise_from(input, p) == prepend_tokens(ts, tokenise_from(input, q))
}

pub proof fn lemma_reads_trans(
    input: Seq<u8>,
    p: Loc,
    a: Seq<PosTok>,
    q: Loc,
    b: Seq<PosTok>,
    r: Loc,
)
    requires
        reads(input, p, a, q),
        reads(input, q, b, r),
    ensures
        reads(input, p, a + b, r),
{
    if let Ok(ts) = tokenise_from(input, r) {
        assert(a + (b + ts) =~= (a + b) + ts);
    }
}

pub proof fn lemma_reads_nothing(input: Seq<u8>, p: Loc)
    ensures
        reads(input, p, Seq::empty(), p),
{
    if let Ok(ts) = tokenise_from(input, p) {
        assert(Seq::<PosTok>::empty() + ts =~= ts);
    }
}

/// Whitespace reads as no token.
pub proof fn lemma_reads_ws(input: Seq<u8>, p: Loc, n: nat) -> (q: Loc)
    requires
        p.offset + n <= input.len(),
        forall|k: int| 0 <= k < n ==> is_ws(#[trigger] input[p.offset + k]),
    ensures
        q.offset == p.offset + n,
        reads(input, p, Seq::empty(), q),
    decreases n,
{
    if n == 0 {
        lemma_reads_nothing(input, p);
        p
    } else {
        let b = input[p.offset as int];
        assert(is_ws(input[p.offset + 0int]));
        let p1 = step(p, b);
        assert(skip_ws(input, p) == skip_ws(input, p1));
        assert(tokenise_from(input, p) == tokenise_from(input, p1));
        assert forall|k: int| 0 <= k < n - 1 implies is_ws(#[trigger] input[p1.offset + k]) by {
            assert(is_ws(input[p.offset + (k + 1)]));
        }
        lemma_reads_ws(input, p1, (n - 1) as nat)
    }
}

/// A token that does not begin with whitespace reads as itself.
pub proof fn lemma_reads_token(input: Seq<u8>, p: Loc, t: TokenView, e: Loc)
    requires
        p.offset < input.len(),
        !is_ws(input[p.offset as int]),
        next_token(input, p) == Ok::<(TokenView, Loc), ErrorView>((t, e)),
    ensures
        reads(input, p, seq![PosTok { token: t, pos: p, end: e }], e),
{
    assert(skip_ws(input, p) == p);
}

pub proof fn lemma_kinds_concat(a: Seq<PosTok>, b: Seq<PosTok>)
    ensures
        kinds(a + b) == kinds(a) + kinds(b),
{
    assert(kinds(a + b) =~= kinds(a) + kinds(b));
}

pub proof fn lemma_kinds_one(t: PosTok)
    ensures
        kinds(seq![t]) == seq![t.token],
{
    assert(kinds(seq![t]) =~= seq![t.token]);
}

/// The single-byte token `b` at `p` reads as `t`.
pub proof fn lemma_reads_punct(input: Seq<u8>, p: Loc, b: u8, t: TokenView) -> (r: (Seq<PosTok>, Loc))
    requires
        p.offset < input.len(),
        input[p.offset as int] == b,
        (b == 0x7B && t == TokenView::BeginObject) || (b == 0x7D && t == TokenView::EndObject) || (
        b == 0x5B && t == TokenView::BeginArray) || (b == 0x5D && t == TokenView::EndArray) || (b
            == 0x3A && t == TokenView::NameSeparator) || (b == 0x2C && t
            == TokenView::ValueSeparator),
    ensures
        r.1.offset == p.offset + 1,
        reads(input, p, r.0, r.1),
        kinds(r.0) == seq![t],
{
    let e = step(p, b);
    lemma_reads_token(input, p, t, e);
    let pt = PosTok { token: t, pos: p, end: e };
    lemma_kinds_one(pt);
    (seq![pt], e)
}

/// The chars `cs`, all spaces or line feeds, read as no token.
pub proof fn lemma_reads_blank(input: Seq<u8>, p: Loc, cs: Seq<char>) -> (q: Loc)
    requires
        forall|i: int| 0 <= i < cs.len() ==> #[trigger] cs[i] == ' ' || cs[i] == '\n',
        bytes_at(input, p.offset, encode_utf8(cs)),
    ensures
        q.offset == p.offset + encode_utf8(cs).len(),
        reads(input, p, Seq::empty(), q),
{
    assert(is_ascii_chars(cs));
    lemma_ascii_bytes(cs);
    lemma_bytes_at(input, p.offset, encode_utf8(cs));
    assert forall|k: int| 0 <= k < cs.len() implies is_ws(#[trigger] input[p.offset + k]) by {
        assert(input[p.offset + k] == text_bytes(cs)[k]);
    }
    lemma_reads_ws(input, p, cs.len())
}

pub proof fn lemma_indent_blank(k: nat, d: nat)
    ensures
        forall|i: int| 0 <= i < indent(k, d).len() ==> #[trigger] indent(k, d)[i] == ' ',
    decreases d,
{
    if d > 0 {
        lemma_indent_blank(k, (d - 1) as nat);
        let a = indent(k, (d - 1) as nat);
        assert forall|i: int| 0 <= i < indent(k, d).len() implies #[trigger] indent(k, d)[i]
            == ' ' by {
            if i < a.len() {
                assert(indent(k, d)[i] == a[i]);
            } else {
                assert(indent(k, d)[i] == spaces(k)[i - a.len()]);
            }
        }
    }
}


// ---------------------------------------------------------------------
// A quoted string reads back as the string it quotes.
// ---------------------------------------------------------------------

pub proof fn lemma_escape_chars_concat(a: Seq<char>, b: Seq<char>)
    ensures
        escape_chars(a + b) == escape_chars(a) + escape_chars(b),
    decreases b.len(),
{
    if b.len() == 0 {
        assert(a + b =~= a);
        assert(escape_chars(a) + escape_chars(b) =~= escape_chars(a));
    } else {
        assert((a + b).drop_last() =~= a + b.drop_last());
        assert((a + b).last() == b.last());
        lemma_escape_chars_concat(a, b.drop_last());
        assert(escape_chars(a + b) =~= escape_chars(a) + escape_chars(b.drop_last()) + escape_char(
            b.last(),
        ));
    }
}

pub proof fn lemma_escape_chars_front(s: Seq<char>)
    requires
        s.len() > 0,
    ensures
        escape_chars(s) == escape_char(s[0]) + escape_chars(s.drop_first()),
{
    lemma_escape_chars_concat(seq![s[0]], s.drop_first());
    assert(seq![s[0]] + s.drop_first() =~= s);
    assert(seq![s[0]].drop_last() =~= Seq::<char>::empty());
    assert(escape_chars(Seq::<char>::empty()) == Seq::<char>::empty());
    assert(escape_chars(seq![s[0]]) =~= escape_char(s[0]));
}

pub proof fn lemma_reads_simple_escape(
    input: Seq<u8>,
    p: Loc,
    start: Loc,
    acc: Seq<char>,
    e: u8,
    c: char,
)
    requires
        p.offset + 1 < input.len(),
        input[p.offset as int] == 0x5C,
        input[p.offset + 1int] == e,
        e != 0x75,
        simple_escape(e) == Some(c),
    ensures
        string_body(input, p, start, acc) == string_body(
            input,
            step(step(p, 0x5C), e),
            start,
            acc.push(c),
        ),
{
}

pub proof fn lemma_hex_digit_byte(n: nat)
    requires
        n < 16,
    ensures
        hex_digit(n) <= '\u{7f}',
        is_hex(hex_digit(n) as u8),
        hex_val(hex_digit(n) as u8) == n,
{
}

pub proof fn lemma_first_scalar_prefix(a: Seq<u8>, b: Seq<u8>)
    requires
        valid_first_scalar(a),
        a.len() <= b.len(),
        forall|k: int| 0 <= k < a.len() ==> #[trigger] a[k] == b[k],
    ensures
        valid_first_scalar(b),
        decode_first_scalar(b) == decode_first_scalar(a),
        length_of_first_scalar(b) == length_of_first_scalar(a),
{
    assert(a[0] == b[0]);
    if a.len() > 1 {
        assert(a[1] == b[1]);
    }
    if a.len() > 2 {
        assert(a[2] == b[2]);
    }
    if a.len() > 3 {
        assert(a[3] == b[3]);
    }
}

/// One character of a string, as the serialiser writes it, reads back as
/// that character.
pub proof fn lemma_reads_string_char(
    input: Seq<u8>,
    p: Loc,
    start: Loc,
    acc: Seq<char>,
    c: char,
) -> (q: Loc)
    requires
        bytes_at(input, p.offset, encode_utf8(escape_char(c))),
    ensures
        q.offset == p.offset + encode_utf8(escape_char(c)).len(),
        string_body(input, p, start, acc) == string_body(input, q, start, acc.push(c)),
{
    let ec = escape_char(c);
    let u = c as u32;
    lemma_bytes_at(input, p.offset, encode_utf8(ec));
    if c == '"' || c == '\\' || c == '\n' || c == '\r' || c == '\t' || c == '\u{0008}' || c
        == '\u{000C}' {
        assert(is_ascii_chars(ec));
        lemma_ascii_bytes(ec);
        let e = ec[1] as u8;
        assert(input[p.offset + 0int] == text_bytes(ec)[0]);
        assert(input[p.offset + 1int] == text_bytes(ec)[1]);
        lemma_reads_simple_escape(input, p, start, acc, e, c);
        step(step(p, 0x5C), e)
    } else if u < 0x20 {
        let n1 = (u / 16) as nat;
        let n2 = (u % 16) as nat;
        lemma_hex_digit_byte(n1);
        lemma_hex_digit_byte(n2);
        assert(ec == seq!['\\', 'u', '0', '0', hex_digit(n1), hex_digit(n2)]);
        assert(is_ascii_chars(ec));
        lemma_ascii_bytes(ec);
        let tb = text_bytes(ec);
        assert(input[p.offset + 0int] == tb[0] && tb[0] == 0x5C);
        assert(input[p.offset + 1int] == tb[1] && tb[1] == 0x75);
        assert(input[p.offset + 2int] == tb[2] && tb[2] == 0x30);
        assert(input[p.offset + 3int] == tb[3] && tb[3] == 0x30);
        assert(input[p.offset + 4int] == tb[4] && tb[4] == hex_digit(n1) as u8);
        assert(input[p.offset + 5int] == tb[5] && tb[5] == hex_digit(n2) as u8);
        let p2 = step(step(p, 0x5C), 0x75);
        reveal_with_fuel(hex_run, 5);
        assert(hex4(input, p2.offset, p) == Ok::<nat, ErrorView>(u as nat));
        char_u32_cast(c, u);
        assert(unicode_escape(input, p2, p) == Ok::<(char, Loc), ErrorView>((c, cols(p2, 4))));
        cols(p2, 4)
    } else if u < 0x80 {
        assert(ec == seq![c]);
        assert(is_ascii_chars(ec));
        lemma_ascii_bytes(ec);
        let b = c as u8;
        assert(input[p.offset + 0int] == text_bytes(ec)[0]);
        assert(b as char == c);
        step(p, b)
    } else {
        assert(ec == seq![c]);
        let en = encode_utf8(ec);
        encode_utf8_first_scalar(ec);
        assert(!has_width_1_encoding(u));
        assert(ec.drop_first() =~= Seq::<char>::empty());
        assert(en == encode_scalar(u) + encode_utf8(Seq::<char>::empty()));
        assert(en.len() == encode_scalar(u).len());
        assert(en.len() >= 2);
        let r = rest(input, p.offset);
        assert forall|k: int| 0 <= k < en.len() implies #[trigger] en[k] == r[k] by {
            assert(input[p.offset + k] == en[k]);
        }
        lemma_first_scalar_prefix(en, r);
        assert(input[p.offset + 0int] == en[0]);
        char_u32_cast(c, u);
        Loc { line: p.line, column: p.column + 1, offset: p.offset + en.len() }
    }
}

/// The body of a quoted string, as the serialiser writes it, reads back as
/// the string.
pub proof fn lemma_reads_string_body(
    input: Seq<u8>,
    p: Loc,
    start: Loc,
    acc: Seq<char>,
    s: Seq<char>,
)
    requires
        bytes_at(input, p.offset, encode_utf8(escape_chars(s)) + seq![0x22u8]),
    ensures
        string_body(input, p, start, acc) matches Ok((r, e)) && r == acc + s && e.offset
            == p.offset + encode_utf8(escape_chars(s)).len() + 1,
    decreases s.len(),
{
    if s.len() == 0 {
        assert(escape_chars(s) == Seq::<char>::empty());
        assert(encode_utf8(escape_chars(s)) == Seq::<u8>::empty());
        lemma_bytes_at(input, p.offset, encode_utf8(escape_chars(s)) + seq![0x22u8]);
        assert(input[p.offset + 0int] == 0x22);
        assert(acc + s =~= acc);
    } else {
        let c = s[0];
        let s1 = s.drop_first();
        lemma_escape_chars_front(s);
        lemma_encode_concat(escape_char(c), escape_chars(s1));
        let a = encode_utf8(escape_char(c));
        let b = encode_utf8(escape_chars(s1));
        assert(encode_utf8(escape_chars(s)) + seq![0x22u8] =~= a + (b + seq![0x22u8]));
        lemma_bytes_at_split(input, p.offset, a, b + seq![0x22u8]);
        let q = lemma_reads_string_char(input, p, start, acc, c);
        lemma_reads_string_body(input, q, start, acc.push(c), s1);
        assert(acc.push(c) + s1 =~= acc + s);
    }
}

/// A quoted string, as the serialiser writes it, reads as a string token.
pub proof fn lemma_string_token(input: Seq<u8>, p: Loc, s: Seq<char>) -> (e: Loc)
    requires
        bytes_at(input, p.offset, encode_utf8(quoted(s))),
    ensures
        p.offset < input.len(),
        !is_ws(input[p.offset as int]),
        e.offset == p.offset + encode_utf8(quoted(s)).len(),
        next_token(input, p) == Ok::<(TokenView, Loc), ErrorView>((TokenView::String(s), e)),
{
    let es = encode_utf8(escape_chars(s));
    lemma_encode_concat(seq!['"'], escape_chars(s));
    lemma_encode_concat(seq!['"'] + escape_chars(s), seq!['"']);
    assert(is_ascii_chars(seq!['"']));
    lemma_ascii_bytes(seq!['"']);
    assert(encode_utf8(seq!['"']) =~= seq![0x22u8]);
    assert(encode_utf8(quoted(s)) =~= seq![0x22u8] + (es + seq![0x22u8]));
    lemma_bytes_at_split(input, p.offset, seq![0x22u8], es + seq![0x22u8]);
    lemma_bytes_at(input, p.offset, seq![0x22u8]);
    assert(input[p.offset + 0int] == 0x22);
    let p1 = step(p, 0x22);
    lemma_reads_string_body(input, p1, p, Seq::empty(), s);
    assert(Seq::<char>::empty() + s =~= s);
    string_body(input, p1, p, Seq::empty())->Ok_0.1
}


// ---------------------------------------------------------------------
// Numbers and literals.
// ---------------------------------------------------------------------

/// The byte at `j`, if there is one, is one that the serialiser writes
/// after a value: a value-separator, a closing bracket or brace, a line
/// feed or a space.
pub open spec fn follows_value(input: Seq<u8>, j: nat) -> bool {
    j >= input.len() || {
        let b = input[j as int];
        b == 0x2C || b == 0x5D || b == 0x7D || b == 0x0A || b == 0x20
    }
}

pub proof fn lemma_digits_end_shift(input: Seq<u8>, tb: Seq<u8>, off: nat, i: nat)
    requires
        bytes_at(input, off, tb),
        i <= tb.len(),
        follows_value(input, off + tb.len()),
    ensures
        digits_end(input, off + i) == off + digits_end(tb, i),
    decreases tb.len() - i,
{
    lemma_bytes_at(input, off, tb);
    if i < tb.len() {
        assert(input[off + i as int] == tb[i as int]);
        if digit_at(tb, i) {
            lemma_digits_end_shift(input, tb, off, i + 1);
        }
    }
}

pub proof fn lemma_subrange_shift(input: Seq<u8>, off: nat, tb: Seq<u8>, a: int, c: int)
    requires
        bytes_at(input, off, tb),
        0 <= a <= c <= tb.len(),
    ensures
        input.subrange(off + a, off + c) == tb.subrange(a, c),
{
    lemma_bytes_at(input, off, tb);
    assert forall|k: int| 0 <= k < c - a implies #[trigger] input.subrange(off + a, off + c)[k]
        == tb.subrange(a, c)[k] by {
        assert(input[off + (a + k)] == tb[a + k]);
    }
    assert(input.subrange(off + a, off + c) =~= tb.subrange(a, c));
}

/// Whether a number is too large does not depend on where it stands, nor
/// on what follows it, as long as nothing follows that could continue it.
pub proof fn lemma_too_large_shift(input: Seq<u8>, off: nat, tb: Seq<u8>)
    requires
        bytes_at(input, off, tb),
        follows_value(input, off + tb.len()),
        number_end(tb, 0) == Some(tb.len()),
    ensures
        too_large(input, off, off + tb.len()) == too_large(tb, 0, tb.len()),
{
    let n = tb.len();
    lemma_bytes_at(input, off, tb);
    assert forall|k: nat, b: u8| k < n implies #[trigger] byte_is(tb, k, b) == byte_is(
        input,
        off + k,
        b,
    ) by {
        assert(input[off + k as int] == tb[k as int]);
    }
    assert forall|i: nat| i <= n implies #[trigger] digits_end(tb, i) + off == digits_end(
        input,
        off + i,
    ) by {
        lemma_digits_end_shift(input, tb, off, i);
    }
    lemma_number_parts(tb, 0, n);
    let i0 = int_start(tb, 0);
    let i1 = int_end(tb, 0);
    let i2 = frac_end(tb, 0);
    assert(byte_is(tb, 0, 0x2D) == byte_is(input, off, 0x2D));
    assert(int_start(input, off) == off + i0);
    assert(byte_is(tb, i0, 0x30) == byte_is(input, off + i0, 0x30));
    assert(int_end(input, off) == off + i1);
    assert(!byte_is(input, off + n, 0x2E));
    assert(byte_is(tb, i1, 0x2E) == byte_is(input, off + i1, 0x2E));
    assert(frac_end(input, off) == off + i2);
    lemma_subrange_shift(input, off, tb, i0 as int, i1 as int);
    if i2 > i1 {
        lemma_subrange_shift(input, off, tb, (i1 + 1) as int, i2 as int);
    }
    assert(frac_digits(input, off) == frac_digits(tb, 0));
    assert(mantissa_digits(input, off) == mantissa_digits(tb, 0));
    if i2 < n {
        let j = exp_digits_start(tb, 0);
        assert(byte_is(tb, i2 + 1, 0x2B) == byte_is(input, off + (i2 + 1), 0x2B));
        assert(byte_is(tb, i2 + 1, 0x2D) == byte_is(input, off + (i2 + 1), 0x2D));
        assert(exp_digits_start(input, off) == off + j);
        lemma_subrange_shift(input, off, tb, j as int, n as int);
    }
    assert(exponent_value(input, off, off + n) == exponent_value(tb, 0, n));
    assert(scale(input, off, off + n) == scale(tb, 0, n));
}

/// Where a number ends does not depend on where it stands, nor on what
/// follows it, as long as nothing follows that could continue it.
pub proof fn lemma_number_end_shift(input: Seq<u8>, off: nat, tb: Seq<u8>)
    requires
        bytes_at(input, off, tb),
        follows_value(input, off + tb.len()),
        number_end(tb, 0) == Some(tb.len()),
    ensures
        number_end(input, off) == Some(off + tb.len()),
{
    let n = tb.len();
    lemma_bytes_at(input, off, tb);
    assert forall|k: nat, b: u8| k < n implies #[trigger] byte_is(tb, k, b) == byte_is(
        input,
        off + k,
        b,
    ) by {
        assert(input[off + k as int] == tb[k as int]);
    }
    assert forall|k: nat| k < n implies #[trigger] digit_at(tb, k) == digit_at(input, off + k) by {
        assert(input[off + k as int] == tb[k as int]);
    }
    assert forall|i: nat| i <= n implies #[trigger] digits_end(tb, i) + off == digits_end(
        input,
        off + i,
    ) by {
        lemma_digits_end_shift(input, tb, off, i);
    }
    assert(n > 0);
    assert(byte_is(tb, 0, 0x2D) == byte_is(input, off, 0x2D));
}

/// The text of a JSON number, followed by what the serialiser writes after
/// a value, reads as a number token with that text.
pub proof fn lemma_number_token(input: Seq<u8>, p: Loc, t: Seq<char>)
    requires
        is_number_text(t),
        bytes_at(input, p.offset, text_bytes(t)),
        follows_value(input, p.offset + t.len()),
    ensures
        p.offset < input.len(),
        !is_ws(input[p.offset as int]),
        next_token(input, p) == Ok::<(TokenView, Loc), ErrorView>(
            (TokenView::Number(Some(t)), cols(p, t.len())),
        ),
{
    let tb = text_bytes(t);
    let off = p.offset;
    let n = tb.len();
    lemma_number_end_shift(input, off, tb);
    lemma_too_large_shift(input, off, tb);
    lemma_bytes_at(input, off, tb);
    assert(n > 0);
    assert(input[off + 0int] == tb[0]);
    assert(tb[0] == 0x2D || is_digit(tb[0]));
    assert(ascii_chars(input, off, off + n) =~= t);
}

/// `null`, `true` and `false` read as their tokens.
pub proof fn lemma_reads_literal(input: Seq<u8>, p: Loc, v: ValueView, ind: Option<nat>, depth: nat) -> (r: (
    Seq<PosTok>,
    Loc,
))
    requires
        v is Null || v is Bool,
        bytes_at(input, p.offset, encode_utf8(render(v, ind, depth))),
    ensures
        r.1.offset == p.offset + encode_utf8(render(v, ind, depth)).len(),
        reads(input, p, r.0, r.1),
        kinds(r.0) == value_tokens(v),
{
    let cs = render(v, ind, depth);
    assert(is_ascii_chars(cs));
    lemma_ascii_bytes(cs);
    lemma_bytes_at(input, p.offset, text_bytes(cs));
    let (t, lit) = match v {
        ValueView::Null => (TokenView::Null, lit_null()),
        ValueView::Bool(b) => if b {
            (TokenView::True, lit_true())
        } else {
            (TokenView::False, lit_false())
        },
        _ => (TokenView::Null, lit_null()),
    };
    assert(text_bytes(cs) =~= lit);
    assert(input[p.offset + 0int] == lit[0]);
    assert(literal_at(input, p.offset, lit));
    let e = cols(p, lit.len());
    lemma_reads_token(input, p, t, e);
    let pt = PosTok { token: t, pos: p, end: e };
    lemma_kinds_one(pt);
    (seq![pt], e)
}


// ---------------------------------------------------------------------
// Values, arrays and objects.
// ---------------------------------------------------------------------

/// Every number in `v` is a JSON number (RFC 8259 §6).
pub open spec fn value_wf(v: ValueView) -> bool
    decreases v, 0nat,
{
    match v {
        ValueView::Number(n) => n matches Some(t) && is_number_text(t),
        ValueView::Array(items) => items_wf(items),
        ValueView::Object(members) => members_wf(members),
        _ => true,
    }
}

pub open spec fn items_wf(s: Seq<ValueView>) -> bool
    decreases s, 1nat,
{
    s.len() == 0 || (value_wf(s[0]) && items_wf(s.drop_first()))
}

pub open spec fn members_wf(s: Seq<(Seq<char>, ValueView)>) -> bool
    decreases s, 1nat,
{
    s.len() == 0 || (value_wf(s[0].1) && members_wf(s.drop_first()))
}

pub proof fn lemma_enc_split(input: Seq<u8>, i: nat, a: Seq<char>, b: Seq<char>)
    requires
        bytes_at(input, i, encode_utf8(a + b)),
    ensures
        bytes_at(input, i, encode_utf8(a)),
        bytes_at(input, i + encode_utf8(a).len(), encode_utf8(b)),
        encode_utf8(a + b).len() == encode_utf8(a).len() + encode_utf8(b).len(),
{
    lemma_encode_concat(a, b);
    lemma_bytes_at_split(input, i, encode_utf8(a), encode_utf8(b));
}

pub proof fn lemma_char_at(input: Seq<u8>, i: nat, c: char)
    requires
        c <= '\u{7f}',
        bytes_at(input, i, encode_utf8(seq![c])),
    ensures
        encode_utf8(seq![c]).len() == 1,
        i < input.len(),
        input[i as int] == c as u8,
{
    assert(is_ascii_chars(seq![c]));
    lemma_ascii_bytes(seq![c]);
    lemma_bytes_at(input, i, encode_utf8(seq![c]));
    assert(input[i + 0int] == text_bytes(seq![c])[0]);
}

/// What the serialiser writes after an item of a container reads as a
/// value-separator where more items follow, and as nothing else.
pub proof fn lemma_reads_separator(input: Seq<u8>, p: Loc, ind: Option<nat>, more: bool) -> (r: (
    Seq<PosTok>,
    Loc,
))
    requires
        bytes_at(input, p.offset, encode_utf8(separator(ind, more))),
    ensures
        r.1.offset == p.offset + encode_utf8(separator(ind, more)).len(),
        reads(input, p, r.0, r.1),
        kinds(r.0) == sep_tokens(more),
        separator(ind, more).len() > 0 ==> p.offset < input.len() && (input[p.offset as int]
            == 0x2C || input[p.offset as int] == 0x0A),
{
    let sp = separator(ind, more);
    if more {
        let nl: Seq<char> = match ind {
            None => Seq::empty(),
            Some(_) => seq!['\n'],
        };
        assert(sp == seq![','] + nl);
        lemma_enc_split(input, p.offset, seq![','], nl);
        lemma_char_at(input, p.offset, ',');
        let (a, q1) = lemma_reads_punct(input, p, 0x2C, TokenView::ValueSeparator);
        let q2 = lemma_reads_blank(input, q1, nl);
        lemma_reads_trans(input, p, a, q1, Seq::empty(), q2);
        assert(a + Seq::<PosTok>::empty() =~= a);
        (a, q2)
    } else {
        assert(forall|i: int| 0 <= i < sp.len() ==> #[trigger] sp[i] == '\n');
        if sp.len() > 0 {
            assert(sp == seq!['\n']);
            lemma_char_at(input, p.offset, '\n');
        }
        let q = lemma_reads_blank(input, p, sp);
        assert(kinds(Seq::<PosTok>::empty()) =~= Seq::<TokenView>::empty());
        (Seq::empty(), q)
    }
}

pub proof fn lemma_separator_first_byte(input: Seq<u8>, j: nat, ind: Option<nat>, more: bool)
    requires
        bytes_at(input, j, encode_utf8(separator(ind, more))),
    ensures
        separator(ind, more).len() > 0 ==> j < input.len() && (input[j as int] == 0x2C
            || input[j as int] == 0x0A),
{
    let sp = separator(ind, more);
    if sp.len() > 0 {
        let c = sp[0];
        assert(c == ',' || c == '\n');
        assert(sp == seq![c] + sp.drop_first());
        lemma_enc_split(input, j, seq![c], sp.drop_first());
        lemma_char_at(input, j, c);
    }
}

/// The name-separator as the serialiser writes it.
pub proof fn lemma_reads_colon(input: Seq<u8>, p: Loc, ind: Option<nat>) -> (r: (Seq<PosTok>, Loc))
    requires
        bytes_at(input, p.offset, encode_utf8(colon(ind))),
    ensures
        r.1.offset == p.offset + encode_utf8(colon(ind)).len(),
        reads(input, p, r.0, r.1),
        kinds(r.0) == seq![TokenView::NameSeparator],
{
    let sp: Seq<char> = match ind {
        None => Seq::empty(),
        Some(_) => seq![' '],
    };
    assert(colon(ind) == seq![':'] + sp);
    lemma_enc_split(input, p.offset, seq![':'], sp);
    lemma_char_at(input, p.offset, ':');
    let (a, q1) = lemma_reads_punct(input, p, 0x3A, TokenView::NameSeparator);
    let q2 = lemma_reads_blank(input, q1, sp);
    lemma_reads_trans(input, p, a, q1, Seq::empty(), q2);
    assert(a + Seq::<PosTok>::empty() =~= a);
    (a, q2)
}

pub proof fn lemma_lead_blank(ind: Option<nat>, depth: nat)
    ensures
        forall|i: int|
            0 <= i < lead(ind, depth).len() ==> #[trigger] lead(ind, depth)[i] == ' '
                || lead(ind, depth)[i] == '\n',
{
    if let Some(k) = ind {
        lemma_indent_blank(k, depth + 1);
    }
}

/// The items of an array, as the serialiser writes them, read as their
/// tokens.
pub proof fn lemma_reads_items(
    input: Seq<u8>,
    p: Loc,
    s: Seq<ValueView>,
    ind: Option<nat>,
    depth: nat,
) -> (r: (Seq<PosTok>, Loc))
    requires
        items_wf(s),
        bytes_at(input, p.offset, encode_utf8(render_items(s, ind, depth))),
        follows_value(input, p.offset + encode_utf8(render_items(s, ind, depth)).len()),
    ensures
        r.1.offset == p.offset + encode_utf8(render_items(s, ind, depth)).len(),
        reads(input, p, r.0, r.1),
        kinds(r.0) == items_tokens(s),
    decreases s, 1nat,
{
    if s.len() == 0 {
        assert(render_items(s, ind, depth) == Seq::<char>::empty());
        assert(encode_utf8(Seq::<char>::empty()) == Seq::<u8>::empty());
        lemma_reads_nothing(input, p);
        assert(kinds(Seq::<PosTok>::empty()) =~= Seq::<TokenView>::empty());
        (Seq::empty(), p)
    } else {
        let ld = lead(ind, depth);
        let rv = render(s[0], ind, depth + 1);
        let sp = separator(ind, s.len() > 1);
        let rr = render_items(s.drop_first(), ind, depth);
        assert(render_items(s, ind, depth) == ld + rv + sp + rr);
        lemma_enc_split(input, p.offset, ld + rv + sp, rr);
        lemma_enc_split(input, p.offset, ld + rv, sp);
        lemma_enc_split(input, p.offset, ld, rv);
        lemma_lead_blank(ind, depth);
        let q1 = lemma_reads_blank(input, p, ld);
        lemma_separator_first_byte(input, q1.offset + encode_utf8(rv).len(), ind, s.len() > 1);
        if sp.len() == 0 {
            assert(s.len() == 1);
            assert(s.drop_first().len() == 0);
            assert(rr == Seq::<char>::empty());
            assert(encode_utf8(rr) == Seq::<u8>::empty());
        }
        let (a, q2) = lemma_reads_value(input, q1, s[0], ind, depth + 1);
        let (b, q3) = lemma_reads_separator(input, q2, ind, s.len() > 1);
        let (c, q4) = lemma_reads_items(input, q3, s.drop_first(), ind, depth);
        lemma_reads_trans(input, p, Seq::empty(), q1, a, q2);
        assert(Seq::<PosTok>::empty() + a =~= a);
        lemma_reads_trans(input, p, a, q2, b, q3);
        lemma_reads_trans(input, p, a + b, q3, c, q4);
        lemma_kinds_concat(a, b);
        lemma_kinds_concat(a + b, c);
        (a + b + c, q4)
    }
}


/// What stands before the value of a member, as the serialiser writes it:
/// its indentation, its quoted name and the name-separator.
pub proof fn lemma_reads_key(input: Seq<u8>, p: Loc, key: Seq<char>, ind: Option<nat>, depth: nat) -> (r: (
    Seq<PosTok>,
    Loc,
))
    requires
        bytes_at(input, p.offset, encode_utf8(lead(ind, depth) + quoted(key) + colon(ind))),
    ensures
        r.1.offset == p.offset + encode_utf8(lead(ind, depth) + quoted(key) + colon(ind)).len(),
        reads(input, p, r.0, r.1),
        kinds(r.0) == seq![TokenView::String(key), TokenView::NameSeparator],
{
    let ld = lead(ind, depth);
    let qk = quoted(key);
    let co = colon(ind);
    lemma_enc_split(input, p.offset, ld + qk, co);
    lemma_enc_split(input, p.offset, ld, qk);
    lemma_lead_blank(ind, depth);
    let q1 = lemma_reads_blank(input, p, ld);
    let e = lemma_string_token(input, q1, key);
    lemma_reads_token(input, q1, TokenView::String(key), e);
    let kt = PosTok { token: TokenView::String(key), pos: q1, end: e };
    lemma_kinds_one(kt);
    let (cs, q3) = lemma_reads_colon(input, e, ind);
    lemma_reads_trans(input, p, Seq::empty(), q1, seq![kt], e);
    assert(Seq::<PosTok>::empty() + seq![kt] =~= seq![kt]);
    lemma_reads_trans(input, p, seq![kt], e, cs, q3);
    lemma_kinds_concat(seq![kt], cs);
    (seq![kt] + cs, q3)
}

/// The members of an object, as the serialiser writes them, read as their
/// tokens.
#[verifier::spinoff_prover]
pub proof fn lemma_reads_members(
    input: Seq<u8>,
    p: Loc,
    s: Seq<(Seq<char>, ValueView)>,
    ind: Option<nat>,
    depth: nat,
) -> (r: (Seq<PosTok>, Loc))
    requires
        members_wf(s),
        bytes_at(input, p.offset, encode_utf8(render_members(s, ind, depth))),
        follows_value(input, p.offset + encode_utf8(render_members(s, ind, depth)).len()),
    ensures
        r.1.offset == p.offset + encode_utf8(render_members(s, ind, depth)).len(),
        reads(input, p, r.0, r.1),
        kinds(r.0) == members_tokens(s),
    decreases s, 1nat,
{
    if s.len() == 0 {
        assert(render_members(s, ind, depth) == Seq::<char>::empty());
        assert(encode_utf8(Seq::<char>::empty()) == Seq::<u8>::empty());
        lemma_reads_nothing(input, p);
        assert(kinds(Seq::<PosTok>::empty()) =~= Seq::<TokenView>::empty());
        (Seq::empty(), p)
    } else {
        let kp = lead(ind, depth) + quoted(s[0].0) + colon(ind);
        let rv = render(s[0].1, ind, depth + 1);
        let sp = separator(ind, s.len() > 1);
        let rr = render_members(s.drop_first(), ind, depth);
        assert(render_members(s, ind, depth) == kp + rv + sp + rr);
        lemma_enc_split(input, p.offset, kp + rv + sp, rr);
        lemma_enc_split(input, p.offset, kp + rv, sp);
        lemma_enc_split(input, p.offset, kp, rv);
        let (k, q1) = lemma_reads_key(input, p, s[0].0, ind, depth);
        lemma_separator_first_byte(input, q1.offset + encode_utf8(rv).len(), ind, s.len() > 1);
        if sp.len() == 0 {
            assert(s.len() == 1);
            assert(s.drop_first().len() == 0);
            assert(rr == Seq::<char>::empty());
            assert(encode_utf8(rr) == Seq::<u8>::empty());
        }
        let (a, q2) = lemma_reads_value(input, q1, s[0].1, ind, depth + 1);
        let (b, q3) = lemma_reads_separator(input, q2, ind, s.len() > 1);
        let (c, q4) = lemma_reads_members(input, q3, s.drop_first(), ind, depth);
        lemma_reads_trans(input, p, k, q1, a, q2);
        lemma_reads_trans(input, p, k + a, q2, b, q3);
        lemma_reads_trans(input, p, k + a + b, q3, c, q4);
        lemma_kinds_concat(k, a);
        lemma_kinds_concat(k + a, b);
        lemma_kinds_concat(k + a + b, c);
        (k + a + b + c, q4)
    }
}

/// The opening of a container: its bracket and, in pretty text, the line
/// break after it.
pub proof fn lemma_reads_open(input: Seq<u8>, p: Loc, open: char, ob: u8, t: TokenView, ind: Option<nat>) -> (r: (Seq<PosTok>, Loc))
    requires
        open <= '\u{7f}',
        open as u8 == ob,
        (ob == 0x5B && t == TokenView::BeginArray) || (ob == 0x7B && t == TokenView::BeginObject),
        bytes_at(input, p.offset, encode_utf8(opening(open, ind))),
    ensures
        r.1.offset == p.offset + encode_utf8(opening(open, ind)).len(),
        reads(input, p, r.0, r.1),
        kinds(r.0) == seq![t],
{
    let nl: Seq<char> = match ind {
        None => Seq::empty(),
        Some(_) => seq!['\n'],
    };
    assert(opening(open, ind) == seq![open] + nl);
    lemma_enc_split(input, p.offset, seq![open], nl);
    lemma_char_at(input, p.offset, open);
    let (a, q1) = lemma_reads_punct(input, p, ob, t);
    let q2 = lemma_reads_blank(input, q1, nl);
    lemma_reads_trans(input, p, a, q1, Seq::empty(), q2);
    assert(a + Seq::<PosTok>::empty() =~= a);
    (a, q2)
}

pub open spec fn opening(open: char, ind: Option<nat>) -> Seq<char> {
    match ind {
        None => seq![open],
        Some(_) => seq![open, '\n'],
    }
}

pub open spec fn closing(close: char, ind: Option<nat>, depth: nat) -> Seq<char> {
    match ind {
        None => seq![close],
        Some(k) => indent(k, depth) + seq![close],
    }
}

pub proof fn lemma_closing_follows(input: Seq<u8>, j: nat, close: char, ind: Option<nat>, depth: nat)
    requires
        close == ']' || close == '}',
        bytes_at(input, j, encode_utf8(closing(close, ind, depth))),
    ensures
        follows_value(input, j),
{
    let ws: Seq<char> = match ind {
        None => Seq::empty(),
        Some(k) => indent(k, depth),
    };
    if let Some(k) = ind {
        lemma_indent_blank(k, depth);
    }
    assert(closing(close, ind, depth) == ws + seq![close]);
    lemma_enc_split(input, j, ws, seq![close]);
    assert(is_ascii_chars(ws));
    lemma_ascii_bytes(ws);
    lemma_bytes_at(input, j, encode_utf8(ws));
    if ws.len() > 0 {
        assert(input[j + 0int] == text_bytes(ws)[0]);
    } else {
        lemma_char_at(input, j, close);
    }
}

/// The closing of a container: in pretty text its indentation, then its
/// bracket.
pub proof fn lemma_reads_close(input: Seq<u8>, p: Loc, close: char, cb: u8, t: TokenView, ind: Option<nat>, depth: nat) -> (r: (Seq<PosTok>, Loc))
    requires
        close == ']' || close == '}',
        close as u8 == cb,
        (cb == 0x5D && t == TokenView::EndArray) || (cb == 0x7D && t == TokenView::EndObject),
        bytes_at(input, p.offset, encode_utf8(closing(close, ind, depth))),
    ensures
        r.1.offset == p.offset + encode_utf8(closing(close, ind, depth)).len(),
        reads(input, p, r.0, r.1),
        kinds(r.0) == seq![t],
{
    let ws: Seq<char> = match ind {
        None => Seq::empty(),
        Some(k) => indent(k, depth),
    };
    if let Some(k) = ind {
        lemma_indent_blank(k, depth);
    }
    assert(closing(close, ind, depth) == ws + seq![close]);
    lemma_enc_split(input, p.offset, ws, seq![close]);
    assert(is_ascii_chars(ws));
    lemma_ascii_bytes(ws);
    let q1 = lemma_reads_blank(input, p, ws);
    lemma_char_at(input, q1.offset, close);
    let (a, q2) = lemma_reads_punct(input, q1, cb, t);
    lemma_reads_trans(input, p, Seq::empty(), q1, a, q2);
    assert(Seq::<PosTok>::empty() + a =~= a);
    (a, q2)
}

/// A non-empty array, as the serialiser writes it, reads as its tokens.
pub proof fn lemma_reads_array(input: Seq<u8>, p: Loc, items: Seq<ValueView>, ind: Option<nat>, depth: nat) -> (r: (Seq<PosTok>, Loc))
    requires
        items.len() > 0,
        items_wf(items),
        bytes_at(input, p.offset, encode_utf8(render(ValueView::Array(items), ind, depth))),
    ensures
        r.1.offset == p.offset + encode_utf8(render(ValueView::Array(items), ind, depth)).len(),
        reads(input, p, r.0, r.1),
        kinds(r.0) == value_tokens(ValueView::Array(items)),
    decreases items, 2nat,
{
    let op = opening('[', ind);
    let ri = render_items(items, ind, depth);
    let cl = closing(']', ind, depth);
    assert(render(ValueView::Array(items), ind, depth) =~= op + ri + cl);
    lemma_enc_split(input, p.offset, op + ri, cl);
    lemma_enc_split(input, p.offset, op, ri);
    let (a, q1) = lemma_reads_open(input, p, '[', 0x5B, TokenView::BeginArray, ind);
    lemma_closing_follows(input, q1.offset + encode_utf8(ri).len(), ']', ind, depth);
    let (b, q2) = lemma_reads_items(input, q1, items, ind, depth);
    let (c, q3) = lemma_reads_close(input, q2, ']', 0x5D, TokenView::EndArray, ind, depth);
    lemma_reads_trans(input, p, a, q1, b, q2);
    lemma_reads_trans(input, p, a + b, q2, c, q3);
    lemma_kinds_concat(a, b);
    lemma_kinds_concat(a + b, c);
    (a + b + c, q3)
}

/// A non-empty object, as the serialiser writes it, reads as its tokens.
pub proof fn lemma_reads_object(input: Seq<u8>, p: Loc, members: Seq<(Seq<char>, ValueView)>, ind: Option<nat>, depth: nat) -> (r: (Seq<PosTok>, Loc))
    requires
        members.len() > 0,
        members_wf(members),
        bytes_at(input, p.offset, encode_utf8(render(ValueView::Object(members), ind, depth))),
    ensures
        r.1.offset == p.offset + encode_utf8(render(ValueView::Object(members), ind, depth)).len(),
        reads(input, p, r.0, r.1),
        kinds(r.0) == value_tokens(ValueView::Object(members)),
    decreases members, 2nat,
{
    let op = opening('{', ind);
    let rm = render_members(members, ind, depth);
    let cl = closing('}', ind, depth);
    assert(render(ValueView::Object(members), ind, depth) =~= op + rm + cl);
    lemma_enc_split(input, p.offset, op + rm, cl);
    lemma_enc_split(input, p.offset, op, rm);
    let (a, q1) = lemma_reads_open(input, p, '{', 0x7B, TokenView::BeginObject, ind);
    lemma_closing_follows(input, q1.offset + encode_utf8(rm).len(), '}', ind, depth);
    let (b, q2) = lemma_reads_members(input, q1, members, ind, depth);
    let (c, q3) = lemma_reads_close(input, q2, '}', 0x7D, TokenView::EndObject, ind, depth);
    lemma_reads_trans(input, p, a, q1, b, q2);
    lemma_reads_trans(input, p, a + b, q2, c, q3);
    lemma_kinds_concat(a, b);
    lemma_kinds_concat(a + b, c);
    (a + b + c, q3)
}

/// A value, as the serialiser writes it, reads as its tokens.
pub proof fn lemma_reads_value(input: Seq<u8>, p: Loc, v: ValueView, ind: Option<nat>, depth: nat) -> (r: (Seq<PosTok>, Loc))
    requires
        value_wf(v),
        bytes_at(input, p.offset, encode_utf8(render(v, ind, depth))),
        follows_value(input, p.offset + encode_utf8(render(v, ind, depth)).len()),
    ensures
        r.1.offset == p.offset + encode_utf8(render(v, ind, depth)).len(),
        reads(input, p, r.0, r.1),
        kinds(r.0) == value_tokens(v),
    decreases v, 0nat,
{
    match v {
        ValueView::Null => lemma_reads_literal(input, p, v, ind, depth),
        ValueView::Bool(_) => lemma_reads_literal(input, p, v, ind, depth),
        ValueView::Number(n) => {
            let t = n->Some_0;
            assert(render(v, ind, depth) == t);
            lemma_ascii_bytes(t);
            lemma_number_token(input, p, t);
            let e = cols(p, t.len());
            lemma_reads_token(input, p, TokenView::Number(Some(t)), e);
            let pt = PosTok { token: TokenView::Number(Some(t)), pos: p, end: e };
            lemma_kinds_one(pt);
            (seq![pt], e)
        },
        ValueView::String(s) => {
            let e = lemma_string_token(input, p, s);
            lemma_reads_token(input, p, TokenView::String(s), e);
            let pt = PosTok { token: TokenView::String(s), pos: p, end: e };
            lemma_kinds_one(pt);
            (seq![pt], e)
        },
        ValueView::Array(items) => {
            if items.len() == 0 {
                let cs = seq!['[', ']'];
                assert(render(v, ind, depth) == seq!['['] + seq![']']);
                lemma_enc_split(input, p.offset, seq!['['], seq![']']);
                lemma_char_at(input, p.offset, '[');
                lemma_char_at(input, p.offset + 1, ']');
                let (a, q1) = lemma_reads_punct(input, p, 0x5B, TokenView::BeginArray);
                let (b, q2) = lemma_reads_punct(input, q1, 0x5D, TokenView::EndArray);
                lemma_reads_trans(input, p, a, q1, b, q2);
                lemma_kinds_concat(a, b);
                (a + b, q2)
            } else {
                lemma_reads_array(input, p, items, ind, depth)
            }
        },
        ValueView::Object(members) => {
            if members.len() == 0 {
                assert(render(v, ind, depth) == seq!['{'] + seq!['}']);
                lemma_enc_split(input, p.offset, seq!['{'], seq!['}']);
                lemma_char_at(input, p.offset, '{');
                lemma_char_at(input, p.offset + 1, '}');
                let (a, q1) = lemma_reads_punct(input, p, 0x7B, TokenView::BeginObject);
                let (b, q2) = lemma_reads_punct(input, q1, 0x7D, TokenView::EndObject);
                lemma_reads_trans(input, p, a, q1, b, q2);
                lemma_kinds_concat(a, b);
                (a + b, q2)
            } else {
                lemma_reads_object(input, p, members, ind, depth)
            }
        },
    }
}


// ---------------------------------------------------------------------
// The whole text.
// ---------------------------------------------------------------------

/// The tokeniser reads the text of `v` as the tokens of `v`.
pub proof fn lemma_tokenise_rendered(v: ValueView, ind: Option<nat>) -> (ts: Seq<PosTok>)
    requires
        value_wf(v),
    ensures
        tokenise_spec(encode_utf8(render(v, ind, 0))) == Ok::<Seq<PosTok>, ErrorView>(ts),
        kinds(ts) == value_tokens(v),
{
    let input = encode_utf8(render(v, ind, 0));
    assert(input.subrange(0, input.len() as int) =~= input);
    let (ts, q) = lemma_reads_value(input, start_loc(), v, ind, 0);
    lemma_skip_ws(input, q);
    assert(tokenise_from(input, q) == Ok::<Seq<PosTok>, ErrorView>(Seq::empty()));
    assert(ts + Seq::<PosTok>::empty() =~= ts);
    ts
}

/// The parser reads the text of `v` back as `v`.
pub proof fn lemma_parse_rendered(v: ValueView, ind: Option<nat>, l: nat)
    requires
        value_wf(v),
        height(v) <= l,
    ensures
        parse_spec(encode_utf8(render(v, ind, 0)), l) == Ok::<ValueView, ErrorView>(v),
{
    let ts = lemma_tokenise_rendered(v, ind);
    let vt = value_tokens(v);
    assert forall|i: int| 0 <= i < vt.len() implies #[trigger] ts[0 + i].token == vt[i] by {
        assert(kinds(ts)[i] == ts[i].token);
    }
    lemma_parse_value_tokens(ts, 0, 0, l, v);
}

} // verus!
