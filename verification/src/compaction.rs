//! Why minifying the text that the serialiser writes gives its compact
//! text: the pretty text is the compact text with whitespace between
//! tokens, and minification drops exactly that whitespace.
use vstd::prelude::*;
use vstd::utf8::{encode_scalar, encode_utf8, encode_utf8_first_scalar, has_width_1_encoding, is_ascii_chars};

use crate::cjson::{copy_string, is_minify_ws, minify_from};
use crate::range::{lemma_digit_run, lemma_number_parts, exp_digits_start, frac_end, int_end, int_start};
use crate::roundtrip::{
    bytes_at, items_wf, lemma_ascii_bytes, lemma_bytes_at, lemma_bytes_at_split, lemma_enc_split,
    lemma_encode_concat, lemma_escape_chars_front, lemma_indent_blank, lemma_lead_blank,
    members_wf, value_wf,
};
use crate::serialiser::{
    colon, escape_char, escape_chars, hex_digit, lead, quoted, render, render_items,
    render_members, separator,
};
use crate::tokeniser::{byte_is, digits_end, is_digit, number_end, text_bytes};
use crate::value::ValueView;

verus! {

/// Minifying from `r` writes `out` and then goes on from `r2`.
pub open spec fn min_reads(b: Seq<u8>, r: nat, out: Seq<u8>, r2: nat) -> bool {
    minify_from(b, r) == out + minify_from(b, r2)
}

pub proof fn lemma_min_trans(b: Seq<u8>, r: nat, o1: Seq<u8>, r1: nat, o2: Seq<u8>, r2: nat)
    requires
        min_reads(b, r, o1, r1),
        min_reads(b, r1, o2, r2),
    ensures
        min_reads(b, r, o1 + o2, r2),
{
    assert(o1 + (o2 + minify_from(b, r2)) =~= (o1 + o2) + minify_from(b, r2));
}

/// A byte that minification copies as it stands: no whitespace, quote or
/// slash.
pub open spec fn plain(c: u8) -> bool {
    !is_minify_ws(c) && c != 0x22 && c != 0x2F
}

/// Whitespace is dropped.
pub proof fn lemma_min_ws(b: Seq<u8>, r: nat, n: nat)
    requires
        r + n <= b.len(),
        forall|k: int| 0 <= k < n ==> is_minify_ws(#[trigger] b[r + k]),
    ensures
        min_reads(b, r, Seq::empty(), r + n),
    decreases n,
{
    if n == 0 {
        assert(Seq::<u8>::empty() + minify_from(b, r) =~= minify_from(b, r));
    } else {
        assert(is_minify_ws(b[r + 0int]));
        assert forall|k: int| 0 <= k < n - 1 implies is_minify_ws(#[trigger] b[(r + 1) + k]) by {
            assert(is_minify_ws(b[r + (k + 1)]));
        }
        lemma_min_ws(b, r + 1, (n - 1) as nat);
    }
}

/// Plain bytes are copied.
pub proof fn lemma_min_plain(b: Seq<u8>, r: nat, bs: Seq<u8>)
    requires
        bytes_at(b, r, bs),
        forall|k: int| 0 <= k < bs.len() ==> plain(#[trigger] bs[k]),
    ensures
        min_reads(b, r, bs, r + bs.len()),
    decreases bs.len(),
{
    lemma_bytes_at(b, r, bs);
    if bs.len() == 0 {
        assert(bs + minify_from(b, r) =~= minify_from(b, r));
    } else {
        assert(b[r + 0int] == bs[0]);
        assert(plain(bs[0]));
        let rest = bs.drop_first();
        assert(seq![bs[0]] + rest =~= bs);
        lemma_bytes_at_split(b, r, seq![bs[0]], rest);
        assert forall|k: int| 0 <= k < rest.len() implies plain(#[trigger] rest[k]) by {
            assert(rest[k] == bs[k + 1]);
        }
        lemma_min_plain(b, r + 1, rest);
        assert(minify_from(b, r) == seq![bs[0]] + minify_from(b, r + 1));
        assert(seq![bs[0]] + (rest + minify_from(b, r + 1 + rest.len())) =~= bs + minify_from(
            b,
            r + bs.len(),
        ));
    }
}

/// ASCII characters none of which is whitespace, a quote or a slash are
/// copied.
pub proof fn lemma_min_plain_chars(b: Seq<u8>, r: nat, cs: Seq<char>)
    requires
        is_ascii_chars(cs),
        forall|k: int| 0 <= k < cs.len() ==> plain(#[trigger] cs[k] as u8),
        bytes_at(b, r, encode_utf8(cs)),
    ensures
        min_reads(b, r, encode_utf8(cs), r + encode_utf8(cs).len()),
{
    lemma_ascii_bytes(cs);
    let tb = text_bytes(cs);
    assert forall|k: int| 0 <= k < tb.len() implies plain(#[trigger] tb[k]) by {
        assert(tb[k] == cs[k] as u8);
    }
    lemma_min_plain(b, r, tb);
}

/// Spaces and line feeds are dropped.
pub proof fn lemma_min_blank(b: Seq<u8>, r: nat, cs: Seq<char>)
    requires
        forall|i: int| 0 <= i < cs.len() ==> #[trigger] cs[i] == ' ' || cs[i] == '\n',
        bytes_at(b, r, encode_utf8(cs)),
    ensures
        min_reads(b, r, Seq::empty(), r + encode_utf8(cs).len()),
{
    assert(is_ascii_chars(cs));
    lemma_ascii_bytes(cs);
    lemma_bytes_at(b, r, encode_utf8(cs));
    assert forall|k: int| 0 <= k < cs.len() implies is_minify_ws(#[trigger] b[r + k]) by {
        assert(b[r + k] == text_bytes(cs)[k]);
    }
    lemma_min_ws(b, r, cs.len());
}

// ---------------------------------------------------------------------
// Strings are copied as they stand.
// ---------------------------------------------------------------------

/// The bytes of one escaped character, then whatever follows, are copied.
pub proof fn lemma_copy_char(b: Seq<u8>, r: nat, c: char)
    requires
        bytes_at(b, r, encode_utf8(escape_char(c))),
        r + encode_utf8(escape_char(c)).len() < b.len(),
    ensures
        ({
            let k = encode_utf8(escape_char(c)).len();
            copy_string(b, r) == (encode_utf8(escape_char(c)) + copy_string(b, r + k).0,
            copy_string(b, r + k).1)
        }),
{
    let ec = escape_char(c);
    let en = encode_utf8(ec);
    let u = c as u32;
    lemma_bytes_at(b, r, en);
    if c == '"' || c == '\\' || c == '\n' || c == '\r' || c == '\t' || c == '\u{0008}' || c
        == '\u{000C}' {
        assert(is_ascii_chars(ec));
        lemma_ascii_bytes(ec);
        assert(b[r + 0int] == text_bytes(ec)[0]);
        assert(b[r + 1int] == text_bytes(ec)[1]);
        assert(en =~= seq![b[r as int], b[r + 1int]]);
    } else if u < 0x20 {
        let n1 = (u / 16) as nat;
        let n2 = (u % 16) as nat;
        crate::roundtrip::lemma_hex_digit_byte(n1);
        crate::roundtrip::lemma_hex_digit_byte(n2);
        assert(ec == seq!['\\', 'u', '0', '0', hex_digit(n1), hex_digit(n2)]);
        assert(is_ascii_chars(ec));
        lemma_ascii_bytes(ec);
        let tb = text_bytes(ec);
        assert(b[r + 0int] == tb[0] && tb[0] == 0x5C);
        assert(b[r + 1int] == tb[1] && tb[1] == 0x75);
        assert(b[r + 2int] == tb[2] && tb[2] == 0x30);
        assert(b[r + 3int] == tb[3] && tb[3] == 0x30);
        assert(b[r + 4int] == tb[4] && tb[4] == hex_digit(n1) as u8);
        assert(b[r + 5int] == tb[5] && tb[5] == hex_digit(n2) as u8);
        assert(tb[4] != 0x22 && tb[4] != 0x5C && tb[5] != 0x22 && tb[5] != 0x5C);
        assert(copy_string(b, r + 5) == (seq![b[r + 5int]] + copy_string(b, r + 6).0,
        copy_string(b, r + 6).1));
        assert(copy_string(b, r + 4) == (seq![b[r + 4int]] + copy_string(b, r + 5).0,
        copy_string(b, r + 5).1));
        assert(copy_string(b, r + 3) == (seq![b[r + 3int]] + copy_string(b, r + 4).0,
        copy_string(b, r + 4).1));
        assert(copy_string(b, r + 2) == (seq![b[r + 2int]] + copy_string(b, r + 3).0,
        copy_string(b, r + 3).1));
        assert(en =~= seq![b[r as int], b[r + 1int]] + seq![b[r + 2int]] + seq![b[r + 3int]]
            + seq![b[r + 4int]] + seq![b[r + 5int]]);
        let t = copy_string(b, r + 6).0;
        assert(seq![b[r as int], b[r + 1int]] + (seq![b[r + 2int]] + (seq![b[r + 3int]] + (seq![
            b[r + 4int],
        ] + (seq![b[r + 5int]] + t)))) =~= en + t);
    } else if u < 0x80 {
        assert(ec == seq![c]);
        assert(is_ascii_chars(ec));
        lemma_ascii_bytes(ec);
        assert(b[r + 0int] == text_bytes(ec)[0]);
        assert(en =~= seq![b[r as int]]);
    } else {
        assert(ec == seq![c]);
        encode_utf8_first_scalar(ec);
        assert(!has_width_1_encoding(u));
        assert(ec.drop_first() =~= Seq::<char>::empty());
        assert(en == encode_scalar(u) + encode_utf8(Seq::<char>::empty()));
        lemma_copy_high(b, r, en);
    }
}

/// Bytes at or above 0x80 are copied one by one.
pub proof fn lemma_copy_high(b: Seq<u8>, r: nat, bs: Seq<u8>)
    requires
        bytes_at(b, r, bs),
        r + bs.len() < b.len(),
        forall|k: int| 0 <= k < bs.len() ==> #[trigger] bs[k] >= 0x80,
    ensures
        copy_string(b, r) == (bs + copy_string(b, r + bs.len()).0, copy_string(b, r + bs.len()).1),
    decreases bs.len(),
{
    lemma_bytes_at(b, r, bs);
    if bs.len() == 0 {
        assert(bs + copy_string(b, r).0 =~= copy_string(b, r).0);
    } else {
        assert(b[r + 0int] == bs[0]);
        let rest = bs.drop_first();
        assert(seq![bs[0]] + rest =~= bs);
        lemma_bytes_at_split(b, r, seq![bs[0]], rest);
        assert forall|k: int| 0 <= k < rest.len() implies #[trigger] rest[k] >= 0x80 by {
            assert(rest[k] == bs[k + 1]);
        }
        lemma_copy_high(b, r + 1, rest);
        let t = copy_string(b, r + 1 + rest.len()).0;
        assert(seq![bs[0]] + (rest + t) =~= bs + t);
    }
}

/// The body of a quoted string, as the serialiser writes it, is copied up
/// to and with its closing quote.
pub proof fn lemma_copy_escaped(b: Seq<u8>, r: nat, s: Seq<char>)
    requires
        bytes_at(b, r, encode_utf8(escape_chars(s)) + seq![0x22u8]),
    ensures
        copy_string(b, r) == (encode_utf8(escape_chars(s)) + seq![0x22u8], r + encode_utf8(
            escape_chars(s),
        ).len() + 1),
    decreases s.len(),
{
    if s.len() == 0 {
        assert(escape_chars(s) == Seq::<char>::empty());
        assert(encode_utf8(escape_chars(s)) == Seq::<u8>::empty());
        lemma_bytes_at(b, r, encode_utf8(escape_chars(s)) + seq![0x22u8]);
        assert(b[r + 0int] == 0x22);
        assert(Seq::<u8>::empty() + seq![0x22u8] =~= seq![0x22u8]);
    } else {
        let c = s[0];
        let s1 = s.drop_first();
        lemma_escape_chars_front(s);
        lemma_encode_concat(escape_char(c), escape_chars(s1));
        let a = encode_utf8(escape_char(c));
        let e = encode_utf8(escape_chars(s1));
        assert(encode_utf8(escape_chars(s)) + seq![0x22u8] =~= a + (e + seq![0x22u8]));
        lemma_bytes_at_split(b, r, a, e + seq![0x22u8]);
        lemma_copy_char(b, r, c);
        lemma_copy_escaped(b, r + a.len(), s1);
        assert(a + (e + seq![0x22u8]) =~= encode_utf8(escape_chars(s)) + seq![0x22u8]);
    }
}

/// A quoted string, as the serialiser writes it, is copied.
pub proof fn lemma_min_string(b: Seq<u8>, r: nat, s: Seq<char>)
    requires
        bytes_at(b, r, encode_utf8(quoted(s))),
    ensures
        min_reads(b, r, encode_utf8(quoted(s)), r + encode_utf8(quoted(s)).len()),
{
    let es = encode_utf8(escape_chars(s));
    lemma_encode_concat(seq!['"'], escape_chars(s));
    lemma_encode_concat(seq!['"'] + escape_chars(s), seq!['"']);
    assert(is_ascii_chars(seq!['"']));
    lemma_ascii_bytes(seq!['"']);
    assert(encode_utf8(seq!['"']) =~= seq![0x22u8]);
    assert(encode_utf8(quoted(s)) =~= seq![0x22u8] + (es + seq![0x22u8]));
    lemma_bytes_at_split(b, r, seq![0x22u8], es + seq![0x22u8]);
    lemma_bytes_at(b, r, seq![0x22u8]);
    assert(b[r + 0int] == 0x22);
    lemma_copy_escaped(b, r + 1, s);
    crate::cjson::lemma_copy_string(b, r + 1);
    let (cs, e) = copy_string(b, r + 1);
    assert(minify_from(b, r) == seq![0x22u8] + cs + minify_from(b, e));
    assert(seq![0x22u8] + cs + minify_from(b, e) =~= encode_utf8(quoted(s)) + minify_from(b, e));
}

// ---------------------------------------------------------------------
// Numbers.
// ---------------------------------------------------------------------

/// A byte of a number: a digit, a sign, a decimal point or an exponent
/// marker.
pub open spec fn number_byte(c: u8) -> bool {
    is_digit(c) || c == 0x2D || c == 0x2B || c == 0x2E || c == 0x65 || c == 0x45
}

pub proof fn lemma_number_bytes(tb: Seq<u8>)
    requires
        number_end(tb, 0) == Some(tb.len()),
    ensures
        forall|k: int| 0 <= k < tb.len() ==> number_byte(#[trigger] tb[k]),
{
    let n = tb.len();
    lemma_number_parts(tb, 0, n);
    let i0 = int_start(tb, 0);
    let i1 = int_end(tb, 0);
    let i2 = frac_end(tb, 0);
    let j = exp_digits_start(tb, 0);
    lemma_digit_run(tb, i0 + 1);
    lemma_digit_run(tb, i1 + 1);
    lemma_digit_run(tb, j);
    assert forall|k: int| 0 <= k < n implies number_byte(#[trigger] tb[k]) by {
        if k < i0 {
            assert(byte_is(tb, 0, 0x2D));
        } else if k < i1 {
            if byte_is(tb, i0, 0x30) {
                assert(k == i0);
            } else if k > i0 {
                assert(i0 + 1 <= k < digits_end(tb, i0 + 1));
            }
        } else if k < i2 {
            if k > i1 {
                assert(i1 + 1 <= k < digits_end(tb, i1 + 1));
            }
        } else if k < j {
        } else {
            assert(j <= k < digits_end(tb, j));
        }
    }
}

// ---------------------------------------------------------------------
// Values.
// ---------------------------------------------------------------------

/// A value, as the serialiser writes it compact or pretty, minifies to its
/// compact text.
pub proof fn lemma_min_value(b: Seq<u8>, r: nat, v: ValueView, ind: Option<nat>, depth: nat)
    requires
        value_wf(v),
        bytes_at(b, r, encode_utf8(render(v, ind, depth))),
    ensures
        min_reads(
            b,
            r,
            encode_utf8(render(v, None, depth)),
            r + encode_utf8(render(v, ind, depth)).len(),
        ),
    decreases v, 0nat,
{
    let cs = render(v, ind, depth);
    match v {
        ValueView::Null | ValueView::Bool(_) => {
            assert(is_ascii_chars(cs));
            lemma_min_plain_chars(b, r, cs);
        },
        ValueView::Number(n) => {
            let t = n->Some_0;
            lemma_ascii_bytes(t);
            lemma_number_bytes(text_bytes(t));
            assert forall|k: int| 0 <= k < t.len() implies plain(#[trigger] t[k] as u8) by {
                assert(text_bytes(t)[k] == t[k] as u8);
            }
            lemma_min_plain_chars(b, r, t);
        },
        ValueView::String(s) => {
            lemma_min_string(b, r, s);
        },
        ValueView::Array(items) => {
            if items.len() == 0 {
                assert(is_ascii_chars(cs));
                lemma_min_plain_chars(b, r, cs);
            } else {
                lemma_min_array(b, r, items, ind, depth);
            }
        },
        ValueView::Object(members) => {
            if members.len() == 0 {
                assert(is_ascii_chars(cs));
                lemma_min_plain_chars(b, r, cs);
            } else {
                lemma_min_object(b, r, members, ind, depth);
            }
        },
    }
}

/// The opening of a container, pretty or compact, minifies to its bracket.
pub proof fn lemma_min_open(b: Seq<u8>, r: nat, open: char, ind: Option<nat>)
    requires
        open == '[' || open == '{',
        bytes_at(b, r, encode_utf8(crate::roundtrip::opening(open, ind))),
    ensures
        min_reads(b, r, encode_utf8(seq![open]), r + encode_utf8(crate::roundtrip::opening(open, ind)).len()),
{
    let nl: Seq<char> = match ind {
        None => Seq::empty(),
        Some(_) => seq!['\n'],
    };
    assert(crate::roundtrip::opening(open, ind) == seq![open] + nl);
    lemma_enc_split(b, r, seq![open], nl);
    assert(is_ascii_chars(seq![open]));
    lemma_min_plain_chars(b, r, seq![open]);
    lemma_min_blank(b, r + encode_utf8(seq![open]).len(), nl);
    lemma_min_trans(b, r, encode_utf8(seq![open]), r + encode_utf8(seq![open]).len(), Seq::empty(), r + encode_utf8(crate::roundtrip::opening(open, ind)).len());
    assert(encode_utf8(seq![open]) + Seq::<u8>::empty() =~= encode_utf8(seq![open]));
}

/// The closing of a container, pretty or compact, minifies to its bracket.
pub proof fn lemma_min_close(b: Seq<u8>, r: nat, close: char, ind: Option<nat>, depth: nat)
    requires
        close == ']' || close == '}',
        bytes_at(b, r, encode_utf8(crate::roundtrip::closing(close, ind, depth))),
    ensures
        min_reads(b, r, encode_utf8(seq![close]), r + encode_utf8(crate::roundtrip::closing(close, ind, depth)).len()),
{
    let ws: Seq<char> = match ind {
        None => Seq::empty(),
        Some(k) => crate::serialiser::indent(k, depth),
    };
    if let Some(k) = ind {
        lemma_indent_blank(k, depth);
    }
    assert(crate::roundtrip::closing(close, ind, depth) == ws + seq![close]);
    lemma_enc_split(b, r, ws, seq![close]);
    lemma_min_blank(b, r, ws);
    assert(is_ascii_chars(seq![close]));
    lemma_min_plain_chars(b, r + encode_utf8(ws).len(), seq![close]);
    lemma_min_trans(b, r, Seq::empty(), r + encode_utf8(ws).len(), encode_utf8(seq![close]), r + encode_utf8(crate::roundtrip::closing(close, ind, depth)).len());
    assert(Seq::<u8>::empty() + encode_utf8(seq![close]) =~= encode_utf8(seq![close]));
}

/// What follows an item of a container minifies to its comma, if any.
pub proof fn lemma_min_separator(b: Seq<u8>, r: nat, ind: Option<nat>, more: bool)
    requires
        bytes_at(b, r, encode_utf8(separator(ind, more))),
    ensures
        min_reads(b, r, encode_utf8(separator(None, more)), r + encode_utf8(separator(ind, more)).len()),
{
    let comma: Seq<char> = if more {
        seq![',']
    } else {
        Seq::empty()
    };
    let nl: Seq<char> = match ind {
        None => Seq::empty(),
        Some(_) => seq!['\n'],
    };
    assert(separator(ind, more) == comma + nl);
    assert(separator(None, more) == comma);
    lemma_enc_split(b, r, comma, nl);
    assert(is_ascii_chars(comma));
    lemma_min_plain_chars(b, r, comma);
    lemma_min_blank(b, r + encode_utf8(comma).len(), nl);
    lemma_min_trans(b, r, encode_utf8(comma), r + encode_utf8(comma).len(), Seq::empty(), r + encode_utf8(separator(ind, more)).len());
    assert(encode_utf8(comma) + Seq::<u8>::empty() =~= encode_utf8(comma));
}

/// The name-separator, pretty or compact, minifies to `:`.
pub proof fn lemma_min_colon(b: Seq<u8>, r: nat, ind: Option<nat>)
    requires
        bytes_at(b, r, encode_utf8(colon(ind))),
    ensures
        min_reads(b, r, encode_utf8(colon(None)), r + encode_utf8(colon(ind)).len()),
{
    let sp: Seq<char> = match ind {
        None => Seq::empty(),
        Some(_) => seq![' '],
    };
    assert(colon(ind) == seq![':'] + sp);
    assert(colon(None) == seq![':']);
    lemma_enc_split(b, r, seq![':'], sp);
    assert(is_ascii_chars(seq![':']));
    lemma_min_plain_chars(b, r, seq![':']);
    lemma_min_blank(b, r + encode_utf8(seq![':']).len(), sp);
    lemma_min_trans(b, r, encode_utf8(seq![':']), r + encode_utf8(seq![':']).len(), Seq::empty(), r + encode_utf8(colon(ind)).len());
    assert(encode_utf8(seq![':']) + Seq::<u8>::empty() =~= encode_utf8(seq![':']));
}

pub proof fn lemma_min_items(b: Seq<u8>, r: nat, s: Seq<ValueView>, ind: Option<nat>, depth: nat)
    requires
        items_wf(s),
        bytes_at(b, r, encode_utf8(render_items(s, ind, depth))),
    ensures
        min_reads(
            b,
            r,
            encode_utf8(render_items(s, None, depth)),
            r + encode_utf8(render_items(s, ind, depth)).len(),
        ),
    decreases s, 1nat,
{
    if s.len() == 0 {
        assert(render_items(s, ind, depth) == Seq::<char>::empty());
        assert(render_items(s, None, depth) == Seq::<char>::empty());
        assert(encode_utf8(Seq::<char>::empty()) == Seq::<u8>::empty());
        assert(Seq::<u8>::empty() + minify_from(b, r) =~= minify_from(b, r));
    } else {
        let ld = lead(ind, depth);
        let rv = render(s[0], ind, depth + 1);
        let sp = separator(ind, s.len() > 1);
        let rr = render_items(s.drop_first(), ind, depth);
        assert(render_items(s, ind, depth) == ld + rv + sp + rr);
        assert(lead(None, depth) == Seq::<char>::empty());
        let cv = render(s[0], None, depth + 1);
        let csp = separator(None, s.len() > 1);
        let crr = render_items(s.drop_first(), None, depth);
        assert(render_items(s, None, depth) =~= cv + csp + crr);
        lemma_enc_split(b, r, ld + rv + sp, rr);
        lemma_enc_split(b, r, ld + rv, sp);
        lemma_enc_split(b, r, ld, rv);
        lemma_lead_blank(ind, depth);
        let r1 = r + encode_utf8(ld).len();
        let r2 = r1 + encode_utf8(rv).len();
        let r3 = r2 + encode_utf8(sp).len();
        let r4 = r3 + encode_utf8(rr).len();
        lemma_min_blank(b, r, ld);
        lemma_min_value(b, r1, s[0], ind, depth + 1);
        lemma_min_separator(b, r2, ind, s.len() > 1);
        lemma_min_items(b, r3, s.drop_first(), ind, depth);
        lemma_min_trans(b, r, Seq::empty(), r1, encode_utf8(cv), r2);
        assert(Seq::<u8>::empty() + encode_utf8(cv) =~= encode_utf8(cv));
        lemma_min_trans(b, r, encode_utf8(cv), r2, encode_utf8(csp), r3);
        lemma_min_trans(b, r, encode_utf8(cv) + encode_utf8(csp), r3, encode_utf8(crr), r4);
        lemma_encode_concat(cv, csp);
        lemma_encode_concat(cv + csp, crr);
    }
}

pub proof fn lemma_min_members(
    b: Seq<u8>,
    r: nat,
    s: Seq<(Seq<char>, ValueView)>,
    ind: Option<nat>,
    depth: nat,
)
    requires
        members_wf(s),
        bytes_at(b, r, encode_utf8(render_members(s, ind, depth))),
    ensures
        min_reads(
            b,
            r,
            encode_utf8(render_members(s, None, depth)),
            r + encode_utf8(render_members(s, ind, depth)).len(),
        ),
    decreases s, 1nat,
{
    if s.len() == 0 {
        assert(render_members(s, ind, depth) == Seq::<char>::empty());
        assert(render_members(s, None, depth) == Seq::<char>::empty());
        assert(encode_utf8(Seq::<char>::empty()) == Seq::<u8>::empty());
        assert(Seq::<u8>::empty() + minify_from(b, r) =~= minify_from(b, r));
    } else {
        let ld = lead(ind, depth);
        let qk = quoted(s[0].0);
        let co = colon(ind);
        let rv = render(s[0].1, ind, depth + 1);
        let sp = separator(ind, s.len() > 1);
        let rr = render_members(s.drop_first(), ind, depth);
        assert(render_members(s, ind, depth) == ld + qk + co + rv + sp + rr);
        assert(lead(None, depth) == Seq::<char>::empty());
        let cco = colon(None);
        let cv = render(s[0].1, None, depth + 1);
        let csp = separator(None, s.len() > 1);
        let crr = render_members(s.drop_first(), None, depth);
        assert(render_members(s, None, depth) =~= qk + cco + cv + csp + crr);
        lemma_enc_split(b, r, ld + qk + co + rv + sp, rr);
        lemma_enc_split(b, r, ld + qk + co + rv, sp);
        lemma_enc_split(b, r, ld + qk + co, rv);
        lemma_enc_split(b, r, ld + qk, co);
        lemma_enc_split(b, r, ld, qk);
        lemma_lead_blank(ind, depth);
        let r1 = r + encode_utf8(ld).len();
        let r2 = r1 + encode_utf8(qk).len();
        let r3 = r2 + encode_utf8(co).len();
        let r4 = r3 + encode_utf8(rv).len();
        let r5 = r4 + encode_utf8(sp).len();
        let r6 = r5 + encode_utf8(rr).len();
        lemma_min_blank(b, r, ld);
        lemma_min_string(b, r1, s[0].0);
        lemma_min_colon(b, r2, ind);
        lemma_min_value(b, r3, s[0].1, ind, depth + 1);
        lemma_min_separator(b, r4, ind, s.len() > 1);
        lemma_min_members(b, r5, s.drop_first(), ind, depth);
        let o1 = encode_utf8(qk);
        let o2 = encode_utf8(cco);
        let o3 = encode_utf8(cv);
        let o4 = encode_utf8(csp);
        let o5 = encode_utf8(crr);
        lemma_min_trans(b, r, Seq::empty(), r1, o1, r2);
        assert(Seq::<u8>::empty() + o1 =~= o1);
        lemma_min_trans(b, r, o1, r2, o2, r3);
        lemma_min_trans(b, r, o1 + o2, r3, o3, r4);
        lemma_min_trans(b, r, o1 + o2 + o3, r4, o4, r5);
        lemma_min_trans(b, r, o1 + o2 + o3 + o4, r5, o5, r6);
        lemma_encode_concat(qk, cco);
        lemma_encode_concat(qk + cco, cv);
        lemma_encode_concat(qk + cco + cv, csp);
        lemma_encode_concat(qk + cco + cv + csp, crr);
    }
}

pub proof fn lemma_min_array(b: Seq<u8>, r: nat, items: Seq<ValueView>, ind: Option<nat>, depth: nat)
    requires
        items.len() > 0,
        items_wf(items),
        bytes_at(b, r, encode_utf8(render(ValueView::Array(items), ind, depth))),
    ensures
        min_reads(
            b,
            r,
            encode_utf8(render(ValueView::Array(items), None, depth)),
            r + encode_utf8(render(ValueView::Array(items), ind, depth)).len(),
        ),
    decreases items, 2nat,
{
    let op = crate::roundtrip::opening('[', ind);
    let ri = render_items(items, ind, depth);
    let cl = crate::roundtrip::closing(']', ind, depth);
    assert(render(ValueView::Array(items), ind, depth) =~= op + ri + cl);
    let cri = render_items(items, None, depth);
    assert(render(ValueView::Array(items), None, depth) =~= seq!['['] + cri + seq![']']);
    lemma_enc_split(b, r, op + ri, cl);
    lemma_enc_split(b, r, op, ri);
    let r1 = r + encode_utf8(op).len();
    let r2 = r1 + encode_utf8(ri).len();
    let r3 = r2 + encode_utf8(cl).len();
    lemma_min_open(b, r, '[', ind);
    lemma_min_items(b, r1, items, ind, depth);
    lemma_min_close(b, r2, ']', ind, depth);
    let o1 = encode_utf8(seq!['[']);
    let o2 = encode_utf8(cri);
    let o3 = encode_utf8(seq![']']);
    lemma_min_trans(b, r, o1, r1, o2, r2);
    lemma_min_trans(b, r, o1 + o2, r2, o3, r3);
    lemma_encode_concat(seq!['['], cri);
    lemma_encode_concat(seq!['['] + cri, seq![']']);
}

pub proof fn lemma_min_object(
    b: Seq<u8>,
    r: nat,
    members: Seq<(Seq<char>, ValueView)>,
    ind: Option<nat>,
    depth: nat,
)
    requires
        members.len() > 0,
        members_wf(members),
        bytes_at(b, r, encode_utf8(render(ValueView::Object(members), ind, depth))),
    ensures
        min_reads(
            b,
            r,
            encode_utf8(render(ValueView::Object(members), None, depth)),
            r + encode_utf8(render(ValueView::Object(members), ind, depth)).len(),
        ),
    decreases members, 2nat,
{
    let op = crate::roundtrip::opening('{', ind);
    let rm = render_members(members, ind, depth);
    let cl = crate::roundtrip::closing('}', ind, depth);
    assert(render(ValueView::Object(members), ind, depth) =~= op + rm + cl);
    let crm = render_members(members, None, depth);
    assert(render(ValueView::Object(members), None, depth) =~= seq!['{'] + crm + seq!['}']);
    lemma_enc_split(b, r, op + rm, cl);
    lemma_enc_split(b, r, op, rm);
    let r1 = r + encode_utf8(op).len();
    let r2 = r1 + encode_utf8(rm).len();
    let r3 = r2 + encode_utf8(cl).len();
    lemma_min_open(b, r, '{', ind);
    lemma_min_members(b, r1, members, ind, depth);
    lemma_min_close(b, r2, '}', ind, depth);
    let o1 = encode_utf8(seq!['{']);
    let o2 = encode_utf8(crm);
    let o3 = encode_utf8(seq!['}']);
    lemma_min_trans(b, r, o1, r1, o2, r2);
    lemma_min_trans(b, r, o1 + o2, r2, o3, r3);
    lemma_encode_concat(seq!['{'], crm);
    lemma_encode_concat(seq!['{'] + crm, seq!['}']);
}

/// Minifying the text of `v`, compact or pretty, gives its compact text.
pub proof fn lemma_minify_rendered(v: ValueView, ind: Option<nat>)
    requires
        value_wf(v),
    ensures
        minify_from(encode_utf8(render(v, ind, 0)), 0) == encode_utf8(render(v, None, 0)),
{
    let b = encode_utf8(render(v, ind, 0));
    assert(b.subrange(0, b.len() as int) =~= b);
    lemma_min_value(b, 0, v, ind, 0);
    assert(encode_utf8(render(v, None, 0)) + Seq::<u8>::empty() =~= encode_utf8(
        render(v, None, 0),
    ));
}

} // verus!
