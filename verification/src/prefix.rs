//! Why the value that `parse_prefix` reads is the value of the prefix it
//! reports: reading a token looks at no byte past its end (but the one that
//! stops it), and reading a value looks at no token past its last.
use vstd::prelude::*;
use vstd::utf8::{decode_first_scalar, length_of_first_scalar, valid_first_scalar};

use crate::error::{ErrorView, Loc};
use crate::parser::{
    array_items, lemma_array_items_advances, lemma_object_members_advances, lemma_parse_advances,
    object_members, parse_value_at,
};
use crate::range::{
    exp_digits_start, exponent_value, frac_digits, frac_end, int_end, int_start,
    lemma_number_parts, mantissa_digits, scale, too_large,
};
use crate::token::{PosTok, TokenView};
use crate::tokeniser::{
    ascii_chars, byte_is, digit_at, digits_end, hex_run, lemma_next_token_advances,
    lemma_skip_ws, lemma_string_body_advances, lemma_unicode_escape_advances,
    next_token, number_end, rest, skip_ws, step, string_body, tokenise_from,
    tokenise_prefix_from, unicode_escape,
};
use crate::roundtrip::{lemma_reads_nothing, lemma_reads_trans, reads};
use crate::value::ValueView;

verus! {

// ---------------------------------------------------------------------
// Bytes.
// ---------------------------------------------------------------------

pub proof fn lemma_take_bytes(input: Seq<u8>, n: nat)
    requires
        n <= input.len(),
    ensures
        input.take(n as int).len() == n,
        forall|i: int| 0 <= i < n ==> #[trigger] input.take(n as int)[i] == input[i],
        forall|i: nat, b: u8| #[trigger]
            byte_is(input.take(n as int), i, b) == (i < n && byte_is(input, i, b)),
        forall|i: nat| #[trigger] digit_at(input.take(n as int), i) == (i < n && digit_at(input, i)),
{
}

pub proof fn lemma_digits_end_take(input: Seq<u8>, n: nat, i: nat)
    requires
        i <= n <= input.len(),
        digits_end(input, i) <= n,
    ensures
        digits_end(input.take(n as int), i) == digits_end(input, i),
    decreases input.len() - i,
{
    lemma_take_bytes(input, n);
    if digit_at(input, i) {
        crate::range::lemma_digit_run(input, i + 1);
        lemma_digits_end_take(input, n, i + 1);
    }
}

pub proof fn lemma_first_scalar_shorter(a: Seq<u8>, b: Seq<u8>)
    requires
        valid_first_scalar(b),
        length_of_first_scalar(b) <= a.len() <= b.len(),
        forall|k: int| 0 <= k < a.len() ==> #[trigger] a[k] == b[k],
    ensures
        valid_first_scalar(a),
        decode_first_scalar(a) == decode_first_scalar(b),
        length_of_first_scalar(a) == length_of_first_scalar(b),
{
    assert(a[0] == b[0]);
    if a.len() > 1 {
        assert(a[1] == b[1]);
    }
    if a.len() > 2 {
        assert(a[2] == b[2]);
    }
    if a.len() > 3 {
        assert(a[3] == b[3]);
    }
}

// ---------------------------------------------------------------------
// A token reads the same from a prefix that holds it.
// ---------------------------------------------------------------------

pub proof fn lemma_skip_ws_take(input: Seq<u8>, n: nat, p: Loc)
    requires
        n <= input.len(),
        skip_ws(input, p).offset < n,
    ensures
        skip_ws(input.take(n as int), p) == skip_ws(input, p),
    decreases input.len() - p.offset,
{
    lemma_take_bytes(input, n);
    lemma_skip_ws(input, p);
    if p.offset < input.len() && crate::tokeniser::is_ws(input[p.offset as int]) {
        lemma_skip_ws(input, step(p, input[p.offset as int]));
        lemma_skip_ws_take(input, n, step(p, input[p.offset as int]));
    }
}

pub proof fn lemma_number_take(input: Seq<u8>, n: nat, off: nat, e: nat)
    requires
        number_end(input, off) == Some(e),
        e <= n <= input.len(),
    ensures
        number_end(input.take(n as int), off) == Some(e),
        too_large(input.take(n as int), off, e) == too_large(input, off, e),
        ascii_chars(input.take(n as int), off, e) == ascii_chars(input, off, e),
{
    let t = input.take(n as int);
    lemma_take_bytes(input, n);
    lemma_number_parts(input, off, e);
    let i0 = int_start(input, off);
    let i1 = int_end(input, off);
    let i2 = frac_end(input, off);
    let j = exp_digits_start(input, off);
    crate::range::lemma_digit_run(input, i0 + 1);
    crate::range::lemma_digit_run(input, i1 + 1);
    crate::range::lemma_digit_run(input, j);
    if !byte_is(input, i0, 0x30) {
        lemma_digits_end_take(input, n, i0 + 1);
    }
    if byte_is(input, i1, 0x2E) {
        lemma_digits_end_take(input, n, i1 + 1);
    }
    assert(int_start(t, off) == i0);
    assert(int_end(t, off) == i1);
    assert(frac_end(t, off) == i2);
    if i2 < e {
        lemma_digits_end_take(input, n, j);
        assert(exp_digits_start(t, off) == j);
    }
    assert(number_end(t, off) == Some(e));
    assert(t.subrange(i0 as int, i1 as int) =~= input.subrange(i0 as int, i1 as int));
    if i2 > i1 {
        assert(t.subrange((i1 + 1) as int, i2 as int) =~= input.subrange((i1 + 1) as int, i2 as int));
    }
    assert(frac_digits(t, off) == frac_digits(input, off));
    assert(mantissa_digits(t, off) == mantissa_digits(input, off));
    if i2 < e {
        assert(t.subrange(j as int, e as int) =~= input.subrange(j as int, e as int));
    }
    assert(exponent_value(t, off, e) == exponent_value(input, off, e));
    assert(scale(t, off, e) == scale(input, off, e));
    assert(ascii_chars(t, off, e) =~= ascii_chars(input, off, e));
}

pub proof fn lemma_hex_run_take(input: Seq<u8>, n: nat, off: nat, k: nat, acc: nat, start: Loc)
    requires
        off + 4 <= n <= input.len(),
    ensures
        hex_run(input.take(n as int), off, k, acc, start) == hex_run(input, off, k, acc, start),
    decreases 4 - k,
{
    lemma_take_bytes(input, n);
    if k < 4 {
        assert(input.take(n as int)[(off + k) as int] == input[(off + k) as int]);
        lemma_hex_run_take(
            input,
            n,
            off,
            k + 1,
            acc * 16 + crate::tokeniser::hex_val(input[(off + k) as int]),
            start,
        );
    }
}

pub proof fn lemma_unicode_escape_take(input: Seq<u8>, n: nat, p: Loc, start: Loc)
    requires
        n <= input.len(),
        unicode_escape(input, p, start) matches Ok((c, q)) && q.offset <= n,
    ensures
        unicode_escape(input.take(n as int), p, start) == unicode_escape(input, p, start),
{
    lemma_take_bytes(input, n);
    lemma_unicode_escape_advances(input, p, start);
    crate::tokeniser::lemma_hex_run(input, p.offset, 0, 0, start);
    lemma_hex_run_take(input, n, p.offset, 0, 0, start);
    if let Ok(high) = crate::tokeniser::hex4(input, p.offset, start) {
        if crate::tokeniser::is_high_surrogate(high) {
            lemma_hex_run_take(input, n, p.offset + 6, 0, 0, start);
        }
    }
}

pub proof fn lemma_string_body_take(input: Seq<u8>, n: nat, p: Loc, start: Loc, acc: Seq<char>)
    requires
        n <= input.len(),
        string_body(input, p, start, acc) matches Ok((s, e)) && e.offset <= n,
    ensures
        string_body(input.take(n as int), p, start, acc) == string_body(input, p, start, acc),
    decreases input.len() - p.offset,
{
    let t = input.take(n as int);
    lemma_take_bytes(input, n);
    lemma_string_body_advances(input, p, start, acc);
    let b = input[p.offset as int];
    if b == 0x5C {
        let p1 = step(p, b);
        let esc = input[p1.offset as int];
        let p2 = step(p1, esc);
        if esc == 0x75 {
            lemma_unicode_escape_advances(input, p2, p);
            let (c, p3) = unicode_escape(input, p2, p)->Ok_0;
            lemma_string_body_advances(input, p3, start, acc.push(c));
            lemma_unicode_escape_take(input, n, p2, p);
            lemma_string_body_take(input, n, p3, start, acc.push(c));
        } else {
            let c = crate::tokeniser::simple_escape(esc)->Some_0;
            lemma_string_body_advances(input, p2, start, acc.push(c));
            lemma_string_body_take(input, n, p2, start, acc.push(c));
        }
    } else if b != 0x22 && b < 0x80 {
        lemma_string_body_take(input, n, step(p, b), start, acc.push(b as char));
    } else if b != 0x22 {
        let r = rest(input, p.offset);
        let q = Loc {
            line: p.line,
            column: p.column + 1,
            offset: p.offset + length_of_first_scalar(r) as nat,
        };
        lemma_string_body_advances(input, q, start, acc.push(decode_first_scalar(r) as char));
        let rt = rest(t, p.offset);
        assert forall|k: int| 0 <= k < rt.len() implies #[trigger] rt[k] == r[k] by {
            assert(t[p.offset + k] == input[p.offset + k]);
        }
        lemma_first_scalar_shorter(rt, r);
        lemma_string_body_take(input, n, q, start, acc.push(decode_first_scalar(r) as char));
    }
}

/// A token reads the same from any prefix of the input that holds it.
pub proof fn lemma_next_token_take(input: Seq<u8>, n: nat, q: Loc)
    requires
        q.offset < input.len(),
        next_token(input, q) matches Ok((tk, e)) && e.offset <= n,
        n <= input.len(),
    ensures
        next_token(input.take(n as int), q) == next_token(input, q),
{
    let t = input.take(n as int);
    lemma_take_bytes(input, n);
    lemma_next_token_advances(input, q);
    let b = input[q.offset as int];
    assert(t[q.offset as int] == b);
    if b == 0x22 {
        lemma_string_body_take(input, n, step(q, b), q, Seq::empty());
    } else if b == 0x74 || b == 0x66 || b == 0x6E {
        let k: int = if b == 0x66 {
            5
        } else {
            4
        };
        assert(t.subrange(q.offset as int, q.offset + k) =~= input.subrange(
            q.offset as int,
            q.offset + k,
        ));
    } else if b == 0x2D || crate::tokeniser::is_digit(b) {
        let e = number_end(input, q.offset)->Some_0;
        lemma_number_take(input, n, q.offset, e);
    }
}

// ---------------------------------------------------------------------
// The tokens of a prefix.
// ---------------------------------------------------------------------

/// The tokens that the prefix tokeniser reads from `p` on lie at or after
/// `p`, each ending after it starts.
pub proof fn lemma_prefix_tokens_after(input: Seq<u8>, p: Loc, last: nat)
    ensures
        forall|i: int|
            0 <= i < tokenise_prefix_from(input, p, last).0.len() ==> #[trigger] tokenise_prefix_from(
                input,
                p,
                last,
            ).0[i].pos.offset >= p.offset && tokenise_prefix_from(input, p, last).0[i].end.offset
                > tokenise_prefix_from(input, p, last).0[i].pos.offset,
    decreases input.len() - p.offset,
{
    let q = skip_ws(input, p);
    lemma_skip_ws(input, p);
    if q.offset < input.len() {
        lemma_next_token_advances(input, q);
        if let Ok((tk, e)) = next_token(input, q) {
            lemma_prefix_tokens_after(input, e, e.offset);
            let ts = tokenise_prefix_from(input, e, e.offset).0;
            let all = tokenise_prefix_from(input, p, last).0;
            assert forall|i: int| 0 <= i < all.len() implies #[trigger] all[i].pos.offset
                >= p.offset && all[i].end.offset > all[i].pos.offset by {
                if i > 0 {
                    assert(all[i] == ts[i - 1]);
                }
            }
        }
    }
}

/// The first `k` tokens that the prefix tokeniser reads are the tokens of
/// the input up to the end of the last of them.
pub proof fn lemma_prefix_tokens(input: Seq<u8>, p: Loc, last: nat, k: nat)
    requires
        p.offset <= input.len(),
        1 <= k <= tokenise_prefix_from(input, p, last).0.len(),
        tokenise_prefix_from(input, p, last).0[k - 1].end.offset <= input.len(),
    ensures
        ({
            let ts = tokenise_prefix_from(input, p, last).0;
            let n = ts[k - 1].end.offset;
            tokenise_from(input.take(n as int), p) == Ok::<Seq<PosTok>, ErrorView>(ts.take(k as int))
        }),
    decreases input.len() - p.offset,
{
    let all = tokenise_prefix_from(input, p, last).0;
    let n = all[k - 1].end.offset;
    let t = input.take(n as int);
    lemma_take_bytes(input, n);
    let q = skip_ws(input, p);
    lemma_skip_ws(input, p);
    lemma_next_token_advances(input, q);
    let (tk, e) = next_token(input, q)->Ok_0;
    let ts = tokenise_prefix_from(input, e, e.offset).0;
    assert(all == seq![PosTok { token: tk, pos: q, end: e }] + ts);
    lemma_prefix_tokens_after(input, e, e.offset);
    if k > 1 {
        assert(all[k - 1] == ts[k - 2]);
        assert(ts[k - 2].pos.offset >= e.offset);
    }
    assert(e.offset <= n);
    lemma_skip_ws_take(input, n, p);
    lemma_next_token_take(input, n, q);
    if k == 1 {
        lemma_skip_ws(t, e);
        assert(tokenise_from(t, e) == Ok::<Seq<PosTok>, ErrorView>(Seq::empty()));
        assert(all.take(1) =~= seq![PosTok { token: tk, pos: q, end: e }] + Seq::<PosTok>::empty());
    } else {
        lemma_prefix_tokens(input, e, e.offset, (k - 1) as nat);
        assert(ts[k - 2].end.offset == n);
        assert(all.take(k as int) =~= seq![PosTok { token: tk, pos: q, end: e }] + ts.take(
            k - 1,
        ));
    }
}

// ---------------------------------------------------------------------
// A value reads the same from the tokens up to its last.
// ---------------------------------------------------------------------

pub proof fn lemma_parse_take(ts: Seq<PosTok>, c: nat, d: nat, l: nat, k: nat)
    requires
        parse_value_at(ts, c, d, l) matches Ok((v, c2)) && c2 <= k <= ts.len(),
    ensures
        parse_value_at(ts.take(k as int), c, d, l) == parse_value_at(ts, c, d, l),
    decreases ts.len() - c, 1nat,
{
    let t = ts.take(k as int);
    lemma_parse_advances(ts, c, d, l);
    assert(t[c as int] == ts[c as int]);
    match ts[c as int].token {
        TokenView::BeginArray => {
            if !crate::parser::is_end_array(ts, c + 1) {
                lemma_array_items_advances(ts, c + 1, d + 1, l, Seq::empty());
                assert(t[c + 1int] == ts[c + 1int]);
                lemma_array_take(ts, c + 1, d + 1, l, Seq::empty(), k);
            } else {
                assert(t[c + 1int] == ts[c + 1int]);
            }
        },
        TokenView::BeginObject => {
            if !crate::parser::is_end_object(ts, c + 1) {
                lemma_object_members_advances(ts, c + 1, d + 1, l, Seq::empty());
                assert(t[c + 1int] == ts[c + 1int]);
                lemma_object_take(ts, c + 1, d + 1, l, Seq::empty(), k);
            } else {
                assert(t[c + 1int] == ts[c + 1int]);
            }
        },
        _ => {},
    }
}

pub proof fn lemma_array_take(
    ts: Seq<PosTok>,
    c: nat,
    d: nat,
    l: nat,
    acc: Seq<ValueView>,
    k: nat,
)
    requires
        array_items(ts, c, d, l, acc) matches Ok((v, c2)) && c2 <= k <= ts.len(),
    ensures
        array_items(ts.take(k as int), c, d, l, acc) == array_items(ts, c, d, l, acc),
    decreases ts.len() - c, 2nat,
{
    let t = ts.take(k as int);
    lemma_parse_advances(ts, c, d, l);
    assert(parse_value_at(ts, c, d, l) is Ok);
    let (v, c3) = parse_value_at(ts, c, d, l)->Ok_0;
    let c2 = array_items(ts, c, d, l, acc)->Ok_0.1;
    assert(c3 < ts.len());
    if ts[c3 as int].token is ValueSeparator {
        assert(array_items(ts, c, d, l, acc) == array_items(ts, c3 + 1, d, l, acc.push(v)));
        lemma_array_items_advances(ts, c3 + 1, d, l, acc.push(v));
    }
    assert(c3 < c2);
    lemma_parse_take(ts, c, d, l, k);
    assert(t[c3 as int] == ts[c3 as int]);
    if ts[c3 as int].token is ValueSeparator {
        assert(t[c3 + 1int] == ts[c3 + 1int]);
        lemma_array_take(ts, c3 + 1, d, l, acc.push(v), k);
    }
}

pub proof fn lemma_object_take(
    ts: Seq<PosTok>,
    c: nat,
    d: nat,
    l: nat,
    acc: Seq<(Seq<char>, ValueView)>,
    k: nat,
)
    requires
        object_members(ts, c, d, l, acc) matches Ok((v, c2)) && c2 <= k <= ts.len(),
    ensures
        object_members(ts.take(k as int), c, d, l, acc) == object_members(ts, c, d, l, acc),
    decreases ts.len() - c, 2nat,
{
    let t = ts.take(k as int);
    lemma_parse_advances(ts, c + 2, d, l);
    assert(c + 1 < ts.len());
    assert(parse_value_at(ts, c + 2, d, l) is Ok);
    let (v, c3) = parse_value_at(ts, c + 2, d, l)->Ok_0;
    let c2 = object_members(ts, c, d, l, acc)->Ok_0.1;
    let key = ts[c as int].token->String_0;
    assert(c3 < ts.len());
    if ts[c3 as int].token is ValueSeparator {
        assert(object_members(ts, c, d, l, acc) == object_members(
            ts,
            c3 + 1,
            d,
            l,
            acc.push((key, v)),
        ));
        lemma_object_members_advances(ts, c3 + 1, d, l, acc.push((key, v)));
    }
    assert(c3 < c2);
    assert(t[c as int] == ts[c as int]);
    assert(t[c + 1int] == ts[c + 1int]);
    lemma_parse_take(ts, c + 2, d, l, k);
    assert(t[c3 as int] == ts[c3 as int]);
    if ts[c3 as int].token is ValueSeparator {
        assert(t[c3 + 1int] == ts[c3 + 1int]);
        lemma_object_take(ts, c3 + 1, d, l, acc.push((key, v)), k);
    }
}


// ---------------------------------------------------------------------
// A whole text read as a prefix.
// ---------------------------------------------------------------------

/// Where skipping whitespace reaches the end, every byte on the way is
/// whitespace.
pub proof fn lemma_skip_ws_to_end(input: Seq<u8>, p: Loc)
    requires
        skip_ws(input, p).offset >= input.len(),
    ensures
        forall|i: int| p.offset <= i < input.len() ==> crate::tokeniser::is_ws(#[trigger] input[i]),
    decreases input.len() - p.offset,
{
    if p.offset < input.len() {
        let b = input[p.offset as int];
        if crate::tokeniser::is_ws(b) {
            lemma_skip_ws_to_end(input, step(p, b));
        }
    }
}

/// Where the whole input tokenises, the prefix tokeniser reads all of its
/// tokens, and reports the end of the last.
pub proof fn lemma_prefix_of_whole(input: Seq<u8>, p: Loc, last: nat)
    requires
        p.offset <= input.len(),
    ensures
        tokenise_from(input, p) matches Ok(ts) ==> tokenise_prefix_from(input, p, last) == (ts, if ts.len()
            == 0 {
            last
        } else {
            ts.last().end.offset
        }),
        tokenise_from(input, p) matches Ok(ts) ==> (ts.len() == 0 ==> forall|i: int|
            p.offset <= i < input.len() ==> crate::tokeniser::is_ws(#[trigger] input[i])),
        tokenise_from(input, p) matches Ok(ts) ==> (ts.len() > 0 ==> forall|i: int|
            ts.last().end.offset <= i < input.len() ==> crate::tokeniser::is_ws(
                #[trigger] input[i],
            )),
    decreases input.len() - p.offset,
{
    let q = skip_ws(input, p);
    lemma_skip_ws(input, p);
    if q.offset >= input.len() {
        lemma_skip_ws_to_end(input, p);
    } else {
        lemma_next_token_advances(input, q);
        if let Ok((tk, e)) = next_token(input, q) {
            lemma_prefix_of_whole(input, e, e.offset);
            if let Ok(ts) = tokenise_from(input, e) {
                let pt = PosTok { token: tk, pos: q, end: e };
                let all = seq![pt] + ts;
                if ts.len() > 0 {
                    assert(all.last() == ts.last());
                } else {
                    assert(all.last() == pt);
                }
            }
        }
    }
}

// ---------------------------------------------------------------------
// The tokens of a prefix are those the whole tokeniser reads first.
// ---------------------------------------------------------------------

/// Where reading tokens from `q` on stops at once: at the end of the input
/// (only whitespace is left) or at a token that does not read.
pub open spec fn stops_at(input: Seq<u8>, q: Loc) -> bool {
    tokenise_from(input, q) == Ok::<Seq<PosTok>, ErrorView>(Seq::empty()) || {
        let r = skip_ws(input, q);
        &&& r.offset < input.len()
        &&& next_token(input, r) is Err
        &&& tokenise_from(input, q) == Err::<Seq<PosTok>, ErrorView>(next_token(input, r)->Err_0)
    }
}

/// Reading tokens from `p`, the whole tokeniser reads the tokens of the
/// prefix and then stops at once; the offset of the prefix is that after
/// its last token (`last` where there is none).
pub proof fn lemma_prefix_stops(input: Seq<u8>, p: Loc, last: nat) -> (q: Loc)
    ensures
        reads(input, p, tokenise_prefix_from(input, p, last).0, q),
        stops_at(input, q),
        tokenise_prefix_from(input, p, last).1 == if tokenise_prefix_from(input, p, last).0.len()
            == 0 {
            last
        } else {
            tokenise_prefix_from(input, p, last).0.last().end.offset
        },
    decreases input.len() - p.offset,
{
    let q0 = skip_ws(input, p);
    lemma_skip_ws(input, p);
    lemma_reads_nothing(input, p);
    if q0.offset >= input.len() {
        p
    } else {
        lemma_next_token_advances(input, q0);
        match next_token(input, q0) {
            Err(_) => p,
            Ok((t, e)) => {
                let r = lemma_prefix_stops(input, e, e.offset);
                let tok = PosTok { token: t, pos: q0, end: e };
                let rest_ts = tokenise_prefix_from(input, e, e.offset).0;
                assert(reads(input, p, seq![tok], e)) by {
                    if let Ok(ts) = tokenise_from(input, e) {
                        assert(tokenise_from(input, p) == Ok::<Seq<PosTok>, ErrorView>(
                            seq![tok] + ts,
                        ));
                    }
                }
                lemma_reads_trans(input, p, seq![tok], e, rest_ts, r);
                assert(tokenise_prefix_from(input, p, last).0 == seq![tok] + rest_ts);
                if rest_ts.len() > 0 {
                    assert((seq![tok] + rest_ts).last() == rest_ts.last());
                }
                r
            },
        }
    }
}

} // verus!
