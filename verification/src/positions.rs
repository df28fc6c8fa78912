//! Where the tokens and errors that the tokeniser and the parser report
//! stand in the input.
use vstd::prelude::*;

use crate::error::Loc;
use crate::parser::{array_items, object_members, parse_value_at, peek_pos};
use crate::token::{PosTok, TokenView};
use crate::tokeniser::{
    hex_run, lemma_next_token_advances, lit_false, lit_null, lit_true, literal_at, lemma_skip_ws,
    lemma_unicode_escape_advances, next_token, simple_escape, skip_ws, step, string_body,
    tokenise_from, tokenise_prefix_from, unicode_escape,
};
use crate::value::ValueView;

verus! {

/// Every token of `ts` starts before offset `n` and ends at most at `n`.
pub open spec fn tokens_within(ts: Seq<PosTok>, n: nat) -> bool {
    forall|i: int| 0 <= i < ts.len() ==> #[trigger] ts[i].pos.offset < n && ts[i].end.offset <= n
}

pub proof fn lemma_hex_run_errors(input: Seq<u8>, off: nat, k: nat, acc: nat, start: Loc)
    ensures
        hex_run(input, off, k, acc, start) matches Err(e) ==> e.pos() == start,
    decreases 4 - k,
{
    if k < 4 && off + k < input.len() {
        lemma_hex_run_errors(input, off, k + 1, acc * 16 + crate::tokeniser::hex_val(
            input[(off + k) as int],
        ), start);
    }
}

pub proof fn lemma_unicode_escape_errors(input: Seq<u8>, p: Loc, start: Loc)
    ensures
        unicode_escape(input, p, start) matches Err(e) ==> e.pos() == start,
{
    lemma_hex_run_errors(input, p.offset, 0, 0, start);
    lemma_hex_run_errors(input, p.offset + 6, 0, 0, start);
}

/// The errors in a string point at its opening quote or inside the input.
pub proof fn lemma_string_body_errors(input: Seq<u8>, p: Loc, start: Loc, acc: Seq<char>)
    requires
        start.offset < input.len(),
    ensures
        string_body(input, p, start, acc) matches Err(e) ==> e.pos().offset < input.len(),
    decreases input.len() - p.offset,
{
    if p.offset < input.len() {
        let b = input[p.offset as int];
        if b == 0x5C {
            let p1 = step(p, b);
            if p1.offset < input.len() {
                let esc = input[p1.offset as int];
                let p2 = step(p1, esc);
                if esc == 0x75 {
                    lemma_unicode_escape_errors(input, p2, p);
                    lemma_unicode_escape_advances(input, p2, p);
                    if let Ok((c, p3)) = unicode_escape(input, p2, p) {
                        lemma_string_body_errors(input, p3, start, acc.push(c));
                    }
                } else if let Some(c) = simple_escape(esc) {
                    lemma_string_body_errors(input, p2, start, acc.push(c));
                }
            }
        } else if b != 0x22 && b >= 0x20 && b < 0x80 {
            lemma_string_body_errors(input, step(p, b), start, acc.push(b as char));
        } else if b >= 0x80 {
            let r = crate::tokeniser::rest(input, p.offset);
            if vstd::utf8::valid_first_scalar(r) {
                lemma_string_body_errors(
                    input,
                    Loc {
                        line: p.line,
                        column: p.column + 1,
                        offset: p.offset + vstd::utf8::length_of_first_scalar(r) as nat,
                    },
                    start,
                    acc.push(vstd::utf8::decode_first_scalar(r) as char),
                );
            }
        }
    }
}

pub proof fn lemma_next_token_errors(input: Seq<u8>, q: Loc)
    requires
        q.offset < input.len(),
    ensures
        next_token(input, q) matches Err(e) ==> e.pos().offset < input.len(),
{
    if input[q.offset as int] == 0x22 {
        lemma_string_body_errors(input, step(q, 0x22), q, Seq::empty());
    }
}

/// The tokeniser reads tokens that lie inside the input, and reports errors
/// that point inside it.
pub proof fn lemma_tokenise_within(input: Seq<u8>, p: Loc)
    requires
        p.offset <= input.len(),
    ensures
        tokenise_from(input, p) matches Ok(ts) ==> tokens_within(ts, input.len()),
        tokenise_from(input, p) matches Err(e) ==> e.pos().offset < input.len(),
    decreases input.len() - p.offset,
{
    let q = skip_ws(input, p);
    lemma_skip_ws(input, p);
    if q.offset < input.len() {
        lemma_next_token_errors(input, q);
        lemma_next_token_advances(input, q);
        if let Ok((t, e)) = next_token(input, q) {
            lemma_tokenise_within(input, e);
            if let Ok(ts) = tokenise_from(input, e) {
                let all = seq![PosTok { token: t, pos: q, end: e }] + ts;
                assert forall|i: int| 0 <= i < all.len() implies #[trigger] all[i].pos.offset
                    < input.len() && all[i].end.offset <= input.len() by {
                    if i > 0 {
                        assert(all[i] == ts[i - 1]);
                    }
                }
            }
        }
    }
}

/// The tokens of the longest prefix that tokenises lie inside the input, and
/// so does the offset after the last of them.
pub proof fn lemma_tokenise_prefix_within(input: Seq<u8>, p: Loc, last: nat)
    requires
        p.offset <= input.len(),
        last <= input.len(),
    ensures
        tokens_within(tokenise_prefix_from(input, p, last).0, input.len()),
        tokenise_prefix_from(input, p, last).1 <= input.len(),
    decreases input.len() - p.offset,
{
    let q = skip_ws(input, p);
    lemma_skip_ws(input, p);
    if q.offset < input.len() {
        lemma_next_token_advances(input, q);
        if let Ok((t, e)) = next_token(input, q) {
            lemma_tokenise_prefix_within(input, e, e.offset);
            let ts = tokenise_prefix_from(input, e, e.offset).0;
            let all = seq![PosTok { token: t, pos: q, end: e }] + ts;
            assert forall|i: int| 0 <= i < all.len() implies #[trigger] all[i].pos.offset
                < input.len() && all[i].end.offset <= input.len() by {
                if i > 0 {
                    assert(all[i] == ts[i - 1]);
                }
            }
        }
    }
}

/// The position that errors at token `c` refer to lies before `n`, or is
/// the start.
pub proof fn lemma_peek_pos_within(ts: Seq<PosTok>, c: nat, n: nat)
    requires
        tokens_within(ts, n),
    ensures
        peek_pos(ts, c).offset < n || peek_pos(ts, c).offset == 0,
{
    if c < ts.len() {
        assert(ts[c as int].pos.offset < n);
    } else if ts.len() > 0 {
        assert(ts[ts.len() - 1].pos.offset < n);
    }
}

/// The parser reports errors at the positions of tokens, or at the start.
pub proof fn lemma_parse_errors_within(ts: Seq<PosTok>, c: nat, d: nat, l: nat, n: nat)
    requires
        tokens_within(ts, n),
    ensures
        parse_value_at(ts, c, d, l) matches Err(e) ==> e.pos().offset < n || e.pos().offset == 0,
    decreases ts.len() - c, 1nat,
{
    lemma_peek_pos_within(ts, c, n);
    if c < ts.len() {
        assert(ts[c as int].pos.offset < n);
        match ts[c as int].token {
            TokenView::BeginArray => {
                if d < l && !crate::parser::is_end_array(ts, c + 1) {
                    lemma_array_errors_within(ts, c + 1, d + 1, l, Seq::empty(), n);
                }
            },
            TokenView::BeginObject => {
                if d < l && !crate::parser::is_end_object(ts, c + 1) {
                    lemma_object_errors_within(ts, c + 1, d + 1, l, Seq::empty(), n);
                }
            },
            _ => {},
        }
    }
}

pub proof fn lemma_array_errors_within(
    ts: Seq<PosTok>,
    c: nat,
    d: nat,
    l: nat,
    acc: Seq<ValueView>,
    n: nat,
)
    requires
        tokens_within(ts, n),
    ensures
        array_items(ts, c, d, l, acc) matches Err(e) ==> e.pos().offset < n || e.pos().offset
            == 0,
    decreases ts.len() - c, 2nat,
{
    lemma_parse_errors_within(ts, c, d, l, n);
    crate::parser::lemma_parse_advances(ts, c, d, l);
    if let Ok((v, c2)) = parse_value_at(ts, c, d, l) {
        lemma_peek_pos_within(ts, c2, n);
        if c2 < ts.len() {
            assert(ts[c2 as int].pos.offset < n);
            if ts[c2 as int].token is ValueSeparator && !crate::parser::is_end_array(ts, c2 + 1) {
                lemma_array_errors_within(ts, c2 + 1, d, l, acc.push(v), n);
            }
        }
    }
}

pub proof fn lemma_object_errors_within(
    ts: Seq<PosTok>,
    c: nat,
    d: nat,
    l: nat,
    acc: Seq<(Seq<char>, ValueView)>,
    n: nat,
)
    requires
        tokens_within(ts, n),
    ensures
        object_members(ts, c, d, l, acc) matches Err(e) ==> e.pos().offset < n || e.pos().offset
            == 0,
    decreases ts.len() - c, 2nat,
{
    lemma_peek_pos_within(ts, c, n);
    lemma_peek_pos_within(ts, c + 1, n);
    if c < ts.len() {
        assert(ts[c as int].pos.offset < n);
    }
    if c + 1 < ts.len() {
        assert(ts[c + 1int].pos.offset < n);
        lemma_parse_errors_within(ts, c + 2, d, l, n);
        crate::parser::lemma_parse_advances(ts, c + 2, d, l);
        if let Ok((v, c2)) = parse_value_at(ts, c + 2, d, l) {
            lemma_peek_pos_within(ts, c2, n);
            if c2 < ts.len() {
                assert(ts[c2 as int].pos.offset < n);
                if ts[c2 as int].token is ValueSeparator && !crate::parser::is_end_object(
                    ts,
                    c2 + 1,
                ) {
                    if let TokenView::String(key) = ts[c as int].token {
                        lemma_object_errors_within(ts, c2 + 1, d, l, acc.push((key, v)), n);
                    }
                }
            }
        }
    }
}

// ---------------------------------------------------------------------
// Lines and columns count from one.
// ---------------------------------------------------------------------

/// A position whose line and column count from one.
pub open spec fn counts_from_one(p: Loc) -> bool {
    p.line >= 1 && p.column >= 1
}

/// Every token of `ts` starts at a position that counts from one.
pub open spec fn tokens_from_one(ts: Seq<PosTok>) -> bool {
    forall|i: int| 0 <= i < ts.len() ==> counts_from_one(#[trigger] ts[i].pos)
}

proof fn lemma_skip_ws_from_one(input: Seq<u8>, p: Loc)
    requires
        counts_from_one(p),
    ensures
        counts_from_one(skip_ws(input, p)),
    decreases input.len() - p.offset,
{
    if p.offset < input.len() && crate::tokeniser::is_ws(input[p.offset as int]) {
        lemma_skip_ws_from_one(input, step(p, input[p.offset as int]));
    }
}

proof fn lemma_string_body_from_one(input: Seq<u8>, p: Loc, start: Loc, acc: Seq<char>)
    requires
        counts_from_one(p),
        counts_from_one(start),
    ensures
        string_body(input, p, start, acc) matches Err(e) ==> counts_from_one(e.pos()),
        string_body(input, p, start, acc) matches Ok((_, e)) ==> counts_from_one(e),
    decreases input.len() - p.offset,
{
    if p.offset < input.len() {
        let b = input[p.offset as int];
        if b == 0x5C {
            let p1 = step(p, b);
            if p1.offset < input.len() {
                let esc = input[p1.offset as int];
                let p2 = step(p1, esc);
                if esc == 0x75 {
                    lemma_unicode_escape_errors(input, p2, p);
                    lemma_unicode_escape_advances(input, p2, p);
                    if let Ok((c, p3)) = unicode_escape(input, p2, p) {
                        lemma_string_body_from_one(input, p3, start, acc.push(c));
                    }
                } else if let Some(c) = simple_escape(esc) {
                    lemma_string_body_from_one(input, p2, start, acc.push(c));
                }
            }
        } else if b != 0x22 && b >= 0x20 && b < 0x80 {
            lemma_string_body_from_one(input, step(p, b), start, acc.push(b as char));
        } else if b >= 0x80 {
            let r = crate::tokeniser::rest(input, p.offset);
            if vstd::utf8::valid_first_scalar(r) {
                lemma_string_body_from_one(
                    input,
                    Loc {
                        line: p.line,
                        column: p.column + 1,
                        offset: p.offset + vstd::utf8::length_of_first_scalar(r) as nat,
                    },
                    start,
                    acc.push(vstd::utf8::decode_first_scalar(r) as char),
                );
            }
        }
    }
}

proof fn lemma_next_token_from_one(input: Seq<u8>, q: Loc)
    requires
        q.offset < input.len(),
        counts_from_one(q),
    ensures
        next_token(input, q) matches Err(e) ==> counts_from_one(e.pos()),
        next_token(input, q) matches Ok((_, e)) ==> counts_from_one(e),
{
    if input[q.offset as int] == 0x22 {
        lemma_string_body_from_one(input, step(q, 0x22), q, Seq::empty());
    }
}

proof fn lemma_cons_from_one(t: PosTok, ts: Seq<PosTok>)
    requires
        counts_from_one(t.pos),
        tokens_from_one(ts),
    ensures
        tokens_from_one(seq![t] + ts),
{
    let all = seq![t] + ts;
    assert forall|i: int| 0 <= i < all.len() implies counts_from_one(#[trigger] all[i].pos) by {
        if i > 0 {
            assert(all[i] == ts[i - 1]);
        }
    }
}

/// The tokens the tokeniser reads, and the errors it reports, stand at
/// positions whose lines and columns count from one.
pub proof fn lemma_tokenise_from_one(input: Seq<u8>, p: Loc)
    requires
        counts_from_one(p),
    ensures
        tokenise_from(input, p) matches Ok(ts) ==> tokens_from_one(ts),
        tokenise_from(input, p) matches Err(e) ==> counts_from_one(e.pos()),
    decreases input.len() - p.offset,
{
    let q = skip_ws(input, p);
    lemma_skip_ws(input, p);
    lemma_skip_ws_from_one(input, p);
    if q.offset < input.len() {
        lemma_next_token_from_one(input, q);
        lemma_next_token_advances(input, q);
        if let Ok((t, e)) = next_token(input, q) {
            lemma_tokenise_from_one(input, e);
            if let Ok(ts) = tokenise_from(input, e) {
                lemma_cons_from_one(PosTok { token: t, pos: q, end: e }, ts);
            }
        }
    }
}

pub proof fn lemma_tokenise_prefix_from_one(input: Seq<u8>, p: Loc, last: nat)
    requires
        counts_from_one(p),
    ensures
        tokens_from_one(tokenise_prefix_from(input, p, last).0),
    decreases input.len() - p.offset,
{
    let q = skip_ws(input, p);
    lemma_skip_ws(input, p);
    lemma_skip_ws_from_one(input, p);
    if q.offset < input.len() {
        lemma_next_token_from_one(input, q);
        lemma_next_token_advances(input, q);
        if let Ok((t, e)) = next_token(input, q) {
            lemma_tokenise_prefix_from_one(input, e, e.offset);
            lemma_cons_from_one(
                PosTok { token: t, pos: q, end: e },
                tokenise_prefix_from(input, e, e.offset).0,
            );
        }
    }
}

proof fn lemma_peek_pos_from_one(ts: Seq<PosTok>, c: nat)
    requires
        tokens_from_one(ts),
    ensures
        counts_from_one(peek_pos(ts, c)),
{
    if c < ts.len() {
        assert(counts_from_one(ts[c as int].pos));
    } else if ts.len() > 0 {
        assert(counts_from_one(ts[ts.len() - 1].pos));
    }
}

/// The parser reports errors at positions that count from one, where the
/// tokens do.
pub proof fn lemma_parse_errors_from_one(ts: Seq<PosTok>, c: nat, d: nat, l: nat)
    requires
        tokens_from_one(ts),
    ensures
        parse_value_at(ts, c, d, l) matches Err(e) ==> counts_from_one(e.pos()),
    decreases ts.len() - c, 1nat,
{
    lemma_peek_pos_from_one(ts, c);
    if c < ts.len() {
        assert(counts_from_one(ts[c as int].pos));
        match ts[c as int].token {
            TokenView::BeginArray => {
                if d < l && !crate::parser::is_end_array(ts, c + 1) {
                    lemma_array_errors_from_one(ts, c + 1, d + 1, l, Seq::empty());
                }
            },
            TokenView::BeginObject => {
                if d < l && !crate::parser::is_end_object(ts, c + 1) {
                    lemma_object_errors_from_one(ts, c + 1, d + 1, l, Seq::empty());
                }
            },
            _ => {},
        }
    }
}

proof fn lemma_array_errors_from_one(
    ts: Seq<PosTok>,
    c: nat,
    d: nat,
    l: nat,
    acc: Seq<ValueView>,
)
    requires
        tokens_from_one(ts),
    ensures
        array_items(ts, c, d, l, acc) matches Err(e) ==> counts_from_one(e.pos()),
    decreases ts.len() - c, 2nat,
{
    lemma_parse_errors_from_one(ts, c, d, l);
    crate::parser::lemma_parse_advances(ts, c, d, l);
    if let Ok((v, c2)) = parse_value_at(ts, c, d, l) {
        lemma_peek_pos_from_one(ts, c2);
        if c2 < ts.len() {
            assert(counts_from_one(ts[c2 as int].pos));
            if ts[c2 as int].token is ValueSeparator && !crate::parser::is_end_array(ts, c2 + 1) {
                lemma_array_errors_from_one(ts, c2 + 1, d, l, acc.push(v));
            }
        }
    }
}

proof fn lemma_object_errors_from_one(
    ts: Seq<PosTok>,
    c: nat,
    d: nat,
    l: nat,
    acc: Seq<(Seq<char>, ValueView)>,
)
    requires
        tokens_from_one(ts),
    ensures
        object_members(ts, c, d, l, acc) matches Err(e) ==> counts_from_one(e.pos()),
    decreases ts.len() - c, 2nat,
{
    lemma_peek_pos_from_one(ts, c);
    lemma_peek_pos_from_one(ts, c + 1);
    if c < ts.len() {
        assert(counts_from_one(ts[c as int].pos));
    }
    if c + 1 < ts.len() {
        assert(counts_from_one(ts[c + 1int].pos));
        lemma_parse_errors_from_one(ts, c + 2, d, l);
        crate::parser::lemma_parse_advances(ts, c + 2, d, l);
        if let Ok((v, c2)) = parse_value_at(ts, c + 2, d, l) {
            lemma_peek_pos_from_one(ts, c2);
            if c2 < ts.len() {
                assert(counts_from_one(ts[c2 as int].pos));
                if ts[c2 as int].token is ValueSeparator && !crate::parser::is_end_object(
                    ts,
                    c2 + 1,
                ) {
                    if let TokenView::String(key) = ts[c as int].token {
                        lemma_object_errors_from_one(ts, c2 + 1, d, l, acc.push((key, v)));
                    }
                }
            }
        }
    }
}

// ---------------------------------------------------------------------
// Tokens end on a byte that is not whitespace.
// ---------------------------------------------------------------------

proof fn lemma_string_body_end(input: Seq<u8>, p: Loc, start: Loc, acc: Seq<char>)
    ensures
        string_body(input, p, start, acc) matches Ok((_, e)) ==> 1 <= e.offset <= input.len()
            && input[e.offset - 1] == 0x22,
    decreases input.len() - p.offset,
{
    if p.offset < input.len() {
        let b = input[p.offset as int];
        if b == 0x5C {
            let p1 = step(p, b);
            if p1.offset < input.len() {
                let esc = input[p1.offset as int];
                let p2 = step(p1, esc);
                if esc == 0x75 {
                    lemma_unicode_escape_advances(input, p2, p);
                    if let Ok((c, p3)) = unicode_escape(input, p2, p) {
                        lemma_string_body_end(input, p3, start, acc.push(c));
                    }
                } else if let Some(c) = simple_escape(esc) {
                    lemma_string_body_end(input, p2, start, acc.push(c));
                }
            }
        } else if b != 0x22 && b >= 0x20 && b < 0x80 {
            lemma_string_body_end(input, step(p, b), start, acc.push(b as char));
        } else if b >= 0x80 {
            let r = crate::tokeniser::rest(input, p.offset);
            if vstd::utf8::valid_first_scalar(r) {
                lemma_string_body_end(
                    input,
                    Loc {
                        line: p.line,
                        column: p.column + 1,
                        offset: p.offset + vstd::utf8::length_of_first_scalar(r) as nat,
                    },
                    start,
                    acc.push(vstd::utf8::decode_first_scalar(r) as char),
                );
            }
        }
    }
}

/// A token ends after a byte that is not whitespace.
pub proof fn lemma_token_last_byte(input: Seq<u8>, q: Loc)
    requires
        q.offset < input.len(),
    ensures
        next_token(input, q) matches Ok((_, e)) ==> q.offset < e.offset <= input.len()
            && !crate::tokeniser::is_ws(input[e.offset - 1]),
{
    lemma_next_token_advances(input, q);
    let b = input[q.offset as int];
    let off = q.offset;
    if b == 0x22 {
        lemma_string_body_end(input, step(q, b), q, Seq::empty());
    } else if b == 0x74 {
        if literal_at(input, off, lit_true()) {
            assert(input.subrange(off as int, off + 4int)[3] == input[off + 3int]);
        }
    } else if b == 0x66 {
        if literal_at(input, off, lit_false()) {
            assert(input.subrange(off as int, off + 5int)[4] == input[off + 4int]);
        }
    } else if b == 0x6E {
        if literal_at(input, off, lit_null()) {
            assert(input.subrange(off as int, off + 4int)[3] == input[off + 3int]);
        }
    } else if b == 0x2D || crate::tokeniser::is_digit(b) {
        if let Some(e) = crate::tokeniser::number_end(input, off) {
            crate::wellformed::lemma_number_bytes_ascii(input, off, e);
        }
    }
}

/// The tokens of a prefix each end after a byte that is not whitespace.
pub proof fn lemma_prefix_token_ends(input: Seq<u8>, p: Loc, last: nat)
    ensures
        forall|i: int|
            0 <= i < tokenise_prefix_from(input, p, last).0.len() ==> {
                let e = (#[trigger] tokenise_prefix_from(input, p, last).0[i]).end.offset;
                1 <= e <= input.len() && !crate::tokeniser::is_ws(input[e - 1])
            },
    decreases input.len() - p.offset,
{
    let q = skip_ws(input, p);
    lemma_skip_ws(input, p);
    if q.offset < input.len() {
        lemma_token_last_byte(input, q);
        lemma_next_token_advances(input, q);
        if let Ok((t, e)) = next_token(input, q) {
            lemma_prefix_token_ends(input, e, e.offset);
            let ts = tokenise_prefix_from(input, e, e.offset).0;
            let all = seq![PosTok { token: t, pos: q, end: e }] + ts;
            assert(tokenise_prefix_from(input, p, last).0 == all);
            assert forall|i: int| 0 <= i < all.len() implies {
                let f = (#[trigger] all[i]).end.offset;
                1 <= f <= input.len() && !crate::tokeniser::is_ws(input[f - 1])
            } by {
                if i > 0 {
                    assert(all[i] == ts[i - 1]);
                }
            }
        }
    }
}

} // verus!
