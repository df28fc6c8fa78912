//! RFC 8259 tokeniser.
//!
//! Consumes a UTF-8 byte slice and yields a stream of `PositionedToken`s.
//! Each grammar production from RFC 8259 §3-§7 maps to a `Token` variant.
//! Escape sequences and `\uXXXX` surrogate pairs are resolved here, so
//! `Token::String` already holds the decoded value.
use vstd::prelude::*;
use vstd::utf8::*;

use crate::error::{start_loc, Error, ErrorView, Loc, Position};
use crate::token::{toks_view, PosTok, PositionedToken, Token, TokenView};
use crate::range::{number_too_large, too_large};
use crate::value::{push_char, Number};

verus! {

// ---------------------------------------------------------------------
// The lexical grammar, as functions of the input bytes.
// ---------------------------------------------------------------------

/// The position after consuming byte `b` at position `p`: a line feed starts
/// a new line, any other byte moves one column to the right.
pub open spec fn step(p: Loc, b: u8) -> Loc {
    if b == 0x0A {
        Loc { line: p.line + 1, column: 1, offset: p.offset + 1 }
    } else {
        Loc { line: p.line, column: p.column + 1, offset: p.offset + 1 }
    }
}

/// The position after `k` bytes that hold no line feed, one column each.
pub open spec fn cols(p: Loc, k: nat) -> Loc {
    Loc { line: p.line, column: p.column + k, offset: p.offset + k }
}

/// RFC 8259 §2: ws = *( %x20 / %x09 / %x0A / %x0D )
pub open spec fn is_ws(b: u8) -> bool {
    b == 0x20 || b == 0x09 || b == 0x0A || b == 0x0D
}

/// The position of the first byte at or after `p` that is not whitespace.
pub open spec fn skip_ws(input: Seq<u8>, p: Loc) -> Loc
    decreases input.len() - p.offset,
{
    if p.offset < input.len() && is_ws(input[p.offset as int]) {
        skip_ws(input, step(p, input[p.offset as int]))
    } else {
        p
    }
}

pub open spec fn is_digit(b: u8) -> bool {
    0x30 <= b <= 0x39
}

pub open spec fn is_hex(b: u8) -> bool {
    is_digit(b) || (0x61 <= b <= 0x66) || (0x41 <= b <= 0x46)
}

pub open spec fn hex_val(b: u8) -> nat {
    if is_digit(b) {
        (b - 0x30) as nat
    } else if 0x61 <= b <= 0x66 {
        (b - 0x61 + 10) as nat
    } else {
        (b - 0x41 + 10) as nat
    }
}

pub open spec fn byte_is(input: Seq<u8>, i: nat, b: u8) -> bool {
    i < input.len() && input[i as int] == b
}

pub open spec fn digit_at(input: Seq<u8>, i: nat) -> bool {
    i < input.len() && is_digit(input[i as int])
}

/// The end of the run of decimal digits that starts at `i`.
pub open spec fn digits_end(input: Seq<u8>, i: nat) -> nat
    decreases input.len() - i,
{
    if digit_at(input, i) {
        digits_end(input, i + 1)
    } else {
        i
    }
}

/// RFC 8259 §6: number = [ minus ] int [ frac ] [ exp ], read greedily from
/// `off`. The end of the number, or `None` where a digit is missing.
pub open spec fn number_end(input: Seq<u8>, off: nat) -> Option<nat> {
    let i0 = if byte_is(input, off, 0x2D) { off + 1 } else { off };
    let i1 = if byte_is(input, i0, 0x30) {
        Some(i0 + 1)
    } else if digit_at(input, i0) {
        Some(digits_end(input, i0 + 1))
    } else {
        None
    };
    match i1 {
        None => None,
        Some(i1) => {
            let i2 = if byte_is(input, i1, 0x2E) {
                if digit_at(input, i1 + 1) {
                    Some(digits_end(input, i1 + 1))
                } else {
                    None
                }
            } else {
                Some(i1)
            };
            match i2 {
                None => None,
                Some(i2) => {
                    if byte_is(input, i2, 0x65) || byte_is(input, i2, 0x45) {
                        let j = if byte_is(input, i2 + 1, 0x2B) || byte_is(input, i2 + 1, 0x2D) {
                            i2 + 2
                        } else {
                            i2 + 1
                        };
                        if digit_at(input, j) {
                            Some(digits_end(input, j))
                        } else {
                            None
                        }
                    } else {
                        Some(i2)
                    }
                },
            }
        },
    }
}

/// The bytes of an ASCII text.
pub open spec fn text_bytes(t: Seq<char>) -> Seq<u8> {
    Seq::new(t.len(), |i: int| t[i] as u8)
}

/// `t` is the text of a JSON number: ASCII, read whole by [`number_end`],
/// and within the range of a binary64 double.
pub open spec fn is_number_text(t: Seq<char>) -> bool {
    &&& is_ascii_chars(t)
    &&& number_end(text_bytes(t), 0) == Some(t.len())
    &&& !too_large(text_bytes(t), 0, t.len())
}

/// The characters of the ASCII bytes `input[from..to]`.
pub open spec fn ascii_chars(input: Seq<u8>, from: nat, to: nat) -> Seq<char> {
    input.subrange(from as int, to as int).map_values(|b: u8| b as char)
}

pub open spec fn literal_at(input: Seq<u8>, off: nat, lit: Seq<u8>) -> bool {
    off + lit.len() <= input.len() && input.subrange(off as int, (off + lit.len()) as int) == lit
}

pub open spec fn lit_true() -> Seq<u8> {
    seq![0x74u8, 0x72, 0x75, 0x65]
}

pub open spec fn lit_false() -> Seq<u8> {
    seq![0x66u8, 0x61, 0x6C, 0x73, 0x65]
}

pub open spec fn lit_null() -> Seq<u8> {
    seq![0x6Eu8, 0x75, 0x6C, 0x6C]
}

/// Read up to four hex digits at `off`, `k` of them read so far with value
/// `acc`. Errors name `start`, the position of the escape.
pub open spec fn hex_run(input: Seq<u8>, off: nat, k: nat, acc: nat, start: Loc) -> Result<
    nat,
    ErrorView,
>
    decreases 4 - k,
{
    if k >= 4 {
        Ok(acc)
    } else if off + k >= input.len() {
        Err(ErrorView::UnexpectedEof { pos: start })
    } else if !is_hex(input[(off + k) as int]) {
        Err(ErrorView::InvalidUnicodeEscape { pos: start })
    } else {
        hex_run(input, off, k + 1, acc * 16 + hex_val(input[(off + k) as int]), start)
    }
}

pub open spec fn hex4(input: Seq<u8>, off: nat, start: Loc) -> Result<nat, ErrorView> {
    hex_run(input, off, 0, 0, start)
}

pub open spec fn is_high_surrogate(v: nat) -> bool {
    0xD800 <= v <= 0xDBFF
}

pub open spec fn is_low_surrogate(v: nat) -> bool {
    0xDC00 <= v <= 0xDFFF
}

/// RFC 8259 §7: the character of a `\uXXXX` escape whose hex digits start at
/// `p`, joining a UTF-16 surrogate pair; `start` is the position of the `\`.
pub open spec fn unicode_escape(input: Seq<u8>, p: Loc, start: Loc) -> Result<(char, Loc), ErrorView> {
    match hex4(input, p.offset, start) {
        Err(e) => Err(e),
        Ok(high) => {
            let p1 = cols(p, 4);
            if is_high_surrogate(high) {
                if byte_is(input, p1.offset, 0x5C) && byte_is(input, p1.offset + 1, 0x75) {
                    let p2 = cols(p1, 2);
                    match hex4(input, p2.offset, start) {
                        Err(e) => Err(e),
                        Ok(low) => {
                            if !is_low_surrogate(low) {
                                Err(ErrorView::InvalidSurrogatePair { pos: start })
                            } else {
                                Ok(
                                    (
                                        ((0x10000 + (high - 0xD800) * 1024 + (low - 0xDC00)) as u32) as char,
                                        cols(p2, 4),
                                    ),
                                )
                            }
                        },
                    }
                } else {
                    Err(ErrorView::InvalidSurrogatePair { pos: start })
                }
            } else if is_low_surrogate(high) {
                Err(ErrorView::InvalidSurrogatePair { pos: start })
            } else {
                Ok(((high as u32) as char, p1))
            }
        },
    }
}

/// The character that a one-letter escape `\b` denotes, for `b` other than `u`.
pub open spec fn simple_escape(b: u8) -> Option<char> {
    if b == 0x22 {
        Some('"')
    } else if b == 0x5C {
        Some('\\')
    } else if b == 0x2F {
        Some('/')
    } else if b == 0x62 {
        Some('\u{0008}')
    } else if b == 0x66 {
        Some('\u{000C}')
    } else if b == 0x6E {
        Some('\n')
    } else if b == 0x72 {
        Some('\r')
    } else if b == 0x74 {
        Some('\t')
    } else {
        None
    }
}

/// The bytes from `off` to the end of the input.
pub open spec fn rest(input: Seq<u8>, off: nat) -> Seq<u8> {
    input.subrange(off as int, input.len() as int)
}

/// RFC 8259 §7: the string body from `p` (after the opening quote at `start`),
/// with `acc` the characters decoded so far: the decoded characters and the
/// position after the closing quote.
pub open spec fn string_body(input: Seq<u8>, p: Loc, start: Loc, acc: Seq<char>) -> Result<
    (Seq<char>, Loc),
    ErrorView,
>
    decreases input.len() - p.offset,
{
    if p.offset >= input.len() {
        Err(ErrorView::UnexpectedEof { pos: start })
    } else {
        let b = input[p.offset as int];
        if b == 0x22 {
            Ok((acc, step(p, b)))
        } else if b == 0x5C {
            let p1 = step(p, b);
            if p1.offset >= input.len() {
                Err(ErrorView::UnexpectedEof { pos: p })
            } else {
                let esc = input[p1.offset as int];
                let p2 = step(p1, esc);
                if esc == 0x75 {
                    match unicode_escape(input, p2, p) {
                        Err(e) => Err(e),
                        Ok((c, p3)) => {
                            proof {
                                lemma_unicode_escape_advances(input, p2, p);
                            }
                            string_body(input, p3, start, acc.push(c))
                        },
                    }
                } else {
                    match simple_escape(esc) {
                        Some(c) => string_body(input, p2, start, acc.push(c)),
                        None => Err(ErrorView::InvalidEscape { pos: p }),
                    }
                }
            }
        } else if b < 0x20 {
            Err(ErrorView::UnexpectedChar { ch: b as char, pos: p })
        } else if b < 0x80 {
            string_body(input, step(p, b), start, acc.push(b as char))
        } else {
            let r = rest(input, p.offset);
            if valid_first_scalar(r) {
                string_body(
                    input,
                    Loc {
                        line: p.line,
                        column: p.column + 1,
                        offset: p.offset + length_of_first_scalar(r) as nat,
                    },
                    start,
                    acc.push(decode_first_scalar(r) as char),
                )
            } else {
                Err(ErrorView::InvalidUtf8 { pos: p })
            }
        }
    }
}

pub proof fn lemma_hex_run(input: Seq<u8>, off: nat, k: nat, acc: nat, start: Loc)
    requires
        k <= 4,
        acc < pow16(k),
        k == 0 || off + k <= input.len(),
    ensures
        hex_run(input, off, k, acc, start) matches Ok(v) ==> v < 0x10000 && off + 4 <= input.len(),
    decreases 4 - k,
{
    reveal_with_fuel(pow16, 5);
    if k < 4 && off + k < input.len() && is_hex(input[(off + k) as int]) {
        let d = hex_val(input[(off + k) as int]);
        assert(acc * 16 + d < pow16(k + 1)) by (nonlinear_arith)
            requires
                acc < pow16(k),
                d < 16,
                pow16(k + 1) == pow16(k) * 16,
        ;
        lemma_hex_run(input, off, k + 1, acc * 16 + d, start);
    }
}

pub open spec fn pow16(k: nat) -> nat
    decreases k,
{
    if k == 0 {
        1
    } else {
        16 * pow16((k - 1) as nat)
    }
}

pub proof fn lemma_unicode_escape_advances(input: Seq<u8>, p: Loc, start: Loc)
    ensures
        unicode_escape(input, p, start) matches Ok((c, q)) ==> q.offset >= p.offset + 4 && q.line
            == p.line && q.offset <= input.len() && q.column - p.column == q.offset - p.offset,
{
    reveal_with_fuel(pow16, 5);
    lemma_hex_run(input, p.offset, 0, 0, start);
    lemma_hex_run(input, p.offset + 6, 0, 0, start);
}

/// The token that starts at `q`, and the position after it.
/// The bytes that can start a token: `{ } [ ] : , "`, the first letters of
/// `true`, `false` and `null`, a minus sign and the digits.
pub open spec fn starts_token(b: u8) -> bool {
    b == 0x7B || b == 0x7D || b == 0x5B || b == 0x5D || b == 0x3A || b == 0x2C || b == 0x22
        || b == 0x74 || b == 0x66 || b == 0x6E || b == 0x2D || is_digit(b)
}

pub open spec fn next_token(input: Seq<u8>, q: Loc) -> Result<(TokenView, Loc), ErrorView> {
    let b = input[q.offset as int];
    if b == 0x7B {
        Ok((TokenView::BeginObject, step(q, b)))
    } else if b == 0x7D {
        Ok((TokenView::EndObject, step(q, b)))
    } else if b == 0x5B {
        Ok((TokenView::BeginArray, step(q, b)))
    } else if b == 0x5D {
        Ok((TokenView::EndArray, step(q, b)))
    } else if b == 0x3A {
        Ok((TokenView::NameSeparator, step(q, b)))
    } else if b == 0x2C {
        Ok((TokenView::ValueSeparator, step(q, b)))
    } else if b == 0x22 {
        match string_body(input, step(q, b), q, Seq::empty()) {
            Ok((s, e)) => Ok((TokenView::String(s), e)),
            Err(e) => Err(e),
        }
    } else if b == 0x74 {
        if literal_at(input, q.offset, lit_true()) {
            Ok((TokenView::True, cols(q, 4)))
        } else {
            Err(ErrorView::InvalidLiteral { pos: q })
        }
    } else if b == 0x66 {
        if literal_at(input, q.offset, lit_false()) {
            Ok((TokenView::False, cols(q, 5)))
        } else {
            Err(ErrorView::InvalidLiteral { pos: q })
        }
    } else if b == 0x6E {
        if literal_at(input, q.offset, lit_null()) {
            Ok((TokenView::Null, cols(q, 4)))
        } else {
            Err(ErrorView::InvalidLiteral { pos: q })
        }
    } else if b == 0x2D || is_digit(b) {
        match number_end(input, q.offset) {
            Some(e) => if too_large(input, q.offset, e) {
                Err(ErrorView::NumberOutOfRange { pos: q })
            } else {
                Ok(
                    (
                        TokenView::Number(Some(ascii_chars(input, q.offset, e))),
                        cols(q, (e - q.offset) as nat),
                    ),
                )
            },
            None => Err(ErrorView::InvalidNumber { pos: q }),
        }
    } else {
        Err(ErrorView::UnexpectedChar { ch: b as char, pos: q })
    }
}


pub proof fn lemma_string_body_advances(input: Seq<u8>, p: Loc, start: Loc, acc: Seq<char>)
    ensures
        string_body(input, p, start, acc) matches Ok((s, e)) ==> p.offset < e.offset
            <= input.len() && e.line >= p.line && (e.line == p.line ==> e.column > p.column),
    decreases input.len() - p.offset,
{
    if p.offset < input.len() {
        let b = input[p.offset as int];
        if b == 0x5C {
            let p1 = step(p, b);
            if p1.offset < input.len() {
                let esc = input[p1.offset as int];
                let p2 = step(p1, esc);
                if esc == 0x75 {
                    lemma_unicode_escape_advances(input, p2, p);
                    if let Ok((c, p3)) = unicode_escape(input, p2, p) {
                        lemma_string_body_advances(input, p3, start, acc.push(c));
                    }
                } else if let Some(c) = simple_escape(esc) {
                    lemma_string_body_advances(input, p2, start, acc.push(c));
                }
            }
        } else if b != 0x22 && b >= 0x20 && b < 0x80 {
            lemma_string_body_advances(input, step(p, b), start, acc.push(b as char));
        } else if b >= 0x80 {
            let r = rest(input, p.offset);
            if valid_first_scalar(r) {
                lemma_string_body_advances(
                    input,
                    Loc {
                        line: p.line,
                        column: p.column + 1,
                        offset: p.offset + length_of_first_scalar(r) as nat,
                    },
                    start,
                    acc.push(decode_first_scalar(r) as char),
                );
            }
        }
    }
}

pub proof fn lemma_digits_end(input: Seq<u8>, i: nat)
    ensures
        i <= input.len() ==> i <= digits_end(input, i) <= input.len(),
        digits_end(input, i) >= i,
    decreases input.len() - i,
{
    if digit_at(input, i) {
        lemma_digits_end(input, i + 1);
    }
}

pub proof fn lemma_number_end(input: Seq<u8>, off: nat)
    requires
        off < input.len(),
    ensures
        number_end(input, off) matches Some(e) ==> off < e <= input.len(),
{
    let i0 = if byte_is(input, off, 0x2D) { off + 1 } else { off };
    lemma_digits_end(input, i0 + 1);
    if digit_at(input, i0) {
        let i1 = if byte_is(input, i0, 0x30) { i0 + 1 } else { digits_end(input, i0 + 1) };
        lemma_digits_end(input, i1 + 1);
        let i2 = if byte_is(input, i1, 0x2E) { digits_end(input, i1 + 1) } else { i1 };
        lemma_digits_end(input, i2 + 1);
        lemma_digits_end(input, i2 + 2);
    }
}

pub proof fn lemma_next_token_advances(input: Seq<u8>, q: Loc)
    requires
        q.offset < input.len(),
    ensures
        next_token(input, q) matches Ok((t, e)) ==> q.offset < e.offset <= input.len() && e.line
            >= q.line,
{
    let b = input[q.offset as int];
    if b == 0x22 {
        lemma_string_body_advances(input, step(q, b), q, Seq::empty());
    } else if b == 0x2D || is_digit(b) {
        lemma_number_end(input, q.offset);
    }
}

pub proof fn lemma_skip_ws(input: Seq<u8>, p: Loc)
    ensures
        skip_ws(input, p).offset >= p.offset,
        p.offset <= input.len() ==> skip_ws(input, p).offset <= input.len(),
        skip_ws(input, p).offset < input.len() ==> !is_ws(input[skip_ws(input, p).offset as int]),
    decreases input.len() - p.offset,
{
    if p.offset < input.len() && is_ws(input[p.offset as int]) {
        lemma_skip_ws(input, step(p, input[p.offset as int]));
    }
}

/// The tokens of the input from `p` on, each with the positions where it
/// starts and ends, or the first error.
pub open spec fn tokenise_from(input: Seq<u8>, p: Loc) -> Result<Seq<PosTok>, ErrorView>
    decreases input.len() - p.offset,
{
    let q = skip_ws(input, p);
    if q.offset >= input.len() {
        Ok(Seq::empty())
    } else {
        match next_token(input, q) {
            Err(e) => Err(e),
            Ok((t, e)) => {
                proof {
                    lemma_skip_ws(input, p);
                    lemma_next_token_advances(input, q);
                }
                match tokenise_from(input, e) {
                    Ok(ts) => Ok(seq![PosTok { token: t, pos: q, end: e }] + ts),
                    Err(x) => Err(x),
                }
            },
        }
    }
}

/// `acc` followed by the tokens of `r`, or the error of `r`.
pub open spec fn prepend_tokens(acc: Seq<PosTok>, r: Result<Seq<PosTok>, ErrorView>) -> Result<
    Seq<PosTok>,
    ErrorView,
> {
    match r {
        Ok(ts) => Ok(acc + ts),
        Err(e) => Err(e),
    }
}

/// The tokens of the whole input, or the first error.
pub open spec fn tokenise_spec(input: Seq<u8>) -> Result<Seq<PosTok>, ErrorView> {
    tokenise_from(input, start_loc())
}

/// The tokens of the input from `p` on, up to the first error or the end,
/// with the offset just after the last of them (`last` where there is none).
pub open spec fn tokenise_prefix_from(input: Seq<u8>, p: Loc, last: nat) -> (Seq<PosTok>, nat)
    decreases input.len() - p.offset,
{
    let q = skip_ws(input, p);
    if q.offset >= input.len() {
        (Seq::empty(), last)
    } else {
        match next_token(input, q) {
            Err(_) => (Seq::empty(), last),
            Ok((t, e)) => {
                proof {
                    lemma_skip_ws(input, p);
                    lemma_next_token_advances(input, q);
                }
                let (ts, l) = tokenise_prefix_from(input, e, e.offset);
                (seq![PosTok { token: t, pos: q, end: e }] + ts, l)
            },
        }
    }
}

/// The tokens of the longest prefix of the input that tokenises, with the
/// offset just after the last of them.
pub open spec fn tokenise_prefix_spec(input: Seq<u8>) -> (Seq<PosTok>, nat) {
    tokenise_prefix_from(input, start_loc(), 0)
}


// ---------------------------------------------------------------------
// The tokeniser.
// ---------------------------------------------------------------------

/// A well-formed position in `input`: lines and columns count from one and
/// grow no faster than the offset.
pub open spec fn loc_wf(input: Seq<u8>, p: Loc) -> bool {
    &&& p.offset <= input.len()
    &&& p.line >= 1
    &&& p.column >= 1
    &&& p.line + p.column <= p.offset + 2
}

/// `char::from_u32`: the character whose scalar value is `v`, when `v` is
/// one (not above U+10FFFF and not a surrogate); the contract claims
/// `Some` of that character exactly then, and `None` otherwise.
#[verifier::external_body]
fn char_from_u32(v: u32) -> (r: Option<char>)
    ensures
        is_scalar(v) ==> r == Some(v as char),
        !is_scalar(v) ==> r is None,
{
    char::from_u32(v)
}

fn is_digit_byte(b: u8) -> (r: bool)
    ensures
        r == is_digit(b),
{
    b >= 0x30 && b <= 0x39
}

/// The end of the run of decimal digits that starts at `i`.
pub(crate) fn skip_digits(input: &[u8], i: usize) -> (r: usize)
    requires
        i <= input@.len(),
    ensures
        r as nat == digits_end(input@, i as nat),
        i <= r <= input@.len(),
{
    let mut j = i;
    while j < input.len() && input[j] >= 0x30 && input[j] <= 0x39
        invariant
            i <= j <= input@.len(),
            digits_end(input@, j as nat) == digits_end(input@, i as nat),
        decreases input@.len() - j,
    {
        j = j + 1;
    }
    j
}

/// The end of the JSON number that starts at `off`, read greedily; `None`
/// where a digit is missing.
pub(crate) fn scan_number(input: &[u8], off: usize) -> (r: Option<usize>)
    requires
        off <= input@.len(),
    ensures
        r matches Some(e) ==> number_end(input@, off as nat) == Some(e as nat),
        r is None ==> number_end(input@, off as nat) is None,
{
    let len = input.len();
    let mut i = off;
    if i < len && input[i] == 0x2D {
        i = i + 1;
    }
    if i < len && input[i] == 0x30 {
        i = i + 1;
    } else if i < len && is_digit_byte(input[i]) {
        i = skip_digits(input, i + 1);
    } else {
        return None;
    }
    if i < len && input[i] == 0x2E {
        if i + 1 < len && is_digit_byte(input[i + 1]) {
            i = skip_digits(input, i + 1);
        } else {
            return None;
        }
    }
    if i < len && (input[i] == 0x65 || input[i] == 0x45) {
        let mut j = i + 1;
        if j < len && (input[j] == 0x2B || input[j] == 0x2D) {
            j = j + 1;
        }
        if j < len && is_digit_byte(input[j]) {
            i = skip_digits(input, j);
        } else {
            return None;
        }
    }
    Some(i)
}

pub struct Tokeniser<'a> {
    input: &'a [u8],
    pos: Position,
}

impl<'a> Tokeniser<'a> {
    /// The bytes being tokenised.
    pub closed spec fn input_view(&self) -> Seq<u8> {
        self.input@
    }

    /// The position of the next byte to read.
    pub closed spec fn pos_view(&self) -> Loc {
        self.pos@
    }

    pub closed spec fn wf(&self) -> bool {
        &&& self.input@.len() < usize::MAX
        &&& loc_wf(self.input@, self.pos@)
    }

    pub fn new(input: &'a [u8]) -> (t: Self)
        requires
            input@.len() < usize::MAX,
        ensures
            t.wf(),
            t.input_view() == input@,
            t.pos_view() == start_loc(),
    {
        Self { input, pos: Position::start() }
    }

    fn is_at_end(&self) -> (r: bool)
        ensures
            r == (self.pos.offset >= self.input@.len()),
    {
        self.pos.offset >= self.input.len()
    }

    fn peek(&self) -> (r: Option<u8>)
        ensures
            self.pos.offset < self.input@.len() ==> r == Some(self.input@[self.pos.offset as int]),
            self.pos.offset >= self.input@.len() ==> r is None,
    {
        if self.pos.offset < self.input.len() {
            Some(self.input[self.pos.offset])
        } else {
            None
        }
    }

    fn peek_at(&self, n: usize) -> (r: Option<u8>)
        requires
            self.pos.offset + n <= usize::MAX,
        ensures
            self.pos.offset + n < self.input@.len() ==> r == Some(
                self.input@[self.pos.offset + n],
            ),
            self.pos.offset + n >= self.input@.len() ==> r is None,
    {
        if self.pos.offset + n < self.input.len() {
            Some(self.input[self.pos.offset + n])
        } else {
            None
        }
    }

    fn advance(&mut self) -> (r: Option<u8>)
        requires
            old(self).wf(),
        ensures
            final(self).wf(),
            final(self).input@ == old(self).input@,
            old(self).pos.offset < old(self).input@.len() ==> r == Some(
                old(self).input@[old(self).pos.offset as int],
            ) && final(self).pos@ == step(old(self).pos@, old(self).input@[old(self).pos.offset as int]),
            old(self).pos.offset >= old(self).input@.len() ==> r is None && final(self).pos
                == old(self).pos,
    {
        let b = match self.peek() {
            Some(b) => b,
            None => return None,
        };
        if b == 0x0A {
            self.pos.line = self.pos.line + 1;
            self.pos.column = 1;
        } else {
            self.pos.column = self.pos.column + 1;
        }
        self.pos.offset = self.pos.offset + 1;
        Some(b)
    }

    /// RFC 8259 §2: ws = *( %x20 / %x09 / %x0A / %x0D )
    fn skip_ws(&mut self)
        requires
            old(self).wf(),
        ensures
            final(self).wf(),
            final(self).input@ == old(self).input@,
            final(self).pos@ == skip_ws(old(self).input@, old(self).pos@),
    {
        let ghost input = self.input@;
        let ghost p0 = self.pos@;
        while self.pos.offset < self.input.len() && (self.input[self.pos.offset] == 0x20
            || self.input[self.pos.offset] == 0x09 || self.input[self.pos.offset] == 0x0A
            || self.input[self.pos.offset] == 0x0D)
            invariant
                self.wf(),
                self.input@ == input,
                skip_ws(input, self.pos@) == skip_ws(input, p0),
            decreases input.len() - self.pos.offset,
        {
            self.advance();
        }
    }

    fn read_literal(&mut self, expected: &[u8], tok: Token) -> (r: Result<Token, Error>)
        requires
            old(self).wf(),
            forall|k: int| 0 <= k < expected@.len() ==> expected@[k] != 0x0A,
        ensures
            final(self).wf(),
            final(self).input@ == old(self).input@,
            literal_at(old(self).input@, old(self).pos.offset as nat, expected@) ==> r == Ok::<
                Token,
                Error,
            >(tok) && final(self).pos@ == cols(old(self).pos@, expected@.len()),
            !literal_at(old(self).input@, old(self).pos.offset as nat, expected@) ==> (r matches Err(
                e,
            ) && e@ == (ErrorView::InvalidLiteral { pos: old(self).pos@ })),
    {
        let start = self.pos;
        let ghost input = self.input@;
        let mut i: usize = 0;
        while i < expected.len()
            invariant
                self.wf(),
                self.input@ == input,
                forall|k: int| 0 <= k < expected@.len() ==> expected@[k] != 0x0A,
                old(self).input@ == input,
                old(self).pos == start,
                i <= expected@.len(),
                start.offset + i <= input.len(),
                self.pos@ == cols(start@, i as nat),
                input.subrange(start.offset as int, start.offset + i) == expected@.subrange(
                    0,
                    i as int,
                ),
            decreases expected@.len() - i,
        {
            match self.peek() {
                Some(b) => {
                    if b == expected[i] {
                        self.advance();
                        proof {
                            assert(input.subrange(start.offset as int, start.offset + i + 1)
                                =~= input.subrange(start.offset as int, start.offset + i).push(b));
                            assert(expected@.subrange(0, i + 1) =~= expected@.subrange(
                                0,
                                i as int,
                            ).push(b));
                        }
                    } else {
                        proof {
                            if literal_at(input, start.offset as nat, expected@) {
                                assert(input.subrange(
                                    start.offset as int,
                                    start.offset + expected@.len(),
                                )[i as int] == input[start.offset + i]);
                                assert(expected@[i as int] == input[start.offset + i]);
                            }
                        }
                        return Err(Error::InvalidLiteral { pos: start });
                    }
                },
                None => {
                    return Err(Error::InvalidLiteral { pos: start });
                },
            }
            i = i + 1;
        }
        proof {
            assert(expected@.subrange(0, expected@.len() as int) =~= expected@);
        }
        Ok(tok)
    }

    fn read_hex4(&mut self, start: Position) -> (r: Result<u32, Error>)
        requires
            old(self).wf(),
        ensures
            final(self).wf(),
            final(self).input@ == old(self).input@,
            hex4(old(self).input@, old(self).pos.offset as nat, start@) matches Ok(v) ==> r == Ok::<
                u32,
                Error,
            >(v as u32) && final(self).pos@ == cols(old(self).pos@, 4),
            hex4(old(self).input@, old(self).pos.offset as nat, start@) matches Err(e) ==> (r matches Err(
                x,
            ) && x@ == e),
    {
        let ghost input = self.input@;
        let ghost p0 = self.pos@;
        let mut val: u32 = 0;
        let mut k: usize = 0;
        proof {
            reveal_with_fuel(pow16, 5);
        }
        while k < 4
            invariant
                self.wf(),
                self.input@ == input,
                old(self).input@ == input,
                old(self).pos@ == p0,
                k <= 4,
                val < pow16(k as nat),
                pow16(4) == 0x10000,
                self.pos@ == cols(p0, k as nat),
                hex_run(input, p0.offset, k as nat, val as nat, start@) == hex4(
                    input,
                    p0.offset,
                    start@,
                ),
            decreases 4 - k,
        {
            let b = match self.peek() {
                Some(b) => b,
                None => {
                    return Err(Error::UnexpectedEof { pos: start });
                },
            };
            let d: u32 = if b >= 0x30 && b <= 0x39 {
                (b - 0x30) as u32
            } else if b >= 0x61 && b <= 0x66 {
                (b - 0x61 + 10) as u32
            } else if b >= 0x41 && b <= 0x46 {
                (b - 0x41 + 10) as u32
            } else {
                return Err(Error::InvalidUnicodeEscape { pos: start });
            };
            self.advance();
            proof {
                reveal_with_fuel(pow16, 5);
                assert(val * 16 + d < pow16((k + 1) as nat)) by (nonlinear_arith)
                    requires
                        val < pow16(k as nat),
                        d < 16,
                        pow16((k + 1) as nat) == pow16(k as nat) * 16,
                        pow16((k + 1) as nat) <= 0x10000,
                ;
            }
            val = val * 16 + d;
            k = k + 1;
        }
        Ok(val)
    }

    /// Read a 4-hex-digit Unicode escape; handle UTF-16 surrogate pairs per RFC 8259 §7.
    fn read_unicode_escape(&mut self, start: Position) -> (r: Result<char, Error>)
        requires
            old(self).wf(),
        ensures
            final(self).wf(),
            final(self).input@ == old(self).input@,
            unicode_escape(old(self).input@, old(self).pos@, start@) matches Ok((c, e)) ==> r
                == Ok::<char, Error>(c) && final(self).pos@ == e,
            unicode_escape(old(self).input@, old(self).pos@, start@) matches Err(e) ==> (r matches Err(
                x,
            ) && x@ == e),
    {
        let ghost input = self.input@;
        let high = match self.read_hex4(start) {
            Ok(v) => v,
            Err(e) => return Err(e),
        };
        proof {
            lemma_hex_run(input, old(self).pos.offset as nat, 0, 0, start@);
        }
        if high >= 0xD800 && high <= 0xDBFF {
            if self.peek() == Some(0x5Cu8) && self.peek_at(1) == Some(0x75u8) {
                self.advance();
                self.advance();
                let low = match self.read_hex4(start) {
                    Ok(v) => v,
                    Err(e) => return Err(e),
                };
                proof {
                    lemma_hex_run(input, (old(self).pos.offset + 6) as nat, 0, 0, start@);
                }
                if !(low >= 0xDC00 && low <= 0xDFFF) {
                    return Err(Error::InvalidSurrogatePair { pos: start });
                }
                let code: u32 = 0x10000 + (high - 0xD800) * 1024 + (low - 0xDC00);
                match char_from_u32(code) {
                    Some(c) => Ok(c),
                    None => Err(Error::InvalidSurrogatePair { pos: start }),
                }
            } else {
                Err(Error::InvalidSurrogatePair { pos: start })
            }
        } else if high >= 0xDC00 && high <= 0xDFFF {
            Err(Error::InvalidSurrogatePair { pos: start })
        } else {
            match char_from_u32(high) {
                Some(c) => Ok(c),
                None => Err(Error::InvalidUnicodeEscape { pos: start }),
            }
        }
    }

    /// Decode one UTF-8 codepoint at the current position; advance past it.
    fn read_utf8_char(&mut self) -> (r: Result<char, Error>)
        requires
            old(self).wf(),
            old(self).pos.offset < old(self).input@.len(),
        ensures
            final(self).wf(),
            final(self).input@ == old(self).input@,
            ({
                let p = old(self).pos@;
                let rs = rest(old(self).input@, p.offset);
                if valid_first_scalar(rs) {
                    r == Ok::<char, Error>(decode_first_scalar(rs) as char) && final(self).pos@
                        == Loc {
                        line: p.line,
                        column: p.column + 1,
                        offset: p.offset + length_of_first_scalar(rs) as nat,
                    }
                } else {
                    r matches Err(x) && x@ == (ErrorView::InvalidUtf8 { pos: p })
                        && final(self).pos@ == p
                }
            }),
    {
        let ghost input = self.input@;
        let start = self.pos;
        let off = self.pos.offset;
        let ghost rs = rest(input, off as nat);
        let first = self.input[off];
        let len: usize = if first <= 0x7F {
            1
        } else if first >= 0xC2 && first <= 0xDF {
            2
        } else if first >= 0xE0 && first <= 0xEF {
            3
        } else if first >= 0xF0 && first <= 0xF4 {
            4
        } else {
            proof {
                if first == 0xC0 || first == 0xC1 {
                    if rs.len() >= 2 {
                        let b1 = rs[1];
                        assert(((first & 0x1F) as u32) << 6 | ((b1 & 0x3F) as u32) < 0x80)
                            by (bit_vector)
                            requires
                                first == 0xC0 || first == 0xC1,
                        ;
                    }
                } else if 0xF5 <= first <= 0xF7 {
                    if rs.len() >= 4 {
                        let b1 = rs[1];
                        let b2 = rs[2];
                        let b3 = rs[3];
                        assert(((first & 0x07) as u32) << 18 | ((b1 & 0x3F) as u32) << 12 | ((b2
                            & 0x3F) as u32) << 6 | ((b3 & 0x3F) as u32) > 0x10ffff) by (bit_vector)
                            requires
                                0xF5 <= first <= 0xF7,
                        ;
                    }
                }
            }
            return Err(Error::InvalidUtf8 { pos: start });
        };
        if len > self.input.len() - off {
            return Err(Error::InvalidUtf8 { pos: start });
        }
        let cp: u32 = if len == 1 {
            (first & 0x7F) as u32
        } else if len == 2 {
            let b1 = self.input[off + 1];
            if !(b1 >= 0x80 && b1 <= 0xBF) {
                return Err(Error::InvalidUtf8 { pos: start });
            }
            ((first & 0x1F) as u32) << 6 | ((b1 & 0x3F) as u32)
        } else if len == 3 {
            let b1 = self.input[off + 1];
            let b2 = self.input[off + 2];
            if !(b1 >= 0x80 && b1 <= 0xBF && b2 >= 0x80 && b2 <= 0xBF) {
                return Err(Error::InvalidUtf8 { pos: start });
            }
            ((first & 0x0F) as u32) << 12 | ((b1 & 0x3F) as u32) << 6 | ((b2 & 0x3F) as u32)
        } else {
            let b1 = self.input[off + 1];
            let b2 = self.input[off + 2];
            let b3 = self.input[off + 3];
            if !(b1 >= 0x80 && b1 <= 0xBF && b2 >= 0x80 && b2 <= 0xBF && b3 >= 0x80 && b3
                <= 0xBF) {
                return Err(Error::InvalidUtf8 { pos: start });
            }
            ((first & 0x07) as u32) << 18 | ((b1 & 0x3F) as u32) << 12 | ((b2 & 0x3F) as u32) << 6
                | ((b3 & 0x3F) as u32)
        };
        let ok_width = if len == 2 {
            cp >= 0x80
        } else if len == 3 {
            cp >= 0x800
        } else if len == 4 {
            cp >= 0x10000 && cp <= 0x10ffff
        } else {
            true
        };
        if !ok_width || (cp >= 0xD800 && cp <= 0xDFFF) {
            return Err(Error::InvalidUtf8 { pos: start });
        }
        proof {
            if len == 2 {
                let b1 = input[off + 1];
                assert(((first & 0x1F) as u32) << 6 | ((b1 & 0x3F) as u32) <= 0x7FF) by (bit_vector);
            } else if len == 3 {
                let b1 = input[off + 1];
                let b2 = input[off + 2];
                assert(((first & 0x0F) as u32) << 12 | ((b1 & 0x3F) as u32) << 6 | ((b2 & 0x3F) as u32)
                    <= 0xFFFF) by (bit_vector);
            } else if len == 1 {
                assert((first & 0x7F) as u32 <= 0x7F) by (bit_vector);
            }
            assert(is_scalar(cp));
        }
        let ch = match char_from_u32(cp) {
            Some(c) => c,
            None => return Err(Error::InvalidUtf8 { pos: start }),
        };
        self.pos.offset = off + len;
        self.pos.column = self.pos.column + 1;
        Ok(ch)
    }

    /// RFC 8259 §7: string parsing with escape processing.
    fn read_string(&mut self) -> (r: Result<Token, Error>)
        requires
            old(self).wf(),
            old(self).pos.offset < old(self).input@.len(),
            old(self).input@[old(self).pos.offset as int] == 0x22,
        ensures
            final(self).wf(),
            final(self).input@ == old(self).input@,
            string_body(
                old(self).input@,
                step(old(self).pos@, 0x22),
                old(self).pos@,
                Seq::empty(),
            ) matches Ok((s, e)) ==> (r matches Ok(t) && t@ == TokenView::String(s))
                && final(self).pos@ == e,
            string_body(
                old(self).input@,
                step(old(self).pos@, 0x22),
                old(self).pos@,
                Seq::empty(),
            ) matches Err(e) ==> (r matches Err(x) && x@ == e),
    {
        let ghost input = self.input@;
        let start = self.pos;
        // Opening quote
        self.advance();
        let ghost target = string_body(input, self.pos@, start@, Seq::empty());
        let mut out = String::new();
        loop
            invariant
                self.wf(),
                self.input@ == input,
                old(self).input@ == input,
                old(self).pos == start,
                target == string_body(input, step(start@, 0x22), start@, Seq::empty()),
                string_body(input, self.pos@, start@, out@) == target,
            decreases input.len() - self.pos.offset,
        {
            let b = match self.peek() {
                Some(b) => b,
                None => {
                    return Err(Error::UnexpectedEof { pos: start });
                },
            };
            if b == 0x22 {
                self.advance();
                return Ok(Token::String(out));
            } else if b == 0x5C {
                let escape_pos = self.pos;
                self.advance();
                let esc = match self.peek() {
                    Some(e) => e,
                    None => {
                        return Err(Error::UnexpectedEof { pos: escape_pos });
                    },
                };
                self.advance();
                let ghost p2 = self.pos@;
                let c = if esc == 0x75 {
                    proof {
                        lemma_unicode_escape_advances(input, p2, escape_pos@);
                    }
                    match self.read_unicode_escape(escape_pos) {
                        Ok(c) => c,
                        Err(e) => {
                            return Err(e);
                        },
                    }
                } else if esc == 0x22 {
                    '"'
                } else if esc == 0x5C {
                    '\\'
                } else if esc == 0x2F {
                    '/'
                } else if esc == 0x62 {
                    '\u{0008}'
                } else if esc == 0x66 {
                    '\u{000C}'
                } else if esc == 0x6E {
                    '\n'
                } else if esc == 0x72 {
                    '\r'
                } else if esc == 0x74 {
                    '\t'
                } else {
                    return Err(Error::InvalidEscape { pos: escape_pos });
                };
                push_char(&mut out, c);
            } else if b < 0x20 {
                // RFC 8259 §7: unescaped control characters U+0000..=U+001F are forbidden
                return Err(Error::UnexpectedChar { ch: b as char, pos: self.pos });
            } else if b < 0x80 {
                push_char(&mut out, b as char);
                self.advance();
            } else {
                let ch = match self.read_utf8_char() {
                    Ok(c) => c,
                    Err(e) => {
                        return Err(e);
                    },
                };
                push_char(&mut out, ch);
            }
        }
    }

    /// RFC 8259 §6: number = [ minus ] int [ frac ] [ exp ]
    fn read_number(&mut self) -> (r: Result<Token, Error>)
        requires
            old(self).wf(),
            old(self).pos.offset < old(self).input@.len(),
        ensures
            final(self).wf(),
            final(self).input@ == old(self).input@,
            number_end(old(self).input@, old(self).pos.offset as nat) matches Some(e) ==> if too_large(
                old(self).input@,
                old(self).pos.offset as nat,
                e,
            ) {
                r matches Err(x) && x@ == (ErrorView::NumberOutOfRange { pos: old(self).pos@ })
            } else {
                (r matches Ok(t) && t@ == TokenView::Number(
                    Some(ascii_chars(old(self).input@, old(self).pos.offset as nat, e)),
                )) && final(self).pos@ == cols(old(self).pos@, (e - old(self).pos.offset) as nat)
            },
            number_end(old(self).input@, old(self).pos.offset as nat) is None ==> (r matches Err(x)
                && x@ == (ErrorView::InvalidNumber { pos: old(self).pos@ })),
    {
        let ghost input = self.input@;
        let start = self.pos;
        let off = start.offset;
        match scan_number(self.input, off) {
            None => Err(Error::InvalidNumber { pos: start }),
            Some(end) => {
                proof {
                    lemma_number_end(input, off as nat);
                }
                // RFC 8259 §6 does not permit NaN or Infinity.
                if number_too_large(self.input, off, end) {
                    return Err(Error::NumberOutOfRange { pos: start });
                }
                let mut text = String::new();
                let mut i = off;
                while i < end
                    invariant
                        off <= i <= end <= input.len(),
                        self.input@ == input,
                        text@ == ascii_chars(input, off as nat, i as nat),
                    decreases end - i,
                {
                    proof {
                        assert(ascii_chars(input, off as nat, (i + 1) as nat) =~= ascii_chars(
                            input,
                            off as nat,
                            i as nat,
                        ).push(input[i as int] as char));
                    }
                    push_char(&mut text, self.input[i] as char);
                    i = i + 1;
                }
                self.pos = Position {
                    line: start.line,
                    column: start.column + (end - off),
                    offset: end,
                };
                proof {
                    crate::wellformed::lemma_number_text(input, off as nat, end as nat);
                }
                Ok(Token::Number(Number::from_lexeme(text)))
            },
        }
    }

    fn next_token(&mut self) -> (r: Result<PositionedToken, Error>)
        requires
            old(self).wf(),
            old(self).pos.offset < old(self).input@.len(),
        ensures
            final(self).wf(),
            final(self).input@ == old(self).input@,
            next_token(old(self).input@, old(self).pos@) matches Ok((t, e)) ==> (r matches Ok(pt)
                && pt@ == PosTok { token: t, pos: old(self).pos@, end: e }) && final(self).pos@ == e,
            next_token(old(self).input@, old(self).pos@) matches Err(e) ==> (r matches Err(x) && x@
                == e),
            r is Ok ==> final(self).pos.offset > old(self).pos.offset,
            !starts_token(old(self).input@[old(self).pos.offset as int]) ==> final(self).pos
                == old(self).pos,
    {
        proof {
            lemma_next_token_advances(self.input@, self.pos@);
        }
        let start = self.pos;
        let b = self.input[self.pos.offset];
        let token = if b == 0x7B {
            self.advance();
            Token::BeginObject
        } else if b == 0x7D {
            self.advance();
            Token::EndObject
        } else if b == 0x5B {
            self.advance();
            Token::BeginArray
        } else if b == 0x5D {
            self.advance();
            Token::EndArray
        } else if b == 0x3A {
            self.advance();
            Token::NameSeparator
        } else if b == 0x2C {
            self.advance();
            Token::ValueSeparator
        } else if b == 0x22 {
            match self.read_string() {
                Ok(t) => t,
                Err(e) => return Err(e),
            }
        } else if b == 0x74 {
            let lit: [u8; 4] = [0x74, 0x72, 0x75, 0x65];
            proof {
                assert(lit@ =~= lit_true());
            }
            match self.read_literal(&lit, Token::True) {
                Ok(t) => t,
                Err(e) => return Err(e),
            }
        } else if b == 0x66 {
            let lit: [u8; 5] = [0x66, 0x61, 0x6C, 0x73, 0x65];
            proof {
                assert(lit@ =~= lit_false());
            }
            match self.read_literal(&lit, Token::False) {
                Ok(t) => t,
                Err(e) => return Err(e),
            }
        } else if b == 0x6E {
            let lit: [u8; 4] = [0x6E, 0x75, 0x6C, 0x6C];
            proof {
                assert(lit@ =~= lit_null());
            }
            match self.read_literal(&lit, Token::Null) {
                Ok(t) => t,
                Err(e) => return Err(e),
            }
        } else if b == 0x2D || (b >= 0x30 && b <= 0x39) {
            match self.read_number() {
                Ok(t) => t,
                Err(e) => return Err(e),
            }
        } else {
            return Err(Error::UnexpectedChar { ch: b as char, pos: start });
        };
        Ok(PositionedToken { token, pos: start, end: self.pos })
    }

    /// Tokenise the entire input.
    pub fn tokenise(input: &'a [u8]) -> (r: Result<Vec<PositionedToken>, Error>)
        requires
            input@.len() < usize::MAX,
        ensures
            tokenise_spec(input@) matches Ok(ts) ==> (r matches Ok(v) && toks_view(v@) == ts),
            tokenise_spec(input@) matches Err(e) ==> (r matches Err(x) && x@ == e),
    {
        let mut t = Self::new(input);
        let mut out: Vec<PositionedToken> = Vec::new();
        loop
            invariant
                t.wf(),
                t.input@ == input@,
                tokenise_spec(input@) == prepend_tokens(
                    toks_view(out@),
                    tokenise_from(input@, t.pos@),
                ),
            ensures
                tokenise_spec(input@) == Ok::<Seq<PosTok>, ErrorView>(toks_view(out@)),
            decreases input@.len() - t.pos.offset,
        {
            let ghost p = t.pos@;
            t.skip_ws();
            proof {
                lemma_skip_ws(input@, p);
                lemma_skip_ws(input@, t.pos@);
                assert(skip_ws(input@, t.pos@) == t.pos@);
            }
            if t.is_at_end() {
                proof {
                    assert(toks_view(out@) + Seq::<PosTok>::empty() =~= toks_view(out@));
                }
                break;
            }
            let ghost q = t.pos@;
            proof {
                lemma_next_token_advances(input@, q);
            }
            match t.next_token() {
                Ok(tk) => {
                    let ghost before = out@;
                    out.push(tk);
                    proof {
                        let pt = PosTok { token: tk.token@, pos: q, end: t.pos@ };
                        assert(toks_view(out@) =~= toks_view(before).push(pt));
                        assert(tokenise_from(input@, q) matches Ok(ts) ==> toks_view(before) + (seq![pt]
                            + ts.drop_first()) =~= toks_view(out@) + ts.drop_first());
                        match tokenise_from(input@, t.pos@) {
                            Ok(ts) => {
                                assert(toks_view(before) + (seq![pt] + ts) =~= toks_view(out@)
                                    + ts);
                            },
                            Err(_) => {},
                        }
                    }
                },
                Err(e) => {
                    return Err(e);
                },
            }
        }
        Ok(out)
    }

    /// Tokenise as many tokens as possible from `input`, stopping silently
    /// on the first tokenise error or at end-of-input. Returns the tokens
    /// successfully read plus the byte offset immediately after the last
    /// consumed token (i.e. *not* including any trailing whitespace or
    /// unrecognised bytes).
    pub fn tokenise_prefix(input: &'a [u8]) -> (r: (Vec<PositionedToken>, usize))
        requires
            input@.len() < usize::MAX,
        ensures
            toks_view(r.0@) == tokenise_prefix_spec(input@).0,
            r.1 as nat == tokenise_prefix_spec(input@).1,
    {
        let mut t = Self::new(input);
        let mut out: Vec<PositionedToken> = Vec::new();
        let mut last_token_end: usize = 0;
        loop
            invariant_except_break
                tokenise_prefix_spec(input@) == ({
                    let (ts, l) = tokenise_prefix_from(input@, t.pos@, last_token_end as nat);
                    (toks_view(out@) + ts, l)
                }),
            invariant
                t.wf(),
                t.input@ == input@,
                last_token_end <= input@.len(),
            ensures
                tokenise_prefix_spec(input@) == (toks_view(out@), last_token_end as nat),
            decreases input@.len() - t.pos.offset,
        {
            let ghost p = t.pos@;
            t.skip_ws();
            proof {
                lemma_skip_ws(input@, p);
                lemma_skip_ws(input@, t.pos@);
                assert(skip_ws(input@, t.pos@) == t.pos@);
            }
            if t.is_at_end() {
                proof {
                    assert(toks_view(out@) + Seq::<PosTok>::empty() =~= toks_view(out@));
                }
                break;
            }
            let ghost q = t.pos@;
            proof {
                lemma_next_token_advances(input@, q);
            }
            match t.next_token() {
                Ok(tk) => {
                    last_token_end = t.pos.offset;
                    let ghost before = out@;
                    out.push(tk);
                    proof {
                        let pt = PosTok { token: tk.token@, pos: q, end: t.pos@ };
                        assert(toks_view(out@) =~= toks_view(before).push(pt));
                        let (ts, l) = tokenise_prefix_from(input@, t.pos@, last_token_end as nat);
                        assert(toks_view(before) + (seq![pt] + ts) =~= toks_view(out@) + ts);
                    }
                },
                Err(_) => {
                    proof {
                        assert(tokenise_prefix_from(input@, q, last_token_end as nat) == (
                            Seq::<PosTok>::empty(),
                            last_token_end as nat,
                        ));
                        assert(toks_view(out@) + Seq::<PosTok>::empty() =~= toks_view(out@));
                    }
                    break;
                },
            }
        }
        (out, last_token_end)
    }
}

} // verus!
