//! How minifying treats comments: a block comment is removed whole, from
//! its `/*` to the first `*/` after it.
use vstd::prelude::*;

use crate::cjson::{
    block_end, byte_at, copy_string, is_minify_ws, lemma_block_end, lemma_copy_string,
    lemma_line_end, line_end, minify_from,
};

verus! {

/// `t` holds no `*/`.
pub open spec fn no_comment_end(t: Seq<u8>) -> bool {
    forall|k: int| 0 <= k < t.len() - 1 ==> !(#[trigger] t[k] == 0x2A && t[k + 1] == 0x2F)
}

/// `x` holds neither a quotation mark nor a solidus, so that nothing in it
/// starts a string or a comment.
pub open spec fn plain(x: Seq<u8>) -> bool {
    forall|k: int| 0 <= k < x.len() ==> #[trigger] x[k] != 0x22 && x[k] != 0x2F
}

/// The block comment `/*` `t` `*/`.
pub open spec fn block_comment(t: Seq<u8>) -> Seq<u8> {
    seq![0x2Fu8, 0x2A] + t + seq![0x2Au8, 0x2F]
}

proof fn lemma_copy_string_shift(p: Seq<u8>, c: Seq<u8>, r: nat)
    ensures
        copy_string(p + c, p.len() + r).0 == copy_string(c, r).0,
        copy_string(p + c, p.len() + r).1 == p.len() + copy_string(c, r).1,
    decreases c.len() - r,
{
    let b = p + c;
    let i = p.len() + r;
    if r < c.len() {
        assert(b[i as int] == c[r as int]);
        if c[r as int] != 0x22 {
            if c[r as int] == 0x5C && r + 1 < c.len() {
                assert(b[i + 1int] == c[r + 1int]);
                lemma_copy_string_shift(p, c, r + 2);
                assert(p.len() + (r + 2) == i + 2);
            } else {
                lemma_copy_string_shift(p, c, r + 1);
                assert(p.len() + (r + 1) == i + 1);
            }
        }
    }
}

proof fn lemma_line_end_shift(p: Seq<u8>, c: Seq<u8>, r: nat)
    ensures
        line_end(p + c, p.len() + r) == p.len() + line_end(c, r),
    decreases c.len() - r,
{
    if r < c.len() {
        assert((p + c)[(p.len() + r) as int] == c[r as int]);
        if c[r as int] != 0x0A {
            lemma_line_end_shift(p, c, r + 1);
            assert(p.len() + (r + 1) == p.len() + r + 1);
        }
    }
}

proof fn lemma_block_end_shift(p: Seq<u8>, c: Seq<u8>, r: nat)
    ensures
        block_end(p + c, p.len() + r) == p.len() + block_end(c, r),
    decreases c.len() - r,
{
    let i = p.len() + r;
    if r < c.len() {
        assert((p + c)[i as int] == c[r as int]);
        assert(byte_at(p + c, i + 1) == byte_at(c, r + 1)) by {
            if r + 1 < c.len() {
                assert((p + c)[i + 1int] == c[r + 1int]);
            }
        }
        lemma_block_end_shift(p, c, r + 1);
        assert(p.len() + (r + 1) == i + 1);
    }
}

/// What minifying keeps of a text from a point on does not depend on what
/// stands before that point.
pub proof fn lemma_minify_shift(p: Seq<u8>, c: Seq<u8>, r: nat)
    ensures
        minify_from(p + c, p.len() + r) == minify_from(c, r),
    decreases c.len() - r,
{
    let b = p + c;
    let i = p.len() + r;
    if r < c.len() {
        let x = c[r as int];
        assert(b[i as int] == x);
        assert(byte_at(b, i + 1) == byte_at(c, r + 1)) by {
            if r + 1 < c.len() {
                assert(b[i + 1int] == c[r + 1int]);
            }
        }
        if is_minify_ws(x) {
            lemma_minify_shift(p, c, r + 1);
            assert(p.len() + (r + 1) == i + 1);
        } else if x == 0x22 {
            lemma_copy_string_shift(p, c, r + 1);
            lemma_copy_string(c, r + 1);
            assert(p.len() + (r + 1) == i + 1);
            lemma_minify_shift(p, c, copy_string(c, r + 1).1);
        } else if x == 0x2F && byte_at(c, r + 1) == Some(0x2Fu8) {
            lemma_line_end_shift(p, c, r);
            lemma_line_end(c, r);
            lemma_minify_shift(p, c, line_end(c, r));
        } else if x == 0x2F && byte_at(c, r + 1) == Some(0x2Au8) {
            lemma_block_end_shift(p, c, r + 2);
            lemma_block_end(c, r + 2);
            assert(p.len() + (r + 2) == i + 2);
            lemma_minify_shift(p, c, block_end(c, r + 2));
        } else {
            lemma_minify_shift(p, c, r + 1);
            assert(p.len() + (r + 1) == i + 1);
        }
    }
}

/// Minifying a text that starts with a plain part keeps what it keeps of the
/// plain part, then what it keeps of the rest.
proof fn lemma_minify_plain_prefix(x: Seq<u8>, y: Seq<u8>, r: nat)
    requires
        plain(x),
        r <= x.len(),
    ensures
        minify_from(x + y, r) == minify_from(x, r) + minify_from(x + y, x.len()),
    decreases x.len() - r,
{
    if r < x.len() {
        let b = x + y;
        let c = x[r as int];
        assert(b[r as int] == c);
        assert(c != 0x22 && c != 0x2F);
        lemma_minify_plain_prefix(x, y, r + 1);
        if !is_minify_ws(c) {
            assert(seq![c] + minify_from(x, r + 1) + minify_from(b, x.len()) =~= seq![c] + (
            minify_from(x, r + 1) + minify_from(b, x.len())));
        }
    } else {
        assert(minify_from(x, r) =~= Seq::<u8>::empty());
        assert(Seq::<u8>::empty() + minify_from(x + y, x.len()) =~= minify_from(x + y, x.len()));
    }
}

/// A plain part before another text: minifying the whole keeps what it
/// keeps of each.
pub proof fn lemma_plain_concat(x: Seq<u8>, y: Seq<u8>)
    requires
        plain(x),
    ensures
        minify_from(x + y, 0) == minify_from(x, 0) + minify_from(y, 0),
{
    lemma_minify_plain_prefix(x, y, 0);
    lemma_minify_shift(x, y, 0);
}

/// Inside a comment body with no `*/`, the comment ends just after the
/// `*/` that closes it.
proof fn lemma_block_end_comment(t: Seq<u8>, y: Seq<u8>, i: nat)
    requires
        no_comment_end(t),
        2 <= i <= t.len() + 2,
    ensures
        block_end(block_comment(t) + y, i) == t.len() + 4,
    decreases t.len() + 2 - i,
{
    let s = block_comment(t) + y;
    assert(s.len() == t.len() + 4 + y.len());
    if i < t.len() + 2 {
        assert(s[i as int] == t[i - 2]);
        if i + 1 < t.len() + 2 {
            assert(s[i + 1int] == t[i - 1]);
            assert(!(t[i - 2] == 0x2A && t[i - 1] == 0x2F));
        } else {
            assert(s[i + 1int] == 0x2A);
        }
        lemma_block_end_comment(t, y, i + 1);
    } else {
        assert(s[i as int] == 0x2A);
        assert(s[i + 1int] == 0x2F);
    }
}

/// A text that starts with a block comment minifies as the text after it.
pub proof fn lemma_leading_comment(t: Seq<u8>, y: Seq<u8>)
    requires
        no_comment_end(t),
    ensures
        minify_from(block_comment(t) + y, 0) == minify_from(y, 0),
{
    let s = block_comment(t) + y;
    assert(s[0] == 0x2F);
    assert(s[1] == 0x2A);
    lemma_block_end_comment(t, y, 2);
    lemma_minify_shift(block_comment(t), y, 0);
}

/// A block comment after a plain part is removed whole.
pub proof fn lemma_comment_removed(x: Seq<u8>, t: Seq<u8>, y: Seq<u8>)
    requires
        plain(x),
        no_comment_end(t),
    ensures
        minify_from(x + (block_comment(t) + y), 0) == minify_from(x, 0) + minify_from(y, 0),
{
    let rest = block_comment(t) + y;
    lemma_minify_plain_prefix(x, rest, 0);
    lemma_minify_shift(x, rest, 0);
    lemma_leading_comment(t, y);
}

/// The line comment `//` `t` and the line feed that ends it.
pub open spec fn line_comment(t: Seq<u8>) -> Seq<u8> {
    seq![0x2Fu8, 0x2F] + t + seq![0x0Au8]
}

/// The string literal `"` `t` `"`.
pub open spec fn string_literal(t: Seq<u8>) -> Seq<u8> {
    seq![0x22u8] + t + seq![0x22u8]
}

/// `t` holds neither a quotation mark nor a reverse solidus.
pub open spec fn simple_string_body(t: Seq<u8>) -> bool {
    forall|k: int| 0 <= k < t.len() ==> #[trigger] t[k] != 0x22 && t[k] != 0x5C
}

proof fn lemma_line_end_comment(t: Seq<u8>, y: Seq<u8>, i: nat)
    requires
        forall|k: int| 0 <= k < t.len() ==> #[trigger] t[k] != 0x0A,
        2 <= i <= t.len() + 2,
    ensures
        line_end(line_comment(t) + y, i) == t.len() + 2,
    decreases t.len() + 2 - i,
{
    let s = line_comment(t) + y;
    if i < t.len() + 2 {
        assert(s[i as int] == t[i - 2]);
        lemma_line_end_comment(t, y, i + 1);
    } else {
        assert(s[i as int] == 0x0A);
    }
}

/// A line comment after a plain part is removed with its line feed.
pub proof fn lemma_line_comment_removed(x: Seq<u8>, t: Seq<u8>, y: Seq<u8>)
    requires
        plain(x),
        forall|k: int| 0 <= k < t.len() ==> #[trigger] t[k] != 0x0A,
    ensures
        minify_from(x + (line_comment(t) + y), 0) == minify_from(x, 0) + minify_from(y, 0),
{
    let c = line_comment(t);
    let rest = c + y;
    lemma_plain_concat(x, rest);
    assert(rest[0] == 0x2F && rest[1] == 0x2F);
    assert(line_end(rest, 0) == line_end(rest, 1)) by {
        assert(rest[0] != 0x0A);
    }
    assert(line_end(rest, 1) == line_end(rest, 2)) by {
        assert(rest[1] != 0x0A);
    }
    lemma_line_end_comment(t, y, 2);
    assert(rest[t.len() + 2int] == 0x0A);
    assert(byte_at(rest, 1) == Some(0x2Fu8));
    assert(minify_from(rest, 0) == minify_from(rest, t.len() + 2));
    assert(is_minify_ws(rest[t.len() + 2int]));
    assert(minify_from(rest, t.len() + 2) == minify_from(rest, t.len() + 3));
    lemma_minify_shift(c, y, 0);
    assert(c.len() == t.len() + 3);
}

proof fn lemma_copy_simple_string(t: Seq<u8>, y: Seq<u8>, i: nat)
    requires
        simple_string_body(t),
        1 <= i <= t.len() + 1,
    ensures
        copy_string(string_literal(t) + y, i) == (
            t.subrange(i - 1, t.len() as int) + seq![0x22u8],
            t.len() + 2,
        ),
    decreases t.len() + 1 - i,
{
    let s = string_literal(t) + y;
    if i < t.len() + 1 {
        assert(s[i as int] == t[i - 1]);
        lemma_copy_simple_string(t, y, i + 1);
        assert(seq![t[i - 1]] + (t.subrange(i as int, t.len() as int) + seq![0x22u8])
            =~= t.subrange(i - 1, t.len() as int) + seq![0x22u8]);
    } else {
        assert(s[i as int] == 0x22);
        assert(t.subrange(i - 1, t.len() as int) =~= Seq::<u8>::empty());
    }
}

/// A string literal after a plain part is kept as it is.
pub proof fn lemma_string_kept(x: Seq<u8>, t: Seq<u8>, y: Seq<u8>)
    requires
        plain(x),
        simple_string_body(t),
    ensures
        minify_from(x + (string_literal(t) + y), 0) == minify_from(x, 0) + string_literal(t)
            + minify_from(y, 0),
{
    let c = string_literal(t);
    let rest = c + y;
    lemma_plain_concat(x, rest);
    assert(rest[0] == 0x22);
    lemma_copy_simple_string(t, y, 1);
    assert(t.subrange(0, t.len() as int) =~= t);
    lemma_minify_shift(c, y, 0);
    assert(seq![0x22u8] + (t + seq![0x22u8]) =~= c);
    assert(minify_from(x, 0) + (c + minify_from(y, 0)) =~= minify_from(x, 0) + c + minify_from(
        y,
        0,
    ));
}

} // verus!
