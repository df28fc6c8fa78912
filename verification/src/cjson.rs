//! The logic behind the cJSON-compatible C interface: the cJSON node tree as
//! plain data, its cJSON-style printer, its conversion to a [`Value`],
//! duplication, member lookup, comparison, minification, and the error
//! offset that `cJSON_GetErrorPtr` reports.
use vstd::prelude::*;
use vstd::string::StringExecFns;
use vstd::slice::slice_subrange;

use crate::error::{Error, ErrorView};
use crate::serialiser::{number_text, quoted, write_string};
use crate::value::{
    items_view, lemma_items_view, lemma_members_view, members_view, numbers_equal, push_char, Number,
    Value, ValueView,
};

verus! {

// ---------------------------------------------------------------------
// Byte-order mark and error offsets.
// ---------------------------------------------------------------------

pub open spec fn has_utf8_bom(b: Seq<u8>) -> bool {
    b.len() >= 3 && b[0] == 0xEF && b[1] == 0xBB && b[2] == 0xBF
}

/// Strip a UTF-8 BOM (EF BB BF) prefix if present, returning the
/// (potentially shorter) byte slice and the number of bytes skipped.
/// RFC 8259 §8.1 permits parsers to ignore a leading BOM.
pub fn strip_utf8_bom(bytes: &[u8]) -> (r: (&[u8], usize))
    ensures
        has_utf8_bom(bytes@) ==> r.0@ == bytes@.subrange(3, bytes@.len() as int) && r.1 == 3,
        !has_utf8_bom(bytes@) ==> r.0@ == bytes@ && r.1 == 0,
{
    if bytes.len() >= 3 && bytes[0] == 0xEF && bytes[1] == 0xBB && bytes[2] == 0xBF {
        (slice_subrange(bytes, 3, bytes.len()), 3)
    } else {
        (bytes, 0)
    }
}

/// The byte offset that an error is reported at: the end of the input for
/// an unexpected end of input, the error's own offset otherwise.
pub open spec fn error_offset(e: ErrorView, input_len: nat) -> nat {
    match e {
        ErrorView::UnexpectedEof { .. } => input_len,
        _ => e.pos().offset,
    }
}

/// Byte offset of the error within the input, with EOF errors mapped to
/// the end of the input (matching cJSON's `cJSON_GetErrorPtr` semantics).
pub fn error_byte_offset(e: &Error, input_len: usize) -> (r: usize)
    ensures
        r as nat == error_offset(e@, input_len as nat),
{
    match e {
        Error::UnexpectedEof { .. } => input_len,
        other => other.position().offset,
    }
}

/// Whether text of `text_len` bytes and its terminating NUL fit in a caller's
/// buffer of `length` bytes (`cJSON_PrintPreallocated`): a buffer of no
/// positive length holds nothing.
pub fn fits_in_buffer(text_len: usize, length: i32) -> (r: bool)
    ensures
        r == (length > 0 && text_len + 1 <= length),
{
    if length <= 0 {
        false
    } else {
        let cap = length as u32 as usize;
        text_len < cap
    }
}

// ---------------------------------------------------------------------
// Minification.
// ---------------------------------------------------------------------

pub open spec fn is_minify_ws(b: u8) -> bool {
    b == 0x20 || b == 0x09 || b == 0x0A || b == 0x0D
}

pub open spec fn byte_at(b: Seq<u8>, i: nat) -> Option<u8> {
    if i < b.len() {
        Some(b[i as int])
    } else {
        None
    }
}

/// A string literal from `r` (just after its opening quote), copied as it
/// stands: the bytes through the closing quote, and where reading goes on.
pub open spec fn copy_string(b: Seq<u8>, r: nat) -> (Seq<u8>, nat)
    decreases b.len() - r,
{
    if r >= b.len() {
        (Seq::empty(), r)
    } else if b[r as int] == 0x22 {
        (seq![0x22u8], r + 1)
    } else if b[r as int] == 0x5C && r + 1 < b.len() {
        let (s, e) = copy_string(b, r + 2);
        (seq![b[r as int], b[(r + 1) as int]] + s, e)
    } else {
        let (s, e) = copy_string(b, r + 1);
        (seq![b[r as int]] + s, e)
    }
}

/// The index of the first line feed at or after `r`, or the end.
pub open spec fn line_end(b: Seq<u8>, r: nat) -> nat
    decreases b.len() - r,
{
    if r >= b.len() || b[r as int] == 0x0A {
        r
    } else {
        line_end(b, r + 1)
    }
}

/// Where reading goes on after a block comment whose body starts at `r`:
/// just after its `*/`, or the end.
pub open spec fn block_end(b: Seq<u8>, r: nat) -> nat
    decreases b.len() - r,
{
    if r >= b.len() {
        r
    } else if b[r as int] == 0x2A && byte_at(b, r + 1) == Some(0x2Fu8) {
        r + 2
    } else {
        block_end(b, r + 1)
    }
}

/// The text from `r` on without whitespace and comments outside strings.
pub open spec fn minify_from(b: Seq<u8>, r: nat) -> Seq<u8>
    decreases b.len() - r,
{
    if r >= b.len() {
        Seq::empty()
    } else {
        let c = b[r as int];
        if is_minify_ws(c) {
            minify_from(b, r + 1)
        } else if c == 0x22 {
            let (s, e) = copy_string(b, r + 1);
            proof {
                lemma_copy_string(b, r + 1);
            }
            seq![c] + s + minify_from(b, e)
        } else if c == 0x2F && byte_at(b, r + 1) == Some(0x2Fu8) {
            proof {
                lemma_line_end(b, r);
            }
            minify_from(b, line_end(b, r))
        } else if c == 0x2F && byte_at(b, r + 1) == Some(0x2Au8) {
            proof {
                lemma_block_end(b, r + 2);
            }
            minify_from(b, block_end(b, r + 2))
        } else {
            seq![c] + minify_from(b, r + 1)
        }
    }
}

pub proof fn lemma_copy_string(b: Seq<u8>, r: nat)
    ensures
        copy_string(b, r).1 >= r,
        r <= b.len() ==> copy_string(b, r).1 <= b.len(),
    decreases b.len() - r,
{
    if r < b.len() && b[r as int] != 0x22 {
        if b[r as int] == 0x5C && r + 1 < b.len() {
            lemma_copy_string(b, r + 2);
        } else {
            lemma_copy_string(b, r + 1);
        }
    }
}

/// A string copied from `r` is no longer than what it was copied from.
proof fn lemma_copy_string_len(b: Seq<u8>, r: nat)
    ensures
        copy_string(b, r).0.len() + r <= copy_string(b, r).1,
    decreases b.len() - r,
{
    if r < b.len() && b[r as int] != 0x22 {
        if b[r as int] == 0x5C && r + 1 < b.len() {
            lemma_copy_string_len(b, r + 2);
        } else {
            lemma_copy_string_len(b, r + 1);
        }
    }
}

/// What minifying keeps of the text from `r` on is no longer than it.
pub proof fn lemma_minify_len(b: Seq<u8>, r: nat)
    requires
        r <= b.len(),
    ensures
        minify_from(b, r).len() + r <= b.len(),
    decreases b.len() - r,
{
    if r < b.len() {
        let c = b[r as int];
        if is_minify_ws(c) {
            lemma_minify_len(b, r + 1);
        } else if c == 0x22 {
            lemma_copy_string(b, r + 1);
            lemma_copy_string_len(b, r + 1);
            lemma_minify_len(b, copy_string(b, r + 1).1);
        } else if c == 0x2F && byte_at(b, r + 1) == Some(0x2Fu8) {
            lemma_line_end(b, r);
            lemma_minify_len(b, line_end(b, r));
        } else if c == 0x2F && byte_at(b, r + 1) == Some(0x2Au8) {
            lemma_block_end(b, r + 2);
            lemma_minify_len(b, block_end(b, r + 2));
        } else {
            lemma_minify_len(b, r + 1);
        }
    }
}

pub proof fn lemma_line_end(b: Seq<u8>, r: nat)
    ensures
        line_end(b, r) >= r,
        r <= b.len() ==> line_end(b, r) <= b.len(),
        r < b.len() && b[r as int] != 0x0A ==> line_end(b, r) > r,
    decreases b.len() - r,
{
    if r < b.len() && b[r as int] != 0x0A {
        lemma_line_end(b, r + 1);
    }
}

pub proof fn lemma_block_end(b: Seq<u8>, r: nat)
    ensures
        block_end(b, r) >= r,
        r <= b.len() ==> block_end(b, r) <= b.len(),
    decreases b.len() - r,
{
    if r < b.len() && !(b[r as int] == 0x2A && byte_at(b, r + 1) == Some(0x2Fu8)) {
        lemma_block_end(b, r + 1);
    }
}

/// Strip insignificant whitespace and comments from JSON text, copying
/// string literals (escapes included) as they stand. Mirrors cJSON_Minify.
pub fn minify(json: &[u8]) -> (r: Vec<u8>)
    ensures
        r@ == minify_from(json@, 0),
        r@.len() <= json@.len(),
{
    proof {
        lemma_minify_len(json@, 0);
    }
    let n = json.len();
    let mut out: Vec<u8> = Vec::new();
    let mut read: usize = 0;
    while read < n
        invariant
            n == json@.len(),
            read <= n,
            out@ + minify_from(json@, read as nat) == minify_from(json@, 0),
        decreases n - read,
    {
        let b = json[read];
        let ghost r0 = read as nat;
        let ghost before = out@;
        if b == 0x20 || b == 0x09 || b == 0x0A || b == 0x0D {
            read = read + 1;
        } else if b == 0x22 {
            // Copy the whole string literal verbatim (including escapes).
            out.push(b);
            read = read + 1;
            let ghost mid = out@;
            let ghost r1 = read as nat;
            proof {
                lemma_copy_string(json@, r1);
            }
            while read < n && json[read] != 0x22
                invariant
                    n == json@.len(),
                    r1 <= read <= n,
                    out@ + copy_string(json@, read as nat).0 == mid + copy_string(json@, r1).0,
                    copy_string(json@, read as nat).1 == copy_string(json@, r1).1,
                decreases n - read,
            {
                let ghost pre = out@;
                if json[read] == 0x5C && read + 1 < n {
                    out.push(json[read]);
                    out.push(json[read + 1]);
                    proof {
                        let t = copy_string(json@, (read + 2) as nat).0;
                        assert(pre + seq![json@[read as int], json@[read + 1]] + t =~= pre + (seq![
                            json@[read as int],
                            json@[read + 1],
                        ] + t));
                    }
                    read = read + 2;
                } else {
                    out.push(json[read]);
                    proof {
                        let t = copy_string(json@, (read + 1) as nat).0;
                        assert(pre + seq![json@[read as int]] + t =~= pre + (seq![json@[read as int]]
                            + t));
                    }
                    read = read + 1;
                }
            }
            let ghost pre = out@;
            if read < n {
                proof {
                    assert(copy_string(json@, read as nat) == (seq![0x22u8], (read + 1) as nat));
                }
                out.push(json[read]);
                read = read + 1;
                proof {
                    assert(out@ =~= pre + seq![0x22u8]);
                }
            } else {
                proof {
                    assert(pre + Seq::<u8>::empty() =~= pre);
                }
            }
            proof {
                let (s, e) = copy_string(json@, r1);
                assert(out@ =~= before + seq![0x22u8] + s);
                assert(read as nat == e);
                assert(before + (seq![0x22u8] + s + minify_from(json@, e)) =~= before + seq![0x22u8]
                    + s + minify_from(json@, e));
            }
        } else if b == 0x2F && read + 1 < n && json[read + 1] == 0x2F {
            // Line comment: skip to newline.
            proof {
                lemma_line_end(json@, r0);
            }
            while read < n && json[read] != 0x0A
                invariant
                    n == json@.len(),
                    r0 <= read <= n,
                    line_end(json@, read as nat) == line_end(json@, r0),
                decreases n - read,
            {
                read = read + 1;
            }
        } else if b == 0x2F && read + 1 < n && json[read + 1] == 0x2A {
            // Block comment: skip to */.
            read = read + 2;
            let ghost r2 = read as nat;
            while read < n && !(json[read] == 0x2A && read + 1 < n && json[read + 1] == 0x2F)
                invariant
                    n == json@.len(),
                    r2 <= read <= n,
                    block_end(json@, read as nat) == block_end(json@, r2),
                decreases n - read,
            {
                read = read + 1;
            }
            if read < n {
                read = read + 2;
            }
        } else {
            out.push(b);
            read = read + 1;
            proof {
                assert(before + seq![b] + minify_from(json@, read as nat) =~= before + (seq![b]
                    + minify_from(json@, read as nat)));
            }
        }
    }
    proof {
        assert(out@ + Seq::<u8>::empty() =~= out@);
    }
    out
}

// ---------------------------------------------------------------------
// The cJSON node tree as plain data.
// ---------------------------------------------------------------------

pub const CJSON_INVALID: i32 = 0;
pub const CJSON_FALSE: i32 = 1;
pub const CJSON_TRUE: i32 = 2;
pub const CJSON_NULL: i32 = 4;
pub const CJSON_NUMBER: i32 = 8;
pub const CJSON_STRING: i32 = 16;
pub const CJSON_ARRAY: i32 = 32;
pub const CJSON_OBJECT: i32 = 64;
pub const CJSON_RAW: i32 = 128;
pub const CJSON_IS_REFERENCE: i32 = 256;
pub const CJSON_STRING_IS_CONST: i32 = 512;

/// A C string field of a cJSON node, as the logic reads it: absent (NULL),
/// present but not UTF-8, or a text.
#[derive(Debug)]
pub enum CText {
    Null,
    NotUtf8,
    Text(String),
}

pub enum CTextView {
    Null,
    NotUtf8,
    Text(Seq<char>),
}

impl View for CText {
    type V = CTextView;

    open spec fn view(&self) -> CTextView {
        match self {
            CText::Null => CTextView::Null,
            CText::NotUtf8 => CTextView::NotUtf8,
            CText::Text(s) => CTextView::Text(s@),
        }
    }
}

/// A cJSON node with its children, as plain data: the type tag (with its
/// reference and constant-key flags), `valuestring`, `valueint`, the bits
/// of `valuedouble` and the number they denote (what printing and
/// comparison read), the key (`string`), and the children in list order.
#[derive(Debug)]
pub struct Node {
    pub type_: i32,
    pub valuestring: CText,
    pub valueint: i32,
    pub double_bits: u64,
    pub number: Number,
    pub string: CText,
    pub children: Vec<Node>,
}

pub struct NodeView {
    pub type_: i32,
    pub valuestring: CTextView,
    pub valueint: i32,
    pub double_bits: u64,
    pub number: Option<Seq<char>>,
    pub string: CTextView,
    pub children: Seq<NodeView>,
}

pub open spec fn node_view(n: Node) -> NodeView
    decreases n,
{
    NodeView {
        type_: n.type_,
        valuestring: n.valuestring@,
        valueint: n.valueint,
        double_bits: n.double_bits,
        number: n.number@,
        string: n.string@,
        children: nodes_view(n.children@),
    }
}

pub open spec fn nodes_view(s: Seq<Node>) -> Seq<NodeView>
    decreases s,
{
    if s.len() == 0 {
        Seq::empty()
    } else {
        nodes_view(s.drop_last()).push(node_view(s.last()))
    }
}

impl View for Node {
    type V = NodeView;

    open spec fn view(&self) -> NodeView {
        node_view(*self)
    }
}

pub proof fn lemma_nodes_view(s: Seq<Node>)
    ensures
        nodes_view(s).len() == s.len(),
        forall|i: int| 0 <= i < s.len() ==> #[trigger] nodes_view(s)[i] == node_view(s[i]),
    decreases s.len(),
{
    if s.len() > 0 {
        lemma_nodes_view(s.drop_last());
    }
}

/// The type of a node without its flags.
pub open spec fn kind(t: i32) -> i32 {
    t & 0xFF
}

fn kind_of(t: i32) -> (r: i32)
    ensures
        r == kind(t),
{
    t & 0xFF
}

/// How deeply children nest under `n`.
pub open spec fn node_height(n: NodeView) -> nat
    decreases n, 0nat,
{
    1 + nodes_height(n.children)
}

pub open spec fn nodes_height(s: Seq<NodeView>) -> nat
    decreases s, 1nat,
{
    if s.len() == 0 {
        0
    } else {
        let h = node_height(s[0]);
        let r = nodes_height(s.drop_first());
        if h > r {
            h
        } else {
            r
        }
    }
}

pub proof fn lemma_nodes_height(s: Seq<NodeView>, i: int)
    requires
        0 <= i < s.len(),
    ensures
        node_height(s[i]) <= nodes_height(s),
    decreases s.len(),
{
    if i > 0 {
        lemma_nodes_height(s.drop_first(), i - 1);
    }
}

// ---------------------------------------------------------------------
// cJSON's pretty format.
// ---------------------------------------------------------------------

/// `n` tab characters.
pub open spec fn tabs(n: nat) -> Seq<char> {
    Seq::new(n, |i: int| '\t')
}

/// The empty string literal, written where a text is absent or not UTF-8.
pub open spec fn empty_quoted() -> Seq<char> {
    seq!['"', '"']
}

pub open spec fn key_text(k: CTextView) -> Seq<char> {
    match k {
        CTextView::Text(s) => quoted(s),
        _ => empty_quoted(),
    }
}

/// cJSON's `cJSON_Print` text of a node at nesting level `depth`: a tab per
/// level, `"key":\t` before members, newlines around object members but not
/// array items, and empty containers as `{}` / `[]`.
pub open spec fn pretty_node(n: NodeView, depth: nat) -> Seq<char>
    decreases n, 0nat,
{
    let k = kind(n.type_);
    if k == CJSON_NULL {
        seq!['n', 'u', 'l', 'l']
    } else if k == CJSON_TRUE {
        seq!['t', 'r', 'u', 'e']
    } else if k == CJSON_FALSE {
        seq!['f', 'a', 'l', 's', 'e']
    } else if k == CJSON_NUMBER {
        number_text(n.number)
    } else if k == CJSON_STRING {
        match n.valuestring {
            CTextView::Text(s) => quoted(s),
            _ => empty_quoted(),
        }
    } else if k == CJSON_RAW {
        match n.valuestring {
            CTextView::Text(s) => s,
            _ => Seq::empty(),
        }
    } else if k == CJSON_ARRAY {
        if n.children.len() == 0 {
            seq!['[', ']']
        } else {
            seq!['['] + pretty_items(n.children, depth) + seq![']']
        }
    } else if k == CJSON_OBJECT {
        if n.children.len() == 0 {
            seq!['{', '}']
        } else {
            seq!['{', '\n'] + pretty_members(n.children, depth) + seq!['\n'] + tabs(depth)
                + seq!['}']
        }
    } else {
        seq!['n', 'u', 'l', 'l']
    }
}

/// The items of an array node, separated by `, `.
pub open spec fn pretty_items(s: Seq<NodeView>, depth: nat) -> Seq<char>
    decreases s, 1nat,
{
    if s.len() == 0 {
        Seq::empty()
    } else {
        let sep: Seq<char> = if s.len() > 1 {
            seq![',', ' ']
        } else {
            Seq::empty()
        };
        pretty_node(s[0], depth + 1) + sep + pretty_items(s.drop_first(), depth)
    }
}

/// The members of an object node, one per line, separated by `,`.
pub open spec fn pretty_members(s: Seq<NodeView>, depth: nat) -> Seq<char>
    decreases s, 1nat,
{
    if s.len() == 0 {
        Seq::empty()
    } else {
        let sep: Seq<char> = if s.len() > 1 {
            seq![',', '\n']
        } else {
            Seq::empty()
        };
        tabs(depth + 1) + key_text(s[0].string) + seq![':', '\t'] + pretty_node(s[0], depth + 1)
            + sep + pretty_members(s.drop_first(), depth)
    }
}

fn push_tabs(out: &mut String, n: usize)
    ensures
        final(out)@ == old(out)@ + tabs(n as nat),
{
    let ghost base = out@;
    for i in 0..n
        invariant
            out@ == base + tabs(i as nat),
    {
        push_char(out, '\t');
        proof {
            assert(out@ =~= base + tabs((i + 1) as nat));
        }
    }
}

/// Writes what stands before the value of a member at nesting level
/// `depth`: its indentation, its quoted key and `:` with a tab.
fn write_cjson_key(out: &mut String, key: &CText, depth: usize)
    requires
        depth + 1 < usize::MAX,
    ensures
        final(out)@ == old(out)@ + (tabs((depth + 1) as nat) + key_text(key@) + seq![':', '\t']),
{
    push_tabs(out, depth + 1);
    let ghost s1 = out@;
    match key {
        CText::Text(k) => write_string(out, k.as_str()),
        _ => {
            push_char(out, '"');
            push_char(out, '"');
            proof {
                assert(out@ =~= s1 + empty_quoted());
            }
        },
    }
    let ghost s2 = out@;
    push_char(out, ':');
    push_char(out, '\t');
    proof {
        assert(out@ =~= s2 + seq![':', '\t']);
        assert(out@ =~= old(out)@ + (tabs((depth + 1) as nat) + key_text(key@) + seq![':', '\t']));
    }
}

/// Walk a node tree and emit cJSON-compatible pretty-printed text.
pub fn write_cjson_pretty(out: &mut String, item: &Node, depth: usize)
    requires
        depth + node_height(item@) < usize::MAX,
    ensures
        final(out)@ == old(out)@ + pretty_node(item@, depth as nat),
    decreases item@,
{
    let ghost n = item@;
    let t = kind_of(item.type_);
    if t == CJSON_NULL {
        out.append("null");
        proof {
            reveal_strlit("null");
        }
    } else if t == CJSON_TRUE {
        out.append("true");
        proof {
            reveal_strlit("true");
        }
    } else if t == CJSON_FALSE {
        out.append("false");
        proof {
            reveal_strlit("false");
        }
    } else if t == CJSON_NUMBER {
        match item.number.text() {
            Some(txt) => out.append(txt.as_str()),
            None => {
                out.append("null");
                proof {
                    reveal_strlit("null");
                }
            },
        }
    } else if t == CJSON_STRING {
        match &item.valuestring {
            CText::Text(s) => write_string(out, s.as_str()),
            _ => {
                push_char(out, '"');
                push_char(out, '"');
            },
        }
    } else if t == CJSON_RAW {
        match &item.valuestring {
            CText::Text(s) => out.append(s.as_str()),
            _ => {},
        }
    } else if t == CJSON_ARRAY {
        let ghost cs = n.children;
        proof {
            lemma_nodes_view(item.children@);
        }
        let len = item.children.len();
        if len == 0 {
            push_char(out, '[');
            push_char(out, ']');
            return;
        }
        let ghost base = out@;
        push_char(out, '[');
        let ghost opened = out@;
        proof {
            assert(cs.subrange(0, cs.len() as int) =~= cs);
        }
        for i in 0..len
            invariant
                len == item.children@.len(),
                cs == nodes_view(item.children@),
                cs.len() == len,
                forall|j: int| 0 <= j < len ==> #[trigger] cs[j] == item.children@[j]@,
                depth + 1 + nodes_height(cs) < usize::MAX,
                out@ + pretty_items(cs.subrange(i as int, cs.len() as int), depth as nat) == opened
                    + pretty_items(cs, depth as nat),
        {
            let ghost rest = cs.subrange(i as int, cs.len() as int);
            let ghost before = out@;
            proof {
                assert(rest.drop_first() =~= cs.subrange(i + 1, cs.len() as int));
                lemma_nodes_height(cs, i as int);
            }
            proof {
                assert(item@.children[i as int] == item.children@[i as int]@);
            }
            write_cjson_pretty(out, &item.children[i], depth + 1);
            if i + 1 < len {
                push_char(out, ',');
                push_char(out, ' ');
            }
            proof {
                let sep: Seq<char> = if rest.len() > 1 {
                    seq![',', ' ']
                } else {
                    Seq::empty()
                };
                let chunk = pretty_node(rest[0], (depth + 1) as nat) + sep;
                assert(out@ =~= before + chunk);
                let tail = pretty_items(rest.drop_first(), depth as nat);
                assert(pretty_items(rest, depth as nat) == chunk + tail);
                assert((before + chunk) + tail =~= before + (chunk + tail));
            }
        }
        proof {
            assert(cs.subrange(cs.len() as int, cs.len() as int) =~= Seq::<NodeView>::empty());
        }
        push_char(out, ']');
        proof {
            assert(out@ =~= base + pretty_node(n, depth as nat));
        }
    } else if t == CJSON_OBJECT {
        let ghost cs = n.children;
        proof {
            lemma_nodes_view(item.children@);
        }
        let len = item.children.len();
        if len == 0 {
            push_char(out, '{');
            push_char(out, '}');
            return;
        }
        let ghost base = out@;
        push_char(out, '{');
        push_char(out, '\n');
        let ghost opened = out@;
        proof {
            assert(cs.subrange(0, cs.len() as int) =~= cs);
        }
        for i in 0..len
            invariant
                len == item.children@.len(),
                cs == nodes_view(item.children@),
                cs.len() == len,
                forall|j: int| 0 <= j < len ==> #[trigger] cs[j] == item.children@[j]@,
                depth + 1 + nodes_height(cs) < usize::MAX,
                out@ + pretty_members(cs.subrange(i as int, cs.len() as int), depth as nat)
                    == opened + pretty_members(cs, depth as nat),
        {
            let ghost rest = cs.subrange(i as int, cs.len() as int);
            let ghost before = out@;
            proof {
                assert(rest.drop_first() =~= cs.subrange(i + 1, cs.len() as int));
                lemma_nodes_height(cs, i as int);
            }
            let child = &item.children[i];
            proof {
                assert(item@.children[i as int] == item.children@[i as int]@);
            }
            write_cjson_key(out, &child.string, depth);
            let ghost s3 = out@;
            write_cjson_pretty(out, child, depth + 1);
            let ghost s4 = out@;
            if i + 1 < len {
                push_char(out, ',');
                push_char(out, '\n');
            }
            proof {
                let sep: Seq<char> = if rest.len() > 1 {
                    seq![',', '\n']
                } else {
                    Seq::empty()
                };
                assert(out@ =~= s4 + sep);
                let chunk = tabs((depth + 1) as nat) + key_text(rest[0].string) + seq![':', '\t']
                    + pretty_node(rest[0], (depth + 1) as nat) + sep;
                assert(out@ =~= before + chunk);
                let tail = pretty_members(rest.drop_first(), depth as nat);
                assert(pretty_members(rest, depth as nat) == chunk + tail);
                assert((before + chunk) + tail =~= before + (chunk + tail));
            }
        }
        proof {
            assert(cs.subrange(cs.len() as int, cs.len() as int) =~= Seq::<NodeView>::empty());
        }
        push_char(out, '\n');
        push_tabs(out, depth);
        push_char(out, '}');
        proof {
            assert(out@ =~= base + pretty_node(n, depth as nat));
        }
    } else {
        out.append("null");
        proof {
            reveal_strlit("null");
        }
    }
}

/// cJSON's `cJSON_Print` text of a node tree.
pub fn print_cjson(item: &Node) -> (r: String)
    requires
        node_height(item@) < usize::MAX,
    ensures
        r@ == pretty_node(item@, 0),
{
    let mut out = String::new();
    write_cjson_pretty(&mut out, item, 0);
    out
}

// ---------------------------------------------------------------------
// From a node tree to a value.
// ---------------------------------------------------------------------

/// The value a node tree denotes: raw text is read as a string, an absent
/// text or key as the empty string; `None` where a text or key is not UTF-8
/// or a type tag is none of cJSON's.
pub open spec fn node_value(n: NodeView) -> Option<ValueView>
    decreases n, 0nat,
{
    let k = kind(n.type_);
    if k == CJSON_NULL {
        Some(ValueView::Null)
    } else if k == CJSON_TRUE {
        Some(ValueView::Bool(true))
    } else if k == CJSON_FALSE {
        Some(ValueView::Bool(false))
    } else if k == CJSON_NUMBER {
        Some(ValueView::Number(n.number))
    } else if k == CJSON_STRING || k == CJSON_RAW {
        match n.valuestring {
            CTextView::Null => Some(ValueView::String(Seq::empty())),
            CTextView::NotUtf8 => None,
            CTextView::Text(s) => Some(ValueView::String(s)),
        }
    } else if k == CJSON_ARRAY {
        match node_items(n.children) {
            Some(items) => Some(ValueView::Array(items)),
            None => None,
        }
    } else if k == CJSON_OBJECT {
        match node_members(n.children) {
            Some(ms) => Some(ValueView::Object(ms)),
            None => None,
        }
    } else {
        None
    }
}

pub open spec fn node_items(s: Seq<NodeView>) -> Option<Seq<ValueView>>
    decreases s, 1nat,
{
    if s.len() == 0 {
        Some(Seq::empty())
    } else {
        match (node_value(s[0]), node_items(s.drop_first())) {
            (Some(v), Some(r)) => Some(seq![v] + r),
            _ => None,
        }
    }
}

pub open spec fn member_key(k: CTextView) -> Option<Seq<char>> {
    match k {
        CTextView::Null => Some(Seq::empty()),
        CTextView::NotUtf8 => None,
        CTextView::Text(s) => Some(s),
    }
}

pub open spec fn node_members(s: Seq<NodeView>) -> Option<Seq<(Seq<char>, ValueView)>>
    decreases s, 1nat,
{
    if s.len() == 0 {
        Some(Seq::empty())
    } else {
        match (member_key(s[0].string), node_value(s[0]), node_members(s.drop_first())) {
            (Some(k), Some(v), Some(r)) => Some(seq![(k, v)] + r),
            _ => None,
        }
    }
}

/// Convert a node tree into a [`Value`] (for printing and comparison).
pub fn node_to_value(item: &Node) -> (r: Option<Value>)
    ensures
        r matches Some(v) ==> node_value(item@) == Some(v@),
        r is None ==> node_value(item@) is None,
    decreases item@,
{
    let ghost n = item@;
    let t = kind_of(item.type_);
    if t == CJSON_NULL {
        Some(Value::Null)
    } else if t == CJSON_TRUE {
        Some(Value::Bool(true))
    } else if t == CJSON_FALSE {
        Some(Value::Bool(false))
    } else if t == CJSON_NUMBER {
        Some(Value::Number(item.number.clone()))
    } else if t == CJSON_STRING || t == CJSON_RAW {
        // Raw nodes carry pre-serialised JSON in valuestring; they are read
        // as strings here.
        match &item.valuestring {
            CText::Null => Some(Value::String(String::new())),
            CText::NotUtf8 => None,
            CText::Text(s) => Some(Value::String(s.clone())),
        }
    } else if t == CJSON_ARRAY || t == CJSON_OBJECT {
        let ghost cs = n.children;
        proof {
            lemma_nodes_view(item.children@);
        }
        let len = item.children.len();
        let mut items: Vec<Value> = Vec::new();
        let mut members: Vec<(String, Value)> = Vec::new();
        proof {
            assert(cs.subrange(0, cs.len() as int) =~= cs);
        }
        for i in 0..len
            invariant
                len == item.children@.len(),
                cs == nodes_view(item.children@),
                cs == item@.children,
                cs.len() == len,
                n == item@,
                t == kind(n.type_),
                t == CJSON_ARRAY || t == CJSON_OBJECT,
                forall|j: int| 0 <= j < len ==> #[trigger] cs[j] == item.children@[j]@,
                t == CJSON_ARRAY ==> node_items(cs) == match node_items(
                    cs.subrange(i as int, cs.len() as int),
                ) {
                    Some(r) => Some(items_view(items@) + r),
                    None => None::<Seq<ValueView>>,
                },
                t == CJSON_OBJECT ==> node_members(cs) == match node_members(
                    cs.subrange(i as int, cs.len() as int),
                ) {
                    Some(r) => Some(members_view(members@) + r),
                    None => None::<Seq<(Seq<char>, ValueView)>>,
                },
        {
            let ghost rest = cs.subrange(i as int, cs.len() as int);
            proof {
                assert(rest.drop_first() =~= cs.subrange(i + 1, cs.len() as int));
                assert(item@.children[i as int] == item.children@[i as int]@);
                lemma_items_view(items@);
                lemma_members_view(members@);
            }
            let child = &item.children[i];
            let v = match node_to_value(child) {
                Some(v) => v,
                None => {
                    proof {
                        assert(rest[0] == child@);
                        if t == CJSON_ARRAY {
                            assert(node_items(rest) is None);
                            assert(node_items(cs) is None);
                        } else {
                            assert(node_members(rest) is None);
                            assert(node_members(cs) is None);
                        }
                        assert(node_value(n) is None);
                    }
                    return None;
                },
            };
            if t == CJSON_ARRAY {
                let ghost before = items@;
                items.push(v);
                proof {
                    assert(items@.drop_last() =~= before);
                    let tail = node_items(rest.drop_first());
                    if let Some(tl) = tail {
                        assert(items_view(before) + (seq![v@] + tl) =~= items_view(items@) + tl);
                    }
                }
            } else {
                let key = match &child.string {
                    CText::Null => String::new(),
                    CText::NotUtf8 => {
                        proof {
                            assert(rest[0] == child@);
                            assert(node_members(rest) is None);
                            assert(node_members(cs) is None);
                            assert(node_value(n) is None);
                        }
                        return None;
                    },
                    CText::Text(k) => k.clone(),
                };
                let ghost before = members@;
                members.push((key, v));
                proof {
                    assert(members@.drop_last() =~= before);
                    let tail = node_members(rest.drop_first());
                    if let Some(tl) = tail {
                        assert(members_view(before) + (seq![(key@, v@)] + tl) =~= members_view(
                            members@,
                        ) + tl);
                    }
                }
            }
        }
        proof {
            assert(cs.subrange(cs.len() as int, cs.len() as int) =~= Seq::<NodeView>::empty());
            assert(items_view(items@) + Seq::<ValueView>::empty() =~= items_view(items@));
            assert(members_view(members@) + Seq::<(Seq<char>, ValueView)>::empty() =~= members_view(
                members@,
            ));
        }
        if t == CJSON_ARRAY {
            Some(Value::Array(items))
        } else {
            Some(Value::Object(members))
        }
    } else {
        None
    }
}

// ---------------------------------------------------------------------
// Duplication.
// ---------------------------------------------------------------------

/// The copy of a text that duplication keeps: a UTF-8 text, nothing else.
pub open spec fn copied_text(t: CTextView) -> CTextView {
    match t {
        CTextView::Text(s) => CTextView::Text(s),
        _ => CTextView::Null,
    }
}

/// The copy of a node: the type without its reference and constant-key
/// flags, the number and texts copied, and the children only when `recurse`.
pub open spec fn duplicate_spec(n: NodeView, recurse: bool) -> NodeView
    decreases n, 0nat,
{
    NodeView {
        type_: n.type_ & !CJSON_IS_REFERENCE & !CJSON_STRING_IS_CONST,
        valuestring: copied_text(n.valuestring),
        valueint: n.valueint,
        double_bits: n.double_bits,
        number: n.number,
        string: copied_text(n.string),
        children: if recurse {
            duplicate_children(n.children)
        } else {
            Seq::empty()
        },
    }
}

pub open spec fn duplicate_children(s: Seq<NodeView>) -> Seq<NodeView>
    decreases s, 1nat,
{
    if s.len() == 0 {
        Seq::empty()
    } else {
        seq![duplicate_spec(s[0], true)] + duplicate_children(s.drop_first())
    }
}

fn copy_text(t: &CText) -> (r: CText)
    ensures
        r@ == copied_text(t@),
{
    match t {
        CText::Text(s) => CText::Text(s.clone()),
        _ => CText::Null,
    }
}

/// Clone a node tree. If `recurse` is false, only the root node is cloned
/// (its children are left out).
pub fn duplicate(item: &Node, recurse: bool) -> (r: Node)
    ensures
        r@ == duplicate_spec(item@, recurse),
    decreases item@,
{
    let ghost n = item@;
    let mut children: Vec<Node> = Vec::new();
    if recurse {
        let ghost cs = n.children;
        proof {
            lemma_nodes_view(item.children@);
            assert(cs.subrange(0, cs.len() as int) =~= cs);
        }
        let len = item.children.len();
        for i in 0..len
            invariant
                len == item.children@.len(),
                cs == item@.children,
                cs == nodes_view(item.children@),
                cs.len() == len,
                forall|j: int| 0 <= j < len ==> #[trigger] cs[j] == item.children@[j]@,
                duplicate_children(cs) == nodes_view(children@) + duplicate_children(
                    cs.subrange(i as int, cs.len() as int),
                ),
        {
            let ghost rest = cs.subrange(i as int, cs.len() as int);
            proof {
                assert(rest.drop_first() =~= cs.subrange(i + 1, cs.len() as int));
                assert(item@.children[i as int] == item.children@[i as int]@);
            }
            let c = duplicate(&item.children[i], true);
            let ghost before = children@;
            children.push(c);
            proof {
                assert(children@.drop_last() =~= before);
                assert(nodes_view(before) + (seq![c@] + duplicate_children(rest.drop_first()))
                    =~= nodes_view(children@) + duplicate_children(rest.drop_first()));
            }
        }
        proof {
            assert(cs.subrange(cs.len() as int, cs.len() as int) =~= Seq::<NodeView>::empty());
            assert(nodes_view(children@) + Seq::<NodeView>::empty() =~= nodes_view(children@));
        }
    }
    Node {
        type_: item.type_ & !CJSON_IS_REFERENCE & !CJSON_STRING_IS_CONST,
        valuestring: copy_text(&item.valuestring),
        valueint: item.valueint,
        double_bits: item.double_bits,
        number: item.number.clone(),
        string: copy_text(&item.string),
        children,
    }
}

// ---------------------------------------------------------------------
// Keys and comparison.
// ---------------------------------------------------------------------

/// ASCII upper-case letters to lower case; every other character unchanged.
pub open spec fn ascii_lower(c: char) -> char {
    if 'A' <= c <= 'Z' {
        (((c as u8) + 32) as u8) as char
    } else {
        c
    }
}

/// The texts are equal once ASCII letters are folded to lower case.
pub open spec fn eq_ignore_ascii_case(a: Seq<char>, b: Seq<char>) -> bool {
    &&& a.len() == b.len()
    &&& forall|i: int| 0 <= i < a.len() ==> ascii_lower(#[trigger] a[i]) == ascii_lower(b[i])
}

/// Two keys match: exactly, or ignoring ASCII case.
pub open spec fn keys_match(a: Seq<char>, b: Seq<char>, case_sensitive: bool) -> bool {
    if case_sensitive {
        a == b
    } else {
        eq_ignore_ascii_case(a, b)
    }
}

fn ascii_lower_char(c: char) -> (r: char)
    ensures
        r == ascii_lower(c),
{
    if c >= 'A' && c <= 'Z' {
        ((c as u8) + 32) as char
    } else {
        c
    }
}

fn chars_of(s: &str) -> (r: Vec<char>)
    ensures
        r@ == s@,
{
    let mut v: Vec<char> = Vec::new();
    for c in it: s.chars()
        invariant
            it.seq() == s@,
            v@ == s@.take(it.index() as int),
    {
        v.push(c);
        proof {
            assert(v@ =~= s@.take(it.index() + 1));
        }
    }
    proof {
        assert(s@.take(s@.len() as int) =~= s@);
    }
    v
}

/// Whether two keys match: exactly when `case_sensitive`, otherwise ignoring
/// ASCII case.
pub fn key_matches(a: &str, b: &str, case_sensitive: bool) -> (r: bool)
    ensures
        r == keys_match(a@, b@, case_sensitive),
{
    let x = chars_of(a);
    let y = chars_of(b);
    if x.len() != y.len() {
        return false;
    }
    let n = x.len();
    for i in 0..n
        invariant
            n == x@.len(),
            n == y@.len(),
            x@ == a@,
            y@ == b@,
            forall|j: int| 0 <= j < i ==> if case_sensitive {
                x@[j] == y@[j]
            } else {
                ascii_lower(#[trigger] x@[j]) == ascii_lower(y@[j])
            },
    {
        let equal = if case_sensitive {
            x[i] == y[i]
        } else {
            ascii_lower_char(x[i]) == ascii_lower_char(y[i])
        };
        if !equal {
            return false;
        }
    }
    proof {
        if case_sensitive {
            assert(a@ =~= b@);
        }
    }
    true
}

pub open spec fn text_matches(k: CTextView, key: Seq<char>, case_sensitive: bool) -> bool {
    k matches CTextView::Text(s) && keys_match(s, key, case_sensitive)
}

/// The index of the first key that is a UTF-8 text matching `key`.
pub fn find_member(keys: &Vec<CText>, key: &str, case_sensitive: bool) -> (r: Option<usize>)
    ensures
        r matches Some(i) ==> i < keys@.len() && text_matches(keys@[i as int]@, key@, case_sensitive)
            && forall|j: int| 0 <= j < i ==> !text_matches(#[trigger] keys@[j]@, key@, case_sensitive),
        r is None ==> forall|j: int|
            0 <= j < keys@.len() ==> !text_matches(#[trigger] keys@[j]@, key@, case_sensitive),
{
    let n = keys.len();
    for i in 0..n
        invariant
            n == keys@.len(),
            forall|j: int| 0 <= j < i ==> !text_matches(#[trigger] keys@[j]@, key@, case_sensitive),
    {
        match &keys[i] {
            CText::Text(k) => {
                if key_matches(k.as_str(), key, case_sensitive) {
                    return Some(i);
                }
            },
            _ => {},
        }
    }
    None
}

/// Structural equality as cJSON_Compare has it: arrays item by item, objects
/// set-like — each member of `a` has a member of `b` with a matching key and
/// an equal value, and both have as many members; keys match exactly or
/// ignoring ASCII case.
pub open spec fn values_equal(a: ValueView, b: ValueView, cs: bool) -> bool
    decreases a, 0nat,
{
    match a {
        ValueView::Null => b is Null,
        ValueView::Bool(x) => b matches ValueView::Bool(y) && x == y,
        ValueView::Number(x) => b matches ValueView::Number(y) && numbers_equal(x, y),
        ValueView::String(x) => b matches ValueView::String(y) && x == y,
        ValueView::Array(x) => match b {
            ValueView::Array(y) => x.len() == y.len() && items_equal(x, y, cs),
            _ => false,
        },
        ValueView::Object(x) => match b {
            ValueView::Object(y) => x.len() == y.len() && all_found(x, y, cs),
            _ => false,
        },
    }
}

pub open spec fn items_equal(x: Seq<ValueView>, y: Seq<ValueView>, cs: bool) -> bool
    decreases x, 0nat,
{
    if x.len() == 0 {
        true
    } else {
        y.len() > 0 && values_equal(x[0], y[0], cs) && items_equal(x.drop_first(), y.drop_first(), cs)
    }
}

pub open spec fn all_found(
    x: Seq<(Seq<char>, ValueView)>,
    y: Seq<(Seq<char>, ValueView)>,
    cs: bool,
) -> bool
    decreases x, 0nat,
{
    if x.len() == 0 {
        true
    } else {
        found(x[0], y, cs) && all_found(x.drop_first(), y, cs)
    }
}

pub open spec fn found(m: (Seq<char>, ValueView), y: Seq<(Seq<char>, ValueView)>, cs: bool) -> bool
    decreases m, y.len(),
{
    if y.len() == 0 {
        false
    } else {
        (keys_match(m.0, y[0].0, cs) && values_equal(m.1, y[0].1, cs)) || found(
            m,
            y.drop_first(),
            cs,
        )
    }
}

/// Whether `y` has a member matching `m`'s key with a value equal to `m`'s.
fn member_found(m: &(String, Value), y: &Vec<(String, Value)>, cs: bool) -> (r: bool)
    ensures
        r == found((m.0@, m.1@), members_view(y@), cs),
    decreases m.1@, 1nat,
{
    let ghost mv = (m.0@, m.1@);
    let ghost ys = members_view(y@);
    proof {
        lemma_members_view(y@);
        assert(ys.subrange(0, ys.len() as int) =~= ys);
    }
    let n = y.len();
    for j in 0..n
        invariant
            n == y@.len(),
            ys == members_view(y@),
            ys.len() == n,
            mv == (m.0@, m.1@),
            forall|k: int| 0 <= k < n ==> #[trigger] ys[k] == (y@[k].0@, y@[k].1@),
            found(mv, ys, cs) == found(mv, ys.subrange(j as int, n as int), cs),
    {
        let ghost rest = ys.subrange(j as int, n as int);
        proof {
            assert(rest.drop_first() =~= ys.subrange(j + 1, n as int));
        }
        let (k2, v2) = &y[j];
        if key_matches(m.0.as_str(), k2.as_str(), cs) && compare_values(&m.1, v2, cs) {
            return true;
        }
    }
    false
}

/// Structural equality of values as cJSON_Compare has it (see
/// [`values_equal`]), with numbers compared by their decimal texts rather
/// than as `double`s: `1.0` and `1` differ, `0` and `-0` are equal, and the
/// one non-finite number equals itself. ([`crate::capi::compare_nodes`],
/// which the C interface uses, compares numbers as `double`s.)
pub fn compare_values(a: &Value, b: &Value, case_sensitive: bool) -> (r: bool)
    ensures
        r == values_equal(a@, b@, case_sensitive),
    decreases a@, 0nat,
{
    match (a, b) {
        (Value::Null, Value::Null) => true,
        (Value::Bool(x), Value::Bool(y)) => *x == *y,
        (Value::Number(x), Value::Number(y)) => x.equals(y),
        (Value::String(x), Value::String(y)) => *x == *y,
        (Value::Array(x), Value::Array(y)) => {
            let ghost xs = items_view(x@);
            let ghost ys = items_view(y@);
            proof {
                lemma_items_view(x@);
                lemma_items_view(y@);
            }
            if x.len() != y.len() {
                return false;
            }
            let n = x.len();
            proof {
                assert(xs.subrange(0, n as int) =~= xs);
                assert(ys.subrange(0, n as int) =~= ys);
            }
            for i in 0..n
                invariant
                    n == x@.len(),
                    n == y@.len(),
                    xs == items_view(x@),
                    ys == items_view(y@),
                    xs.len() == n,
                    ys.len() == n,
                    a@ == ValueView::Array(xs),
                    b@ == ValueView::Array(ys),
                    forall|k: int| 0 <= k < n ==> #[trigger] xs[k] == x@[k]@,
                    forall|k: int| 0 <= k < n ==> #[trigger] ys[k] == y@[k]@,
                    items_equal(xs, ys, case_sensitive) == items_equal(
                        xs.subrange(i as int, n as int),
                        ys.subrange(i as int, n as int),
                        case_sensitive,
                    ),
            {
                proof {
                    assert(xs.subrange(i as int, n as int).drop_first() =~= xs.subrange(
                        i + 1,
                        n as int,
                    ));
                    assert(ys.subrange(i as int, n as int).drop_first() =~= ys.subrange(
                        i + 1,
                        n as int,
                    ));
                }
                proof {
                    assert(xs[i as int] == x@[i as int]@);
                    assert(ys[i as int] == y@[i as int]@);
                    assert(decreases_to!(a@ => a@->Array_0));
                    assert(decreases_to!(xs => xs[i as int]));
                }
                if !compare_values(&x[i], &y[i], case_sensitive) {
                    return false;
                }
            }
            true
        },
        (Value::Object(x), Value::Object(y)) => {
            // cJSON object equality is set-like: each key in `a` must appear
            // in `b` with an equal value, regardless of ordering.
            let ghost xs = members_view(x@);
            proof {
                lemma_members_view(x@);
                lemma_members_view(y@);
            }
            if x.len() != y.len() {
                return false;
            }
            let n = x.len();
            proof {
                assert(xs.subrange(0, n as int) =~= xs);
            }
            for i in 0..n
                invariant
                    n == x@.len(),
                    xs == members_view(x@),
                    xs.len() == n,
                    a@ == ValueView::Object(xs),
                    b@ == ValueView::Object(members_view(y@)),
                    members_view(y@).len() == n,
                    forall|k: int| 0 <= k < n ==> #[trigger] xs[k] == (x@[k].0@, x@[k].1@),
                    all_found(xs, members_view(y@), case_sensitive) == all_found(
                        xs.subrange(i as int, n as int),
                        members_view(y@),
                        case_sensitive,
                    ),
            {
                proof {
                    assert(xs.subrange(i as int, n as int).drop_first() =~= xs.subrange(
                        i + 1,
                        n as int,
                    ));
                }
                proof {
                    assert(xs[i as int] == (x@[i as int].0@, x@[i as int].1@));
                    assert(decreases_to!(a@ => a@->Object_0));
                    assert(decreases_to!(xs => xs[i as int]));
                    assert(decreases_to!(xs[i as int] => xs[i as int].1));
                }
                if !member_found(&x[i], y, case_sensitive) {
                    return false;
                }
            }
            true
        },
        _ => false,
    }
}

} // verus!
