//! RFC 8259 serialiser.
//!
//! Two output modes:
//!
//! - `serialise`         — compact (no whitespace outside strings), matches
//!                         the semantics of `cJSON_PrintUnformatted`.
//! - `serialise_pretty`  — formatted with newlines and 2-space indentation.
use vstd::prelude::*;
use vstd::string::StringExecFns;

use crate::value::{
    lemma_items_view, lemma_members_view, push_char, Number, Value, ValueView,
};

verus! {

// ---------------------------------------------------------------------
// The text of a value.
// ---------------------------------------------------------------------

/// The lowercase hexadecimal digit of `n` (less than 16).
pub open spec fn hex_digit(n: nat) -> char {
    if n < 10 {
        ((0x30 + n) as u8) as char
    } else {
        ((0x61 + n - 10) as u8) as char
    }
}

/// RFC 8259 §7: how one character of a string is written. Quotation mark,
/// reverse solidus, and U+0000..=U+001F are escaped.
pub open spec fn escape_char(c: char) -> Seq<char> {
    if c == '"' {
        seq!['\\', '"']
    } else if c == '\\' {
        seq!['\\', '\\']
    } else if c == '\n' {
        seq!['\\', 'n']
    } else if c == '\r' {
        seq!['\\', 'r']
    } else if c == '\t' {
        seq!['\\', 't']
    } else if c == '\u{0008}' {
        seq!['\\', 'b']
    } else if c == '\u{000C}' {
        seq!['\\', 'f']
    } else if (c as u32) < 0x20 {
        seq!['\\', 'u', '0', '0', hex_digit((c as u32 / 16) as nat), hex_digit((c as u32 % 16) as nat)]
    } else {
        seq![c]
    }
}

pub open spec fn escape_chars(s: Seq<char>) -> Seq<char>
    decreases s.len(),
{
    if s.len() == 0 {
        Seq::empty()
    } else {
        escape_chars(s.drop_last()) + escape_char(s.last())
    }
}

/// RFC 8259 §7: string = quotation-mark *char quotation-mark.
pub open spec fn quoted(s: Seq<char>) -> Seq<char> {
    seq!['"'] + escape_chars(s) + seq!['"']
}

pub open spec fn null_text() -> Seq<char> {
    seq!['n', 'u', 'l', 'l']
}

/// A number is written as its text; one that JSON cannot denote as `null`.
pub open spec fn number_text(n: Option<Seq<char>>) -> Seq<char> {
    match n {
        Some(t) => t,
        None => null_text(),
    }
}

/// `n` spaces.
pub open spec fn spaces(n: nat) -> Seq<char> {
    Seq::new(n, |i: int| ' ')
}

/// The indentation of nesting level `depth`, `step` spaces per level.
pub open spec fn indent(step: nat, depth: nat) -> Seq<char>
    decreases depth,
{
    if depth == 0 {
        Seq::empty()
    } else {
        indent(step, (depth - 1) as nat) + spaces(step)
    }
}

/// The separator written after an item of a container: a comma unless it is
/// the last, and in pretty mode a line break.
pub open spec fn separator(ind: Option<nat>, more: bool) -> Seq<char> {
    let comma: Seq<char> = if more {
        seq![',']
    } else {
        Seq::empty()
    };
    match ind {
        None => comma,
        Some(_) => comma + seq!['\n'],
    }
}

/// What stands before an item of a container at nesting level `depth`.
pub open spec fn lead(ind: Option<nat>, depth: nat) -> Seq<char> {
    match ind {
        None => Seq::empty(),
        Some(k) => indent(k, depth + 1),
    }
}

/// The text of `v` at nesting level `depth`: compact where `ind` is `None`,
/// otherwise pretty with `k` spaces of indentation per level.
pub open spec fn render(v: ValueView, ind: Option<nat>, depth: nat) -> Seq<char>
    decreases v, 0nat,
{
    match v {
        ValueView::Null => null_text(),
        ValueView::Bool(b) => if b {
            seq!['t', 'r', 'u', 'e']
        } else {
            seq!['f', 'a', 'l', 's', 'e']
        },
        ValueView::Number(n) => number_text(n),
        ValueView::String(s) => quoted(s),
        ValueView::Array(items) => {
            if items.len() == 0 {
                seq!['[', ']']
            } else {
                match ind {
                    None => seq!['['] + render_items(items, ind, depth) + seq![']'],
                    Some(k) => seq!['[', '\n'] + render_items(items, ind, depth) + indent(k, depth)
                        + seq![']'],
                }
            }
        },
        ValueView::Object(members) => {
            if members.len() == 0 {
                seq!['{', '}']
            } else {
                match ind {
                    None => seq!['{'] + render_members(members, ind, depth) + seq!['}'],
                    Some(k) => seq!['{', '\n'] + render_members(members, ind, depth) + indent(
                        k,
                        depth,
                    ) + seq!['}'],
                }
            }
        },
    }
}

/// The items of an array at nesting level `depth`, each with what stands
/// before and after it.
pub open spec fn render_items(s: Seq<ValueView>, ind: Option<nat>, depth: nat) -> Seq<char>
    decreases s, 1nat,
{
    if s.len() == 0 {
        Seq::empty()
    } else {
        lead(ind, depth) + render(s[0], ind, depth + 1) + separator(ind, s.len() > 1)
            + render_items(s.drop_first(), ind, depth)
    }
}

/// The name-separator of a member: `:` compact, `: ` pretty.
pub open spec fn colon(ind: Option<nat>) -> Seq<char> {
    match ind {
        None => seq![':'],
        Some(_) => seq![':', ' '],
    }
}

/// The members of an object at nesting level `depth`, each with what stands
/// before and after it.
pub open spec fn render_members(s: Seq<(Seq<char>, ValueView)>, ind: Option<nat>, depth: nat) -> Seq<
    char,
>
    decreases s, 1nat,
{
    if s.len() == 0 {
        Seq::empty()
    } else {
        lead(ind, depth) + quoted(s[0].0) + colon(ind) + render(s[0].1, ind, depth + 1)
            + separator(ind, s.len() > 1) + render_members(s.drop_first(), ind, depth)
    }
}

/// How deeply arrays and objects nest in `v`.
pub open spec fn height(v: ValueView) -> nat
    decreases v, 0nat,
{
    match v {
        ValueView::Array(items) => 1 + items_height(items),
        ValueView::Object(members) => 1 + members_height(members),
        _ => 0,
    }
}

pub open spec fn items_height(s: Seq<ValueView>) -> nat
    decreases s, 1nat,
{
    if s.len() == 0 {
        0
    } else {
        let h = height(s[0]);
        let r = items_height(s.drop_first());
        if h > r {
            h
        } else {
            r
        }
    }
}

pub open spec fn members_height(s: Seq<(Seq<char>, ValueView)>) -> nat
    decreases s, 1nat,
{
    if s.len() == 0 {
        0
    } else {
        let h = height(s[0].1);
        let r = members_height(s.drop_first());
        if h > r {
            h
        } else {
            r
        }
    }
}

pub proof fn lemma_items_height(s: Seq<ValueView>, i: int)
    requires
        0 <= i < s.len(),
    ensures
        height(s[i]) <= items_height(s),
    decreases s.len(),
{
    if i > 0 {
        lemma_items_height(s.drop_first(), i - 1);
    }
}

pub proof fn lemma_members_height(s: Seq<(Seq<char>, ValueView)>, i: int)
    requires
        0 <= i < s.len(),
    ensures
        height(s[i].1) <= members_height(s),
    decreases s.len(),
{
    if i > 0 {
        lemma_members_height(s.drop_first(), i - 1);
    }
}

// ---------------------------------------------------------------------
// The serialiser.
// ---------------------------------------------------------------------

pub open spec fn opt_nat(o: Option<usize>) -> Option<nat> {
    match o {
        Some(k) => Some(k as nat),
        None => None,
    }
}

/// Serialise a `Value` as compact JSON text (no whitespace outside strings).
///
/// A number is written as the decimal text it holds (`1.0` stays `1.0`,
/// `1e2` stays `1e2`), not as the shortest text of the nearest `double`: the
/// library keeps numbers as text and does no floating-point work. A
/// non-finite number is written as `null`.
pub fn serialise(value: &Value) -> (r: String)
    requires
        height(value@) < usize::MAX,
    ensures
        r@ == render(value@, None, 0),
{
    let mut out = String::new();
    write_value(&mut out, value, None, 0);
    out
}

/// Serialise a `Value` as pretty-printed JSON text (2-space indent).
/// Numbers are written as for [`serialise`].
pub fn serialise_pretty(value: &Value) -> (r: String)
    requires
        height(value@) < usize::MAX,
    ensures
        r@ == render(value@, Some(2), 0),
{
    let mut out = String::new();
    write_value(&mut out, value, Some(2), 0);
    out
}

/// `indent`: `None` = compact, `Some(n)` = pretty with `n`-space indent per level.
fn write_value(out: &mut String, value: &Value, indent: Option<usize>, depth: usize)
    requires
        depth + height(value@) < usize::MAX,
    ensures
        final(out)@ == old(out)@ + render(value@, opt_nat(indent), depth as nat),
    decreases value@,
{
    match value {
        Value::Null => {
            out.append("null");
            proof {
                reveal_strlit("null");
            }
        },
        Value::Bool(b) => {
            if *b {
                out.append("true");
                proof {
                    reveal_strlit("true");
                }
            } else {
                out.append("false");
                proof {
                    reveal_strlit("false");
                }
            }
        },
        Value::Number(n) => write_number(out, n),
        Value::String(s) => write_string(out, s.as_str()),
        Value::Array(items) => write_array(out, items, indent, depth),
        Value::Object(members) => write_object(out, members, indent, depth),
    }
}

fn write_number(out: &mut String, n: &Number)
    ensures
        final(out)@ == old(out)@ + number_text(n@),
{
    match n.text() {
        Some(t) => out.append(t.as_str()),
        None => {
            // RFC 8259 §6 forbids NaN / Infinity. Emit "null" rather than invalid JSON.
            out.append("null");
            proof {
                reveal_strlit("null");
            }
        },
    }
}

fn hex_digit_char(d: u8) -> (c: char)
    requires
        d < 16,
    ensures
        c == hex_digit(d as nat),
{
    if d < 10 {
        (0x30 + d) as char
    } else {
        (0x61 + d - 10) as char
    }
}

/// RFC 8259 §7: string = quotation-mark *char quotation-mark.
/// Quotation mark, reverse solidus, and U+0000..=U+001F must be escaped.
pub(crate) fn write_string(out: &mut String, s: &str)
    ensures
        final(out)@ == old(out)@ + quoted(s@),
{
    let ghost base = out@;
    push_char(out, '"');
    for ch in it: s.chars()
        invariant
            it.seq() == s@,
            out@ == base + seq!['"'] + escape_chars(s@.take(it.index() as int)),
    {
        let ghost i = it.index() as int;
        proof {
            assert(s@.take(i + 1).drop_last() =~= s@.take(i));
        }
        if ch == '"' {
            push_char(out, '\\');
            push_char(out, '"');
        } else if ch == '\\' {
            push_char(out, '\\');
            push_char(out, '\\');
        } else if ch == '\n' {
            push_char(out, '\\');
            push_char(out, 'n');
        } else if ch == '\r' {
            push_char(out, '\\');
            push_char(out, 'r');
        } else if ch == '\t' {
            push_char(out, '\\');
            push_char(out, 't');
        } else if ch == '\u{0008}' {
            push_char(out, '\\');
            push_char(out, 'b');
        } else if ch == '\u{000C}' {
            push_char(out, '\\');
            push_char(out, 'f');
        } else if (ch as u32) < 0x20 {
            let u = ch as u32;
            push_char(out, '\\');
            push_char(out, 'u');
            push_char(out, '0');
            push_char(out, '0');
            push_char(out, hex_digit_char((u / 16) as u8));
            push_char(out, hex_digit_char((u % 16) as u8));
        } else {
            push_char(out, ch);
        }
        proof {
            assert(out@ =~= base + seq!['"'] + escape_chars(s@.take(i + 1)));
        }
    }
    push_char(out, '"');
    proof {
        assert(s@.take(s@.len() as int) =~= s@);
        assert(out@ =~= old(out)@ + quoted(s@));
    }
}

fn write_indent(out: &mut String, step: usize, depth: usize)
    ensures
        final(out)@ == old(out)@ + indent(step as nat, depth as nat),
{
    let ghost base = out@;
    for level in 0..depth
        invariant
            out@ == base + indent(step as nat, level as nat),
    {
        let ghost mid = out@;
        for k in 0..step
            invariant
                out@ == mid + spaces(k as nat),
        {
            push_char(out, ' ');
            proof {
                assert(out@ =~= mid + spaces((k + 1) as nat));
            }
        }
        proof {
            assert(out@ =~= base + indent(step as nat, (level + 1) as nat));
        }
    }
}

fn write_separator(out: &mut String, indent: Option<usize>, more: bool)
    ensures
        final(out)@ == old(out)@ + separator(opt_nat(indent), more),
{
    if more {
        push_char(out, ',');
    }
    if indent.is_some() {
        push_char(out, '\n');
    }
    proof {
        assert(out@ =~= old(out)@ + separator(opt_nat(indent), more));
    }
}

/// Writes what stands before the value of a member at nesting level
/// `depth`: its indentation, its quoted name and the name-separator.
fn write_key(out: &mut String, key: &str, indent: Option<usize>, depth: usize)
    requires
        depth + 1 < usize::MAX,
    ensures
        final(out)@ == old(out)@ + (lead(opt_nat(indent), depth as nat) + quoted(key@) + colon(
            opt_nat(indent),
        )),
{
    match indent {
        Some(step) => write_indent(out, step, depth + 1),
        None => {},
    }
    write_string(out, key);
    if indent.is_some() {
        push_char(out, ':');
        push_char(out, ' ');
    } else {
        push_char(out, ':');
    }
    proof {
        assert(out@ =~= old(out)@ + (lead(opt_nat(indent), depth as nat) + quoted(key@) + colon(
            opt_nat(indent),
        )));
    }
}

fn write_array(out: &mut String, items: &Vec<Value>, indent: Option<usize>, depth: usize)
    requires
        depth + height(ValueView::Array(crate::value::items_view(items@))) < usize::MAX,
    ensures
        final(out)@ == old(out)@ + render(
            ValueView::Array(crate::value::items_view(items@)),
            opt_nat(indent),
            depth as nat,
        ),
    decreases crate::value::items_view(items@),
{
    let ghost vs = crate::value::items_view(items@);
    let ghost ind = opt_nat(indent);
    proof {
        lemma_items_view(items@);
    }
    if items.len() == 0 {
        push_char(out, '[');
        push_char(out, ']');
        return;
    }
    let ghost base = old(out)@;
    push_char(out, '[');
    if indent.is_some() {
        push_char(out, '\n');
    }
    let ghost opened = out@;
    let n = items.len();
    proof {
        assert(vs.subrange(0, vs.len() as int) =~= vs);
    }
    for i in 0..n
        invariant
            n == items@.len(),
            vs == crate::value::items_view(items@),
            vs.len() == items@.len(),
            forall|j: int| 0 <= j < items@.len() ==> #[trigger] vs[j] == items@[j]@,
            depth + 1 + items_height(vs) < usize::MAX,
            ind == opt_nat(indent),
            out@ + render_items(vs.subrange(i as int, vs.len() as int), ind, depth as nat) == opened
                + render_items(vs, ind, depth as nat),
    {
        let ghost rest = vs.subrange(i as int, vs.len() as int);
        proof {
            assert(rest.drop_first() =~= vs.subrange(i + 1, vs.len() as int));
            lemma_items_height(vs, i as int);
        }
        let ghost before = out@;
        match indent {
            Some(step) => write_indent(out, step, depth + 1),
            None => {},
        }
        write_value(out, &items[i], indent, depth + 1);
        write_separator(out, indent, i + 1 < n);
        proof {
            let chunk = lead(ind, depth as nat) + render(rest[0], ind, (depth + 1) as nat)
                + separator(ind, rest.len() > 1);
            assert(out@ =~= before + chunk);
            let tail = render_items(rest.drop_first(), ind, depth as nat);
            assert(render_items(rest, ind, depth as nat) == chunk + tail);
            assert((before + chunk) + tail =~= before + (chunk + tail));
        }
    }
    proof {
        assert(vs.subrange(vs.len() as int, vs.len() as int) =~= Seq::<ValueView>::empty());
    }
    match indent {
        Some(step) => write_indent(out, step, depth),
        None => {},
    }
    push_char(out, ']');
    proof {
        assert(out@ =~= base + render(ValueView::Array(vs), ind, depth as nat));
    }
}

fn write_object(
    out: &mut String,
    members: &Vec<(String, Value)>,
    indent: Option<usize>,
    depth: usize,
)
    requires
        depth + height(ValueView::Object(crate::value::members_view(members@))) < usize::MAX,
    ensures
        final(out)@ == old(out)@ + render(
            ValueView::Object(crate::value::members_view(members@)),
            opt_nat(indent),
            depth as nat,
        ),
    decreases crate::value::members_view(members@),
{
    let ghost ms = crate::value::members_view(members@);
    let ghost ind = opt_nat(indent);
    proof {
        lemma_members_view(members@);
    }
    if members.len() == 0 {
        push_char(out, '{');
        push_char(out, '}');
        return;
    }
    let ghost base = old(out)@;
    push_char(out, '{');
    if indent.is_some() {
        push_char(out, '\n');
    }
    let ghost opened = out@;
    let n = members.len();
    proof {
        assert(ms.subrange(0, ms.len() as int) =~= ms);
    }
    for i in 0..n
        invariant
            n == members@.len(),
            ms == crate::value::members_view(members@),
            ms.len() == members@.len(),
            forall|j: int| 0 <= j < members@.len() ==> #[trigger] ms[j] == (members@[j].0@, members@[j].1@),
            depth + 1 + members_height(ms) < usize::MAX,
            ind == opt_nat(indent),
            out@ + render_members(ms.subrange(i as int, ms.len() as int), ind, depth as nat) == opened
                + render_members(ms, ind, depth as nat),
    {
        let ghost rest = ms.subrange(i as int, ms.len() as int);
        proof {
            assert(rest.drop_first() =~= ms.subrange(i + 1, ms.len() as int));
            lemma_members_height(ms, i as int);
        }
        let ghost before = out@;
        let (k, v) = &members[i];
        write_key(out, k.as_str(), indent, depth);
        let ghost s1 = out@;
        write_value(out, v, indent, depth + 1);
        let ghost s2 = out@;
        write_separator(out, indent, i + 1 < n);
        proof {
            let chunk = lead(ind, depth as nat) + quoted(rest[0].0) + colon(ind) + render(
                rest[0].1,
                ind,
                (depth + 1) as nat,
            ) + separator(ind, rest.len() > 1);
            assert(s1 == before + (lead(ind, depth as nat) + quoted(rest[0].0) + colon(ind)));
            assert(out@ =~= before + chunk);
            let tail = render_members(rest.drop_first(), ind, depth as nat);
            assert(render_members(rest, ind, depth as nat) == chunk + tail);
            assert((before + chunk) + tail =~= before + (chunk + tail));
        }
    }
    proof {
        assert(ms.subrange(ms.len() as int, ms.len() as int) =~= Seq::<(Seq<char>, ValueView)>::empty());
    }
    match indent {
        Some(step) => write_indent(out, step, depth),
        None => {},
    }
    push_char(out, '}');
    proof {
        assert(out@ =~= base + render(ValueView::Object(ms), ind, depth as nat));
    }
}

} // verus!
