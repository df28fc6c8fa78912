//! What holds of the library as a whole: laws that relate its functions.
use vstd::prelude::*;
use vstd::utf8::encode_utf8;

use crate::capi::{lemma_value_node, value_node};
use crate::cjson::{
    all_found, copied_text, duplicate_children, duplicate_spec, found, items_equal, keys_match,
    kind, lemma_minify_len, member_key, minify_from, node_items, node_members, node_value,
    pretty_node, values_equal, CTextView, NodeView, CJSON_ARRAY, CJSON_IS_REFERENCE, CJSON_OBJECT,
    CJSON_RAW, CJSON_STRING_IS_CONST,
};
use crate::comments::{
    block_comment, lemma_comment_removed, lemma_line_comment_removed, lemma_string_kept,
    line_comment, no_comment_end, plain, simple_string_body, string_literal,
};
use crate::compaction::lemma_minify_rendered;
use crate::error::{start_loc, ErrorView, Loc};
use crate::parser::{
    array_items, default_nesting_limit, is_end_array, is_end_object, lemma_parse_advances,
    object_members, parse_prefix_spec, parse_spec, parse_value_at,
};
use crate::positions::{
    lemma_parse_errors_from_one, lemma_parse_errors_within, lemma_prefix_token_ends,
    lemma_tokenise_from_one, lemma_tokenise_prefix_from_one, lemma_tokenise_prefix_within,
    lemma_tokenise_within,
};
use crate::prefix::{
    lemma_parse_take, lemma_prefix_of_whole, lemma_prefix_stops, lemma_prefix_tokens, stops_at,
};
use crate::roundtrip::{lemma_parse_rendered, reads, value_wf};
use crate::serialiser::{height, items_height, members_height, render};
use crate::token::{PosTok, TokenView};
use crate::tokeniser::{tokenise_prefix_spec, tokenise_spec};
use crate::value::{Value, ValueView};
use crate::wellformed::{
    lemma_compact_no_control, lemma_nulled, lemma_tokenise_prefix_wf, lemma_tokenise_wf,
    lemma_value_ok, lemma_value_wf, nulled,
};

verus! {

// ---------------------------------------------------------------------
// Serialising, then parsing.
// ---------------------------------------------------------------------

/// Parsing the text that `serialise` writes for a value, or the text that
/// `serialise_pretty` writes, gives the value back, with `null` wherever it
/// held a non-finite number: for every value whose arrays and objects nest
/// no deeper than the parser's nesting limit. So both texts are always one
/// JSON text, and a value whose numbers are all finite comes back as it is.
pub proof fn parse_inverts_serialise(v: Value, nesting_limit: nat)
    requires
        height(v@) <= nesting_limit,
    ensures
        parse_spec(encode_utf8(render(v@, None, 0)), nesting_limit) == Ok::<ValueView, ErrorView>(
            nulled(v@),
        ),
        parse_spec(encode_utf8(render(v@, Some(2), 0)), nesting_limit) == Ok::<
            ValueView,
            ErrorView,
        >(nulled(v@)),
        value_wf(v@) ==> nulled(v@) == v@,
{
    lemma_value_ok(v);
    lemma_nulled(v@, None, 0);
    lemma_nulled(v@, Some(2), 0);
    lemma_reparse(nulled(v@), nesting_limit);
}

/// The text written for a value whose numbers are all JSON numbers parses
/// back to it.
proof fn lemma_reparse(v: ValueView, nesting_limit: nat)
    requires
        value_wf(v),
        height(v) <= nesting_limit,
    ensures
        parse_spec(encode_utf8(render(v, None, 0)), nesting_limit) == Ok::<ValueView, ErrorView>(
            v,
        ),
        parse_spec(encode_utf8(render(v, Some(2), 0)), nesting_limit) == Ok::<ValueView, ErrorView>(
            v,
        ),
{
    lemma_parse_rendered(v, None, nesting_limit);
    lemma_parse_rendered(v, Some(2), nesting_limit);
}

// ---------------------------------------------------------------------
// The nesting limit.
// ---------------------------------------------------------------------

/// A value that the parser returns nests its arrays and objects no deeper
/// than the nesting limit it was given (the default limit for a prefix):
/// deeper input is refused.
pub proof fn parse_respects_nesting_limit(input: Seq<u8>, nesting_limit: nat)
    ensures
        parse_spec(input, nesting_limit) matches Ok(v) ==> height(v) <= nesting_limit,
        parse_prefix_spec(input) matches Ok((v, _)) ==> height(v) <= default_nesting_limit(),
{
    if let Ok(ts) = crate::tokeniser::tokenise_spec(input) {
        lemma_value_depth(ts, 0, 0, nesting_limit);
    }
    lemma_value_depth(
        crate::tokeniser::tokenise_prefix_spec(input).0,
        0,
        0,
        default_nesting_limit(),
    );
}

/// Raising the nesting limit keeps every accepted input, and the value read
/// from it.
pub proof fn raising_the_limit_keeps_values(input: Seq<u8>, a: nat, b: nat)
    requires
        a <= b,
    ensures
        parse_spec(input, a) matches Ok(v) ==> parse_spec(input, b) == Ok::<ValueView, ErrorView>(
            v,
        ),
{
    if let Ok(ts) = crate::tokeniser::tokenise_spec(input) {
        lemma_value_limit(ts, 0, 0, a, b);
    }
}

proof fn lemma_value_limit(ts: Seq<PosTok>, c: nat, d: nat, a: nat, b: nat)
    requires
        a <= b,
    ensures
        parse_value_at(ts, c, d, a) is Ok ==> parse_value_at(ts, c, d, b) == parse_value_at(
            ts,
            c,
            d,
            a,
        ),
    decreases ts.len() - c, 1nat,
{
    if c < ts.len() {
        match ts[c as int].token {
            TokenView::BeginArray => {
                if d < a && !is_end_array(ts, c + 1) {
                    lemma_items_limit(ts, c + 1, d + 1, a, b, Seq::empty());
                }
            },
            TokenView::BeginObject => {
                if d < a && !is_end_object(ts, c + 1) {
                    lemma_members_limit(ts, c + 1, d + 1, a, b, Seq::empty());
                }
            },
            _ => {},
        }
    }
}

proof fn lemma_items_limit(ts: Seq<PosTok>, c: nat, d: nat, a: nat, b: nat, acc: Seq<ValueView>)
    requires
        a <= b,
    ensures
        array_items(ts, c, d, a, acc) is Ok ==> array_items(ts, c, d, b, acc) == array_items(
            ts,
            c,
            d,
            a,
            acc,
        ),
    decreases ts.len() - c, 2nat,
{
    lemma_value_limit(ts, c, d, a, b);
    lemma_parse_advances(ts, c, d, a);
    if let Ok((v, c2)) = parse_value_at(ts, c, d, a) {
        if c2 < ts.len() && ts[c2 as int].token is ValueSeparator {
            if !(is_end_array(ts, c2 + 1) || c2 < c) {
                lemma_items_limit(ts, c2 + 1, d, a, b, acc.push(v));
            }
        }
    }
}

proof fn lemma_members_limit(
    ts: Seq<PosTok>,
    c: nat,
    d: nat,
    a: nat,
    b: nat,
    acc: Seq<(Seq<char>, ValueView)>,
)
    requires
        a <= b,
    ensures
        object_members(ts, c, d, a, acc) is Ok ==> object_members(ts, c, d, b, acc)
            == object_members(ts, c, d, a, acc),
    decreases ts.len() - c, 2nat,
{
    if c < ts.len() {
        if let TokenView::String(key) = ts[c as int].token {
            if c + 1 < ts.len() && ts[(c + 1) as int].token is NameSeparator {
                lemma_value_limit(ts, c + 2, d, a, b);
                lemma_parse_advances(ts, c + 2, d, a);
                if let Ok((v, c2)) = parse_value_at(ts, c + 2, d, a) {
                    if c2 < ts.len() && ts[c2 as int].token is ValueSeparator {
                        if !(is_end_object(ts, c2 + 1) || c2 < c) {
                            lemma_members_limit(ts, c2 + 1, d, a, b, acc.push((key, v)));
                        }
                    }
                }
            }
        }
    }
}

proof fn lemma_items_height_bound(s: Seq<ValueView>, k: nat)
    requires
        forall|i: int| 0 <= i < s.len() ==> height(#[trigger] s[i]) <= k,
    ensures
        items_height(s) <= k,
    decreases s.len(),
{
    if s.len() > 0 {
        assert(height(s[0]) <= k);
        assert forall|i: int| 0 <= i < s.drop_first().len() implies height(
            #[trigger] s.drop_first()[i],
        ) <= k by {
            assert(s.drop_first()[i] == s[i + 1]);
        }
        lemma_items_height_bound(s.drop_first(), k);
    }
}

proof fn lemma_members_height_bound(s: Seq<(Seq<char>, ValueView)>, k: nat)
    requires
        forall|i: int| 0 <= i < s.len() ==> height(#[trigger] s[i].1) <= k,
    ensures
        members_height(s) <= k,
    decreases s.len(),
{
    if s.len() > 0 {
        assert(height(s[0].1) <= k);
        assert forall|i: int| 0 <= i < s.drop_first().len() implies height(
            #[trigger] s.drop_first()[i].1,
        ) <= k by {
            assert(s.drop_first()[i] == s[i + 1]);
        }
        lemma_members_height_bound(s.drop_first(), k);
    }
}

/// A value read at depth `d` under the limit `l` nests at most `l - d`
/// levels.
proof fn lemma_value_depth(ts: Seq<PosTok>, c: nat, d: nat, l: nat)
    requires
        d <= l,
    ensures
        parse_value_at(ts, c, d, l) matches Ok((v, _)) ==> d + height(v) <= l,
    decreases ts.len() - c, 1nat,
{
    if c < ts.len() {
        match ts[c as int].token {
            TokenView::BeginArray => {
                if d < l && !is_end_array(ts, c + 1) {
                    lemma_items_depth(ts, c + 1, d + 1, l, Seq::empty());
                } else if d < l {
                    assert(height(ValueView::Array(Seq::empty())) == 1);
                }
            },
            TokenView::BeginObject => {
                if d < l && !is_end_object(ts, c + 1) {
                    lemma_members_depth(ts, c + 1, d + 1, l, Seq::empty());
                } else if d < l {
                    assert(height(ValueView::Object(Seq::empty())) == 1);
                }
            },
            _ => {},
        }
    }
}

proof fn lemma_items_depth(ts: Seq<PosTok>, c: nat, d: nat, l: nat, acc: Seq<ValueView>)
    requires
        1 <= d <= l,
        forall|i: int| 0 <= i < acc.len() ==> d + height(#[trigger] acc[i]) <= l,
    ensures
        array_items(ts, c, d, l, acc) matches Ok((v, _)) ==> d - 1 + height(v) <= l,
    decreases ts.len() - c, 2nat,
{
    lemma_value_depth(ts, c, d, l);
    lemma_parse_advances(ts, c, d, l);
    if let Ok((v, c2)) = parse_value_at(ts, c, d, l) {
        let items = acc.push(v);
        assert forall|i: int| 0 <= i < items.len() implies d + height(#[trigger] items[i]) <= l by {
            if i < acc.len() {
                assert(items[i] == acc[i]);
            }
        }
        if c2 < ts.len() {
            match ts[c2 as int].token {
                TokenView::ValueSeparator => {
                    if !(is_end_array(ts, c2 + 1) || c2 < c) {
                        lemma_items_depth(ts, c2 + 1, d, l, items);
                    }
                },
                TokenView::EndArray => {
                    lemma_items_height_bound(items, (l - d) as nat);
                },
                _ => {},
            }
        }
    }
}

proof fn lemma_members_depth(
    ts: Seq<PosTok>,
    c: nat,
    d: nat,
    l: nat,
    acc: Seq<(Seq<char>, ValueView)>,
)
    requires
        1 <= d <= l,
        forall|i: int| 0 <= i < acc.len() ==> d + height(#[trigger] acc[i].1) <= l,
    ensures
        object_members(ts, c, d, l, acc) matches Ok((v, _)) ==> d - 1 + height(v) <= l,
    decreases ts.len() - c, 2nat,
{
    if c < ts.len() {
        if let TokenView::String(key) = ts[c as int].token {
            if c + 1 < ts.len() && ts[(c + 1) as int].token is NameSeparator {
                lemma_value_depth(ts, c + 2, d, l);
                lemma_parse_advances(ts, c + 2, d, l);
                if let Ok((v, c2)) = parse_value_at(ts, c + 2, d, l) {
                    let members = acc.push((key, v));
                    assert forall|i: int| 0 <= i < members.len() implies d + height(
                        #[trigger] members[i].1,
                    ) <= l by {
                        if i < acc.len() {
                            assert(members[i] == acc[i]);
                        }
                    }
                    if c2 < ts.len() {
                        match ts[c2 as int].token {
                            TokenView::ValueSeparator => {
                                if !(is_end_object(ts, c2 + 1) || c2 < c) {
                                    lemma_members_depth(ts, c2 + 1, d, l, members);
                                }
                            },
                            TokenView::EndObject => {
                                lemma_members_height_bound(members, (l - d) as nat);
                            },
                            _ => {},
                        }
                    }
                }
            }
        }
    }
}

// ---------------------------------------------------------------------
// Printing what was parsed.
// ---------------------------------------------------------------------

/// Every value that the parser returns has JSON numbers only, and the
/// text that `serialise` or `serialise_pretty` writes for it parses back to
/// it under the same nesting limit: printing a parsed tree and parsing the
/// print gives the same tree again.
pub proof fn parsed_values_print_and_reparse(input: Seq<u8>, nesting_limit: nat)
    ensures
        parse_spec(input, nesting_limit) matches Ok(v) ==> {
            &&& value_wf(v)
            &&& parse_spec(encode_utf8(render(v, None, 0)), nesting_limit) == Ok::<
                ValueView,
                ErrorView,
            >(v)
            &&& parse_spec(encode_utf8(render(v, Some(2), 0)), nesting_limit) == Ok::<
                ValueView,
                ErrorView,
            >(v)
        },
        parse_prefix_spec(input) matches Ok((v, _)) ==> {
            &&& value_wf(v)
            &&& parse_spec(encode_utf8(render(v, None, 0)), default_nesting_limit()) == Ok::<
                ValueView,
                ErrorView,
            >(v)
            &&& parse_spec(encode_utf8(render(v, Some(2), 0)), default_nesting_limit()) == Ok::<
                ValueView,
                ErrorView,
            >(v)
        },
{
    parse_respects_nesting_limit(input, nesting_limit);
    lemma_tokenise_wf(input, start_loc());
    if let Ok(ts) = tokenise_spec(input) {
        lemma_value_wf(ts, 0, 0, nesting_limit);
        if let Ok(v) = parse_spec(input, nesting_limit) {
            lemma_reparse(v, nesting_limit);
        }
    }
    let pts = tokenise_prefix_spec(input).0;
    lemma_tokenise_prefix_wf(input, start_loc(), 0);
    lemma_value_wf(pts, 0, 0, default_nesting_limit());
    if let Ok((v, _)) = parse_prefix_spec(input) {
        lemma_reparse(v, default_nesting_limit());
    }
}

// ---------------------------------------------------------------------
// Comparison.
// ---------------------------------------------------------------------

/// Every value compares equal to itself, with keys matched exactly or
/// ignoring ASCII case.
pub proof fn compare_is_reflexive(v: ValueView, case_sensitive: bool)
    ensures
        values_equal(v, v, case_sensitive),
    decreases v, 0nat, 0nat,
{
    match v {
        ValueView::Array(x) => {
            lemma_items_equal_refl(x, case_sensitive);
        },
        ValueView::Object(x) => {
            lemma_all_found_refl(x, 0, case_sensitive);
            assert(x.subrange(0, x.len() as int) =~= x);
        },
        ValueView::Bool(b) => {
            assert(v matches ValueView::Bool(y) && b == y);
        },
        _ => {},
    }
}

proof fn lemma_items_equal_refl(x: Seq<ValueView>, cs: bool)
    ensures
        items_equal(x, x, cs),
    decreases x, 1nat, 0nat,
{
    if x.len() > 0 {
        compare_is_reflexive(x[0], cs);
        lemma_items_equal_refl(x.drop_first(), cs);
    }
}

proof fn lemma_keys_match_refl(k: Seq<char>, cs: bool)
    ensures
        keys_match(k, k, cs),
{
}

proof fn lemma_found_at(m: (Seq<char>, ValueView), y: Seq<(Seq<char>, ValueView)>, i: int, cs: bool)
    requires
        0 <= i < y.len(),
        y[i] == m,
        values_equal(m.1, m.1, cs),
    ensures
        found(m, y, cs),
    decreases i,
{
    lemma_keys_match_refl(m.0, cs);
    if i > 0 {
        lemma_found_at(m, y.drop_first(), i - 1, cs);
    }
}

/// Every member of `x` from index `k` on is found in `x`.
proof fn lemma_all_found_refl(x: Seq<(Seq<char>, ValueView)>, k: nat, cs: bool)
    requires
        k <= x.len(),
    ensures
        all_found(x.subrange(k as int, x.len() as int), x, cs),
    decreases x, 1nat, x.len() - k,
{
    let s = x.subrange(k as int, x.len() as int);
    if k < x.len() {
        assert(decreases_to!(x => x[k as int]));
        assert(decreases_to!(x[k as int] => x[k as int].1));
        compare_is_reflexive(x[k as int].1, cs);
        lemma_found_at(x[k as int], x, k as int, cs);
        lemma_all_found_refl(x, k + 1, cs);
        assert(s.drop_first() =~= x.subrange(k + 1int, x.len() as int));
        assert(s[0] == x[k as int]);
    }
}

// ---------------------------------------------------------------------
// Duplication.
// ---------------------------------------------------------------------

proof fn lemma_kind_without_flags(t: i32)
    ensures
        kind(t & !CJSON_IS_REFERENCE & !CJSON_STRING_IS_CONST) == kind(t),
{
    assert((t & !256i32 & !512i32) & 0xFF == t & 0xFF) by (bit_vector);
}

/// A deep copy of a node tree denotes the value that the tree denotes, and
/// so compares equal to it, wherever the tree denotes a value (its texts
/// and keys are UTF-8 and its type tags are cJSON's).
pub proof fn duplicate_keeps_value(n: NodeView, case_sensitive: bool)
    requires
        node_value(n) is Some,
    ensures
        node_value(duplicate_spec(n, true)) == node_value(n),
        values_equal(
            node_value(duplicate_spec(n, true))->Some_0,
            node_value(n)->Some_0,
            case_sensitive,
        ),
{
    lemma_duplicate_value(n);
    compare_is_reflexive(node_value(n)->Some_0, case_sensitive);
}

proof fn lemma_duplicate_value(n: NodeView)
    requires
        node_value(n) is Some,
    ensures
        node_value(duplicate_spec(n, true)) == node_value(n),
    decreases n, 0nat,
{
    let d = duplicate_spec(n, true);
    lemma_kind_without_flags(n.type_);
    let k = kind(n.type_);
    if k == CJSON_ARRAY {
        lemma_duplicate_items(n.children);
    } else if k == CJSON_OBJECT {
        lemma_duplicate_members(n.children);
    }
}

proof fn lemma_duplicate_items(s: Seq<NodeView>)
    requires
        node_items(s) is Some,
    ensures
        node_items(duplicate_children(s)) == node_items(s),
    decreases s, 1nat,
{
    if s.len() > 0 {
        let d = duplicate_children(s);
        lemma_duplicate_value(s[0]);
        lemma_duplicate_items(s.drop_first());
        assert(d[0] == duplicate_spec(s[0], true));
        assert(d.drop_first() =~= duplicate_children(s.drop_first()));
    }
}

proof fn lemma_duplicate_members(s: Seq<NodeView>)
    requires
        node_members(s) is Some,
    ensures
        node_members(duplicate_children(s)) == node_members(s),
    decreases s, 1nat,
{
    if s.len() > 0 {
        let d = duplicate_children(s);
        lemma_duplicate_value(s[0]);
        lemma_duplicate_members(s.drop_first());
        assert(d[0] == duplicate_spec(s[0], true));
        assert(member_key(copied_text(s[0].string)) == member_key(s[0].string));
        assert(d.drop_first() =~= duplicate_children(s.drop_first()));
    }
}

// ---------------------------------------------------------------------
// Where errors point.
// ---------------------------------------------------------------------

/// Every error that `parse`, `parse_with_options` or `parse_prefix` reports
/// points into the input: its offset is at most the input's length, and its
/// line and column count from one. The offset that `parse_prefix` returns
/// after the value it read is at most the input's length too.
pub proof fn parse_errors_point_into_input(input: Seq<u8>, nesting_limit: nat)
    ensures
        parse_spec(input, nesting_limit) matches Err(e) ==> e.pos().offset <= input.len(),
        parse_prefix_spec(input) matches Err(e) ==> e.pos().offset <= input.len(),
        parse_prefix_spec(input) matches Ok((v, end)) ==> end <= input.len(),
        parse_spec(input, nesting_limit) matches Err(e) ==> e.pos().line >= 1 && e.pos().column
            >= 1,
        parse_prefix_spec(input) matches Err(e) ==> e.pos().line >= 1 && e.pos().column >= 1,
{
    lemma_tokenise_within(input, start_loc());
    lemma_tokenise_from_one(input, start_loc());
    if let Ok(ts) = tokenise_spec(input) {
        lemma_parse_errors_within(ts, 0, 0, nesting_limit, input.len());
        lemma_parse_errors_from_one(ts, 0, 0, nesting_limit);
    }
    lemma_tokenise_prefix_from_one(input, start_loc(), 0);
    lemma_parse_errors_from_one(
        tokenise_prefix_spec(input).0,
        0,
        0,
        crate::parser::default_nesting_limit(),
    );
    lemma_tokenise_prefix_within(input, start_loc(), 0);
    let ts = tokenise_prefix_spec(input).0;
    lemma_parse_errors_within(ts, 0, 0, crate::parser::default_nesting_limit(), input.len());
    lemma_parse_advances(ts, 0, 0, crate::parser::default_nesting_limit());
    if let Ok((v, c)) = parse_value_at(ts, 0, 0, crate::parser::default_nesting_limit()) {
        assert(0 < c <= ts.len());
        assert(ts[c - 1].pos.offset < input.len());
        assert(ts[c - 1].end.offset <= input.len());
    }
}

// ---------------------------------------------------------------------
// Minifying.
// ---------------------------------------------------------------------

/// Minifying the pretty text that `serialise_pretty` writes for a value
/// (removing whitespace outside strings) gives the compact text that
/// `serialise` writes, and minifying the compact text leaves it as it is:
/// the compact text has no whitespace outside strings.
pub proof fn minify_compacts_serialised(v: Value)
    ensures
        minify_from(encode_utf8(render(v@, Some(2), 0)), 0) == encode_utf8(render(v@, None, 0)),
        minify_from(encode_utf8(render(v@, None, 0)), 0) == encode_utf8(render(v@, None, 0)),
{
    lemma_value_ok(v);
    lemma_nulled(v@, None, 0);
    lemma_nulled(v@, Some(2), 0);
    lemma_minify_rendered(nulled(v@), Some(2));
    lemma_minify_rendered(nulled(v@), None);
}

/// The compact text that `serialise` writes has no character below U+0020:
/// line breaks and other control characters appear only escaped, inside
/// strings. (That it has no whitespace outside strings is the second clause
/// of [`minify_compacts_serialised`].)
pub proof fn compact_text_has_no_control_characters(v: Value)
    ensures
        forall|i: int|
            0 <= i < render(v@, None, 0).len() ==> 0x20 <= #[trigger] (render(v@, None, 0)[i] as u32),
{
    lemma_value_ok(v);
    lemma_compact_no_control(v@, 0);
}

/// Minifying never lengthens a text, so that it can be done in place.
pub proof fn minify_never_lengthens(json: Seq<u8>)
    ensures
        minify_from(json, 0).len() <= json.len(),
{
    lemma_minify_len(json, 0);
}

// ---------------------------------------------------------------------
// Parsing a prefix.
// ---------------------------------------------------------------------

/// The value that `parse_prefix` reads is the value that `parse` reads from
/// the prefix it reports: the input up to just after the value's last byte,
/// which is not whitespace.
pub proof fn parse_prefix_reads_the_prefix(input: Seq<u8>)
    ensures
        parse_prefix_spec(input) matches Ok((v, end)) ==> 1 <= end <= input.len() && parse_spec(
            input.take(end as int),
            crate::parser::default_nesting_limit(),
        ) == Ok::<ValueView, ErrorView>(v) && !crate::tokeniser::is_ws(input[end - 1]),
{
    let l = crate::parser::default_nesting_limit();
    let ts = tokenise_prefix_spec(input).0;
    lemma_tokenise_prefix_within(input, start_loc(), 0);
    lemma_prefix_token_ends(input, start_loc(), 0);
    lemma_parse_advances(ts, 0, 0, l);
    if let Ok((v, c)) = parse_value_at(ts, 0, 0, l) {
        assert(1 <= ts[c - 1].end.offset);
        assert(ts[c - 1].pos.offset < input.len());
        lemma_prefix_tokens(input, start_loc(), 0, c);
        lemma_parse_take(ts, 0, 0, l, c);
        assert(ts.take(c as int).len() == c);
    }
}

/// Where the whole input is one JSON text, `parse_prefix` reads the value
/// that `parse` reads, and the offset it reports is the input's length less
/// its trailing whitespace: only whitespace follows it, and the byte before
/// it is not whitespace.
pub proof fn parse_prefix_agrees_with_parse(input: Seq<u8>)
    ensures
        parse_spec(input, crate::parser::default_nesting_limit()) matches Ok(v) ==> (
        parse_prefix_spec(input) matches Ok((w, end)) && w == v && 1 <= end <= input.len()
            && !crate::tokeniser::is_ws(input[end - 1]) && forall|i: int|
            end <= i < input.len() ==> crate::tokeniser::is_ws(#[trigger] input[i])),
{
    parse_prefix_reads_the_prefix(input);
    let l = crate::parser::default_nesting_limit();
    lemma_prefix_of_whole(input, start_loc(), 0);
    lemma_tokenise_within(input, start_loc());
    if let Ok(ts) = tokenise_spec(input) {
        lemma_parse_advances(ts, 0, 0, l);
        if let Ok((v, c)) = parse_value_at(ts, 0, 0, l) {
            if c == ts.len() {
                assert(ts[c - 1] == ts.last());
                assert(ts[c - 1].pos.offset < input.len());
            }
        }
    }
}

// ---------------------------------------------------------------------
// Tokenising a prefix.
// ---------------------------------------------------------------------

/// `tokenise_prefix` returns the tokens that `tokenise` reads before its
/// first error, or all of them: from the start of the input the tokeniser
/// reads exactly those tokens and then either reaches the end of the input
/// or fails on the very next token, with the error that `tokenise` reports.
/// The offset it returns is 0 where it read no token, and otherwise the end
/// of the last one.
pub proof fn tokenise_prefix_reads_until_the_first_error(input: Seq<u8>)
    ensures
        exists|q: Loc|
            #[trigger] reads(input, start_loc(), tokenise_prefix_spec(input).0, q) && stops_at(
                input,
                q,
            ),
        tokenise_prefix_spec(input).1 == if tokenise_prefix_spec(input).0.len() == 0 {
            0
        } else {
            tokenise_prefix_spec(input).0.last().end.offset
        },
{
    let q = lemma_prefix_stops(input, start_loc(), 0);
    assert(reads(input, start_loc(), tokenise_prefix_spec(input).0, q));
}

// ---------------------------------------------------------------------
// Values as cJSON node trees.
// ---------------------------------------------------------------------

/// The node tree that a parse builds for a value reads back as that value:
/// turning a parsed value into cJSON nodes and reading them again, to print
/// or compare them, loses nothing.
pub proof fn value_tree_reads_back(v: ValueView)
    ensures
        node_value(value_node(v)) == Some(v),
{
    lemma_value_node(v);
}

// ---------------------------------------------------------------------
// Comparing objects.
// ---------------------------------------------------------------------

/// Objects with the same members compare equal, whatever the order of
/// their members.
pub proof fn compare_ignores_member_order(
    x: Seq<(Seq<char>, ValueView)>,
    y: Seq<(Seq<char>, ValueView)>,
    case_sensitive: bool,
)
    requires
        x.to_multiset() == y.to_multiset(),
    ensures
        values_equal(ValueView::Object(x), ValueView::Object(y), case_sensitive),
{
    vstd::seq_lib::to_multiset_len(x);
    vstd::seq_lib::to_multiset_len(y);
    assert forall|i: int| 0 <= i < x.len() implies y.contains(#[trigger] x[i]) by {
        vstd::seq_lib::to_multiset_contains(x, x[i]);
        vstd::seq_lib::to_multiset_contains(y, x[i]);
        assert(x.contains(x[i]));
    }
    lemma_all_found_in(x, 0, y, case_sensitive);
    assert(x.subrange(0, x.len() as int) =~= x);
}

/// Every member of `x` from index `k` on, being a member of `y`, is found
/// in `y`.
proof fn lemma_all_found_in(
    x: Seq<(Seq<char>, ValueView)>,
    k: nat,
    y: Seq<(Seq<char>, ValueView)>,
    cs: bool,
)
    requires
        k <= x.len(),
        forall|i: int| 0 <= i < x.len() ==> y.contains(#[trigger] x[i]),
    ensures
        all_found(x.subrange(k as int, x.len() as int), y, cs),
    decreases x.len() - k,
{
    let s = x.subrange(k as int, x.len() as int);
    if k < x.len() {
        assert(y.contains(x[k as int]));
        let j = choose|j: int| 0 <= j < y.len() && y[j] == x[k as int];
        compare_is_reflexive(x[k as int].1, cs);
        lemma_found_at(x[k as int], y, j, cs);
        lemma_all_found_in(x, k + 1, y, cs);
        assert(s.drop_first() =~= x.subrange(k + 1int, x.len() as int));
        assert(s[0] == x[k as int]);
    }
}

// ---------------------------------------------------------------------
// Strings compare by their characters.
// ---------------------------------------------------------------------

/// Two strings compare equal exactly when they hold the same characters,
/// whether keys are matched exactly or ignoring case; and so does an array
/// holding each.
pub proof fn strings_compare_by_their_characters(x: Seq<char>, y: Seq<char>, cs: bool)
    ensures
        values_equal(ValueView::String(x), ValueView::String(y), cs) <==> x == y,
        values_equal(
            ValueView::Array(seq![ValueView::String(x)]),
            ValueView::Array(seq![ValueView::String(y)]),
            cs,
        ) <==> x == y,
        values_equal(ValueView::String(x), ValueView::Null, cs) == false,
{
    let a = seq![ValueView::String(x)];
    let b = seq![ValueView::String(y)];
    assert(a.drop_first() =~= Seq::<ValueView>::empty());
    assert(b.drop_first() =~= Seq::<ValueView>::empty());
    assert(items_equal(a.drop_first(), b.drop_first(), cs));
    assert(a[0] == ValueView::String(x) && b[0] == ValueView::String(y));
    assert(items_equal(a, b, cs) == values_equal(a[0], b[0], cs));
}

/// Comparison tells booleans apart, never equates values of different
/// kinds, and equates arrays and objects only of the same size.
pub proof fn comparison_keeps_kinds_and_sizes(a: ValueView, b: ValueView, cs: bool)
    ensures
        values_equal(a, b, cs) ==> (a is Null <==> b is Null) && (a is Bool <==> b is Bool) && (
        a is Number <==> b is Number) && (a is String <==> b is String) && (a is Array
            <==> b is Array) && (a is Object <==> b is Object),
        a is Bool && b is Bool ==> (values_equal(a, b, cs) <==> a->Bool_0 == b->Bool_0),
        a is Array && b is Array && values_equal(a, b, cs) ==> a->Array_0.len()
            == b->Array_0.len(),
        a is Object && b is Object && values_equal(a, b, cs) ==> a->Object_0.len()
            == b->Object_0.len(),
{
}

// ---------------------------------------------------------------------
// Keys match only keys of the same length.
// ---------------------------------------------------------------------

/// Matching keys have the same length; matched exactly they are the same
/// key, and every key matches itself.
pub proof fn matching_keys_have_the_same_length(a: Seq<char>, b: Seq<char>, cs: bool)
    ensures
        keys_match(a, b, cs) ==> a.len() == b.len(),
        keys_match(a, b, true) <==> a == b,
        keys_match(a, a, cs),
        keys_match(a, b, true) ==> keys_match(a, b, false),
{
}

// ---------------------------------------------------------------------
// Block comments are removed whole.
// ---------------------------------------------------------------------

/// Minifying removes a block comment whole, from its `/*` to the first `*/`
/// after it: after text that starts no string or comment, a block comment
/// whose body holds no `*/` leaves nothing behind, and the text after it is
/// minified as if the comment were not there.
pub proof fn block_comments_are_removed_whole(x: Seq<u8>, t: Seq<u8>, y: Seq<u8>)
    requires
        plain(x),
        no_comment_end(t),
    ensures
        minify_from(x + (block_comment(t) + y), 0) == minify_from(x + y, 0),
        minify_from(x + (block_comment(t) + y), 0) == minify_from(x, 0) + minify_from(y, 0),
{
    lemma_comment_removed(x, t, y);
    lemma_comment_removed(x, Seq::empty(), y);
    assert(no_comment_end(Seq::<u8>::empty()));
    crate::comments::lemma_plain_concat(x, y);
}

/// Minifying removes a line comment with the line feed that ends it, after
/// text that starts no string or comment.
pub proof fn line_comments_are_removed_whole(x: Seq<u8>, t: Seq<u8>, y: Seq<u8>)
    requires
        plain(x),
        forall|k: int| 0 <= k < t.len() ==> #[trigger] t[k] != 0x0A,
    ensures
        minify_from(x + (line_comment(t) + y), 0) == minify_from(x, 0) + minify_from(y, 0),
{
    lemma_line_comment_removed(x, t, y);
}

/// Minifying keeps a string literal as it is, spaces and all, after text
/// that starts no string or comment.
pub proof fn strings_survive_minifying(x: Seq<u8>, t: Seq<u8>, y: Seq<u8>)
    requires
        plain(x),
        simple_string_body(t),
    ensures
        minify_from(x + (string_literal(t) + y), 0) == minify_from(x, 0) + string_literal(t)
            + minify_from(y, 0),
{
    lemma_string_kept(x, t, y);
}

// ---------------------------------------------------------------------
// Raw nodes print verbatim.
// ---------------------------------------------------------------------

/// cJSON's formatted print writes a raw node's text as it is, at any depth.
pub proof fn raw_nodes_print_verbatim(n: NodeView, s: Seq<char>, depth: nat)
    requires
        kind(n.type_) == CJSON_RAW,
        n.valuestring == CTextView::Text(s),
    ensures
        pretty_node(n, depth) == s,
{
}

// ---------------------------------------------------------------------
// A copy keeps each field.
// ---------------------------------------------------------------------

/// A copy of a node keeps its kind, `valueint`, `double` and number, its
/// UTF-8 texts and key, and drops the reference and constant-key flags; a
/// deep copy has as many children, each a deep copy of the one it copies,
/// and a shallow copy has none.
pub proof fn duplicate_keeps_each_field(n: NodeView, recurse: bool)
    ensures
        duplicate_spec(n, recurse).valueint == n.valueint,
        duplicate_spec(n, recurse).double_bits == n.double_bits,
        duplicate_spec(n, recurse).number == n.number,
        kind(duplicate_spec(n, recurse).type_) == kind(n.type_),
        duplicate_spec(n, recurse).type_ & CJSON_IS_REFERENCE == 0,
        duplicate_spec(n, recurse).type_ & CJSON_STRING_IS_CONST == 0,
        n.valuestring is Text ==> duplicate_spec(n, recurse).valuestring == n.valuestring,
        n.string is Text ==> duplicate_spec(n, recurse).string == n.string,
        recurse ==> duplicate_spec(n, recurse).children.len() == n.children.len(),
        recurse ==> forall|i: int|
            0 <= i < n.children.len() ==> #[trigger] duplicate_spec(n, recurse).children[i]
                == duplicate_spec(n.children[i], true),
        !recurse ==> duplicate_spec(n, recurse).children.len() == 0,
{
    lemma_kind_without_flags(n.type_);
    let t = n.type_;
    assert((t & !256i32 & !512i32) & 256i32 == 0) by (bit_vector);
    assert((t & !256i32 & !512i32) & 512i32 == 0) by (bit_vector);
    if recurse {
        lemma_duplicate_children_each(n.children);
    }
}

proof fn lemma_duplicate_children_each(s: Seq<NodeView>)
    ensures
        duplicate_children(s).len() == s.len(),
        forall|i: int|
            0 <= i < s.len() ==> #[trigger] duplicate_children(s)[i] == duplicate_spec(s[i], true),
    decreases s.len(),
{
    if s.len() > 0 {
        lemma_duplicate_children_each(s.drop_first());
        assert forall|i: int| 0 <= i < s.len() implies #[trigger] duplicate_children(s)[i]
            == duplicate_spec(s[i], true) by {
            if i > 0 {
                assert(s.drop_first()[i - 1] == s[i]);
            }
        }
    }
}

} // verus!
