//! What the cJSON functions that parse, print and compare decide, as
//! functions of plain data: the C interface reads its arguments into these
//! and writes their results back.
use vstd::prelude::*;

use crate::cjson::{
    compare_values, error_byte_offset, error_offset, has_utf8_bom, key_matches, keys_match, kind,
    lemma_nodes_view, member_key,
    node_height, node_items, node_members, node_to_value, node_value, nodes_height, nodes_view,
    pretty_node, print_cjson, strip_utf8_bom, values_equal, CText, CTextView, Node, NodeView,
    CJSON_ARRAY, CJSON_FALSE, CJSON_NULL, CJSON_NUMBER, CJSON_OBJECT, CJSON_STRING, CJSON_TRUE,
};
use crate::laws::parse_errors_point_into_input;
use crate::range::{digits_value, frac_digits, mantissa_digits};
use crate::tokeniser::{is_number_text, number_end, text_bytes};
use crate::parser::{default_nesting_limit, parse, parse_prefix, parse_prefix_spec, parse_spec};
use crate::serialiser::{height, items_height, members_height, render, serialise};
use crate::value::{
    items_view, lemma_items_view, lemma_members_view, members_view, Number, Value, ValueView,
};

verus! {

// ---------------------------------------------------------------------
// Parsing a caller's buffer.
// ---------------------------------------------------------------------

/// The length of a leading UTF-8 byte-order mark: 3 where there is one.
pub open spec fn bom_len(b: Seq<u8>) -> nat {
    if has_utf8_bom(b) {
        3
    } else {
        0
    }
}

/// What `cJSON_Parse`, `cJSON_ParseWithLength` and `cJSON_ParseWithOpts`
/// make of a buffer. A leading byte-order mark is skipped. With
/// `require_whole` the rest must be one JSON text; otherwise a value is read
/// from its start and what follows is ignored. On success: the value and
/// the offset just after what was read (the whole buffer when
/// `require_whole`). On failure: the offset the error points at, that of
/// `cJSON_GetErrorPtr`.
pub open spec fn parse_buffer_spec(b: Seq<u8>, require_whole: bool) -> Result<
    (ValueView, nat),
    nat,
> {
    let skip = bom_len(b);
    let body = b.subrange(skip as int, b.len() as int);
    if require_whole {
        match parse_spec(body, default_nesting_limit()) {
            Ok(v) => Ok((v, b.len())),
            Err(e) => Err(skip + error_offset(e, body.len())),
        }
    } else {
        match parse_prefix_spec(body) {
            Ok((v, end)) => Ok((v, skip + end)),
            Err(e) => Err(skip + error_offset(e, body.len())),
        }
    }
}

/// The result of [`parse_buffer`] as mathematical values.
pub open spec fn parse_buffer_view(r: Result<(Value, usize), usize>) -> Result<
    (ValueView, nat),
    nat,
> {
    match r {
        Ok((v, n)) => Ok((v@, n as nat)),
        Err(k) => Err(k as nat),
    }
}

/// Parse a caller's buffer as the cJSON parse functions do (see
/// [`parse_buffer_spec`]).
pub fn parse_buffer(bytes: &[u8], require_whole: bool) -> (r: Result<(Value, usize), usize>)
    requires
        bytes@.len() < usize::MAX,
    ensures
        parse_buffer_view(r) == parse_buffer_spec(bytes@, require_whole),
        r matches Ok((_, end)) ==> end <= bytes@.len(),
        r matches Err(offset) ==> offset <= bytes@.len(),
{
    let (body, skip) = strip_utf8_bom(bytes);
    proof {
        assert(body@ == bytes@.subrange(bom_len(bytes@) as int, bytes@.len() as int));
        parse_errors_point_into_input(body@, default_nesting_limit());
    }
    if require_whole {
        match parse(body) {
            Ok(v) => Ok((v, bytes.len())),
            Err(e) => Err(skip + error_byte_offset(&e, body.len())),
        }
    } else {
        match parse_prefix(body) {
            Ok((v, end)) => Ok((v, skip + end)),
            Err(e) => Err(skip + error_byte_offset(&e, body.len())),
        }
    }
}

// ---------------------------------------------------------------------
// Printing and comparing node trees.
// ---------------------------------------------------------------------

/// A value that a node tree denotes nests no deeper than the tree.
pub proof fn lemma_value_height(n: NodeView)
    requires
        node_value(n) is Some,
    ensures
        height(node_value(n)->Some_0) <= node_height(n),
    decreases n, 0nat,
{
    let k = crate::cjson::kind(n.type_);
    if k == CJSON_ARRAY {
        lemma_items_height(n.children);
    } else if k == CJSON_OBJECT {
        lemma_members_height(n.children);
    }
}

proof fn lemma_items_height(s: Seq<NodeView>)
    requires
        node_items(s) is Some,
    ensures
        items_height(node_items(s)->Some_0) <= nodes_height(s),
    decreases s, 1nat,
{
    if s.len() > 0 {
        lemma_value_height(s[0]);
        lemma_items_height(s.drop_first());
        let items = node_items(s)->Some_0;
        assert(items[0] == node_value(s[0])->Some_0);
        assert(items.drop_first() =~= node_items(s.drop_first())->Some_0);
    }
}

proof fn lemma_members_height(s: Seq<NodeView>)
    requires
        node_members(s) is Some,
    ensures
        members_height(node_members(s)->Some_0) <= nodes_height(s),
    decreases s, 1nat,
{
    if s.len() > 0 {
        lemma_value_height(s[0]);
        lemma_members_height(s.drop_first());
        let ms = node_members(s)->Some_0;
        assert(ms[0].1 == node_value(s[0])->Some_0);
        assert(ms.drop_first() =~= node_members(s.drop_first())->Some_0);
    }
}

/// The text `cJSON_Print` (`pretty`) or `cJSON_PrintUnformatted` writes for
/// a node tree: cJSON's pretty format of the tree, or the compact text of
/// the value it denotes; `None` where a compact text is asked of a tree
/// that denotes no value.
pub fn print_node(item: &Node, pretty: bool) -> (r: Option<String>)
    requires
        node_height(item@) < usize::MAX,
    ensures
        pretty ==> (r matches Some(s) && s@ == pretty_node(item@, 0)),
        !pretty ==> match node_value(item@) {
            Some(v) => (r matches Some(s) && s@ == render(v, None, 0)),
            None => r is None,
        },
{
    if pretty {
        Some(print_cjson(item))
    } else {
        match node_to_value(item) {
            Some(v) => {
                proof {
                    lemma_value_height(item@);
                }
                Some(serialise(&v))
            },
            None => None,
        }
    }
}

/// Whether two `double`s, given by their bits, are equal as `==` on `f64`
/// has it: neither is a NaN, and they have the same bits or both are zero
/// (of either sign).
pub open spec fn doubles_equal(x: u64, y: u64) -> bool {
    let nan_x = (x & 0x7FF0_0000_0000_0000u64) == 0x7FF0_0000_0000_0000u64 && (x
        & 0x000F_FFFF_FFFF_FFFFu64) != 0;
    let nan_y = (y & 0x7FF0_0000_0000_0000u64) == 0x7FF0_0000_0000_0000u64 && (y
        & 0x000F_FFFF_FFFF_FFFFu64) != 0;
    !nan_x && !nan_y && (x == y || ((x | y) & 0x7FFF_FFFF_FFFF_FFFFu64) == 0)
}

fn doubles_equal_bits(x: u64, y: u64) -> (r: bool)
    ensures
        r == doubles_equal(x, y),
{
    let nan_x = (x & 0x7FF0_0000_0000_0000u64) == 0x7FF0_0000_0000_0000u64 && (x
        & 0x000F_FFFF_FFFF_FFFFu64) != 0;
    let nan_y = (y & 0x7FF0_0000_0000_0000u64) == 0x7FF0_0000_0000_0000u64 && (y
        & 0x000F_FFFF_FFFF_FFFFu64) != 0;
    !nan_x && !nan_y && (x == y || ((x | y) & 0x7FFF_FFFF_FFFF_FFFFu64) == 0)
}

/// Whether two nodes match as `cJSON_Compare` compares the values they
/// denote: numbers by their `double`s (`==` on `f64`: a NaN equals nothing,
/// `0` equals `-0`), other scalars by their values, arrays item by item,
/// and objects of the same size where each member of `a` finds a member of
/// `b` with a matching key and a matching value.
pub open spec fn nodes_match(a: NodeView, b: NodeView, cs: bool) -> bool
    decreases a, 0nat,
{
    let ka = kind(a.type_);
    let kb = kind(b.type_);
    if ka == CJSON_NUMBER {
        kb == CJSON_NUMBER && doubles_equal(a.double_bits, b.double_bits)
    } else if ka == CJSON_ARRAY {
        kb == CJSON_ARRAY && a.children.len() == b.children.len() && items_match(
            a.children,
            b.children,
            cs,
        )
    } else if ka == CJSON_OBJECT {
        kb == CJSON_OBJECT && a.children.len() == b.children.len() && all_members_found(
            a.children,
            b.children,
            cs,
        )
    } else {
        match (node_value(a), node_value(b)) {
            (Some(x), Some(y)) => values_equal(x, y, cs),
            _ => false,
        }
    }
}

pub open spec fn items_match(x: Seq<NodeView>, y: Seq<NodeView>, cs: bool) -> bool
    decreases x, 0nat,
{
    if x.len() == 0 {
        true
    } else {
        y.len() > 0 && nodes_match(x[0], y[0], cs) && items_match(x.drop_first(), y.drop_first(), cs)
    }
}

/// Whether two member keys match (an absent key reads as empty, a key
/// that is not UTF-8 matches nothing).
pub open spec fn member_keys_match(a: CTextView, b: CTextView, cs: bool) -> bool {
    match (member_key(a), member_key(b)) {
        (Some(x), Some(y)) => keys_match(x, y, cs),
        _ => false,
    }
}

pub open spec fn all_members_found(x: Seq<NodeView>, y: Seq<NodeView>, cs: bool) -> bool
    decreases x, 0nat,
{
    if x.len() == 0 {
        true
    } else {
        member_found_in(x[0], y, cs) && all_members_found(x.drop_first(), y, cs)
    }
}

pub open spec fn member_found_in(m: NodeView, y: Seq<NodeView>, cs: bool) -> bool
    decreases m, y.len(),
{
    if y.len() == 0 {
        false
    } else {
        (member_keys_match(m.string, y[0].string, cs) && nodes_match(m, y[0], cs))
            || member_found_in(m, y.drop_first(), cs)
    }
}

/// Whether two node trees compare equal as `cJSON_Compare` has it: both
/// denote values, and they match (see [`nodes_match`]).
pub fn compare_nodes(a: &Node, b: &Node, case_sensitive: bool) -> (r: bool)
    ensures
        r == (node_value(a@) is Some && node_value(b@) is Some && nodes_match(
            a@,
            b@,
            case_sensitive,
        )),
{
    match (node_to_value(a), node_to_value(b)) {
        (Some(_), Some(_)) => match_nodes(a, b, case_sensitive),
        _ => false,
    }
}

fn text_as_key(t: &CText) -> (r: Option<&str>)
    ensures
        member_key(t@) matches Some(k) ==> (r matches Some(s) && s@ == k),
        member_key(t@) is None ==> r is None,
{
    match t {
        CText::Null => {
            proof {
                reveal_strlit("");
            }
            Some("")
        },
        CText::NotUtf8 => None,
        CText::Text(s) => Some(s.as_str()),
    }
}

fn member_keys_match_exec(a: &CText, b: &CText, cs: bool) -> (r: bool)
    ensures
        r == member_keys_match(a@, b@, cs),
{
    match (text_as_key(a), text_as_key(b)) {
        (Some(x), Some(y)) => key_matches(x, y, cs),
        _ => false,
    }
}

fn match_nodes(a: &Node, b: &Node, cs: bool) -> (r: bool)
    ensures
        r == nodes_match(a@, b@, cs),
    decreases a@, 0nat,
{
    let ka = kind_of_type(a.type_);
    let kb = kind_of_type(b.type_);
    if ka == CJSON_NUMBER {
        kb == CJSON_NUMBER && doubles_equal_bits(a.double_bits, b.double_bits)
    } else if ka == CJSON_ARRAY {
        let ghost xs = a@.children;
        let ghost ys = b@.children;
        proof {
            lemma_nodes_view(a.children@);
            lemma_nodes_view(b.children@);
        }
        if kb != CJSON_ARRAY || a.children.len() != b.children.len() {
            return false;
        }
        proof {
            assert(xs.subrange(0, xs.len() as int) =~= xs);
            assert(ys.subrange(0, ys.len() as int) =~= ys);
        }
        let n = a.children.len();
        for i in 0..n
            invariant
                kind(a@.type_) == CJSON_ARRAY,
                kind(b@.type_) == CJSON_ARRAY,
                n == a.children@.len(),
                n == b.children@.len(),
                xs == a@.children,
                ys == b@.children,
                xs == nodes_view(a.children@),
                ys == nodes_view(b.children@),
                xs.len() == n,
                ys.len() == n,
                forall|k: int| 0 <= k < n ==> #[trigger] xs[k] == a.children@[k]@,
                forall|k: int| 0 <= k < n ==> #[trigger] ys[k] == b.children@[k]@,
                items_match(xs, ys, cs) == items_match(
                    xs.subrange(i as int, n as int),
                    ys.subrange(i as int, n as int),
                    cs,
                ),
        {
            proof {
                assert(xs.subrange(i as int, n as int).drop_first() =~= xs.subrange(
                    i + 1,
                    n as int,
                ));
                assert(ys.subrange(i as int, n as int).drop_first() =~= ys.subrange(
                    i + 1,
                    n as int,
                ));
                assert(xs[i as int] == a.children@[i as int]@);
                assert(ys[i as int] == b.children@[i as int]@);
                assert(decreases_to!(a@ => a@.children));
                assert(decreases_to!(xs => xs[i as int]));
            }
            if !match_nodes(&a.children[i], &b.children[i], cs) {
                proof {
                    assert(xs.subrange(i as int, n as int)[0] == xs[i as int]);
                    assert(ys.subrange(i as int, n as int)[0] == ys[i as int]);
                }
                return false;
            }
        }
        true
    } else if ka == CJSON_OBJECT {
        let ghost xs = a@.children;
        proof {
            lemma_nodes_view(a.children@);
            lemma_nodes_view(b.children@);
        }
        if kb != CJSON_OBJECT || a.children.len() != b.children.len() {
            return false;
        }
        proof {
            assert(xs.subrange(0, xs.len() as int) =~= xs);
        }
        let n = a.children.len();
        for i in 0..n
            invariant
                kind(a@.type_) == CJSON_OBJECT,
                kind(b@.type_) == CJSON_OBJECT,
                n == b@.children.len(),
                n == a.children@.len(),
                xs == a@.children,
                xs == nodes_view(a.children@),
                xs.len() == n,
                forall|k: int| 0 <= k < n ==> #[trigger] xs[k] == a.children@[k]@,
                all_members_found(xs, b@.children, cs) == all_members_found(
                    xs.subrange(i as int, n as int),
                    b@.children,
                    cs,
                ),
        {
            proof {
                assert(xs.subrange(i as int, n as int).drop_first() =~= xs.subrange(
                    i + 1,
                    n as int,
                ));
                assert(xs[i as int] == a.children@[i as int]@);
                assert(decreases_to!(a@ => a@.children));
                assert(decreases_to!(xs => xs[i as int]));
            }
            if !find_matching_member(&a.children[i], b, cs) {
                proof {
                    assert(xs.subrange(i as int, n as int)[0] == xs[i as int]);
                }
                return false;
            }
        }
        true
    } else {
        match (node_to_value(a), node_to_value(b)) {
            (Some(x), Some(y)) => compare_values(&x, &y, cs),
            _ => false,
        }
    }
}

/// Whether `b` has a child whose key and value match `m`'s.
fn find_matching_member(m: &Node, b: &Node, cs: bool) -> (r: bool)
    ensures
        r == member_found_in(m@, b@.children, cs),
    decreases m@, 1nat,
{
    let ghost ys = b@.children;
    proof {
        lemma_nodes_view(b.children@);
        assert(ys.subrange(0, ys.len() as int) =~= ys);
    }
    let n = b.children.len();
    for j in 0..n
        invariant
            n == b.children@.len(),
            ys == b@.children,
            ys == nodes_view(b.children@),
            ys.len() == n,
            forall|k: int| 0 <= k < n ==> #[trigger] ys[k] == b.children@[k]@,
            member_found_in(m@, ys, cs) == member_found_in(
                m@,
                ys.subrange(j as int, n as int),
                cs,
            ),
    {
        proof {
            assert(ys.subrange(j as int, n as int).drop_first() =~= ys.subrange(j + 1, n as int));
            assert(ys[j as int] == b.children@[j as int]@);
        }
        let c = &b.children[j];
        if member_keys_match_exec(&m.string, &c.string, cs) && match_nodes(m, c, cs) {
            return true;
        }
    }
    proof {
        assert(ys.subrange(n as int, n as int) =~= Seq::<NodeView>::empty());
    }
    false
}

fn kind_of_type(t: i32) -> (r: i32)
    ensures
        r == kind(t),
{
    t & 0xFF
}

// ---------------------------------------------------------------------
// The node tree that a parse builds.
// ---------------------------------------------------------------------

/// A node of type `t` with nothing else set: no texts, no children, the
/// number zero.
pub open spec fn bare_node(t: i32) -> NodeView {
    NodeView {
        type_: t,
        valuestring: CTextView::Null,
        valueint: 0,
        double_bits: 0,
        number: Some(seq!['0']),
        string: CTextView::Null,
        children: Seq::empty(),
    }
}

/// The node tree that the cJSON parse functions build for a value: the
/// type tag of its kind; a number in the number field; a string in
/// `valuestring`; the items of an array, and the members of an object with
/// their keys in `string`, as children in order. The `double` of a number
/// and `valueint` are left at zero: the C interface derives them from the
/// number.
pub open spec fn value_node(v: ValueView) -> NodeView
    decreases v, 0nat,
{
    match v {
        ValueView::Null => bare_node(CJSON_NULL),
        ValueView::Bool(b) => bare_node(if b { CJSON_TRUE } else { CJSON_FALSE }),
        ValueView::Number(x) => NodeView { number: x, ..bare_node(CJSON_NUMBER) },
        ValueView::String(s) => NodeView {
            valuestring: CTextView::Text(s),
            ..bare_node(CJSON_STRING)
        },
        ValueView::Array(items) => NodeView {
            children: item_nodes(items),
            ..bare_node(CJSON_ARRAY)
        },
        ValueView::Object(ms) => NodeView {
            children: member_nodes(ms),
            ..bare_node(CJSON_OBJECT)
        },
    }
}

pub open spec fn item_nodes(s: Seq<ValueView>) -> Seq<NodeView>
    decreases s, 1nat,
{
    if s.len() == 0 {
        Seq::empty()
    } else {
        seq![value_node(s[0])] + item_nodes(s.drop_first())
    }
}

pub open spec fn member_nodes(s: Seq<(Seq<char>, ValueView)>) -> Seq<NodeView>
    decreases s, 1nat,
{
    if s.len() == 0 {
        Seq::empty()
    } else {
        seq![NodeView { string: CTextView::Text(s[0].0), ..value_node(s[0].1) }] + member_nodes(
            s.drop_first(),
        )
    }
}

proof fn lemma_item_nodes(s: Seq<ValueView>)
    ensures
        item_nodes(s).len() == s.len(),
        forall|i: int| 0 <= i < s.len() ==> #[trigger] item_nodes(s)[i] == value_node(s[i]),
    decreases s.len(),
{
    if s.len() > 0 {
        lemma_item_nodes(s.drop_first());
    }
}

proof fn lemma_member_nodes(s: Seq<(Seq<char>, ValueView)>)
    ensures
        member_nodes(s).len() == s.len(),
        forall|i: int|
            0 <= i < s.len() ==> #[trigger] member_nodes(s)[i] == (NodeView {
                string: CTextView::Text(s[i].0),
                ..value_node(s[i].1)
            }),
    decreases s.len(),
{
    if s.len() > 0 {
        lemma_member_nodes(s.drop_first());
    }
}

/// `0` is the text of a JSON number.
proof fn lemma_zero_text()
    ensures
        is_number_text(seq!['0']),
{
    let t = seq!['0'];
    let b = text_bytes(t);
    assert(b =~= seq![0x30u8]);
    assert(number_end(b, 0) == Some(1nat));
    assert(mantissa_digits(b, 0) =~= seq![0x30u8]);
    assert(digits_value(seq![0x30u8]) == 0) by {
        let d = seq![0x30u8];
        assert(d.last() == 0x30);
        assert(d.drop_last() =~= Seq::<u8>::empty());
        assert(digits_value(Seq::<u8>::empty()) == 0);
    }
    assert(frac_digits(b, 0) =~= Seq::<u8>::empty());
    crate::range::lemma_limit_digits();
    crate::range::lemma_pow10_positive(308);
    assert(0 * crate::range::pow10(0) == 0);
}

fn bare(t: i32) -> (r: Node)
    ensures
        r@ == bare_node(t),
{
    proof {
        reveal_strlit("0");
        lemma_zero_text();
    }
    let zero_text = "0".to_owned();
    proof {
        assert(zero_text@ =~= seq!['0']);
    }
    let zero = Number::from_lexeme(zero_text);
    let r = Node {
        type_: t,
        valuestring: CText::Null,
        valueint: 0,
        double_bits: 0,
        number: zero,
        string: CText::Null,
        children: Vec::new(),
    };
    proof {
        assert(nodes_view(r.children@) =~= Seq::<NodeView>::empty());
        assert(r@.number =~= Some(seq!['0']));
    }
    r
}

/// The node tree that the cJSON parse functions build for a value (see
/// [`value_node`]).
pub fn value_to_node(v: &Value) -> (r: Node)
    ensures
        r@ == value_node(v@),
    decreases v@,
{
    match v {
        Value::Null => bare(CJSON_NULL),
        Value::Bool(b) => bare(if *b { CJSON_TRUE } else { CJSON_FALSE }),
        Value::Number(x) => {
            let mut n = bare(CJSON_NUMBER);
            n.number = x.clone();
            n
        },
        Value::String(s) => {
            let mut n = bare(CJSON_STRING);
            n.valuestring = CText::Text(s.clone());
            n
        },
        Value::Array(items) => {
            let ghost xs = items_view(items@);
            let mut children: Vec<Node> = Vec::new();
            proof {
                lemma_items_view(items@);
            }
            let mut i: usize = 0;
            while i < items.len()
                invariant
                    i <= items@.len(),
                    v@ == ValueView::Array(xs),
                    xs == items_view(items@),
                    xs.len() == items@.len(),
                    forall|j: int| 0 <= j < xs.len() ==> #[trigger] xs[j] == items@[j]@,
                    children@.len() == i,
                    forall|j: int| 0 <= j < i ==> #[trigger] children@[j]@ == value_node(xs[j]),
                decreases items@.len() - i,
            {
                proof {
                    assert(xs[i as int] == items@[i as int]@);
                    assert(decreases_to!(v@ => v@->Array_0));
                    assert(decreases_to!(xs => xs[i as int]));
                }
                let c = value_to_node(&items[i]);
                children.push(c);
                i = i + 1;
            }
            proof {
                lemma_nodes_view(children@);
                lemma_item_nodes(xs);
                assert forall|j: int| 0 <= j < xs.len() implies nodes_view(children@)[j]
                    == item_nodes(xs)[j] by {
                    assert(children@[j]@ == value_node(xs[j]));
                }
                assert(nodes_view(children@) =~= item_nodes(xs));
            }
            let mut n = bare(CJSON_ARRAY);
            n.children = children;
            n
        },
        Value::Object(members) => {
            let ghost ms = members_view(members@);
            let mut children: Vec<Node> = Vec::new();
            proof {
                lemma_members_view(members@);
            }
            let mut i: usize = 0;
            while i < members.len()
                invariant
                    i <= members@.len(),
                    v@ == ValueView::Object(ms),
                    ms == members_view(members@),
                    ms.len() == members@.len(),
                    forall|j: int|
                        0 <= j < ms.len() ==> #[trigger] ms[j] == (members@[j].0@, members@[j].1@),
                    children@.len() == i,
                    forall|j: int|
                        0 <= j < i ==> #[trigger] children@[j]@ == (NodeView {
                            string: CTextView::Text(ms[j].0),
                            ..value_node(ms[j].1)
                        }),
                decreases members@.len() - i,
            {
                proof {
                    assert(ms[i as int] == (members@[i as int].0@, members@[i as int].1@));
                    assert(decreases_to!(v@ => v@->Object_0));
                    assert(decreases_to!(ms => ms[i as int]));
                    assert(decreases_to!(ms[i as int] => ms[i as int].1));
                }
                let mut c = value_to_node(&members[i].1);
                c.string = CText::Text(members[i].0.clone());
                children.push(c);
                i = i + 1;
            }
            proof {
                lemma_nodes_view(children@);
                lemma_member_nodes(ms);
                assert forall|j: int| 0 <= j < ms.len() implies nodes_view(children@)[j]
                    == member_nodes(ms)[j] by {
                    assert(children@[j]@ == (NodeView {
                        string: CTextView::Text(ms[j].0),
                        ..value_node(ms[j].1)
                    }));
                }
                assert(nodes_view(children@) =~= member_nodes(ms));
            }
            let mut n = bare(CJSON_OBJECT);
            n.children = children;
            n
        },
    }
}

/// What a node denotes does not depend on its key.
proof fn lemma_key_ignored(n: NodeView, k: CTextView)
    ensures
        node_value(NodeView { string: k, ..n }) == node_value(n),
{
    let m = NodeView { string: k, ..n };
    assert(m.children == n.children);
    assert(m.type_ == n.type_);
}

proof fn lemma_kinds()
    ensures
        kind(CJSON_NULL) == CJSON_NULL,
        kind(CJSON_TRUE) == CJSON_TRUE,
        kind(CJSON_FALSE) == CJSON_FALSE,
        kind(CJSON_NUMBER) == CJSON_NUMBER,
        kind(CJSON_STRING) == CJSON_STRING,
        kind(CJSON_ARRAY) == CJSON_ARRAY,
        kind(CJSON_OBJECT) == CJSON_OBJECT,
{
    assert(4i32 & 0xFF == 4i32) by (bit_vector);
    assert(2i32 & 0xFF == 2i32) by (bit_vector);
    assert(1i32 & 0xFF == 1i32) by (bit_vector);
    assert(8i32 & 0xFF == 8i32) by (bit_vector);
    assert(16i32 & 0xFF == 16i32) by (bit_vector);
    assert(32i32 & 0xFF == 32i32) by (bit_vector);
    assert(64i32 & 0xFF == 64i32) by (bit_vector);
}

/// The node tree built for a value denotes that value.
pub(crate) proof fn lemma_value_node(v: ValueView)
    ensures
        node_value(value_node(v)) == Some(v),
    decreases v, 0nat,
{
    lemma_kinds();
    match v {
        ValueView::Array(items) => lemma_item_nodes_denote(items),
        ValueView::Object(ms) => lemma_member_nodes_denote(ms),
        _ => {},
    }
}

proof fn lemma_item_nodes_denote(s: Seq<ValueView>)
    ensures
        node_items(item_nodes(s)) == Some(s),
    decreases s, 1nat,
{
    if s.len() > 0 {
        lemma_value_node(s[0]);
        lemma_item_nodes_denote(s.drop_first());
        let ns = item_nodes(s);
        assert(ns[0] == value_node(s[0]));
        assert(ns.drop_first() =~= item_nodes(s.drop_first()));
        assert(seq![s[0]] + s.drop_first() =~= s);
    } else {
        assert(s =~= Seq::<ValueView>::empty());
    }
}

proof fn lemma_member_nodes_denote(s: Seq<(Seq<char>, ValueView)>)
    ensures
        node_members(member_nodes(s)) == Some(s),
    decreases s, 1nat,
{
    if s.len() > 0 {
        lemma_value_node(s[0].1);
        lemma_member_nodes_denote(s.drop_first());
        let ns = member_nodes(s);
        lemma_key_ignored(value_node(s[0].1), CTextView::Text(s[0].0));
        assert(ns[0] == NodeView { string: CTextView::Text(s[0].0), ..value_node(s[0].1) });
        assert(ns.drop_first() =~= member_nodes(s.drop_first()));
        assert(seq![(s[0].0, s[0].1)] + s.drop_first() =~= s);
    } else {
        assert(s =~= Seq::<(Seq<char>, ValueView)>::empty());
    }
}

// ---------------------------------------------------------------------
// Positions in a list of children.
// ---------------------------------------------------------------------

/// The child that `cJSON_GetArrayItem`, `cJSON_DetachItemFromArray` and
/// `cJSON_ReplaceItemInArray` address in a list of `count` children: index
/// `which` where it is one; none for a negative index or one past the end.
pub fn item_index(count: usize, which: i32) -> (r: Option<usize>)
    ensures
        r == if 0 <= which < count {
            Some(which as usize)
        } else {
            None::<usize>
        },
{
    if which < 0 {
        None
    } else {
        let w = which as u32 as usize;
        if w < count {
            Some(w)
        } else {
            None
        }
    }
}

/// Where `cJSON_InsertItemInArray` puts a new child in a list of `count`
/// children: before index `which`, or at the end where `which` is past it;
/// nowhere for a negative index.
pub fn insert_index(count: usize, which: i32) -> (r: Option<usize>)
    ensures
        which < 0 ==> r is None,
        0 <= which < count ==> r == Some(which as usize),
        which >= 0 && which >= count ==> r == Some(count),
{
    if which < 0 {
        None
    } else {
        let w = which as u32 as usize;
        if w < count {
            Some(w)
        } else {
            Some(count)
        }
    }
}

} // verus!
