//! The scenarios of the C interface whose decisions the library makes,
//! run on the plain data that the interface hands it: a buffer to parse,
//! the node tree built from it, the text printed for a tree.

use cjson_rs::capi::{insert_index, item_index, parse_buffer, print_node, value_to_node};
use cjson_rs::cjson::{
    duplicate, find_member, fits_in_buffer, minify, CText, Node, CJSON_ARRAY, CJSON_NUMBER,
    CJSON_OBJECT, CJSON_TRUE,
};

/// The tree `cJSON_Parse` builds for a NUL-free text.
fn parse_tree(text: &[u8]) -> Option<Node> {
    parse_buffer(text, true).ok().map(|(v, _)| value_to_node(&v))
}

/// The keys of a node's children, as `cJSON_GetObjectItem` reads them.
fn child_keys(n: &Node) -> Vec<CText> {
    n.children
        .iter()
        .map(|c| match &c.string {
            CText::Null => CText::Null,
            CText::NotUtf8 => CText::NotUtf8,
            CText::Text(s) => CText::Text(s.clone()),
        })
        .collect()
}

/// The child under `key`, as `cJSON_GetObjectItem` (case-insensitive) or
/// `cJSON_GetObjectItemCaseSensitive` finds it.
fn object_item<'a>(n: &'a Node, key: &str, case_sensitive: bool) -> Option<&'a Node> {
    find_member(&child_keys(n), key, case_sensitive).map(|i| &n.children[i])
}

fn number_value(n: &Node) -> f64 {
    n.number.text().unwrap().parse::<f64>().unwrap()
}

#[test]
fn parse_invalid_json_returns_null() {
    assert!(parse_tree(b"{not json").is_none());
}

#[test]
fn parse_simple_object_produces_correct_tree() {
    let root = parse_tree(br#"{"a":1,"b":true}"#).unwrap();
    assert_eq!(root.type_, CJSON_OBJECT);
    let a = object_item(&root, "a", true).unwrap();
    assert_eq!(a.type_, CJSON_NUMBER);
    assert_eq!(number_value(a), 1.0);
    let b = object_item(&root, "b", true).unwrap();
    assert_eq!(b.type_, CJSON_TRUE);
}

#[test]
fn get_object_item_case_insensitive_vs_case_sensitive() {
    let root = parse_tree(br#"{"Name":"alice"}"#).unwrap();
    assert!(object_item(&root, "name", false).is_some());
    assert!(object_item(&root, "name", true).is_none());
    assert!(object_item(&root, "Name", false).is_some());
    assert!(object_item(&root, "Name", true).is_some());
}

#[test]
fn print_round_trips_through_parse() {
    let tree1 = parse_tree(br#"{"x":[1,2,{"y":true}]}"#).unwrap();
    let printed = print_node(&tree1, false).unwrap();
    let tree2 = parse_tree(printed.as_bytes()).unwrap();
    let printed2 = print_node(&tree2, false).unwrap();
    assert_eq!(printed, printed2);
}

#[test]
fn print_pretty_produces_indented_output() {
    let root = parse_tree(br#"{"a":1}"#).unwrap();
    assert_eq!(print_node(&root, true).unwrap(), "{\n\t\"a\":\t1\n}");
}

#[test]
fn parse_with_length_does_not_require_nul() {
    let buf: &[u8] = b"[1,2,3]extra-garbage-after-len";
    let root = parse_tree(&buf[..7]).unwrap();
    assert_eq!(root.children.len(), 3);
}

#[test]
fn deeply_nested_input_is_rejected_safely() {
    let mut s = String::new();
    for _ in 0..2000 {
        s.push('[');
    }
    s.push('1');
    for _ in 0..2000 {
        s.push(']');
    }
    assert!(parse_tree(s.as_bytes()).is_none());
}

#[test]
fn duplicate_shallow_skips_children() {
    let src = parse_tree(b"[1,2,3]").unwrap();
    let copy = duplicate(&src, false);
    assert_eq!(copy.type_, CJSON_ARRAY);
    assert_eq!(copy.children.len(), 0);
}

#[test]
fn minify_strips_whitespace_in_place() {
    let out = minify(b"  {\n  \"a\" : 1 ,\n  \"b\" : 2\n}  ");
    assert_eq!(out, br#"{"a":1,"b":2}"#.to_vec());
}

fn parse_simple_obj() -> Node {
    parse_tree(br#"{"a":1,"b":true}"#).unwrap()
}

#[test]
fn print_preallocated_compact_fills_caller_buffer() {
    let root = parse_simple_obj();
    let s = print_node(&root, false).unwrap();
    assert!(fits_in_buffer(s.len(), 64));
    assert_eq!(s, r#"{"a":1,"b":true}"#);
}

#[test]
fn print_preallocated_pretty_matches_print() {
    let root = parse_simple_obj();
    let s = print_node(&root, true).unwrap();
    assert!(fits_in_buffer(s.len(), 256));
    assert_eq!(s, "{\n\t\"a\":\t1,\n\t\"b\":\ttrue\n}");
}

#[test]
fn print_preallocated_zero_length_returns_false() {
    let root = parse_simple_obj();
    let s = print_node(&root, false).unwrap();
    assert!(!fits_in_buffer(s.len(), 0));
}

#[test]
fn print_preallocated_negative_length_returns_false() {
    let root = parse_simple_obj();
    let s = print_node(&root, false).unwrap();
    assert!(!fits_in_buffer(s.len(), -1));
}

#[test]
fn print_preallocated_exact_size_buffer_succeeds() {
    let root = parse_simple_obj();
    let s = print_node(&root, false).unwrap();
    assert_eq!(s.len(), 16);
    assert!(fits_in_buffer(s.len(), 17));
    assert!(!fits_in_buffer(s.len(), 16));
    assert_eq!(s, r#"{"a":1,"b":true}"#);
}

#[test]
fn parse_with_opts_lax_accepts_prefix_with_trailing_garbage() {
    let (v, end) = parse_buffer(b"[] empty array XD", false).unwrap();
    assert_eq!(value_to_node(&v).type_, CJSON_ARRAY);
    assert_eq!(end, 2);
}

#[test]
fn parse_with_opts_lax_consumes_whole_input_when_clean() {
    let (_, end) = parse_buffer(br#"{"a":1}"#, false).unwrap();
    assert_eq!(end, 7);
}

#[test]
fn parse_with_opts_strict_rejects_trailing_garbage() {
    assert!(parse_buffer(b"{}x", true).is_err());
}

#[test]
fn parse_with_opts_strict_accepts_trailing_whitespace() {
    assert!(parse_buffer(b"{} \t\r\n", true).is_ok());
}

#[test]
fn parse_with_opts_lax_incomplete_value_still_errors() {
    assert!(parse_buffer(b"[1, 2", false).is_err());
}

#[test]
fn array_positions_follow_cjson() {
    // Items of a four-element array: indices 0..3 address, others do not.
    assert_eq!(item_index(4, 0), Some(0));
    assert_eq!(item_index(4, 3), Some(3));
    assert_eq!(item_index(4, 4), None);
    assert_eq!(item_index(4, -1), None);
    // Insertion: before an existing item, past the end appends, negative refused.
    assert_eq!(insert_index(3, 1), Some(1));
    assert_eq!(insert_index(3, 3), Some(3));
    assert_eq!(insert_index(3, 10), Some(3));
    assert_eq!(insert_index(3, -2), None);
}

#[test]
fn insert_item_in_array_shifts_following() {
    // `[10,30]` with a new item inserted at index 1: it goes before 30.
    let arr = parse_tree(b"[10,30]").unwrap();
    assert_eq!(insert_index(arr.children.len(), 1), Some(1));
    let mut items: Vec<f64> = arr.children.iter().map(number_value).collect();
    items.insert(insert_index(arr.children.len(), 1).unwrap(), 20.0);
    assert_eq!(items.len(), 3);
    assert_eq!(items, vec![10.0, 20.0, 30.0]);
}
