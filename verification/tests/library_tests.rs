//! Tests of the library as a whole: its laws on concrete values, each error
//! it reports, and the logic behind the cJSON interface.

use cjson_rs::capi::{compare_nodes, parse_buffer, print_node, value_to_node};
use cjson_rs::cjson::{
    compare_values, duplicate, error_byte_offset, find_member, fits_in_buffer, key_matches, minify,
    node_to_value, print_cjson, strip_utf8_bom, CText, Node, CJSON_ARRAY, CJSON_FALSE,
    CJSON_IS_REFERENCE, CJSON_NUMBER, CJSON_OBJECT, CJSON_RAW, CJSON_STRING, CJSON_TRUE,
};
use cjson_rs::{
    parse, parse_prefix, parse_with_options, serialise, serialise_pretty, Error, Number,
    ParserOptions, Position, Token, Tokeniser, Value,
};

fn n(text: &str) -> Value {
    Value::Number(Number::from_text(text).unwrap())
}

fn s(text: &str) -> Value {
    Value::String(text.to_string())
}

fn sample() -> Value {
    Value::Object(vec![
        ("name".to_string(), s("alice \"A\"\n\t\u{1}é日本")),
        ("age".to_string(), n("30")),
        (
            "tags".to_string(),
            Value::Array(vec![s("admin"), Value::Null, Value::Bool(false), n("-1.5e-3")]),
        ),
        ("empty".to_string(), Value::Object(vec![])),
        ("none".to_string(), Value::Array(vec![])),
    ])
}

fn leaf(type_: i32) -> Node {
    Node {
        type_,
        valuestring: CText::Null,
        valueint: 0,
        double_bits: 0,
        number: Number::from_text("0").unwrap(),
        string: CText::Null,
        children: vec![],
    }
}

fn member(key: &str, mut node: Node) -> Node {
    node.string = CText::Text(key.to_string());
    node
}

fn number_node(text: &str) -> Node {
    let mut node = leaf(CJSON_NUMBER);
    node.number = Number::from_text(text).unwrap();
    node
}

fn string_node(text: &str) -> Node {
    let mut node = leaf(CJSON_STRING);
    node.valuestring = CText::Text(text.to_string());
    node
}

// ===== Laws, on concrete values =====

#[test]
fn law_parse_inverts_compact_serialise() {
    let v = sample();
    let text = serialise(&v);
    assert_eq!(parse(text.as_bytes()).unwrap(), v);
}

#[test]
fn law_parse_inverts_pretty_serialise() {
    let v = sample();
    let text = serialise_pretty(&v);
    assert_eq!(parse(text.as_bytes()).unwrap(), v);
}

#[test]
fn law_compare_is_reflexive() {
    let v = sample();
    assert!(compare_values(&v, &v, true));
    assert!(compare_values(&v, &v, false));
}

#[test]
fn law_duplicate_keeps_value() {
    let mut root = leaf(CJSON_OBJECT);
    root.children = vec![
        member("a", number_node("1")),
        member("b", string_node("x")),
    ];
    root.type_ |= CJSON_IS_REFERENCE;
    let copy = duplicate(&root, true);
    let source = node_to_value(&root).unwrap();
    let copied = node_to_value(&copy).unwrap();
    assert_eq!(copied, source);
    assert!(compare_values(&copied, &source, true));
    assert_eq!(copy.type_, CJSON_OBJECT);
}

#[test]
fn law_errors_point_into_the_input() {
    for input in [&b"[1,"[..], b"{\"a\" 1}", b"\"abc", b"", b"  ", b"[1 2]", b"tru"] {
        let e = parse(input).unwrap_err();
        assert!(e.position().offset <= input.len(), "{e:?} for {input:?}");
    }
    let (_, end) = parse_prefix(b"[1, 2] trailing").unwrap();
    assert_eq!(end, 6);
}

#[test]
fn law_minify_compacts_serialised() {
    let v = sample();
    let compact = serialise(&v).into_bytes();
    assert_eq!(minify(serialise_pretty(&v).as_bytes()), compact);
    assert_eq!(minify(&compact), compact);
}

#[test]
fn law_parse_prefix_reads_the_prefix() {
    let input = b"  {\"a\": [1, 2.5e1]}  , trailing";
    let (v, end) = parse_prefix(input).unwrap();
    assert_eq!(end, 19);
    assert_eq!(parse(&input[..end]).unwrap(), v);
}

#[test]
fn law_parse_prefix_agrees_with_parse() {
    let input = b" [true, \"x\"] \n\t";
    let v = parse(input).unwrap();
    let (w, end) = parse_prefix(input).unwrap();
    assert_eq!(w, v);
    assert_eq!(end, 12);
    assert!(input[end..].iter().all(|b| b.is_ascii_whitespace()));
}

#[test]
fn law_compare_ignores_member_order() {
    let a = Value::Object(vec![("x".into(), n("1")), ("y".into(), s("2")), ("z".into(), Value::Null)]);
    let b = Value::Object(vec![("z".into(), Value::Null), ("x".into(), n("1")), ("y".into(), s("2"))]);
    assert!(compare_values(&a, &b, true));
}

// ===== Each error, on an input that gives it =====

#[test]
fn error_unexpected_char() {
    assert_eq!(
        parse(b"@").unwrap_err(),
        Error::UnexpectedChar { ch: '@', pos: Position { line: 1, column: 1, offset: 0 } }
    );
}

#[test]
fn error_unexpected_eof_on_empty_input() {
    assert_eq!(
        parse(b"").unwrap_err(),
        Error::UnexpectedEof { pos: Position { line: 1, column: 1, offset: 0 } }
    );
}

#[test]
fn error_invalid_escape() {
    assert!(matches!(parse(b"\"\\x\"").unwrap_err(), Error::InvalidEscape { .. }));
}

#[test]
fn error_invalid_unicode_escape() {
    assert!(matches!(parse(b"\"\\u12G4\"").unwrap_err(), Error::InvalidUnicodeEscape { .. }));
}

#[test]
fn error_invalid_surrogate_pair() {
    assert!(matches!(parse(b"\"\\uD800\"").unwrap_err(), Error::InvalidSurrogatePair { .. }));
    assert!(matches!(parse(b"\"\\uDC00\"").unwrap_err(), Error::InvalidSurrogatePair { .. }));
    assert!(matches!(
        parse(b"\"\\uD800\\u0041\"").unwrap_err(),
        Error::InvalidSurrogatePair { .. }
    ));
}

#[test]
fn error_invalid_number() {
    for input in [&b"-"[..], b"1.", b"1e", b"-x", b"1.e5"] {
        assert!(matches!(parse(input).unwrap_err(), Error::InvalidNumber { .. }), "{input:?}");
    }
}

#[test]
fn error_number_out_of_range() {
    assert_eq!(
        parse(b"[1e400]").unwrap_err(),
        Error::NumberOutOfRange { pos: Position { line: 1, column: 2, offset: 1 } }
    );
    assert!(matches!(parse(b"-1e309").unwrap_err(), Error::NumberOutOfRange { .. }));
    assert!(matches!(
        parse(b"1.79769313486231580793728971405304e308").unwrap_err(),
        Error::NumberOutOfRange { .. }
    ));
}

#[test]
fn numbers_just_below_the_double_limit_are_accepted() {
    assert!(parse(b"1.797693134862315807937289714053e308").is_ok());
    assert!(parse(b"1.7976931348623158e308").is_ok());
    assert!(parse(b"0e99999999999999999999999").is_ok());
    assert!(parse(b"1e-99999999999999999999999").is_ok());
    let limit = "179769313486231580793728971405303415079934132710037826936173778980444968292764750946649017977587207096330286416692887910946555547851940402630657488671505820681908902000708383676273854845817711531764475730270069855571366959622842914819860834936475292719074168444365510704342711559699508093042880177904174497792";
    assert!(matches!(parse(limit.as_bytes()).unwrap_err(), Error::NumberOutOfRange { .. }));
    let below = format!("{}1.999", &limit[..limit.len() - 1]);
    assert!(parse(below.as_bytes()).is_ok());
    let scaled = format!("0.{limit}e309");
    assert!(matches!(parse(scaled.as_bytes()).unwrap_err(), Error::NumberOutOfRange { .. }));
}

#[test]
fn error_invalid_literal() {
    assert_eq!(
        parse(b" nul").unwrap_err(),
        Error::InvalidLiteral { pos: Position { line: 1, column: 2, offset: 1 } }
    );
}

#[test]
fn error_nesting_limit_exceeded() {
    let opts = ParserOptions { nesting_limit: 2 };
    assert!(parse_with_options(b"[[1]]", &opts).is_ok());
    assert_eq!(
        parse_with_options(b"[[[1]]]", &opts).unwrap_err(),
        Error::NestingLimitExceeded { pos: Position { line: 1, column: 3, offset: 2 } }
    );
}

#[test]
fn error_invalid_utf8() {
    assert!(matches!(parse(b"\"\xff\"").unwrap_err(), Error::InvalidUtf8 { .. }));
    assert!(matches!(parse(b"\"\xc0\x80\"").unwrap_err(), Error::InvalidUtf8 { .. }));
    assert!(matches!(parse(b"\"\xed\xa0\x80\"").unwrap_err(), Error::InvalidUtf8 { .. }));
}

#[test]
fn error_trailing_data() {
    assert_eq!(
        parse(b"1\n 2").unwrap_err(),
        Error::TrailingData { pos: Position { line: 2, column: 2, offset: 3 } }
    );
}

#[test]
fn error_unexpected_token() {
    assert!(matches!(parse(b"]").unwrap_err(), Error::UnexpectedToken { .. }));
    assert!(matches!(parse(b"{1:2}").unwrap_err(), Error::UnexpectedToken { .. }));
}

// ===== Numbers and strings =====

#[test]
fn number_from_text_accepts_json_numbers_only() {
    for ok in ["0", "-0", "1.5", "-12.25e+10", "3E-2", "1e-400", "1.7976931348623157e308"] {
        assert_eq!(Number::from_text(ok).unwrap().text().unwrap(), ok);
    }
    for bad in ["", "01", "+1", ".5", "1.", "1e", "0x1", "1 ", "١", "1e400", "-2e308"] {
        assert!(Number::from_text(bad).is_none(), "{bad:?}");
    }
}

#[test]
fn non_finite_number_serialises_as_null() {
    let v = Value::Array(vec![Value::Number(Number::non_finite())]);
    assert_eq!(serialise(&v), "[null]");
    assert!(!Number::non_finite().is_finite());
}

#[test]
fn unicode_escapes_decode_to_characters() {
    assert_eq!(parse(b"\"\\u00e9\\uD83D\\uDE00\"").unwrap(), s("é😀"));
    assert_eq!(parse(b"\"\\u0000\"").unwrap(), s("\u{0}"));
}

#[test]
fn control_characters_serialise_as_unicode_escapes() {
    assert_eq!(serialise(&s("\u{1}\u{1f}")), "\"\\u0001\\u001f\"");
}

#[test]
fn tokeniser_reports_token_positions() {
    let toks = Tokeniser::tokenise(b"[\n true]").unwrap();
    assert_eq!(toks.len(), 3);
    assert_eq!(toks[1].token, Token::True);
    assert_eq!(toks[1].pos, Position { line: 2, column: 2, offset: 3 });
    assert_eq!(toks[1].end, Position { line: 2, column: 6, offset: 7 });
}

#[test]
fn tokenise_prefix_stops_at_first_error() {
    let (toks, end) = Tokeniser::tokenise_prefix(b"[1] @ 2");
    assert_eq!(toks.len(), 3);
    assert_eq!(end, 3);
}

// ===== The logic behind the cJSON interface =====

#[test]
fn strip_utf8_bom_skips_three_bytes() {
    assert_eq!(strip_utf8_bom(b"\xEF\xBB\xBF{}"), (&b"{}"[..], 3));
    assert_eq!(strip_utf8_bom(b"{}"), (&b"{}"[..], 0));
    assert_eq!(strip_utf8_bom(b"\xEF\xBB"), (&b"\xEF\xBB"[..], 0));
}

#[test]
fn error_byte_offset_maps_eof_to_end() {
    let e = parse(b"[1,").unwrap_err();
    assert_eq!(error_byte_offset(&e, 3), 3);
    let e = parse(b"[1,@]").unwrap_err();
    assert_eq!(error_byte_offset(&e, 5), 3);
}

#[test]
fn minify_strips_whitespace_and_comments() {
    let out = minify(b"  {\n  \"a b\" : 1 , // note\n /* block */ \"c\\\" d\" : [ 2 ]\n}  ");
    assert_eq!(out, b"{\"a b\":1,\"c\\\" d\":[2]}".to_vec());
}

#[test]
fn minify_of_pretty_text_is_compact_text() {
    let v = sample();
    assert_eq!(minify(serialise_pretty(&v).as_bytes()), serialise(&v).into_bytes());
}

#[test]
fn print_cjson_matches_cjson_pretty_format() {
    let mut root = leaf(CJSON_OBJECT);
    let mut arr = leaf(CJSON_ARRAY);
    arr.children = vec![number_node("1"), leaf(CJSON_TRUE), string_node("x")];
    let mut inner = leaf(CJSON_OBJECT);
    inner.children = vec![member("b", leaf(CJSON_FALSE))];
    root.children = vec![member("a", number_node("1")), member("arr", arr), member("o", inner)];
    assert_eq!(
        print_cjson(&root),
        "{\n\t\"a\":\t1,\n\t\"arr\":\t[1, true, \"x\"],\n\t\"o\":\t{\n\t\t\"b\":\tfalse\n\t}\n}"
    );
    assert_eq!(print_cjson(&leaf(CJSON_ARRAY)), "[]");
    assert_eq!(print_cjson(&leaf(CJSON_OBJECT)), "{}");
}

#[test]
fn node_to_value_reads_raw_as_string_and_rejects_bad_utf8() {
    let mut raw = leaf(CJSON_RAW);
    raw.valuestring = CText::Text("{\"x\":1}".to_string());
    assert_eq!(node_to_value(&raw), Some(s("{\"x\":1}")));
    let mut bad = leaf(CJSON_STRING);
    bad.valuestring = CText::NotUtf8;
    assert_eq!(node_to_value(&bad), None);
    assert_eq!(node_to_value(&leaf(0)), None);
}

#[test]
fn duplicate_shallow_leaves_out_children() {
    let mut root = leaf(CJSON_ARRAY);
    root.children = vec![number_node("1"), number_node("2")];
    let copy = duplicate(&root, false);
    assert!(copy.children.is_empty());
    assert_eq!(duplicate(&root, true).children.len(), 2);
}

#[test]
fn key_matching_ignores_ascii_case_only_when_asked() {
    assert!(key_matches("Name", "nAME", false));
    assert!(!key_matches("Name", "nAME", true));
    assert!(key_matches("Name", "Name", true));
    assert!(!key_matches("É", "é", false));
    let keys = vec![CText::Null, CText::NotUtf8, CText::Text("Key".into()), CText::Text("key".into())];
    assert_eq!(find_member(&keys, "key", false), Some(2));
    assert_eq!(find_member(&keys, "key", true), Some(3));
    assert_eq!(find_member(&keys, "other", false), None);
}

#[test]
fn compare_values_treats_objects_as_sets() {
    let a = Value::Object(vec![("x".into(), n("1")), ("Y".into(), n("2"))]);
    let b = Value::Object(vec![("y".into(), n("2")), ("x".into(), n("1"))]);
    assert!(compare_values(&a, &b, false));
    assert!(!compare_values(&a, &b, true));
    let c = Value::Array(vec![n("1"), n("2")]);
    let d = Value::Array(vec![n("2"), n("1")]);
    assert!(!compare_values(&c, &d, true));
    assert!(!compare_values(&Value::Null, &Value::Bool(false), true));
}

// ===== The C interface's parse, print and compare =====

#[test]
fn parse_buffer_strict_reads_the_whole_buffer() {
    let (v, end) = parse_buffer(b"[1, 2]", true).unwrap();
    assert_eq!(v, Value::Array(vec![n("1"), n("2")]));
    assert_eq!(end, 6);
}

#[test]
fn parse_buffer_strict_refuses_trailing_bytes() {
    assert_eq!(parse_buffer(b"{}x", true), Err(2));
}

#[test]
fn parse_buffer_skips_a_byte_order_mark() {
    let (v, end) = parse_buffer(b"\xEF\xBB\xBF{\"a\": true}", true).unwrap();
    assert_eq!(v, Value::Object(vec![("a".to_string(), Value::Bool(true))]));
    assert_eq!(end, 14);
    let (_, lax_end) = parse_buffer(b"\xEF\xBB\xBFnull rest", false).unwrap();
    assert_eq!(lax_end, 7);
}

#[test]
fn parse_buffer_error_offsets_count_the_byte_order_mark() {
    // A trailing comma is reported where the comma stands.
    assert_eq!(parse_buffer(b"\xEF\xBB\xBF[1,]", true), Err(5));
    assert_eq!(parse_buffer(b"[1,]", true), Err(2));
    assert_eq!(parse_buffer(b"", true), Err(0));
    assert_eq!(parse_buffer(b"[1,", false), Err(3));
}

#[test]
fn print_node_compact_and_pretty() {
    let mut root = leaf(CJSON_OBJECT);
    root.children = vec![member("a", number_node("1")), member("b", string_node("x"))];
    assert_eq!(print_node(&root, false), Some("{\"a\":1,\"b\":\"x\"}".to_string()));
    assert_eq!(print_node(&root, true), Some("{\n\t\"a\":\t1,\n\t\"b\":\t\"x\"\n}".to_string()));
}

#[test]
fn print_node_compact_refuses_a_tree_without_value() {
    let mut bad = leaf(CJSON_STRING);
    bad.valuestring = CText::NotUtf8;
    assert_eq!(print_node(&bad, false), None);
}

#[test]
fn compare_nodes_follows_values_and_case() {
    let mut a = leaf(CJSON_OBJECT);
    a.children = vec![member("Key", number_node("1"))];
    let mut b = leaf(CJSON_OBJECT);
    b.children = vec![member("key", number_node("1"))];
    assert!(compare_nodes(&a, &a, true));
    assert!(!compare_nodes(&a, &b, true));
    assert!(compare_nodes(&a, &b, false));
    let mut bad = leaf(CJSON_STRING);
    bad.valuestring = CText::NotUtf8;
    assert!(!compare_nodes(&bad, &bad, true));
}

#[test]
fn fits_in_buffer_counts_the_terminator() {
    assert!(fits_in_buffer(16, 17));
    assert!(!fits_in_buffer(16, 16));
    assert!(!fits_in_buffer(0, 0));
    assert!(!fits_in_buffer(0, -1));
    assert!(fits_in_buffer(0, 1));
}

#[test]
fn readme_example_reads_members_and_round_trips() {
    let v = parse(br#"{"name":"alice","age":30}"#).unwrap();
    let members = v.as_object().unwrap();
    assert_eq!(members.len(), 2);
    assert_eq!(members[0], ("name".to_string(), s("alice")));
    assert_eq!(members[1], ("age".to_string(), n("30")));
    assert_eq!(Value::Null.as_object(), None);
    assert_eq!(serialise(&v), r#"{"name":"alice","age":30}"#);
}

#[test]
fn value_to_node_builds_cjson_tree() {
    let v = parse(br#"{"a":[1,"x",null],"b":true}"#).unwrap();
    let root = value_to_node(&v);
    assert_eq!(root.type_, CJSON_OBJECT);
    assert_eq!(root.children.len(), 2);
    let a = &root.children[0];
    assert!(matches!(&a.string, CText::Text(k) if k == "a"));
    assert_eq!(a.type_, CJSON_ARRAY);
    assert_eq!(a.children[0].type_, CJSON_NUMBER);
    assert_eq!(a.children[0].number.text().map(|t| t.as_str()), Some("1"));
    assert!(matches!(&a.children[1].valuestring, CText::Text(t) if t == "x"));
    assert!(matches!(&a.children[1].string, CText::Null));
    assert_eq!(root.children[1].type_, CJSON_TRUE);
    assert_eq!(root.children[1].number.text().map(|t| t.as_str()), Some("0"));
}

#[test]
fn law_value_tree_reads_back() {
    let v = sample();
    assert_eq!(node_to_value(&value_to_node(&v)), Some(sample()));
    assert_eq!(print_node(&value_to_node(&v), false), Some(serialise(&v)));
}

#[test]
fn law_parse_respects_nesting_limit() {
    let opts = ParserOptions { nesting_limit: 2 };
    assert!(parse_with_options(b"[{\"a\":[]}]", &opts).is_err());
    assert!(parse_with_options(b"[{\"a\":1}]", &opts).is_ok());
    assert!(parse_with_options(b"[[],{}]", &opts).is_ok());
    assert!(parse_with_options(b"7", &ParserOptions { nesting_limit: 0 }).is_ok());
    assert!(parse_with_options(b"[]", &ParserOptions { nesting_limit: 0 }).is_err());
}

#[test]
fn law_parsed_values_print_and_reparse() {
    let text = br#" { "x" : [ 1.50 , -0, 2e+3, {"y": [true, null, "\u00e9\n"]} ], "z": {} } "#;
    let v = parse(text).unwrap();
    assert_eq!(parse(serialise(&v).as_bytes()).unwrap(), v);
    assert_eq!(parse(serialise_pretty(&v).as_bytes()).unwrap(), v);
    let (p, _) = parse_prefix(b"[1e5, \"a\"] trailing").unwrap();
    assert_eq!(parse(serialise(&p).as_bytes()).unwrap(), p);
}

#[test]
fn compare_treats_zeros_of_either_sign_as_equal() {
    assert!(compare_values(&n("0"), &n("-0"), true));
    assert!(compare_values(&n("-0.0e5"), &n("0"), true));
    assert!(!compare_values(&n("0"), &n("0.5"), true));
    assert!(!compare_values(&n("-0"), &n("-1"), true));
    assert!(compare_values(&n("2.5"), &n("2.5"), true));
    assert!(Number::from_text("0").unwrap().equals(&Number::from_text("-0").unwrap()));
    assert!(Number::non_finite().equals(&Number::non_finite()));
    assert!(!Number::non_finite().equals(&Number::from_text("0").unwrap()));
}

#[test]
fn duplicate_keeps_the_double_bits() {
    let mut x = number_node("1.5");
    x.double_bits = 0x7FF0_0000_0000_0000;
    x.number = Number::non_finite();
    let mut root = leaf(CJSON_ARRAY);
    root.children = vec![x];
    let copy = duplicate(&root, true);
    assert_eq!(copy.children[0].double_bits, 0x7FF0_0000_0000_0000);
    assert!(!copy.children[0].number.is_finite());
}

#[test]
fn law_minify_never_lengthens() {
    for text in [
        &b"  { \"a\" : [1, 2] } // note\n"[..],
        b"/* block */ [\"s p a c e\", \"\\\"q\\\"\"]",
        b"\"unterminated",
        b"",
        b"/",
        b"/* open",
    ] {
        assert!(minify(text).len() <= text.len());
    }
    assert_eq!(minify(b"/* open"), b"".to_vec());
}

fn double_node(bits: u64) -> Node {
    let mut node = number_node("0");
    node.double_bits = bits;
    if bits & 0x7FF0_0000_0000_0000 == 0x7FF0_0000_0000_0000 {
        node.number = Number::non_finite();
    }
    node
}

#[test]
fn compare_nodes_compares_numbers_as_doubles() {
    let nan = double_node(0x7FF8_0000_0000_0000);
    let inf = double_node(0x7FF0_0000_0000_0000);
    let neg_inf = double_node(0xFFF0_0000_0000_0000);
    let zero = double_node(0);
    let neg_zero = double_node(0x8000_0000_0000_0000);
    let one = double_node(0x3FF0_0000_0000_0000);
    assert!(!compare_nodes(&nan, &nan, true));
    assert!(compare_nodes(&inf, &inf, true));
    assert!(!compare_nodes(&inf, &neg_inf, true));
    assert!(compare_nodes(&zero, &neg_zero, true));
    assert!(compare_nodes(&one, &one, true));
    assert!(!compare_nodes(&one, &zero, true));
    let mut a = leaf(CJSON_ARRAY);
    a.children = vec![double_node(0x7FF8_0000_0000_0000)];
    assert!(!compare_nodes(&a, &a, true));
}

#[test]
fn serialise_writes_null_for_non_finite_numbers_and_parses() {
    let v = Value::Array(vec![Value::Number(Number::non_finite()), n("1")]);
    let text = serialise(&v);
    assert_eq!(text, "[null,1]");
    assert_eq!(parse(text.as_bytes()).unwrap(), Value::Array(vec![Value::Null, n("1")]));
    assert_eq!(minify(serialise_pretty(&v).as_bytes()), text.as_bytes().to_vec());
}

#[test]
fn law_compact_text_has_no_control_characters() {
    let v = Value::Array(vec![s("a\u{1}\n\t\"b"), n("-1.5e+3"), Value::Null]);
    let text = serialise(&v);
    assert!(text.chars().all(|c| c >= ' '));
    assert_eq!(text, "[\"a\\u0001\\n\\t\\\"b\",-1.5e+3,null]");
}

#[test]
fn law_raising_the_limit_keeps_values() {
    let text = b"[[1],{\"a\":[]}]";
    let low = parse_with_options(text, &ParserOptions { nesting_limit: 3 }).unwrap();
    let high = parse_with_options(text, &ParserOptions { nesting_limit: 50 }).unwrap();
    assert_eq!(low, high);
}

#[test]
fn law_parse_prefix_end_follows_the_last_byte_of_the_value() {
    for (text, end) in [(&b"[1, 2]  \n"[..], 6usize), (b"\"s\" x", 3), (b"12 34", 2), (b"true", 4)] {
        let (_, e) = parse_prefix(text).unwrap();
        assert_eq!(e, end);
        assert!(!matches!(text[e - 1], b' ' | b'\t' | b'\n' | b'\r'));
    }
}

#[test]
fn law_errors_count_lines_and_columns_from_one() {
    for text in [&b""[..], b"\n\n  ]", b"[1,\n 2,\n ]", b"\"\\x\"", b"{\"a\" 1}"] {
        let p = parse(text).unwrap_err().position();
        assert!(p.line >= 1 && p.column >= 1 && p.offset <= text.len());
    }
}

#[test]
fn law_tokenise_prefix_reads_until_the_first_error() {
    let (prefix, end) = Tokeniser::tokenise_prefix(b"[1, true] @ 2");
    assert_eq!(prefix.len(), 5);
    assert_eq!(end, 9);
    let err = Tokeniser::tokenise(b"[1, true] @ 2").unwrap_err();
    assert_eq!(err.position().offset, 10);
    let (none, end0) = Tokeniser::tokenise_prefix(b"  @");
    assert!(none.is_empty());
    assert_eq!(end0, 0);
}
