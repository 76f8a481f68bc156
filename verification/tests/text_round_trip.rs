// The leaf text round trip and the envelope utilities.

use reflect_inspector::text::extract_serialized_value;
use reflect_inspector::text::find_marker;
use reflect_inspector::text::fmt_u64;
use reflect_inspector::text::from_text;
use reflect_inspector::text::to_text;
use reflect_inspector::text::wrap_serialized_value;
use reflect_inspector::values::LeafKind;
use reflect_inspector::values::LeafValue;
use reflect_inspector::values::leaf_eq;

fn round_trips(v: LeafValue) {
    let kind = v.kind();
    let text = to_text(&v);
    let back = from_text(kind, text.as_str()).expect("canonical text must parse");
    assert!(leaf_eq(&v, &back), "{:?} -> {} -> {:?}", v, text, back);
}

// The round-trip law: from_text(kind, to_text(v)) == v for representable
// leaf values.
#[test]
fn leaf_round_trip() {
    round_trips(LeafValue::Bool(true));
    round_trips(LeafValue::Bool(false));
    round_trips(LeafValue::Int(0));
    round_trips(LeafValue::Int(-5));
    round_trips(LeafValue::Int(i64::MAX));
    round_trips(LeafValue::Int(i64::MIN));
    round_trips(LeafValue::Text(String::new()));
    round_trips(LeafValue::Text("hi".to_string()));
    round_trips(LeafValue::Text("a \"quoted\" \\ line\nnext".to_string()));
    round_trips(LeafValue::Text("snowman \u{2603} and \u{1F980}".to_string()));
}

#[test]
fn to_text_exact() {
    assert_eq!(to_text(&LeafValue::Bool(true)), "true");
    assert_eq!(to_text(&LeafValue::Bool(false)), "false");
    assert_eq!(to_text(&LeafValue::Int(0)), "0");
    assert_eq!(to_text(&LeafValue::Int(-42)), "-42");
    assert_eq!(to_text(&LeafValue::Int(9_007_199_254)), "9007199254");
    assert_eq!(to_text(&LeafValue::Text("hi".to_string())), "\"hi\"");
    assert_eq!(to_text(&LeafValue::Text(String::new())), "\"\"");
}

#[test]
fn from_text_failures() {
    assert!(from_text(LeafKind::Bool, "yes").is_none());
    assert!(from_text(LeafKind::Int, "true").is_none());
    assert!(from_text(LeafKind::Int, "12x").is_none());
    assert!(from_text(LeafKind::Text, "unquoted").is_none());
}

#[test]
fn from_text_kind_matches() {
    match from_text(LeafKind::Int, "17") {
        Some(LeafValue::Int(n)) => assert_eq!(n, 17),
        other => panic!("unexpected {:?}", other),
    }
    match from_text(LeafKind::Bool, "false") {
        Some(LeafValue::Bool(b)) => assert!(!b),
        other => panic!("unexpected {:?}", other),
    }
}

#[test]
fn fmt_u64_decimal() {
    assert_eq!(fmt_u64(0), "0");
    assert_eq!(fmt_u64(7), "7");
    assert_eq!(fmt_u64(10), "10");
    assert_eq!(fmt_u64(90210), "90210");
    assert_eq!(fmt_u64(u64::MAX), "18446744073709551615");
}

#[test]
fn marker_is_found() {
    assert_eq!(find_marker("{\"value\":42}"), Some(1));
    assert_eq!(find_marker("\"value\":"), Some(0));
    assert_eq!(find_marker("{\"type\":\"T\",\"value\":42}"), Some(12));
    assert_eq!(find_marker("no envelope here"), None);
    assert_eq!(find_marker(""), None);
}

#[test]
fn extract_cuts_the_value_text() {
    assert_eq!(extract_serialized_value("{\"value\":42}"), "42");
    assert_eq!(
        extract_serialized_value("{\"type\":\"bool\",\"value\":true}"),
        "true"
    );
}

#[test]
fn wrap_replaces_the_value_text() {
    assert_eq!(
        wrap_serialized_value("{\"value\":42}".to_string(), "1000"),
        "{\"value\":1000}"
    );
    assert_eq!(
        wrap_serialized_value("{\"type\":\"bool\",\"value\":true}".to_string(), "false"),
        "{\"type\":\"bool\",\"value\":false}"
    );
}

#[test]
fn wrap_then_extract_returns_the_edit() {
    let wrapped = wrap_serialized_value("{\"value\":\"old\"}".to_string(), "\"new\"");
    assert_eq!(extract_serialized_value(wrapped.as_str()), "\"new\"");
}
