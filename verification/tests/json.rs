use ragent::json::{complete_braces, parse_partial_json, read_parsed, JsonError};

#[test]
fn open_braces_are_closed_before_parsing() {
    assert_eq!(complete_braces("{\"a\": {\"b\": 1"), ("{\"a\": {\"b\": 1}}".to_string(), false));
    assert_eq!(complete_braces("{}"), ("{}".to_string(), true));
    let (complete, value) = parse_partial_json("{\"text\": \"hi\"");
    assert!(!complete);
    assert_eq!(value.unwrap()["text"], "hi");
    let (complete, value) = parse_partial_json("{\"text\": ");
    assert!(!complete);
    assert_eq!(value.err(), Some(JsonError::Invalid));
    let (complete, value) = parse_partial_json("{\"a\":1}");
    assert!(complete);
    assert_eq!(value.unwrap()["a"], 1);
}

#[test]
fn parse_results_become_values_or_invalid() {
    let ok = serde_json::from_str::<serde_json::Value>("[1, 2]");
    assert_eq!(read_parsed(ok).unwrap()[1], 2);
    let bad = serde_json::from_str::<serde_json::Value>("[1, ");
    assert_eq!(read_parsed(bad).err(), Some(JsonError::Invalid));
}

#[test]
fn the_completed_text_is_parsed_not_the_raw_one() {
    // The raw text is not JSON; only its brace-completed form is.
    let (complete, value) = parse_partial_json("{\"a\": {\"b\": [true]");
    assert!(!complete);
    assert_eq!(value.unwrap()["a"]["b"][0], true);
}
