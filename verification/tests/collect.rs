//! Collecting the values of sensitive fields.
use json_simple_obfuscator::sensitive::{collect_sensitive_values, is_sensitive, JsonValue};

/// Turns a parsed document into the library's JSON value.
fn to_json(v: &serde_json::Value) -> JsonValue {
    match v {
        serde_json::Value::Null => JsonValue::Null,
        serde_json::Value::Bool(b) => JsonValue::Bool(*b),
        serde_json::Value::Number(n) => JsonValue::Number(n.to_string()),
        serde_json::Value::String(s) => JsonValue::String(s.clone()),
        serde_json::Value::Array(items) => JsonValue::Array(items.iter().map(to_json).collect()),
        serde_json::Value::Object(members) => JsonValue::Object(
            members.iter().map(|(k, v)| (k.clone(), to_json(v))).collect(),
        ),
    }
}

fn parse(text: &str) -> JsonValue {
    to_json(&serde_json::from_str::<serde_json::Value>(text).unwrap())
}

fn collect_default(text: &str) -> Vec<String> {
    collect_sensitive_values(&parse(text), &Vec::new(), true)
}

fn strings(v: &[&str]) -> Vec<String> {
    v.iter().map(|s| s.to_string()).collect()
}

#[test]
fn test_collect_sensitive_values() {
    let input = "{\n    \"a\": \"Hello\",\n    \"id\": 123456,\n    \"details\": {\n        \"user\": \"johnD\",\n        \"firstName\": \"John\",\n        \"fullName\": \"John Doe\",\n        \"url\": \"http://example.com/item/123456\",\n        \"welcome\": \"Welcome John Doe\"\n    }\n}\n";
    let expected = strings(&["John Doe", "123456", "johnD", "John"]);
    assert_eq!(collect_default(input), expected);
}

#[test]
fn test_collect_field_patterns_contains_password() {
    assert_eq!(collect_default(r#"{"password_hash": "s3cr3t"}"#), strings(&["s3cr3t"]));
}

#[test]
fn test_collect_field_patterns_contains_secret() {
    assert_eq!(collect_default(r#"{"client_secret": "abc"}"#), strings(&["abc"]));
}

#[test]
fn test_collect_field_patterns_contains_token() {
    assert_eq!(collect_default(r#"{"access_token": "tok123"}"#), strings(&["tok123"]));
}

#[test]
fn test_collect_field_patterns_contains_phone() {
    assert_eq!(collect_default(r#"{"phone_number": "555-1234"}"#), strings(&["555-1234"]));
}

#[test]
fn test_collect_field_patterns_ends_with_name() {
    assert_eq!(collect_default(r#"{"firstName": "John"}"#), strings(&["John"]));
}

#[test]
fn test_collect_field_patterns_exact_user() {
    assert_eq!(collect_default(r#"{"user": "alice"}"#), strings(&["alice"]));
}

#[test]
fn test_collect_field_patterns_exact_login() {
    assert_eq!(collect_default(r#"{"login": "alice"}"#), strings(&["alice"]));
}

#[test]
fn test_collect_field_patterns_exact_address() {
    assert_eq!(collect_default(r#"{"address": "123 Main St"}"#), strings(&["123 Main St"]));
}

#[test]
fn test_collect_field_patterns_contains_email() {
    assert_eq!(collect_default(r#"{"email": "a@b.com"}"#), strings(&["a@b.com"]));
}

#[test]
fn test_collect_field_patterns_exact_id() {
    assert_eq!(collect_default(r#"{"id": 42}"#), strings(&["42"]));
}

#[test]
fn test_collect_field_patterns_ends_with_underscore_id() {
    assert_eq!(collect_default(r#"{"node_id": "abc123"}"#), strings(&["abc123"]));
}

#[test]
fn test_collect_field_patterns_ends_with_dash_id() {
    assert_eq!(collect_default(r#"{"project-id": "p1"}"#), strings(&["p1"]));
}

#[test]
fn test_collect_field_patterns_ends_with_camel_id() {
    assert_eq!(collect_default(r#"{"userId": "u1"}"#), strings(&["u1"]));
}

#[test]
fn test_collect_depths_depth_1() {
    assert_eq!(collect_default(r#"{"id": "v1"}"#), strings(&["v1"]));
}

#[test]
fn test_collect_depths_depth_2() {
    assert_eq!(collect_default(r#"{"wrap": {"id": "v1"}}"#), strings(&["v1"]));
}

#[test]
fn test_collect_depths_depth_3() {
    assert_eq!(collect_default(r#"{"a": {"b": {"id": "v1"}}}"#), strings(&["v1"]));
}

#[test]
fn test_collect_value_types_string() {
    assert_eq!(collect_default(r#"{"id": "str-val"}"#), strings(&["str-val"]));
}

#[test]
fn test_collect_value_types_number() {
    assert_eq!(collect_default(r#"{"id": 42}"#), strings(&["42"]));
}

#[test]
fn test_collect_value_types_object() {
    assert_eq!(collect_default(r#"{"id": {"nested": "x"}}"#), strings(&[]));
}

#[test]
fn test_collect_value_types_null() {
    assert_eq!(collect_default(r#"{"id": null}"#), strings(&[]));
}

#[test]
fn test_collect_value_types_bool() {
    assert_eq!(collect_default(r#"{"id": true}"#), strings(&[]));
}

#[test]
fn test_collect_with_arrays_array_under_non_sensitive_key() {
    assert_eq!(collect_default(r#"{"users": [{"login": "octocat"}]}"#), strings(&["octocat"]));
}

#[test]
fn test_collect_with_arrays_root_array() {
    assert_eq!(collect_default(r#"[{"id": 12345}]"#), strings(&["12345"]));
}

#[test]
fn test_collect_with_arrays_depth_3_with_array() {
    assert_eq!(collect_default(r#"{"a": {"items": [{"node_id": "abc123"}]}}"#), strings(&["abc123"]));
}

#[test]
fn test_extra_field_collected() {
    let json = r#"{"myCustomField": "secret-val", "other": "plain"}"#;
    let extra = strings(&["mycustomfield"]);
    let values = collect_sensitive_values(&parse(json), &extra, true);
    assert_eq!(values, strings(&["secret-val"]));
}

#[test]
fn test_no_default_fields_only_extra() {
    let json = r#"{"password": "should-stay", "myfield": "obfuscated"}"#;
    let extra = strings(&["myfield"]);
    let values = collect_sensitive_values(&parse(json), &extra, false);
    assert_eq!(values, strings(&["obfuscated"]));
}

#[test]
fn test_no_default_fields_no_extra() {
    let json = r#"{"password": "s3cr3t", "user": "alice"}"#;
    let values = collect_sensitive_values(&parse(json), &Vec::new(), false);
    assert!(values.is_empty());
}

#[test]
fn collect_orders_longest_first_then_document_order() {
    // keys are visited in sorted order: a_id, b_id, c_id, d_id
    let json = r#"{"d_id": "bb", "c_id": "aaa", "b_id": "cc", "a_id": "d"}"#;
    assert_eq!(collect_default(json), strings(&["aaa", "cc", "bb", "d"]));
}

#[test]
fn collect_orders_by_bytes_not_characters() {
    // "é" takes two bytes, so "é" (2 bytes) is longer than "x" (1 byte)
    let json = r#"{"a_id": "x", "b_id": "é"}"#;
    assert_eq!(collect_default(json), strings(&["é", "x"]));
}

#[test]
fn collect_ignores_other_kinds_under_sensitive_keys() {
    let json = r#"{"id": [{"user": "inner"}], "name": false}"#;
    assert!(collect_default(json).is_empty());
}

#[test]
fn extra_field_names_match_case_insensitively() {
    let json = r#"{"MyField": "v"}"#;
    let extra = json_simple_obfuscator::sensitive::lowercase_field_names(&strings(&["MYFIELD"]));
    assert_eq!(extra, strings(&["myfield"]));
    assert_eq!(collect_sensitive_values(&parse(json), &extra, false), strings(&["v"]));
}

#[test]
fn sensitive_name_rules() {
    assert!(is_sensitive("PASSWORD"));
    assert!(is_sensitive("mySecretKey"));
    assert!(is_sensitive("Token"));
    assert!(is_sensitive("HomePhone"));
    assert!(is_sensitive("lastName"));
    assert!(is_sensitive("USER"));
    assert!(is_sensitive("Login"));
    assert!(is_sensitive("Address"));
    assert!(is_sensitive("contactEmail"));
    assert!(is_sensitive("ID"));
    assert!(is_sensitive("node_ID"));
    assert!(is_sensitive("x-id"));
    assert!(is_sensitive("userId"));
    assert!(!is_sensitive("users"));
    assert!(!is_sensitive("identity"));
    assert!(!is_sensitive("url"));
    assert!(!is_sensitive("hid"));
    assert!(!is_sensitive(""));
}

#[test]
fn sensitive_name_lowercases_beyond_ascii() {
    assert!(is_sensitive("ÉMAIL_ID"));
    assert!(is_sensitive("PASSWORDÉ"));
    assert!(!is_sensitive("Ünit"));
}
