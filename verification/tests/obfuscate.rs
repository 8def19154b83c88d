//! Obfuscating values, building the table, and replacing in documents.
use json_simple_obfuscator::mapping::{build_mapping, Mapping};
use json_simple_obfuscator::obfuscate::{increment_obfuscated, obfuscate_str};
use json_simple_obfuscator::order::sort_unique;
use json_simple_obfuscator::replacer::{
    is_numeric_boundary_prefix, is_numeric_boundary_suffix, is_pure_numeric, is_word_char,
    obfuscate_jsontxt, Replacer,
};
use json_simple_obfuscator::sensitive::{collect_sensitive_values, JsonValue};

fn to_json(v: &serde_json::Value) -> JsonValue {
    match v {
        serde_json::Value::Null => JsonValue::Null,
        serde_json::Value::Bool(b) => JsonValue::Bool(*b),
        serde_json::Value::Number(n) => JsonValue::Number(n.to_string()),
        serde_json::Value::String(s) => JsonValue::String(s.clone()),
        serde_json::Value::Array(items) => JsonValue::Array(items.iter().map(to_json).collect()),
        serde_json::Value::Object(members) => JsonValue::Object(
            members.iter().map(|(k, v)| (k.clone(), to_json(v))).collect(),
        ),
    }
}

fn collect(json_txt: &str) -> Vec<String> {
    let value: serde_json::Value = serde_json::from_str(json_txt).unwrap();
    collect_sensitive_values(&to_json(&value), &Vec::new(), true)
}

fn obfuscate_single(json_txt: &str) -> String {
    let values = sort_unique(collect(json_txt));
    let mapping = build_mapping(values);
    obfuscate_jsontxt(json_txt, &mapping)
}

fn obfuscate_with_extra(json_txt: &str, extra: &[&str]) -> String {
    let mut values = collect(json_txt);
    values.extend(extra.iter().map(|s| s.to_string()));
    let mapping = build_mapping(sort_unique(values));
    obfuscate_jsontxt(json_txt, &mapping)
}

fn replace_one(text: &str, from: &str, to: &str) -> String {
    let mut mapping = Mapping::new();
    mapping.insert(from.to_string(), to.to_string());
    Replacer::new(&mapping).unwrap().replace(text)
}

fn strings(v: &[&str]) -> Vec<String> {
    v.iter().map(|s| s.to_string()).collect()
}

#[test]
fn test_obfuscation_in_array() {
    let input = "{\n    \"users\": [\n        {\n            \"id\": 12345,\n            \"node_id\": \"MDQ6VXNlcjEyMzQ1\",\n            \"login\": \"octocat\",\n            \"url\": \"https://api.github.com/users/octocat\",\n            \"repos_url\": \"https://api.github.com/users/octocat/repos\"\n        }\n    ]\n}\n";
    let expected = "{\n    \"users\": [\n        {\n            \"id\": 11111,\n            \"node_id\": \"AAA1AAAaaaAaAaA1\",\n            \"login\": \"aaaaaaa\",\n            \"url\": \"https://api.github.com/users/aaaaaaa\",\n            \"repos_url\": \"https://api.github.com/users/aaaaaaa/repos\"\n        }\n    ]\n}\n";
    assert_eq!(obfuscate_single(input), expected);
}

#[test]
fn test_sample() {
    let input = "{\n    \"a\": \"Hello\",\n    \"id\": 123456,\n    \"details\": {\n        \"user\": \"johnD\",\n        \"firstName\": \"John\",\n        \"fullName\": \"John Doe\",\n        \"url\": \"http://example.com/item/123456\",\n        \"welcome\": \"Welcome John Doe\"\n    }\n}\n";
    let expected = "{\n    \"a\": \"Hello\",\n    \"id\": 111111,\n    \"details\": {\n        \"user\": \"aaaaA\",\n        \"firstName\": \"Aaaa\",\n        \"fullName\": \"Aaaa Aaa\",\n        \"url\": \"http://example.com/item/111111\",\n        \"welcome\": \"Welcome Aaaa Aaa\"\n    }\n}\n";
    assert_eq!(obfuscate_single(input), expected);
    assert_eq!(obfuscate_single(expected), expected);
}

#[test]
fn test_no_collision() {
    let input = "{\n    \"user\": \"johnD\",\n    \"login\": \"janeD\"\n}\n";
    let result = obfuscate_single(input);
    let v1_start = result.find("\"user\": \"").unwrap() + 9;
    let v1_end = result[v1_start..].find('"').unwrap() + v1_start;
    let v2_start = result.find("\"login\": \"").unwrap() + 10;
    let v2_end = result[v2_start..].find('"').unwrap() + v2_start;
    assert_ne!(&result[v1_start..v1_end], &result[v2_start..v2_end]);
}

#[test]
fn test_replace_cli_values_non_sensitive_key() {
    assert_eq!(
        obfuscate_with_extra(r#"{"foo": "my-secret"}"#, &["my-secret"]),
        r#"{"foo": "aa-aaaaaa"}"#
    );
}

#[test]
fn test_replace_cli_values_mixed_auto_and_extra() {
    assert_eq!(
        obfuscate_with_extra(
            r#"{"user": "alice", "note": "call alice later"}"#,
            &["call alice later"]
        ),
        r#"{"user": "aaaaa", "note": "aaaa aaaaa aaaaa"}"#
    );
}

#[test]
fn test_replace_cli_values_extra_already_collected() {
    assert_eq!(obfuscate_with_extra(r#"{"user": "alice"}"#, &["alice"]), r#"{"user": "aaaaa"}"#);
}

#[test]
fn test_increment_obfuscated() {
    for (input, expected) in [
        ("111", "112"),
        ("119", "121"),
        ("999", "1111"),
        ("zzz", "aaaa"),
        ("ZZZ", "AAAA"),
        ("11.9", "12.1"),
    ] {
        assert_eq!(increment_obfuscated(input), expected);
    }
}

#[test]
fn test_obfuscate_str() {
    for (input, expected) in [
        ("123456", "111111"),
        ("12.3456", "11.1111"),
        ("123456.789", "111111.111"),
        ("123,456,789", "111,111,111"),
        ("123 456 789", "111 111 111"),
        ("johnD", "aaaaA"),
        ("John Doe", "Aaaa Aaa"),
        ("John99", "Aaaa11"),
    ] {
        assert_eq!(obfuscate_str(input), expected);
    }
}

#[test]
fn test_numeric_no_corrupt_longer_number() {
    let input = r#"{"id": 32, "resourceVersion": "70733220"}"#;
    let result = obfuscate_single(input);
    assert!(result.contains("\"resourceVersion\": \"70733220\""), "resourceVersion corrupted: {result}");
    assert!(result.contains("\"id\": 11"), "id not obfuscated: {result}");
}

#[test]
fn test_numeric_no_corrupt_datetime() {
    let input = r#"{"id": 30, "timestamp": "2024-01-15T10:30:00Z"}"#;
    let result = obfuscate_single(input);
    assert!(result.contains("\"timestamp\": \"2024-01-15T10:30:00Z\""), "timestamp corrupted: {result}");
}

#[test]
fn test_string_no_partial_word_match() {
    let input = r#"{"name": "app", "description": "application info"}"#;
    let result = obfuscate_single(input);
    assert!(result.contains("\"description\": \"application info\""), "description corrupted: {result}");
}

#[test]
fn test_string_replaces_in_url_context() {
    let input = r#"{"login": "alice", "url": "https://api.example.com/users/alice"}"#;
    let result = obfuscate_single(input);
    assert!(!result.contains("/users/alice"), "alice not replaced in URL: {result}");
    assert!(result.contains("https://api.example.com/users/"), "URL base corrupted: {result}");
}

#[test]
fn test_replacer_bounded_number() {
    for (text, from, to, replaced) in [
        ("12345", "12345", "11111", true),
        ("70733220", "32", "11", false),
        ("10:30:00", "30", "11", false),
        (" 32 ", "32", "11", true),
        ("\"32\"", "32", "11", true),
        (":32,", "32", "11", true),
    ] {
        let result = replace_one(text, from, to);
        if replaced {
            assert!(result.contains(to), "expected replacement in {text:?}: got {result:?}");
            assert!(!result.contains(from), "value not removed in {text:?}: got {result:?}");
        } else {
            assert!(result.contains(from), "unexpected replacement in {text:?}: got {result:?}");
        }
    }
}

#[test]
fn test_replacer_whole_word() {
    for (text, from, to, replaced) in [
        ("application", "app", "xyz", false),
        ("my app here", "app", "xyz", true),
        ("/users/alice", "alice", "bob", true),
        ("\"alice\"", "alice", "bob", true),
    ] {
        let result = replace_one(text, from, to);
        if replaced {
            assert!(result.contains(to), "expected replacement in {text:?}: got {result:?}");
        } else {
            assert!(result.contains(from), "unexpected replacement in {text:?}: got {result:?}");
        }
    }
}

#[test]
fn test_replacer_leftmost_longest() {
    let mut mapping = Mapping::new();
    mapping.insert("john".to_string(), "XXXX".to_string());
    mapping.insert("john.doe@x.com".to_string(), "YYYY".to_string());
    let replacer = Replacer::new(&mapping).unwrap();
    assert_eq!(replacer.replace("\"john.doe@x.com\""), "\"YYYY\"");
    assert_eq!(replacer.replace("john.doe@x.com extra"), "YYYY extra");
    assert_eq!(replacer.replace("john.doe@x.comextra"), "XXXX.doe@x.comextra");
}

#[test]
fn obfuscate_is_idempotent_on_examples() {
    for s in ["Hello World 42", "Éclair-7", "a.b_c", "", "ÀÉ xyz"] {
        let once = obfuscate_str(s);
        assert_eq!(obfuscate_str(&once), once);
        assert_eq!(once.chars().count(), s.chars().count());
    }
}

#[test]
fn obfuscate_non_ascii_letters_keep_their_case() {
    assert_eq!(obfuscate_str("Éclair"), "Aaaaaa");
    assert_eq!(obfuscate_str("ÀÉ ß"), "AA a");
    assert_eq!(obfuscate_str("日本-1"), "aa-1");
    assert_eq!(obfuscate_str("€5"), "€1");
}

#[test]
fn increment_carries_past_other_characters() {
    assert_eq!(increment_obfuscated("a-z"), "b-a");
    assert_eq!(increment_obfuscated("Az"), "Ba");
    assert_eq!(increment_obfuscated("Zz"), "AAa");
    assert_eq!(increment_obfuscated("9z"), "11a");
    assert_eq!(increment_obfuscated(""), "1");
    assert_eq!(increment_obfuscated("-"), "1-");
    assert_eq!(increment_obfuscated("é"), "aé");
    assert_eq!(increment_obfuscated("0"), "1");
}

#[test]
fn mapping_gives_distinct_replacements() {
    let mapping = build_mapping(strings(&["janeD", "johnD", "x1", "y1", "z1"]));
    assert_eq!(mapping.len(), 5);
    assert_eq!(mapping.get(&"janeD".to_string()).unwrap(), "aaaaA");
    assert_eq!(mapping.get(&"johnD".to_string()).unwrap(), "aaaaB");
    assert_eq!(mapping.get(&"x1".to_string()).unwrap(), "a1");
    assert_eq!(mapping.get(&"y1".to_string()).unwrap(), "a2");
    assert_eq!(mapping.get(&"z1".to_string()).unwrap(), "a3");
    assert!(mapping.get(&"w1".to_string()).is_none());
}

#[test]
fn mapping_keeps_free_obfuscated_values() {
    let mapping = build_mapping(strings(&["Aaaa", "aaaaA", "111111"]));
    for v in ["Aaaa", "aaaaA", "111111"] {
        assert_eq!(mapping.get(&v.to_string()).unwrap(), v);
    }
}

#[test]
fn mapping_steps_over_a_full_carry() {
    let values: Vec<String> = (0..10).map(|d| d.to_string()).collect();
    let mapping = build_mapping(sort_unique(values));
    assert_eq!(mapping.get(&"0".to_string()).unwrap(), "1");
    assert_eq!(mapping.get(&"8".to_string()).unwrap(), "9");
    assert_eq!(mapping.get(&"9".to_string()).unwrap(), "11");
}

#[test]
fn mapping_insert_replaces_earlier_value() {
    let mut mapping = Mapping::new();
    mapping.insert("k".to_string(), "a".to_string());
    mapping.insert("k".to_string(), "b".to_string());
    assert_eq!(mapping.len(), 1);
    assert_eq!(mapping.get(&"k".to_string()).unwrap(), "b");
}

#[test]
fn sort_unique_sorts_and_drops_repeats() {
    assert_eq!(sort_unique(strings(&["b", "a", "b", "ab", "A", "é", "z"])), strings(&["A", "a", "ab", "b", "z", "é"]));
    assert!(sort_unique(Vec::new()).is_empty());
}

#[test]
fn replace_leaves_text_without_values() {
    assert_eq!(replace_one("nothing to see", "secret", "aaaaaa"), "nothing to see");
}

#[test]
fn replace_by_itself_leaves_text() {
    let text = "id 42, \"alice\" and alice-42";
    assert_eq!(replace_one(text, "alice", "alice"), text);
    assert_eq!(replace_one(text, "42", "42"), text);
}

#[test]
fn replace_skips_empty_values() {
    assert_eq!(replace_one("abc", "", "zz"), "abc");
}

#[test]
fn replace_keeps_multibyte_text() {
    assert_eq!(replace_one("«alice» café", "alice", "bob"), "«bob» café");
    assert_eq!(replace_one("é:é", "é", "x"), "x:x");
}

#[test]
fn replace_shorter_value_after_longer_rejected() {
    // the longer value is followed by a word byte, the shorter one is not
    let mut mapping = Mapping::new();
    mapping.insert("ab".to_string(), "X".to_string());
    mapping.insert("abc".to_string(), "Y".to_string());
    let replacer = Replacer::new(&mapping).unwrap();
    assert_eq!(replacer.replace("abcd ab abc"), "abcd X Y");
}

#[test]
fn byte_classes() {
    assert!(is_pure_numeric("0123456789"));
    assert!(!is_pure_numeric(""));
    assert!(!is_pure_numeric("12a"));
    for b in [b'"', b':', b'/', b' ', b'\t', b'\n', b'\r', 0x0c] {
        assert!(is_numeric_boundary_prefix(b));
    }
    assert!(!is_numeric_boundary_prefix(b','));
    assert!(!is_numeric_boundary_prefix(0x0b));
    for b in [b'"', b',', b'/', b'}', b']', b' ', b'\t', b'\n', b'\r', 0x0c] {
        assert!(is_numeric_boundary_suffix(b));
    }
    assert!(!is_numeric_boundary_suffix(b':'));
    for b in [b'a', b'z', b'A', b'Z', b'0', b'9', b'_'] {
        assert!(is_word_char(b));
    }
    assert!(!is_word_char(b'-'));
    assert!(!is_word_char(0xc3));
}

#[test]
fn table_depends_only_on_the_set_of_values() {
    let a = build_mapping(sort_unique(strings(&["johnD", "janeD", "x1", "johnD"])));
    let b = build_mapping(sort_unique(strings(&["x1", "janeD", "johnD"])));
    assert_eq!(a.pairs(), b.pairs());
}

#[test]
fn obfuscating_twice_changes_nothing_more() {
    let input = r#"{"user": "johnD", "login": "janeD", "id": 42, "note": "johnD and janeD"}"#;
    let once = obfuscate_single(input);
    assert_eq!(once, r#"{"user": "aaaaB", "login": "aaaaA", "id": 11, "note": "aaaaB and aaaaA"}"#);
    assert_eq!(obfuscate_single(&once), once);
}

#[test]
fn find_replacement_takes_leftmost_start_with_a_valid_value() {
    let mut mapping = Mapping::new();
    mapping.insert("a.b.c".to_string(), "X".to_string());
    mapping.insert(".b.cZ".to_string(), "Y".to_string());
    mapping.insert("b.".to_string(), "Z".to_string());
    let replacer = Replacer::new(&mapping).unwrap();
    let text = "a.b.cZ";
    let found = replacer.find_replacement(text, text.as_bytes(), 0);
    assert_eq!(found.map(|(s, e, _)| (s, e)), Some((1, 6)));
    assert_eq!(replacer.replace(text), "aY");
}

#[test]
fn find_replacement_past_the_end_finds_nothing() {
    let mut mapping = Mapping::new();
    mapping.insert("ab".to_string(), "X".to_string());
    let replacer = Replacer::new(&mapping).unwrap();
    assert_eq!(replacer.find_replacement("ab", b"ab", 0), Some((0, 2, 0)));
    assert_eq!(replacer.find_replacement("ab", b"ab", 1), None);
    assert_eq!(replacer.find_replacement("ab", b"ab", 7), None);
}

#[test]
fn replacer_without_values_builds_and_changes_nothing() {
    let replacer = Replacer::new(&Mapping::new()).unwrap();
    assert_eq!(replacer.replace("anything 42"), "anything 42");
    let mut mapping = Mapping::new();
    mapping.insert(String::new(), "1".to_string());
    let replacer = Replacer::new(&mapping).unwrap();
    assert_eq!(replacer.replace("abc"), "abc");
}

#[test]
fn increment_keeps_the_obfuscated_shape() {
    for s in ["aaaaA", "a9", "Zz9", "x-y", "zz", "9.9"] {
        let next = increment_obfuscated(s);
        let (o, r) = (obfuscate_str(s), obfuscate_str(&next));
        assert!(r == o || (r.chars().count() == o.chars().count() + 1 && r.ends_with(o.as_str())));
    }
}

#[test]
fn second_run_keeps_a_value_that_names_a_member() {
    let input = "{\"user\":\"janeD\",\"login\":\"johnD\",\"name\":\"user\"}";
    let once = obfuscate_single(input);
    assert_eq!(once, "{\"user\":\"aaaaA\",\"login\":\"aaaaB\",\"name\":\"aaaa\"}");
    assert_eq!(obfuscate_single(&once), once);
}

#[test]
fn replace_leaves_member_names_alone() {
    assert_eq!(replace_one("{\"user\": \"user\"}", "user", "aaaa"), "{\"user\": \"aaaa\"}");
    assert_eq!(replace_one("{ \"user\" :1, \"a\": [\"user\"]}", "user", "aaaa"), "{ \"user\" :1, \"a\": [\"aaaa\"]}");
    assert_eq!(replace_one("{\"a\\\"user\": \"user\"}", "user", "aaaa"), "{\"a\\\"user\": \"aaaa\"}");
    assert_eq!(replace_one("\"user", "user", "aaaa"), "\"aaaa");
}

#[test]
fn find_replacement_skips_member_names() {
    let mut mapping = Mapping::new();
    mapping.insert("id".to_string(), "aa".to_string());
    let replacer = Replacer::new(&mapping).unwrap();
    let text = "{\"id\": \"id\"}";
    assert_eq!(replacer.find_replacement(text, text.as_bytes(), 0), Some((8, 10, 0)));
}

#[test]
fn table_of_replacements_gives_each_itself() {
    let first = build_mapping(strings(&["janeD", "johnD", "user", "xy", "zz"]));
    let mut outputs: Vec<String> = Vec::new();
    for (_, to) in first.pairs() {
        outputs.push(to.clone());
    }
    let names = sort_unique(outputs);
    assert_eq!(names, strings(&["aa", "aaaa", "aaaaA", "aaaaB", "ab"]));
    let second = build_mapping(names.clone());
    for n in &names {
        assert_eq!(second.get(n), Some(n));
    }
    let text = "{\"a\": \"aaaaA ab aa\"}";
    assert_eq!(obfuscate_jsontxt(text, &second), text);
}
