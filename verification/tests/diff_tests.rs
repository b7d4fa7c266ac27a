use bn_loader::diff::{diff_json_objects, format_value, json_equal, DiffEntry, DiffKind};
use bn_loader::json::{well_formed, JsonNumber, JsonValue, Member};
use bn_loader::report::{diff_settings, settings_report, Segment, Style};

fn num(n: u64) -> JsonValue {
    JsonValue::Number(JsonNumber::PosInt(n))
}

fn text(s: &str) -> JsonValue {
    JsonValue::Str(s.to_string())
}

fn member(key: &str, value: JsonValue) -> Member {
    Member { key: key.to_string(), value }
}

fn object(members: Vec<Member>) -> JsonValue {
    JsonValue::Object(members)
}

fn entry(kind: DiffKind, path: &str, text: &str) -> DiffEntry {
    DiffEntry { kind, path: path.to_string(), text: text.to_string() }
}

fn plain(text: &str) -> Segment {
    Segment { style: Style::Plain, text: text.to_string(), ends_line: true }
}

fn styled(style: Style, text: &str) -> Segment {
    Segment { style, text: text.to_string(), ends_line: true }
}

#[test]
fn diff_of_a_value_with_itself_is_empty() {
    let a = object(vec![
        member("a", num(1)),
        member("b", JsonValue::Array(vec![num(1), num(2)])),
        member("c", object(vec![member("x", JsonValue::Null)])),
    ]);
    assert!(diff_json_objects(&a, &a, "").is_empty());
    assert!(diff_json_objects(&num(3), &num(3), "p").is_empty());
    assert!(diff_json_objects(&text("s"), &text("s"), "").is_empty());
}

#[test]
fn removed_added_and_changed_keys() {
    let a = object(vec![member("a", num(1)), member("b", num(2))]);
    let b = object(vec![member("b", num(3)), member("c", num(4))]);
    let d = diff_json_objects(&a, &b, "");
    assert_eq!(
        d,
        vec![
            entry(DiffKind::Removed, "a", "- a (only in first)"),
            entry(DiffKind::Added, "c", "+ c (only in second)"),
            entry(DiffKind::Changed, "b", "~ b : 2 -> 3"),
        ]
    );
}

#[test]
fn removed_in_one_direction_is_added_in_the_other() {
    let a = object(vec![
        member("inner", object(vec![member("only_a", num(1)), member("same", num(0))])),
        member("top_a", num(1)),
    ]);
    let b = object(vec![
        member("inner", object(vec![member("only_b", num(1)), member("same", num(0))])),
        member("top_b", num(1)),
    ]);
    let ab = diff_json_objects(&a, &b, "");
    let ba = diff_json_objects(&b, &a, "");
    for e in &ab {
        if e.kind == DiffKind::Removed {
            assert!(ba.iter().any(|f| f.kind == DiffKind::Added && f.path == e.path));
        }
        if e.kind == DiffKind::Added {
            assert!(ba.iter().any(|f| f.kind == DiffKind::Removed && f.path == e.path));
        }
    }
    let removed: Vec<&str> =
        ab.iter().filter(|e| e.kind == DiffKind::Removed).map(|e| e.path.as_str()).collect();
    assert_eq!(removed, vec!["top_a", "inner.only_a"]);
    let added: Vec<&str> =
        ba.iter().filter(|e| e.kind == DiffKind::Added).map(|e| e.path.as_str()).collect();
    assert_eq!(added, vec!["top_a", "inner.only_a"]);
}

#[test]
fn nested_paths_are_joined_by_dots() {
    let a = object(vec![member("ui", object(vec![member("theme", text("dark"))]))]);
    let b = object(vec![member("ui", object(vec![member("theme", text("light"))]))]);
    let d = diff_json_objects(&a, &b, "");
    assert_eq!(d, vec![entry(DiffKind::Changed, "ui.theme", "~ ui.theme : \"dark\" -> \"light\"")]);
    let d = diff_json_objects(&a, &b, "root");
    assert_eq!(d[0].path, "root.ui.theme");
}

#[test]
fn values_of_different_kinds_are_changed() {
    let a = object(vec![member("k", num(1))]);
    let b = object(vec![member("k", object(vec![member("x", num(1))]))]);
    let d = diff_json_objects(&a, &b, "");
    assert_eq!(d, vec![entry(DiffKind::Changed, "k", "~ k : 1 -> {1 keys}")]);
    let d = diff_json_objects(&num(1), &JsonValue::Null, "");
    assert_eq!(d, vec![entry(DiffKind::Changed, "", "~  : 1 -> null")]);
}

#[test]
fn long_strings_are_cut_to_a_preview() {
    let long = "abcdefghijklmnopqrstuvwxyz0123456789";
    assert_eq!(format_value(&text(long)), "\"abcdefghijklmnopqrstuvwxyz0...\"");
    let thirty = "abcdefghijklmnopqrstuvwxyz0123";
    assert_eq!(thirty.len(), 30);
    assert_eq!(format_value(&text(thirty)), format!("{:?}", thirty));
    let thirty_one = "abcdefghijklmnopqrstuvwxyz01234";
    assert_eq!(format_value(&text(thirty_one)), "\"abcdefghijklmnopqrstuvwxyz0...\"");
    assert_eq!(format_value(&text("say \"hi\"")), "\"say \\\"hi\\\"\"");
}

#[test]
fn long_strings_are_cut_by_characters() {
    let long: String = std::iter::repeat('é').take(31).collect();
    let preview: String = std::iter::repeat('é').take(27).collect();
    assert_eq!(format_value(&text(&long)), format!("\"{}...\"", preview));
    let short: String = std::iter::repeat('é').take(30).collect();
    assert_eq!(format_value(&text(&short)), format!("{:?}", short));
}

#[test]
fn values_are_shown_by_their_kind() {
    assert_eq!(format_value(&JsonValue::Null), "null");
    assert_eq!(format_value(&JsonValue::Bool(true)), "true");
    assert_eq!(format_value(&JsonValue::Bool(false)), "false");
    assert_eq!(format_value(&num(0)), "0");
    assert_eq!(format_value(&num(18446744073709551615)), "18446744073709551615");
    assert_eq!(format_value(&JsonValue::Number(JsonNumber::NegInt(-42))), "-42");
    assert_eq!(
        format_value(&JsonValue::Number(JsonNumber::NegInt(i64::MIN))),
        "-9223372036854775808"
    );
    let f = JsonValue::Number(JsonNumber::Float { bits: 1.5f64.to_bits(), text: "1.5".to_string() });
    assert_eq!(format_value(&f), "1.5");
    assert_eq!(format_value(&JsonValue::Array(vec![num(1), num(2), num(3)])), "[3 items]");
    assert_eq!(format_value(&JsonValue::Array(vec![])), "[0 items]");
    assert_eq!(format_value(&object(vec![member("a", num(1))])), "{1 keys}");
}

#[test]
fn numbers_are_equal_as_their_kind_says() {
    let zero = JsonValue::Number(JsonNumber::Float { bits: 0.0f64.to_bits(), text: "0.0".into() });
    let minus_zero =
        JsonValue::Number(JsonNumber::Float { bits: (-0.0f64).to_bits(), text: "-0.0".into() });
    assert!(json_equal(&zero, &minus_zero));
    let one = JsonValue::Number(JsonNumber::Float { bits: 1.0f64.to_bits(), text: "1.0".into() });
    assert!(!json_equal(&one, &num(1)));
    assert!(!json_equal(&one, &zero));
    assert!(json_equal(&num(7), &num(7)));
    assert!(!json_equal(&num(7), &JsonValue::Number(JsonNumber::NegInt(-7))));
}

#[test]
fn settings_texts_are_parsed_and_compared() {
    let first = r#"{"b": 1, "a": {"x": [1, 2], "y": "s"}, "gone": true}"#;
    let second = r#"{"a": {"x": [1, 2, 3], "y": "s"}, "b": 1.5, "new": null}"#;
    let report = diff_settings("one", Some(first), "two", Some(second));
    assert_eq!(
        report,
        vec![
            styled(Style::Bold, "=== Settings ==="),
            plain("  4 differences found:\n"),
            styled(Style::Removed, "  - gone (only in first)"),
            styled(Style::Added, "  + new (only in second)"),
            styled(Style::Changed, "  ~ a.x : [2 items] -> [3 items]"),
            styled(Style::Changed, "  ~ b : 1 -> 1.5"),
        ]
    );
}

#[test]
fn parsed_zeros_of_either_sign_are_equal() {
    let report = diff_settings("one", Some(r#"{"z": 0.0}"#), "two", Some(r#"{"z": -0.0}"#));
    assert_eq!(report, vec![styled(Style::Bold, "=== Settings ==="), plain("  (no differences)")]);
    let report = diff_settings("one", Some(r#"{"z": 1}"#), "two", Some(r#"{"z": 1.0}"#));
    assert_eq!(report[1], plain("  1 differences found:\n"));
    assert_eq!(report[2], styled(Style::Changed, "  ~ z : 1 -> 1.0"));
}

#[test]
fn missing_or_broken_settings_count_as_none() {
    let ok = r#"{"a": 1}"#;
    assert_eq!(
        diff_settings("one", None, "two", None),
        vec![styled(Style::Bold, "=== Settings ==="), plain("  Neither profile has settings.json")]
    );
    assert_eq!(
        diff_settings("one", Some(ok), "two", None)[1],
        plain("  Only 'one' has settings.json")
    );
    assert_eq!(
        diff_settings("one", None, "two", Some(ok))[1],
        plain("  Only 'two' has settings.json")
    );
    assert_eq!(
        diff_settings("one", Some("{not json"), "two", Some(ok))[1],
        plain("  Only 'two' has settings.json")
    );
    assert_eq!(diff_settings("one", Some(ok), "two", Some(ok))[1], plain("  (no differences)"));
}

#[test]
fn no_more_than_twenty_differences_are_shown() {
    let mut members = Vec::new();
    for i in 0..25u64 {
        members.push(member(&format!("k{:02}", i), num(i)));
    }
    let a = object(members);
    let b = object(vec![]);
    let report = settings_report("one", Some(&a), "two", Some(&b));
    assert_eq!(report.len(), 2 + 20 + 1);
    assert_eq!(report[1], plain("  25 differences found:\n"));
    assert_eq!(report[2], styled(Style::Removed, "  - k00 (only in first)"));
    assert_eq!(report[21], styled(Style::Removed, "  - k19 (only in first)"));
    assert_eq!(report[22], plain("  ... and 5 more"));
    let mut members = Vec::new();
    for i in 0..20u64 {
        members.push(member(&format!("k{:02}", i), num(i)));
    }
    let report = settings_report("one", Some(&object(members)), "two", Some(&b));
    assert_eq!(report.len(), 2 + 20);
}

#[test]
fn a_value_is_well_formed_when_its_keys_ascend() {
    assert!(well_formed(&JsonValue::Null));
    assert!(well_formed(&object(vec![])));
    assert!(well_formed(&object(vec![member("a", num(1)), member("b", num(2))])));
    assert!(!well_formed(&object(vec![member("b", num(1)), member("a", num(2))])));
    assert!(!well_formed(&object(vec![member("k", num(1)), member("k", num(2))])));
    let inner = object(vec![member("z", num(1)), member("y", num(2))]);
    assert!(!well_formed(&JsonValue::Array(vec![num(1), inner])));
    let inner = object(vec![member("z", num(1)), member("y", num(2))]);
    assert!(!well_formed(&object(vec![member("a", inner)])));
    let inner = object(vec![member("y", num(1)), member("z", num(2))]);
    assert!(well_formed(&object(vec![member("a", JsonValue::Array(vec![inner]))])));
}
