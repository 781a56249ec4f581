use packument::diff::DiffResult;
use packument::error::PackumentError;
use packument::js_package::JsPackage;
use packument::lazy::RawValue;
use packument::package::{records_named, Package};

const LEFTPAD: &str = r#"{"name":"leftpad","time":{"modified":"2024-11-12T08:15:30.000Z"},"dist-tags":{"latest":"1.3.0"},"versions":{"1.3.0":{"version":"1.3.0"}}}"#;

fn strings(items: &[&str]) -> Vec<String> {
    items.iter().map(|s| s.to_string()).collect()
}

fn slice<'a>(data: &'a [u8], span: (u32, u32)) -> &'a str {
    std::str::from_utf8(&data[span.0 as usize..span.1 as usize]).unwrap()
}

fn diff_of(data: &[u8], known: &[&str]) -> DiffResult {
    Package::new(data).unwrap().diff(strings(known)).unwrap()
}

#[test]
fn leftpad_diff_against_an_older_version() {
    let data = LEFTPAD.as_bytes();
    let package = Package::new(data).unwrap();
    let diff = package.diff(strings(&["1.2.0"])).unwrap();
    assert_eq!(diff.added_versions.len(), 1);
    assert_eq!(diff.added_versions[0].0, "1.3.0");
    assert_eq!(slice(data, diff.added_versions[0].1), r#"{"version":"1.3.0"}"#);
    let start = LEFTPAD.find(r#"{"version""#).unwrap() as u32;
    assert_eq!(diff.added_versions[0].1, (start, start + 19));
    assert_eq!(diff.removed_versions, strings(&["1.2.0"]));
    assert!(!package.is_unpublished());
    assert_eq!(package.name(), Some("leftpad".to_string()));
}

#[test]
fn unpublished_package_without_versions() {
    let data = br#"{"name":"gone","time":{"unpublished":"2024-01-01T00:00:00.000Z"}}"#;
    let package = Package::new(data).unwrap();
    let diff = package.diff(strings(&["1.0.0"])).unwrap();
    assert!(diff.added_versions.is_empty());
    assert_eq!(diff.removed_versions, strings(&["1.0.0"]));
    assert!(package.is_unpublished());
}

#[test]
fn truncated_document_is_malformed() {
    let data = &LEFTPAD.as_bytes()[..LEFTPAD.len() - 5];
    match Package::new(data) {
        Err(PackumentError::MalformedDocument(text)) => assert!(!text.is_empty()),
        other => panic!("expected a malformed document, got {:?}", other.map(|_| ())),
    }
    assert!(matches!(JsPackage::new(data), Err(PackumentError::MalformedDocument(_))));
}

#[test]
fn malformed_inputs_are_refused() {
    for text in ["", "   ", "{", r#"{"name":"a""#, r#"{"name":"a"} x"#, r#"{"name":"a\q"}"#, r#"{"a":tru}"#] {
        let r = Package::new(text.as_bytes());
        assert!(matches!(r, Err(PackumentError::MalformedDocument(_))), "{}", text);
        assert!(r.err().unwrap().is_malformed());
    }
    assert!(matches!(Package::new(&[b'"', 0xff, b'"']), Err(PackumentError::MalformedDocument(_))));
}

#[test]
fn added_versions_are_never_known_and_removed_are_never_listed() {
    let data = br#"{"versions":{"1.0.0":{"version":"1.0.0"},"1.1.0":{"version":"1.1.0"},"2.0.0":{"version":"2.0.0"}}}"#;
    let known = ["0.9.0", "1.1.0", "3.0.0"];
    let diff = diff_of(data, &known);
    let added: Vec<&str> = diff.added_versions.iter().map(|(v, _)| v.as_str()).collect();
    assert_eq!(added, vec!["1.0.0", "2.0.0"]);
    assert_eq!(diff.removed_versions, strings(&["0.9.0", "3.0.0"]));
    for (version, _) in &diff.added_versions {
        assert!(!known.contains(&version.as_str()));
        assert!(!diff.removed_versions.contains(version));
    }
    for version in &diff.removed_versions {
        assert!(known.contains(&version.as_str()));
        assert!(!["1.0.0", "1.1.0", "2.0.0"].contains(&version.as_str()));
    }
}

#[test]
fn diff_against_the_same_versions_is_empty() {
    let data = br#"{"versions":{"1.0.0":{"version":"1.0.0"},"1.1.0":{"version":"1.1.0"}}}"#;
    let diff = diff_of(data, &["1.1.0", "1.0.0"]);
    assert!(diff.added_versions.is_empty());
    assert!(diff.removed_versions.is_empty());
}

#[test]
fn diff_against_nothing_adds_every_version() {
    let text = r#"{"versions":{"1.0.0":{"version":"1.0.0"}, "1.1.0" : {"version":"1.1.0","dist":{"shasum":"ab"}},"2.0.0":{"version":"2.0.0"}}}"#;
    let data = text.as_bytes();
    let diff = diff_of(data, &[]);
    assert!(diff.removed_versions.is_empty());
    let added: Vec<&str> = diff.added_versions.iter().map(|(v, _)| v.as_str()).collect();
    assert_eq!(added, vec!["1.0.0", "1.1.0", "2.0.0"]);
    assert_eq!(slice(data, diff.added_versions[1].1), r#"{"version":"1.1.0","dist":{"shasum":"ab"}}"#);
    let mut end = 0;
    for (_, span) in &diff.added_versions {
        assert!(end <= span.0 && span.0 < span.1 && span.1 as usize <= data.len());
        end = span.1;
    }
}

#[test]
fn added_spans_hold_the_record_of_their_version() {
    let text = r#"{"name":"pkg","versions":{"1.0.0":{"name":"pkg","version":"1.0.0"},"1.1.0":{"version":"1.1.0","scripts":{"test":"x {} y"}}}}"#;
    let data = text.as_bytes();
    let diff = diff_of(data, &["0.1.0"]);
    assert_eq!(diff.added_versions.len(), 2);
    for (version, span) in &diff.added_versions {
        assert!(span.0 <= span.1 && span.1 as usize <= data.len());
        let record: sonic_rs::Value =
            sonic_rs::from_slice(&data[span.0 as usize..span.1 as usize]).unwrap();
        let inner = sonic_rs::JsonValueTrait::get(&record, "version").unwrap();
        assert_eq!(sonic_rs::JsonValueTrait::as_str(inner), Some(version.as_str()));
    }
}

#[test]
fn is_unpublished_looks_only_for_a_string_under_the_key() {
    let yes = [
        r#"{"time":{"unpublished":""}}"#,
        r#"{"time":{"created":"x","unpublished":"not a date"}}"#,
        r#"{"time":{"unpublished":1,"unpublished":"2024"}}"#,
        r#"{"time":{"unpublished":"a\"b"}}"#,
    ];
    for text in yes {
        assert!(Package::new(text.as_bytes()).unwrap().is_unpublished(), "{}", text);
        assert!(JsPackage::new(text.as_bytes()).unwrap().is_unpublished(), "{}", text);
    }
    let no = [
        r#"{}"#,
        r#"{"time":{}}"#,
        r#"{"time":{"modified":"unpublished"}}"#,
        r#"{"time":{"unpublished":null}}"#,
        r#"{"time":{"unpublished":{"time":"2024"}}}"#,
        r#"{"time":{"unpublished":17}}"#,
        r#"{"time":"unpublished"}"#,
        r#"{"unpublished":"2024"}"#,
        r#"{"time":{"Unpublished":"2024"}}"#,
    ];
    for text in no {
        assert!(!Package::new(text.as_bytes()).unwrap().is_unpublished(), "{}", text);
        assert!(!JsPackage::new(text.as_bytes()).unwrap().is_unpublished(), "{}", text);
    }
}

#[test]
fn offsets_count_from_the_start_of_the_buffer() {
    let text = "  \n {\"readme\": \"hi\", \"versions\": { \"1.0.0\" :  {\"version\":\"1.0.0\"} } } \n";
    let data = text.as_bytes();
    let package = Package::new(data).unwrap();
    let readme = package.readme_position().unwrap();
    assert_eq!(readme, (text.find("\"hi\"").unwrap() as u32, text.find("\"hi\"").unwrap() as u32 + 4));
    assert_eq!(slice(data, readme), "\"hi\"");
    let versions = package.versions().unwrap();
    assert_eq!(versions.len(), 1);
    assert_eq!(slice(data, versions[0].1), r#"{"version":"1.0.0"}"#);
    assert_eq!(versions[0].1 .0 as usize, text.find("{\"version\"").unwrap());
}

#[test]
fn text_fields_are_decoded() {
    let text = r#"{"name":"@scope/pkg","description":"line\nbreak \"q\" \u00e9","readme":"","other":1}"#;
    let data = text.as_bytes();
    let package = Package::new(data).unwrap();
    assert_eq!(package.name(), Some("@scope/pkg".to_string()));
    assert_eq!(package.description(), Some("line\nbreak \"q\" \u{e9}".to_string()));
    assert_eq!(package.readme(), Some(String::new()));
    let js = JsPackage::new(data).unwrap();
    assert_eq!(js.name(), Some("@scope/pkg".to_string()));
    assert_eq!(js.description(), Some("line\nbreak \"q\" \u{e9}".to_string()));
    assert_eq!(js.readme(), Some(String::new()));
}

#[test]
fn absent_and_mistyped_text_fields_are_empty() {
    let data = br#"{"name":17,"description":{"text":"x"},"readme":["a"]}"#;
    let package = Package::new(data).unwrap();
    assert_eq!(package.name(), None);
    assert_eq!(package.description(), None);
    assert_eq!(package.readme(), None);
    assert_eq!(slice(data, package.readme_position().unwrap()), r#"["a"]"#);
    let empty = Package::new(b"{}").unwrap();
    assert_eq!(empty.name(), None);
    assert_eq!(empty.readme_position(), None);
    assert_eq!(empty.time(), None);
    assert!(empty.get_latest_version().is_empty());
    assert!(empty.versions().unwrap().is_empty());
    let js = JsPackage::new(b"{}").unwrap();
    assert_eq!(js.name(), None);
    assert_eq!(js.description(), None);
    assert_eq!(js.readme(), None);
    assert_eq!(js.time(), None);
}

#[test]
fn first_of_two_equal_fields_is_read() {
    let data = br#"{"name":"first","name":"second"}"#;
    assert_eq!(Package::new(data).unwrap().name(), Some("first".to_string()));
}

#[test]
fn time_keeps_strings_and_the_last_of_equal_keys() {
    let data = br#"{"time":{"created":"2020","1.0.0":"2021","modified":7,"nested":{"a":"b"},"created":"2022","2.0.0":"2023"}}"#;
    let expected = vec![
        ("created".to_string(), "2022".to_string()),
        ("1.0.0".to_string(), "2021".to_string()),
        ("2.0.0".to_string(), "2023".to_string()),
    ];
    assert_eq!(Package::new(data).unwrap().time(), Some(expected.clone()));
    assert_eq!(JsPackage::new(data).unwrap().time(), Some(expected));
    assert_eq!(Package::new(br#"{"time":{}}"#).unwrap().time(), Some(vec![]));
    assert_eq!(Package::new(br#"{"time":5}"#).unwrap().time(), None);
}

#[test]
fn versions_lists_every_member_in_document_order() {
    let text = r#"{"versions":{"2.0.0":{"a":1},"1.0.0":{"b":[1,2]},"2.0.0":{"c":"}"}}}"#;
    let data = text.as_bytes();
    let versions = Package::new(data).unwrap().versions().unwrap();
    let seen: Vec<(&str, &str)> =
        versions.iter().map(|(v, span)| (v.as_str(), slice(data, *span))).collect();
    assert_eq!(seen, vec![("2.0.0", r#"{"a":1}"#), ("1.0.0", r#"{"b":[1,2]}"#), ("2.0.0", r#"{"c":"}"}"#)]);
}

#[test]
fn a_version_listed_twice_is_added_once_with_its_last_record() {
    let text = r#"{"versions":{"2.0.0":{"a":1},"1.0.0":{"b":2},"2.0.0":{"c":3}}}"#;
    let data = text.as_bytes();
    let diff = diff_of(data, &["1.0.0", "0.5.0", "0.5.0"]);
    assert_eq!(diff.added_versions.len(), 1);
    assert_eq!(diff.added_versions[0].0, "2.0.0");
    assert_eq!(slice(data, diff.added_versions[0].1), r#"{"c":3}"#);
    assert_eq!(diff.removed_versions, strings(&["0.5.0"]));
}

#[test]
fn versions_that_are_no_object_are_malformed() {
    for text in [r#"{"versions":5}"#, r#"{"versions":["1.0.0"]}"#, r#"{"versions":"1.0.0"}"#, r#"[1,2]"#, r#""text""#] {
        let package = Package::new(text.as_bytes()).unwrap();
        assert!(matches!(package.diff(strings(&["1.0.0"])), Err(PackumentError::MalformedDocument(_))), "{}", text);
        assert!(matches!(package.versions(), Err(PackumentError::MalformedDocument(_))), "{}", text);
        assert!(package.get_latest_version().is_empty());
    }
    let root = Package::new(b"[1,2]").unwrap();
    assert_eq!(root.name(), None);
    assert!(!root.is_unpublished());
    assert_eq!(root.time(), None);
    assert_eq!(root.readme_position(), None);
}

#[test]
fn empty_versions_remove_every_known_version() {
    let diff = diff_of(br#"{"versions":{}}"#, &["b", "a", "b"]);
    assert!(diff.added_versions.is_empty());
    assert_eq!(diff.removed_versions, strings(&["b", "a"]));
}

#[test]
fn latest_version_records_follow_the_latest_tag() {
    let text = r#"{"dist-tags":{"next":"2.0.0","latest":7,"latest":"1.0.0","latest":"2.0.0"},"versions":{"1.0.0":{"n":1},"2.0.0":{"n":2},"1.0.0":{"n":3}}}"#;
    let data = text.as_bytes();
    let records = Package::new(data).unwrap().get_latest_version();
    let seen: Vec<&str> = records.iter().map(|span| slice(data, *span)).collect();
    assert_eq!(seen, vec![r#"{"n":1}"#, r#"{"n":3}"#]);
    let leftpad = Package::new(LEFTPAD.as_bytes()).unwrap().get_latest_version();
    assert_eq!(leftpad.len(), 1);
    assert_eq!(slice(LEFTPAD.as_bytes(), leftpad[0]), r#"{"version":"1.3.0"}"#);
}

#[test]
fn latest_version_is_empty_without_tag_or_record() {
    for text in [
        r#"{"versions":{"1.0.0":{}}}"#,
        r#"{"dist-tags":{},"versions":{"1.0.0":{}}}"#,
        r#"{"dist-tags":{"latest":"2.0.0"},"versions":{"1.0.0":{}}}"#,
        r#"{"dist-tags":{"latest":"1.0.0"}}"#,
        r#"{"dist-tags":{"latest":null},"versions":{"1.0.0":{}}}"#,
        r#"{"dist-tags":"latest","versions":{"1.0.0":{}}}"#,
    ] {
        assert!(Package::new(text.as_bytes()).unwrap().get_latest_version().is_empty(), "{}", text);
    }
}

#[test]
fn records_named_picks_the_entries_of_one_version() {
    let entries = vec![
        ("a".to_string(), (1, 2)),
        ("b".to_string(), (3, 4)),
        ("a".to_string(), (5, 9)),
    ];
    assert_eq!(records_named(&entries, "a"), vec![(1, 2), (5, 9)]);
    assert_eq!(records_named(&entries, "b"), vec![(3, 4)]);
    assert_eq!(records_named(&entries, "c"), vec![]);
    assert_eq!(records_named(&vec![], "a"), vec![]);
}

#[test]
fn position_refuses_a_value_outside_the_document() {
    let package = Package::new(LEFTPAD.as_bytes()).unwrap();
    let len = LEFTPAD.len();
    assert_eq!(package.bytes(), LEFTPAD.as_bytes());
    let inside = RawValue { start: 8, end: 17, is_str: true };
    assert_eq!(package.position(&inside).unwrap(), (8, 17));
    let whole = RawValue { start: 0, end: len, is_str: false };
    assert_eq!(package.position(&whole).unwrap(), (0, len as u32));
    let beyond = RawValue { start: 8, end: len + 1, is_str: false };
    assert!(matches!(package.position(&beyond), Err(PackumentError::BufferIdentityMismatch)));
    let backwards = RawValue { start: 9, end: 8, is_str: false };
    let error = package.position(&backwards).unwrap_err();
    assert!(!error.is_malformed());
    assert_eq!(error.message(), "value lies outside the document buffer");
}

#[test]
fn dist_tags_map_each_tag_to_its_last_version() {
    let data = br#"{"dist-tags":{"latest":"1.0.0","next":"2.0.0-rc.1","broken":null,"latest":"1.0.1"}}"#;
    let package = Package::new(data).unwrap();
    assert_eq!(
        package.dist_tags(),
        Some(vec![
            ("latest".to_string(), "1.0.1".to_string()),
            ("next".to_string(), "2.0.0-rc.1".to_string()),
        ])
    );
    assert_eq!(Package::new(b"{}").unwrap().dist_tags(), None);
    assert_eq!(Package::new(br#"{"dist-tags":[]}"#).unwrap().dist_tags(), None);
    assert_eq!(Package::new(br#"{"dist-tags":{}}"#).unwrap().dist_tags(), Some(vec![]));
}

#[test]
fn a_table_that_breaks_midway_gives_no_part_of_itself() {
    let text = r#"{"time":{"unpublished":"2024","\uZZZZ":"x"},"versions":{"1.0.0":{"version":"1.0.0"},"\uZZZZ":{}}}"#;
    let package = Package::new(text.as_bytes()).unwrap();
    assert!(matches!(package.versions(), Err(PackumentError::MalformedDocument(_))));
    assert!(matches!(package.diff(strings(&["1.0.0"])), Err(PackumentError::MalformedDocument(_))));
    assert_eq!(package.time(), None);
    assert!(!package.is_unpublished());
    assert!(package.get_latest_version().is_empty());
}
