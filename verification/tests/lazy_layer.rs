use packument::document::{text_under, Document};
use packument::error::PackumentError;
use packument::lazy::{as_str, get, members, parse, RawMember, RawValue};
use packument::position::offsets_within;

fn raw<'a>(text: &'a str, value: &RawValue) -> &'a str {
    &text[value.start..value.end]
}

#[test]
fn parse_accepts_any_single_json_value() {
    for text in ["{}", " [1, 2] ", "\"text\"", "17", "null", "true", r#"{"a":{"b":[{"c":null}]}}"#] {
        assert!(parse(text.as_bytes()).is_ok(), "{}", text);
    }
}

#[test]
fn parse_refuses_what_is_not_json() {
    for text in ["", "{", "}", "[1,]", r#"{"a"}"#, r#"{"a":1,}"#, "nul", "{} {}", r#"{"a":"b}"#] {
        match parse(text.as_bytes()) {
            Err(PackumentError::MalformedDocument(message)) => assert!(!message.is_empty()),
            other => panic!("{}: {:?}", text, other),
        }
    }
}

#[test]
fn get_finds_the_range_of_a_member() {
    let text = r#" {"a" : [1, 2] , "b":"x\ty", "c":{"a":3},"d":-1.5e3,"e":null}"#;
    let data = text.as_bytes();
    let a = get(data, "a").unwrap().unwrap();
    assert_eq!((a.start, a.end, a.is_str), (8, 14, false));
    assert_eq!(raw(text, &a), "[1, 2]");
    let b = get(data, "b").unwrap().unwrap();
    assert!(b.is_str);
    assert_eq!(raw(text, &b), r#""x\ty""#);
    let c = get(data, "c").unwrap().unwrap();
    assert_eq!(raw(text, &c), r#"{"a":3}"#);
    assert!(!c.is_str);
    assert_eq!(raw(text, &get(data, "d").unwrap().unwrap()), "-1.5e3");
    assert_eq!(raw(text, &get(data, "e").unwrap().unwrap()), "null");
}

#[test]
fn get_tells_a_missing_key_from_a_text_that_is_no_object() {
    assert!(get(br#"{"a":1}"#, "b").unwrap().is_none());
    assert!(get(b"{}", "a").unwrap().is_none());
    assert!(get(br#"{"a":{"b":1}}"#, "b").unwrap().is_none());
    for text in ["[1]", "17", "\"a\"", "", r#"{"a""#, r#"{"x":1 "a":2}"#] {
        assert!(matches!(get(text.as_bytes(), "a"), Err(PackumentError::MalformedDocument(_))), "{}", text);
    }
}

#[test]
fn members_lists_keys_and_ranges_in_order() {
    let text = r#"xx{ "k\n1": "v", "two":[{"a":1}] ,"three" : 3, "k\n1": {} }yy"#;
    let data = text.as_bytes();
    let object = RawValue { start: 2, end: text.len() - 2, is_str: false };
    let list = members(data, &object).unwrap();
    let seen: Vec<(&str, &str, bool)> =
        list.iter().map(|m| (m.key.as_str(), raw(text, &m.value), m.value.is_str)).collect();
    assert_eq!(
        seen,
        vec![
            ("k\n1", "\"v\"", true),
            ("two", r#"[{"a":1}]"#, false),
            ("three", "3", false),
            ("k\n1", "{}", false),
        ]
    );
    assert_eq!(list[0].value.start, text.find("\"v\"").unwrap());
    let mut end = object.start;
    for member in &list {
        assert!(end <= member.value.start && member.value.start < member.value.end);
        end = member.value.end;
    }
    assert!(end <= object.end);
}

#[test]
fn members_of_what_is_no_object_fail() {
    let text = r#"{"a":[1,2],"b":"s","c":{}}"#;
    let data = text.as_bytes();
    let a = get(data, "a").unwrap().unwrap();
    assert!(matches!(members(data, &a), Err(PackumentError::MalformedDocument(_))));
    let b = get(data, "b").unwrap().unwrap();
    assert!(matches!(members(data, &b), Err(PackumentError::MalformedDocument(_))));
    let c = get(data, "c").unwrap().unwrap();
    assert!(members(data, &c).unwrap().is_empty());
    let broken = RawValue { start: 0, end: 10, is_str: false };
    assert!(matches!(members(data, &broken), Err(PackumentError::MalformedDocument(_))));
    let outside = RawValue { start: 0, end: data.len() + 1, is_str: false };
    assert!(matches!(members(data, &outside), Err(PackumentError::BufferIdentityMismatch)));
    let backwards = RawValue { start: 3, end: 2, is_str: false };
    assert!(matches!(members(data, &backwards), Err(PackumentError::BufferIdentityMismatch)));
}

#[test]
fn as_str_decodes_strings_only() {
    let text = r#"{"a":"plain","b":"escA\\\"","c":12,"d":["x"],"e":""}"#;
    let data = text.as_bytes();
    let value = |key: &str| get(data, key).unwrap().unwrap();
    assert_eq!(as_str(data, &value("a")), Some("plain".to_string()));
    assert_eq!(as_str(data, &value("b")), Some("escA\\\"".to_string()));
    assert_eq!(as_str(data, &value("c")), None);
    assert_eq!(as_str(data, &value("d")), None);
    assert_eq!(as_str(data, &value("e")), Some(String::new()));
    let outside = RawValue { start: 5, end: data.len() + 1, is_str: true };
    assert_eq!(as_str(data, &outside), None);
    let backwards = RawValue { start: 6, end: 5, is_str: true };
    assert_eq!(as_str(data, &backwards), None);
    let half = RawValue { start: 5, end: 8, is_str: true };
    assert_eq!(as_str(data, &half), None);
}

#[test]
fn offsets_within_measures_from_the_base() {
    assert_eq!(offsets_within(1000, 50, 1000, 50).unwrap(), (0, 50));
    assert_eq!(offsets_within(1000, 50, 1010, 5).unwrap(), (10, 15));
    assert_eq!(offsets_within(1000, 50, 1050, 0).unwrap(), (50, 50));
    assert_eq!(offsets_within(0, 0, 0, 0).unwrap(), (0, 0));
    assert_eq!(offsets_within(usize::MAX - 4, 4, usize::MAX - 2, 2).unwrap(), (2, 4));
}

#[test]
fn offsets_within_refuses_a_value_of_another_buffer() {
    let refused = |base, size, addr, len| {
        matches!(offsets_within(base, size, addr, len), Err(PackumentError::BufferIdentityMismatch))
    };
    assert!(refused(1000, 50, 999, 5));
    assert!(refused(1000, 50, 1046, 5));
    assert!(refused(1000, 50, 1051, 0));
    assert!(refused(1000, 50, 5000, 1));
    assert!(refused(1000, 50, 1000, 51));
    assert!(refused(1000, 50, 1010, usize::MAX));
    assert!(refused(10, 5, 0, 20));
}

#[test]
fn read_table_reads_the_members_of_a_field() {
    let text = r#"{"x":{"time":{"no":"1"}},"time":{"created":"2020","n":1}}"#;
    let document = Document::parse(text.as_bytes()).unwrap();
    let list = document.read_table("time").unwrap().unwrap();
    let seen: Vec<(&str, &str)> = list.iter().map(|m| (m.key.as_str(), raw(text, &m.value))).collect();
    assert_eq!(seen, vec![("created", "\"2020\""), ("n", "1")]);
    assert!(document.read_table("versions").unwrap().is_none());
    let list_typed = Document::parse(br#"{"time":[]}"#).unwrap();
    assert!(matches!(list_typed.read_table("time"), Err(PackumentError::MalformedDocument(_))));
    let array = Document::parse(b"[]").unwrap();
    assert!(matches!(array.read_table("time"), Err(PackumentError::MalformedDocument(_))));
}

#[test]
fn document_reads_the_bytes_it_was_given() {
    let text = r#"{"name":"n","time":{"unpublished":"t","a":"b"},"dist-tags":{"latest":"9.9.9"}}"#;
    let document = Document::parse(text.as_bytes()).unwrap();
    assert_eq!(document.bytes(), text.as_bytes());
    assert_eq!(document.text_field("name"), Some("n".to_string()));
    assert_eq!(document.text_field("time"), None);
    assert_eq!(document.text_field("nothing"), None);
    assert_eq!(document.field_position("name"), Some((8, 11)));
    assert_eq!(document.field_position("nothing"), None);
    assert!(document.is_unpublished());
    assert_eq!(
        document.text_table("time"),
        Some(vec![("unpublished".to_string(), "t".to_string()), ("a".to_string(), "b".to_string())])
    );
    assert_eq!(document.latest_tag(), Some("9.9.9".to_string()));
    assert_eq!(
        document.text_table("dist-tags"),
        Some(vec![("latest".to_string(), "9.9.9".to_string())])
    );
    assert_eq!(document.text_table("name"), None);
    assert_eq!(document.text_table("nothing"), None);
    assert!(document.versions().unwrap().is_empty());
    let inside = RawValue { start: 8, end: 11, is_str: true };
    assert_eq!(document.position(&inside).unwrap(), (8, 11));
    let outside = RawValue { start: 8, end: text.len() + 1, is_str: true };
    assert!(matches!(document.position(&outside), Err(PackumentError::BufferIdentityMismatch)));
}

#[test]
fn latest_tag_is_the_first_string_filed_under_latest() {
    let tag = |text: &str| Document::parse(text.as_bytes()).unwrap().latest_tag();
    assert_eq!(tag(r#"{"dist-tags":{"latest":1,"latest":"2","latest":"3"}}"#), Some("2".to_string()));
    assert_eq!(tag(r#"{"dist-tags":{"next":"2"}}"#), None);
    assert_eq!(tag(r#"{"dist-tags":{"latest":["2"]}}"#), None);
    assert_eq!(tag(r#"{"dist-tags":"latest"}"#), None);
    assert_eq!(tag(r#"{}"#), None);
}

#[test]
fn document_refuses_what_is_not_json() {
    for text in ["", "{", r#"{"a":1,}"#, "{} {}"] {
        assert!(matches!(Document::parse(text.as_bytes()), Err(PackumentError::MalformedDocument(_))), "{}", text);
    }
}

#[test]
fn text_under_wants_the_key_and_a_string() {
    let member = |key: &str, is_str: bool| RawMember {
        key: key.to_string(),
        value: RawValue { start: 0, end: 1, is_str },
    };
    assert!(!text_under(&vec![], "k"));
    assert!(!text_under(&vec![member("k", false), member("j", true)], "k"));
    assert!(text_under(&vec![member("k", false), member("j", true), member("k", true)], "k"));
    assert!(text_under(&vec![member("", true)], ""));
}
