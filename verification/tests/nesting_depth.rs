use packument::error::PackumentError;
use packument::js_package::JsPackage;
use packument::lazy::{as_str, get, members, parse, RawValue};
use packument::nesting::{is_shallow, nesting, Reading, MAX_DEPTH};
use packument::package::Package;

fn arrays(depth: usize) -> String {
    let mut text = "[".repeat(depth);
    text.push_str(&"]".repeat(depth));
    text
}

fn objects(depth: usize) -> String {
    let mut text = "{\"a\":".repeat(depth);
    text.push('1');
    text.push_str(&"}".repeat(depth));
    text
}

#[test]
fn nesting_counts_open_arrays_and_objects() {
    assert_eq!(nesting(b""), 0);
    assert_eq!(nesting(b"17"), 0);
    assert_eq!(nesting(b"{}"), 1);
    assert_eq!(nesting(b"[[],[],{}]"), 2);
    assert_eq!(nesting(br#"{"a":[{"b":[1,[2]]}],"c":{}}"#), 5);
    assert_eq!(nesting(arrays(300).as_bytes()), 300);
    assert_eq!(nesting(objects(40).as_bytes()), 40);
    assert_eq!(nesting(b"]]]][["), 2);
    assert_eq!(nesting(b"[[["), 3);
}

#[test]
fn nesting_passes_over_strings() {
    assert_eq!(nesting(br#""[[[[""#), 0);
    assert_eq!(nesting(br#"["[{[", "]"]"#), 1);
    assert_eq!(nesting(br#"["a\"[[", [1]]"#), 2);
    assert_eq!(nesting(br#"["a\\", [[1]]]"#), 3);
    assert_eq!(nesting(br#"["[", [1]]"#), 2);
    assert_eq!(nesting(br#"["["", [1]]"#), 1);
    assert_eq!(nesting(br#"{"k[":{"j\"{":[]}}"#), 3);
}

#[test]
fn reading_follows_an_escape_to_its_end() {
    let mut reading = Reading::new();
    assert_eq!(reading, Reading { depth: 0, deepest: 0, in_string: false, escaped: false, pending: 0 });
    for byte in br#"["\u"#.iter() {
        reading = reading.advance(*byte);
    }
    assert_eq!(reading, Reading { depth: 1, deepest: 1, in_string: true, escaped: false, pending: 4 });
    for byte in b"00".iter() {
        reading = reading.advance(*byte);
    }
    assert_eq!(reading.pending, 2);
    for byte in b"5b\"".iter() {
        reading = reading.advance(*byte);
    }
    assert_eq!(reading, Reading { depth: 1, deepest: 1, in_string: false, escaped: false, pending: 0 });
    reading = reading.advance(b']').advance(b']');
    assert_eq!(reading, Reading { depth: 0, deepest: 1, in_string: false, escaped: false, pending: 0 });
}

#[test]
fn documents_up_to_the_limit_are_read() {
    assert_eq!(MAX_DEPTH, 255);
    for text in [arrays(255), objects(255)] {
        assert!(is_shallow(text.as_bytes()));
        assert!(parse(text.as_bytes()).is_ok());
        assert!(Package::new(text.as_bytes()).is_ok());
        assert!(JsPackage::new(text.as_bytes()).is_ok());
    }
    let deep = objects(255);
    let inner = get(deep.as_bytes(), "a").unwrap().unwrap();
    assert_eq!((inner.start, inner.end), (5, deep.len() - 1));
}

#[test]
fn documents_beyond_the_limit_are_malformed() {
    for text in [arrays(256), objects(256), arrays(10_000), objects(100_000)] {
        let data = text.as_bytes();
        assert!(!is_shallow(data));
        match parse(data) {
            Err(PackumentError::MalformedDocument(message)) => {
                assert_eq!(message, "the document is nested too deeply")
            }
            other => panic!("{:?}", other),
        }
        assert!(matches!(Package::new(data), Err(PackumentError::MalformedDocument(_))));
        assert!(matches!(JsPackage::new(data), Err(PackumentError::MalformedDocument(_))));
        assert!(matches!(get(data, "a"), Err(PackumentError::MalformedDocument(_))));
        let whole = RawValue { start: 0, end: data.len(), is_str: false };
        assert!(matches!(members(data, &whole), Err(PackumentError::MalformedDocument(_))));
        assert_eq!(as_str(data, &whole), None);
    }
}

#[test]
fn brackets_inside_strings_do_not_count_towards_the_limit() {
    let text = format!(r#"{{"readme":"{}","versions":{{"1.0.0":{{"version":"1.0.0"}}}}}}"#, "[".repeat(5000));
    let package = Package::new(text.as_bytes()).unwrap();
    assert_eq!(package.readme().unwrap().len(), 5000);
    assert_eq!(package.versions().unwrap().len(), 1);
}
