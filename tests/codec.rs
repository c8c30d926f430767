use kvs::codec::{decode, encode, LogEntry};
use kvs::DatabaseError;

fn chars(s: &str) -> Vec<char> {
    s.chars().collect()
}

fn put(k: &str, v: &str) -> LogEntry {
    LogEntry::Put { key: k.to_string(), value: v.to_string() }
}

#[test]
fn encode_put_line() {
    assert_eq!(encode(&put("a", "1")), "{\"Set\":{\"key\":\"a\",\"value\":\"1\"}}");
}

#[test]
fn encode_remove_line() {
    let e = LogEntry::Remove { key: "a".to_string() };
    assert_eq!(encode(&e), "{\"Remove\":{\"key\":\"a\"}}");
}

#[test]
fn encode_escapes_special_characters() {
    let line = encode(&put("q\"b\\", "x\ny\u{1}"));
    assert_eq!(line, "{\"Set\":{\"key\":\"q\\\"b\\\\\",\"value\":\"x\\ny\\u0001\"}}");
    assert!(!line.contains('\n'));
}

#[test]
fn decode_round_trips_put() {
    let e = put("ke\"y,\"value\":", "va\\lue\t\u{1f}é");
    match decode(&chars(&encode(&e))) {
        Ok(LogEntry::Put { key, value }) => {
            assert_eq!(key, "ke\"y,\"value\":");
            assert_eq!(value, "va\\lue\t\u{1f}é");
        }
        other => panic!("unexpected {:?}", other),
    }
}

#[test]
fn decode_round_trips_remove() {
    let e = LogEntry::Remove { key: "\\u".to_string() };
    match decode(&chars(&encode(&e))) {
        Ok(LogEntry::Remove { key }) => assert_eq!(key, "\\u"),
        other => panic!("unexpected {:?}", other),
    }
}

#[test]
fn decode_round_trips_empty_strings() {
    match decode(&chars(&encode(&put("", "")))) {
        Ok(LogEntry::Put { key, value }) => {
            assert_eq!(key, "");
            assert_eq!(value, "");
        }
        other => panic!("unexpected {:?}", other),
    }
}

#[test]
fn decode_rejects_malformed_lines() {
    for line in [
        "",
        "{}",
        "{\"Set\":{\"key\":\"a\"}}",
        "{\"Set\":{\"key\":\"a\",\"value\":\"1\"}",
        "{\"Set\":{\"key\":\"a\",\"value\":\"1\"}}x",
        "{\"Remove\":{\"key\":a}}",
        "{\"Remove\":{\"key\":\"a\",\"value\":\"1\"}}",
        "{\"Other\":{\"key\":\"a\"}}",
    ] {
        assert!(
            matches!(decode(&chars(line)), Err(DatabaseError::SystemError)),
            "accepted {line}"
        );
    }
}

#[test]
fn decode_reads_non_canonical_escape() {
    match decode(&chars("{\"Remove\":{\"key\":\"\\u0041\"}}")) {
        Ok(LogEntry::Remove { key }) => assert_eq!(key, "A"),
        other => panic!("unexpected {:?}", other),
    }
}

#[test]
fn error_messages() {
    assert_eq!(DatabaseError::KeyNotFound.message(), "Key not found");
    assert_eq!(DatabaseError::SystemError.message(), "System error");
}
