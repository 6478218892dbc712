use gitobj::error::ObjectError;
use gitobj::mail_map::{MailMap, map_to_bytes};

#[test]
fn parses_two_headers_and_message() {
    let payload = b"tree abc\nauthor A <a@x> 1 +0000\n\nhello\n";
    let mut m = MailMap::new();
    m.parse_bytes(payload, 0).unwrap();
    assert_eq!(m.map.len(), 3);
    assert_eq!(m.map.get("tree").map(|s| s.as_str()), Some("abc"));
    assert_eq!(m.map.get("author").map(|s| s.as_str()), Some("A <a@x> 1 +0000"));
    assert_eq!(m.map.get("").map(|s| s.as_str()), Some("hello\n"));
}

#[test]
fn serialization_round_trips() {
    let payload = b"tree abc\nauthor A <a@x> 1 +0000\n\nhello\n";
    let mut m = MailMap::new();
    m.parse_bytes(payload, 0).unwrap();
    let bytes = m.to_bytes().to_vec();
    assert_eq!(bytes.as_slice(), payload as &[u8]);
    let mut m2 = MailMap::new();
    m2.parse_bytes(&bytes, 0).unwrap();
    assert_eq!(m.map, m2.map);
}

#[test]
fn continuation_lines_get_one_space() {
    let mut m = MailMap::new();
    m.map.insert(String::from("sig"), String::from("first\nsecond\nthird"));
    m.map.insert(String::from(""), String::from("msg\n"));
    let bytes = map_to_bytes(&m.map).unwrap();
    assert_eq!(bytes.as_slice(), b"sig first\n second\n third\n\nmsg\n" as &[u8]);
    let mut back = MailMap::new();
    back.parse_bytes(&bytes, 0).unwrap();
    assert_eq!(back.map.get("sig").map(|s| s.as_str()), Some("first\nsecond\nthird"));
    assert_eq!(back.map.get("").map(|s| s.as_str()), Some("msg\n"));
}

#[test]
fn missing_message_is_an_error() {
    let m = MailMap::new();
    assert_eq!(map_to_bytes(&m.map), Err(ObjectError::MissingMessage));
    let mut p = MailMap::new();
    assert_eq!(p.parse_bytes(b"key value\n", 0), Err(ObjectError::MissingMessage));
    assert_eq!(p.map.len(), 0);
}

#[test]
fn unterminated_continuation_is_corrupt() {
    let mut m = MailMap::new();
    assert_eq!(m.parse_bytes(b"key value\n more", 0), Err(ObjectError::Corrupt));
}

#[test]
fn invalid_utf8_is_rejected() {
    let mut m = MailMap::new();
    assert_eq!(m.parse_bytes(b"key \xff\n\nmsg", 0), Err(ObjectError::InvalidEncoding));
}

#[test]
fn duplicate_keys_first_write_wins() {
    let mut m = MailMap::new();
    m.parse_bytes(b"k one\nk two\n\nmsg", 0).unwrap();
    assert_eq!(m.map.get("k").map(|s| s.as_str()), Some("one"));
}

#[test]
fn message_only_payload() {
    let mut m = MailMap::new();
    m.parse_bytes(b"\njust a message", 0).unwrap();
    assert_eq!(m.map.get("").map(|s| s.as_str()), Some("just a message"));
    assert_eq!(m.to_bytes(), b"\njust a message" as &[u8]);
}
