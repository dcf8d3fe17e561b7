use miniredis::messages::{unpack_string, Message, split_messages};

fn bulk(s: &[u8]) -> Message {
    Message::BulkString(s.to_vec())
}

fn array(items: Vec<Message>) -> Message {
    Message::Array(items)
}

#[test]
fn parse_ping_frame() {
    let (m, used) = Message::parse(b"*1\r\n$4\r\nPING\r\n").unwrap();
    assert_eq!(used, 14);
    assert_eq!(m, array(vec![bulk(b"PING")]));
}

#[test]
fn serialize_simple_string() {
    let m = Message::SimpleString(b"PONG".to_vec());
    assert_eq!(m.serialize(), b"+PONG\r\n".to_vec());
}

#[test]
fn serialize_error() {
    let m = Message::Error(b"ERR oops".to_vec());
    assert_eq!(m.serialize(), b"-ERR oops\r\n".to_vec());
}

#[test]
fn serialize_integer_negative() {
    let m = Message::Integer(-42);
    assert_eq!(m.serialize(), b":-42\r\n".to_vec());
}

#[test]
fn serialize_null() {
    assert_eq!(Message::Null.serialize(), b"$-1\r\n".to_vec());
}

#[test]
fn bulk_length_counts_bytes_not_chars() {
    // a two-byte UTF-8 character must serialize with length 2
    let m = bulk("é".as_bytes());
    assert_eq!(m.serialize(), b"$2\r\n\xc3\xa9\r\n".to_vec());
}

#[test]
fn empty_bulk_differs_from_null() {
    let (m, used) = Message::parse(b"$0\r\n\r\n").unwrap();
    assert_eq!(used, 6);
    assert_eq!(m, bulk(b""));
    let (n, used2) = Message::parse(b"$-1\r\n").unwrap();
    assert_eq!(used2, 5);
    assert_eq!(n, Message::Null);
}

#[test]
fn round_trip_nested_array() {
    let m = array(vec![
        bulk(b"SET"),
        Message::SimpleString(b"abc".to_vec()),
        Message::Integer(12345),
        Message::Null,
        array(vec![bulk(b"x"), bulk(b"")]),
    ]);
    let bytes = m.serialize();
    let (back, used) = Message::parse(&bytes).unwrap();
    assert_eq!(used, bytes.len());
    assert_eq!(back, m);
}

#[test]
fn round_trip_with_trailing_bytes() {
    let m = array(vec![bulk(b"GET"), bulk(b"foo")]);
    let mut bytes = m.serialize();
    let len = bytes.len();
    bytes.extend_from_slice(b"*9\r\ntrailing-garbage");
    let (back, used) = Message::parse(&bytes).unwrap();
    assert_eq!(used, len);
    assert_eq!(back, m);
}

#[test]
fn parse_rejects_unknown_tag() {
    assert!(Message::parse(b"!hello\r\n").is_err());
}

#[test]
fn parse_rejects_truncated_bulk() {
    assert!(Message::parse(b"$10\r\nabc\r\n").is_err());
    assert!(Message::parse(b"+no newline").is_err());
    assert!(Message::parse(b"").is_err());
}

#[test]
fn parse_rejects_bad_length() {
    assert!(Message::parse(b"$abc\r\nxyz\r\n").is_err());
    assert!(Message::parse(b"*-3\r\n").is_err());
}

#[test]
fn parse_rejects_invalid_utf8_simple_string() {
    // 0xFF can never occur in UTF-8
    assert!(Message::parse(b"+ab\xffcd\r\n").is_err());
    // bulk strings may carry any bytes
    assert!(Message::parse(b"$2\r\n\xff\xfe\r\n").is_ok());
}

#[test]
fn parse_accepts_multibyte_utf8_simple_string() {
    let (m, _) = Message::parse("+héllo\r\n".as_bytes()).unwrap();
    assert_eq!(m, Message::SimpleString("héllo".as_bytes().to_vec()));
}

#[test]
fn split_pipelined_messages() {
    let mut buffer = Vec::new();
    let a = array(vec![bulk(b"PING")]);
    let b = array(vec![bulk(b"GET"), bulk(b"k")]);
    buffer.extend_from_slice(&a.serialize());
    buffer.extend_from_slice(&b.serialize());
    let out = split_messages(&buffer);
    assert_eq!(out, vec![a, b]);
}

#[test]
fn split_stops_at_partial_frame() {
    let a = array(vec![bulk(b"PING")]);
    let mut buffer = a.serialize();
    buffer.extend_from_slice(b"*2\r\n$3\r\nGE");
    let out = split_messages(&buffer);
    assert_eq!(out, vec![a]);
}

#[test]
fn duplicate_is_equal() {
    let m = array(vec![bulk(b"SET"), bulk(b"k"), Message::Integer(7)]);
    assert_eq!(m.duplicate(), m);
}

#[test]
fn unpack_string_variants() {
    assert_eq!(unpack_string(&bulk(b"abc")).unwrap(), b"abc".to_vec());
    assert_eq!(
        unpack_string(&Message::SimpleString(b"xy".to_vec())).unwrap(),
        b"xy".to_vec()
    );
    assert!(unpack_string(&Message::Integer(3)).is_err());
}
