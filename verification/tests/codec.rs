use bytes::Bytes;
use padis::decimal::{parse_decimal, push_decimal, push_digits};
use padis::frame::{get_integer, get_line, get_text, get_u8, peek_u8, strip_line, Frame, ParseError};
use std::io::Cursor;

fn parse_all(bytes: &[u8]) -> (Result<Frame, ParseError>, u64) {
    let mut cursor = Cursor::new(bytes);
    let r = Frame::parse(&mut cursor);
    (r, cursor.position())
}

fn roundtrip(frame: Frame) {
    let bytes = frame.serialize();
    let (parsed, at) = parse_all(&bytes);
    assert_eq!(parsed, Ok(frame));
    assert_eq!(at, bytes.len() as u64);
}

#[test]
fn roundtrip_every_variant() {
    roundtrip(Frame::SimpleString("OK".to_string()));
    roundtrip(Frame::SimpleString(String::new()));
    roundtrip(Frame::SimpleString("h\u{e9}llo \u{4e16}\u{754c}".to_string()));
    roundtrip(Frame::SimpleError("ERR unknown command".to_string()));
    roundtrip(Frame::Integer(0));
    roundtrip(Frame::Integer(42));
    roundtrip(Frame::Integer(-1));
    roundtrip(Frame::Integer(i64::MAX));
    roundtrip(Frame::Integer(i64::MIN));
    roundtrip(Frame::BulkString(Bytes::from("hello")));
    roundtrip(Frame::BulkString(Bytes::new()));
    roundtrip(Frame::Null);
    roundtrip(Frame::array());
    roundtrip(Frame::Array(vec![
        Frame::Integer(7),
        Frame::Null,
        Frame::Array(vec![Frame::BulkString(Bytes::from("x")), Frame::array()]),
        Frame::SimpleString("done".to_string()),
    ]));
}

#[test]
fn roundtrip_leaves_what_follows() {
    let frame = Frame::Array(vec![Frame::BulkString(Bytes::from("GET")), Frame::Integer(-12)]);
    let mut bytes = frame.serialize();
    let len = bytes.len() as u64;
    bytes.extend_from_slice(b"+NEXT\r\n");
    let (parsed, at) = parse_all(&bytes);
    assert_eq!(parsed, Ok(frame));
    assert_eq!(at, len);
}

#[test]
fn bulk_string_is_binary_safe() {
    let payload = Bytes::from_static(b"a\r\nb\rc\n\r\n\0\xff");
    let frame = Frame::BulkString(payload.clone());
    let bytes = frame.serialize();
    assert_eq!(bytes, b"$11\r\na\r\nb\rc\n\r\n\0\xff\r\n".to_vec());
    match parse_all(&bytes) {
        (Ok(Frame::BulkString(back)), at) => {
            assert_eq!(back, payload);
            assert_eq!(at, bytes.len() as u64);
        }
        other => panic!("expected a bulk string, got {:?}", other),
    }
}

#[test]
fn serialize_exact_bytes() {
    assert_eq!(Frame::SimpleString("OK".to_string()).serialize(), b"+OK\r\n".to_vec());
    assert_eq!(Frame::SimpleError("ERR x".to_string()).serialize(), b"-ERR x\r\n".to_vec());
    assert_eq!(Frame::Integer(-9223372036854775808).serialize(), b":-9223372036854775808\r\n".to_vec());
    assert_eq!(Frame::Integer(1000).serialize(), b":1000\r\n".to_vec());
    assert_eq!(Frame::BulkString(Bytes::new()).serialize(), b"$0\r\n\r\n".to_vec());
    assert_eq!(Frame::Null.serialize(), b"$-1\r\n".to_vec());
    assert_eq!(Frame::array().serialize(), b"*0\r\n".to_vec());
    let mut out = b"x".to_vec();
    Frame::Integer(5).write_to(&mut out);
    assert_eq!(out, b"x:5\r\n".to_vec());
}

#[test]
fn every_prefix_of_a_frame_is_incomplete() {
    let frame = Frame::Array(vec![
        Frame::BulkString(Bytes::from_static(b"SE\r\nT")),
        Frame::Integer(-305),
        Frame::SimpleString("ok".to_string()),
        Frame::Null,
    ]);
    let bytes = frame.serialize();
    for k in 0..bytes.len() {
        let (r, _) = parse_all(&bytes[..k]);
        assert_eq!(r, Err(ParseError::Incomplete), "prefix of length {}", k);
    }
    assert_eq!(parse_all(&bytes).0, Ok(frame));
}

#[test]
fn empty_input_is_incomplete() {
    assert_eq!(parse_all(b"").0, Err(ParseError::Incomplete));
    assert_eq!(parse_all(b"$").0, Err(ParseError::Incomplete));
    assert_eq!(parse_all(b"*1\r\n").0, Err(ParseError::Incomplete));
}

#[test]
fn invalid_integer() {
    assert_eq!(parse_all(b":12a\r\n").0, Err(ParseError::InvalidInteger));
    assert_eq!(parse_all(b":\r\n").0, Err(ParseError::InvalidInteger));
    assert_eq!(parse_all(b":-\r\n").0, Err(ParseError::InvalidInteger));
    assert_eq!(parse_all(b":+5\r\n").0, Err(ParseError::InvalidInteger));
    assert_eq!(parse_all(b": 5\r\n").0, Err(ParseError::InvalidInteger));
    assert_eq!(parse_all(b":9223372036854775808\r\n").0, Err(ParseError::InvalidInteger));
    assert_eq!(parse_all(b":-9223372036854775809\r\n").0, Err(ParseError::InvalidInteger));
    assert_eq!(parse_all(b"$abc\r\n").0, Err(ParseError::InvalidInteger));
    assert_eq!(parse_all(b"*x\r\n").0, Err(ParseError::InvalidInteger));
    assert_eq!(parse_all(b"*-1\r\n").0, Err(ParseError::InvalidInteger));
    assert_eq!(parse_all(b"$-x\r\n").0, Err(ParseError::InvalidInteger));
}

#[test]
fn integer_limits_and_leading_zeros() {
    assert_eq!(parse_all(b":9223372036854775807\r\n").0, Ok(Frame::Integer(i64::MAX)));
    assert_eq!(parse_all(b":-9223372036854775808\r\n").0, Ok(Frame::Integer(i64::MIN)));
    assert_eq!(parse_all(b":007\r\n").0, Ok(Frame::Integer(7)));
    assert_eq!(parse_all(b":-0\r\n").0, Ok(Frame::Integer(0)));
    assert_eq!(
        parse_all(b":0000000000000000000000000000012\r\n").0,
        Ok(Frame::Integer(12))
    );
}

#[test]
fn invalid_string() {
    assert_eq!(parse_all(b"+a\rb\r\n").0, Err(ParseError::InvalidString));
    assert_eq!(parse_all(b"+a\nb\r\n").0, Err(ParseError::InvalidString));
    assert_eq!(parse_all(b"-oops\n\r\n").0, Err(ParseError::InvalidString));
}

#[test]
fn invalid_utf8() {
    assert_eq!(parse_all(b"+\xff\xfe\r\n").0, Err(ParseError::InvalidUtf8));
    assert_eq!(parse_all(b"-\xc3\r\n").0, Err(ParseError::InvalidUtf8));
}

#[test]
fn invalid_end() {
    assert_eq!(parse_all(b"$3\r\nabcde").0, Err(ParseError::InvalidEnd));
    assert_eq!(parse_all(b"$3\r\nabc\rX").0, Err(ParseError::InvalidEnd));
    assert_eq!(parse_all(b"$3\r\nabcX\n").0, Err(ParseError::InvalidEnd));
    // Until both bytes behind the payload are there, more bytes are awaited.
    assert_eq!(parse_all(b"$3\r\nabcX").0, Err(ParseError::Incomplete));
    assert_eq!(parse_all(b"$3\r\nabc\r").0, Err(ParseError::Incomplete));
}

#[test]
fn invalid_null() {
    assert_eq!(parse_all(b"$-2\r\n").0, Err(ParseError::InvalidNull));
    assert_eq!(parse_all(b"$-10\r\n").0, Err(ParseError::InvalidNull));
    assert_eq!(parse_all(b"$-0\r\n").0, Err(ParseError::InvalidNull));
}

#[test]
fn unknown_type() {
    assert_eq!(parse_all(b"?\r\n").0, Err(ParseError::UnknownType));
    assert_eq!(parse_all(b"G").0, Err(ParseError::UnknownType));
    assert_eq!(parse_all(b"*1\r\n!x\r\n").0, Err(ParseError::UnknownType));
}

#[test]
fn error_inside_array_wins() {
    assert_eq!(parse_all(b"*2\r\n:1\r\n:x\r\n").0, Err(ParseError::InvalidInteger));
    assert_eq!(parse_all(b"*2\r\n:1\r\n$2\r\nabcd").0, Err(ParseError::InvalidEnd));
}

#[test]
fn nested_arrays() {
    let (r, at) = parse_all(b"*2\r\n*1\r\n:1\r\n*0\r\n+rest\r\n");
    assert_eq!(
        r,
        Ok(Frame::Array(vec![Frame::Array(vec![Frame::Integer(1)]), Frame::array()]))
    );
    assert_eq!(at, 16);
}

#[test]
fn null_is_equal_to_null_only() {
    assert_eq!(Frame::Null, Frame::Null);
    assert_ne!(Frame::Null, Frame::BulkString(Bytes::new()));
    assert_ne!(Frame::Null, Frame::array());
    assert_ne!(Frame::SimpleString("a".to_string()), Frame::SimpleError("a".to_string()));
    assert_ne!(Frame::Integer(1), Frame::Integer(2));
    assert_ne!(
        Frame::Array(vec![Frame::Integer(1)]),
        Frame::Array(vec![Frame::Integer(1), Frame::Integer(1)])
    );
    assert!(Frame::Integer(3).same(&Frame::Integer(3)));
}

#[test]
fn clone_is_equal() {
    let frame = Frame::Array(vec![
        Frame::BulkString(Bytes::from("k")),
        Frame::Array(vec![Frame::Null, Frame::SimpleError("e".to_string())]),
    ]);
    assert_eq!(frame.clone(), frame);
}

#[test]
fn cursor_helpers() {
    let mut cursor = Cursor::new(&b"ab\r\ncd"[..]);
    assert_eq!(peek_u8(&mut cursor), Ok(b'a'));
    assert_eq!(cursor.position(), 0);
    assert_eq!(get_u8(&mut cursor), Ok(b'a'));
    assert_eq!(cursor.position(), 1);
    assert_eq!(get_line(&mut cursor), Ok(&b"b"[..]));
    assert_eq!(cursor.position(), 4);
    assert_eq!(get_line(&mut cursor), Err(ParseError::Incomplete));
    assert_eq!(cursor.position(), 4);
    assert_eq!(get_u8(&mut cursor), Ok(b'c'));
    assert_eq!(get_u8(&mut cursor), Ok(b'd'));
    assert_eq!(get_u8(&mut cursor), Err(ParseError::Incomplete));
    assert_eq!(peek_u8(&mut cursor), Err(ParseError::Incomplete));
}

#[test]
fn cursor_beyond_the_end() {
    let mut cursor = Cursor::new(&b"+OK\r\n"[..]);
    cursor.set_position(9);
    assert_eq!(get_u8(&mut cursor), Err(ParseError::Incomplete));
    assert_eq!(peek_u8(&mut cursor), Err(ParseError::Incomplete));
    assert_eq!(get_line(&mut cursor), Err(ParseError::Incomplete));
    assert_eq!(Frame::parse(&mut cursor), Err(ParseError::Incomplete));
}

#[test]
fn get_line_takes_the_first_terminator() {
    let mut cursor = Cursor::new(&b"\r\n\r\n"[..]);
    assert_eq!(get_line(&mut cursor), Ok(&b""[..]));
    assert_eq!(cursor.position(), 2);
    let mut cursor = Cursor::new(&b"a\rb\n\r\r\nrest"[..]);
    assert_eq!(get_line(&mut cursor), Ok(&b"a\rb\n\r"[..]));
    assert_eq!(cursor.position(), 7);
}

#[test]
fn strip_line_wants_crlf() {
    assert_eq!(strip_line(b"abc\r\n"), Ok(&b"abc"[..]));
    assert_eq!(strip_line(b"\r\n"), Ok(&b""[..]));
    assert_eq!(strip_line(b"a\r\nb\r\n"), Ok(&b"a\r\nb"[..]));
    assert_eq!(strip_line(b"abc"), Err(ParseError::InvalidEnd));
    assert_eq!(strip_line(b"abc\n\r"), Err(ParseError::InvalidEnd));
    assert_eq!(strip_line(b"\n"), Err(ParseError::InvalidEnd));
    assert_eq!(strip_line(b""), Err(ParseError::InvalidEnd));
}

#[test]
fn get_integer_reads_whole_lines_only() {
    assert_eq!(get_integer(b"42"), Ok(42));
    assert_eq!(get_integer(b"-42"), Ok(-42));
    assert_eq!(get_integer(b"42 "), Err(ParseError::InvalidInteger));
    assert_eq!(get_integer(b"42\r\n"), Err(ParseError::InvalidInteger));
    assert_eq!(get_integer(b""), Err(ParseError::InvalidInteger));
    assert_eq!(get_integer(b"-"), Err(ParseError::InvalidInteger));
    assert_eq!(get_integer(b"--1"), Err(ParseError::InvalidInteger));
}

#[test]
fn get_text_reads_status_lines() {
    assert_eq!(get_text(b"OK"), Ok("OK".to_string()));
    assert_eq!(get_text(b""), Ok(String::new()));
    assert_eq!(get_text("gr\u{fc}n".as_bytes()), Ok("gr\u{fc}n".to_string()));
    assert_eq!(get_text(b"a\rb"), Err(ParseError::InvalidString));
    assert_eq!(get_text(b"\xff\n"), Err(ParseError::InvalidString));
    assert_eq!(get_text(b"\xff"), Err(ParseError::InvalidUtf8));
}

#[test]
fn decimal_text() {
    assert_eq!(parse_decimal(b"0"), Some(0));
    assert_eq!(parse_decimal(b"-7"), Some(-7));
    assert_eq!(parse_decimal(b"7x"), None);
    assert_eq!(parse_decimal(b"99999999999999999999"), None);
    let mut out = Vec::new();
    push_decimal(-120, &mut out);
    push_digits(0, &mut out);
    push_digits(18446744073709551615, &mut out);
    assert_eq!(out, b"-120018446744073709551615".to_vec());
}
