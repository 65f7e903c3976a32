use bytes::Bytes;
use padis::cmd::{is_word, parse_u64, CommandError};
use padis::connection::ConnectionError;
use padis::frame::ParseError;
use padis::server::{execute, reply_get, respond};
use padis::{Command, Connection, Db, Frame};
use std::time::Duration;

fn b(s: &str) -> Bytes {
    Bytes::copy_from_slice(s.as_bytes())
}

fn request(args: &[&str]) -> Frame {
    Frame::Array(args.iter().map(|s| Frame::BulkString(b(s))).collect())
}

// Feeds the bytes of one request to a connection and answers it.
fn exchange(db: &Db, wire: &[u8]) -> Vec<u8> {
    let mut conn = Connection::new();
    conn.feed(wire);
    let frame = conn.read_frame().unwrap().unwrap();
    assert!(conn.is_empty());
    respond(frame, db).serialize()
}

#[test]
fn ping_yields_pong() {
    let db = Db::new();
    assert_eq!(exchange(&db, b"*1\r\n$4\r\nPING\r\n"), b"+PONG\r\n".to_vec());
}

#[test]
fn get_on_empty_store_yields_null() {
    let db = Db::new();
    assert_eq!(exchange(&db, b"*2\r\n$3\r\nGET\r\n$3\r\nfoo\r\n"), b"$-1\r\n".to_vec());
}

#[test]
fn truncated_frame_then_close_is_an_error() {
    let mut conn = Connection::new();
    conn.feed(b"*2\r\n$3\r\nGET\r\n$3\r\nfo");
    assert_eq!(conn.read_frame(), Ok(None));
    assert_eq!(conn.end_of_stream(), Err(ConnectionError::UnexpectedEof));
}

#[test]
fn set_then_get_over_the_wire() {
    let db = Db::new();
    assert_eq!(
        exchange(&db, b"*3\r\n$3\r\nSET\r\n$3\r\nfoo\r\n$3\r\nbar\r\n"),
        b"+OK\r\n".to_vec()
    );
    assert_eq!(
        exchange(&db, b"*2\r\n$3\r\nget\r\n$3\r\nfoo\r\n"),
        b"$3\r\nbar\r\n".to_vec()
    );
    assert_eq!(
        exchange(&db, b"*2\r\n$4\r\nECHO\r\n$2\r\n\r\n\r\n"),
        b"$2\r\n\r\n\r\n".to_vec()
    );
    assert_eq!(
        exchange(&db, b"*2\r\n$4\r\nping\r\n$5\r\nhello\r\n"),
        b"$5\r\nhello\r\n".to_vec()
    );
}

#[test]
fn request_errors_are_answered() {
    let db = Db::new();
    assert_eq!(
        respond(request(&["FOOBAR"]), &db),
        Frame::SimpleError("Unknown Command".to_string())
    );
    assert_eq!(
        respond(Frame::array(), &db),
        Frame::SimpleError("Expected command, got empty frame".to_string())
    );
    assert_eq!(
        respond(Frame::Integer(1), &db),
        Frame::SimpleError("Expected array for command parsing".to_string())
    );
    assert_eq!(
        respond(Frame::Array(vec![Frame::Integer(1)]), &db),
        Frame::SimpleError("Failed to parse command name".to_string())
    );
    assert_eq!(
        respond(request(&["GET"]), &db),
        Frame::SimpleError("Expected String for message".to_string())
    );
    assert_eq!(
        respond(request(&["SET", "k", "v", "EX", "soon"]), &db),
        Frame::SimpleError("Invalid expiry".to_string())
    );
    // The connection goes on: the next request is served.
    assert_eq!(respond(request(&["PING"]), &db), Frame::SimpleString("PONG".to_string()));
}

#[test]
fn malformed_bytes_end_the_connection() {
    let mut conn = Connection::new();
    conn.feed(b"!oops\r\n");
    assert_eq!(conn.read_frame(), Err(ConnectionError::Parse(ParseError::UnknownType)));
    let mut conn = Connection::new();
    conn.feed(b"+OK\r\n:1x\r\n");
    assert_eq!(conn.read_frame(), Ok(Some(Frame::SimpleString("OK".to_string()))));
    assert_eq!(conn.read_frame(), Err(ConnectionError::Parse(ParseError::InvalidInteger)));
}

#[test]
fn byte_by_byte_delivery_gives_the_same_frames() {
    let frames = vec![
        request(&["SET", "key", "va\r\nlue", "PX", "1500"]),
        Frame::Integer(-17),
        Frame::Null,
        Frame::SimpleString("fine".to_string()),
        Frame::Array(vec![Frame::array(), Frame::SimpleError("no".to_string())]),
    ];
    let mut wire = Vec::new();
    for frame in frames.iter() {
        frame.write_to(&mut wire);
    }

    let mut whole = Connection::new();
    whole.feed(&wire);
    let mut at_once = Vec::new();
    while let Some(frame) = whole.read_frame().unwrap() {
        at_once.push(frame);
    }

    let mut piecewise = Connection::new();
    let mut one_by_one = Vec::new();
    for byte in wire.iter() {
        piecewise.feed(&[*byte]);
        while let Some(frame) = piecewise.read_frame().unwrap() {
            one_by_one.push(frame);
        }
    }

    assert_eq!(at_once, frames);
    assert_eq!(one_by_one, frames);
    assert_eq!(whole.end_of_stream(), Ok(()));
    assert_eq!(piecewise.end_of_stream(), Ok(()));
}

#[test]
fn execute_each_command() {
    let db = Db::new();
    assert_eq!(
        execute(Command::Ping { msg: None }, &db),
        Frame::SimpleString("PONG".to_string())
    );
    assert_eq!(
        execute(Command::Ping { msg: Some(b("hi")) }, &db),
        Frame::BulkString(b("hi"))
    );
    assert_eq!(execute(Command::Echo { msg: b("hi") }, &db), Frame::BulkString(b("hi")));
    assert_eq!(execute(Command::Get { key: b("k") }, &db), Frame::Null);
    assert_eq!(
        execute(Command::SetValue { key: b("k"), value: b("v"), expiry: None }, &db),
        Frame::SimpleString("OK".to_string())
    );
    assert_eq!(execute(Command::Get { key: b("k") }, &db), Frame::BulkString(b("v")));
    assert_eq!(reply_get(None), Frame::Null);
    assert_eq!(reply_get(Some(b("x"))), Frame::BulkString(b("x")));
}

#[test]
fn command_errors_by_variant() {
    assert!(matches!(
        Command::from_frame(Frame::Null),
        Err(CommandError::ExpectedArray)
    ));
    assert!(matches!(Command::from_frame(Frame::array()), Err(CommandError::Empty)));
    assert!(matches!(
        Command::from_frame(Frame::Array(vec![Frame::SimpleString("PING".to_string())])),
        Err(CommandError::InvalidCommandName)
    ));
    match Command::from_frame(request(&["nope", "x"])) {
        Err(CommandError::Unknown(name)) => assert_eq!(name, "nope"),
        _ => panic!("expected an unknown command"),
    }
    match Command::from_frame(Frame::Array(vec![Frame::BulkString(Bytes::from_static(
        b"a\xffb",
    ))])) {
        Err(CommandError::Unknown(name)) => assert_eq!(name, "a\u{fffd}b"),
        _ => panic!("expected an unknown command"),
    }
    assert!(matches!(
        Command::from_frame(request(&["ECHO", "a", "b"])),
        Err(CommandError::InvalidMsg)
    ));
    assert!(matches!(
        Command::from_frame(request(&["PING", "a", "b"])),
        Err(CommandError::InvalidMsg)
    ));
    assert!(matches!(
        Command::from_frame(Frame::Array(vec![
            Frame::BulkString(b("SET")),
            Frame::BulkString(b("k")),
            Frame::Integer(1),
        ])),
        Err(CommandError::InvalidMsg)
    ));
    assert!(matches!(
        Command::from_frame(request(&["SET", "k", "v", "KEEPTTL", "1"])),
        Err(CommandError::InvalidExpiry)
    ));
    assert!(matches!(
        Command::from_frame(request(&["SET", "k", "v", "EX", "1", "2"])),
        Err(CommandError::InvalidExpiry)
    ));
    assert!(matches!(
        Command::from_frame(request(&["SET", "k", "v", "EX", "-1"])),
        Err(CommandError::InvalidExpiry)
    ));
    assert!(matches!(
        Command::from_frame(request(&["SET", "k", "v", "EX", "18446744073709551616"])),
        Err(CommandError::InvalidExpiry)
    ));
    assert!(matches!(
        Command::from_frame(Frame::Array(vec![
            Frame::BulkString(b("SET")),
            Frame::BulkString(b("k")),
            Frame::BulkString(b("v")),
            Frame::BulkString(b("EX")),
            Frame::Integer(5),
        ])),
        Err(CommandError::InvalidExpiry)
    ));
}

#[test]
fn ping_passes_over_an_argument_that_is_no_bulk_string() {
    let frame = Frame::Array(vec![Frame::BulkString(b("PING")), Frame::Integer(5)]);
    assert!(matches!(Command::from_frame(frame), Ok(Command::Ping { msg: None })));
}

#[test]
fn expiry_units() {
    match Command::from_frame(request(&["SET", "k", "v", "Ex", "18446744073709551615"])) {
        Ok(Command::SetValue { expiry, .. }) => {
            assert_eq!(expiry, Some(Duration::from_secs(u64::MAX)))
        }
        _ => panic!("expected a set command"),
    }
    match Command::from_frame(request(&["SET", "k", "v", "pX", "+0012"])) {
        Ok(Command::SetValue { key, value, expiry }) => {
            assert_eq!(key, b("k"));
            assert_eq!(value, b("v"));
            assert_eq!(expiry, Some(Duration::from_millis(12)));
        }
        _ => panic!("expected a set command"),
    }
}

#[test]
fn words_and_numbers() {
    assert!(is_word(b"get", b"GET"));
    assert!(is_word(b"GeT", b"GET"));
    assert!(!is_word(b"GETS", b"GET"));
    assert!(!is_word(b"GE", b"GET"));
    assert!(!is_word(b"G\x25T", b"GET"));
    assert!(!is_word(b"`ET", b"@ET"));
    assert!(is_word(b"", b""));
    assert_eq!(parse_u64(b"0"), Some(0));
    assert_eq!(parse_u64(b"+7"), Some(7));
    assert_eq!(parse_u64(b"18446744073709551615"), Some(u64::MAX));
    assert_eq!(parse_u64(b"18446744073709551616"), None);
    assert_eq!(parse_u64(b"184467440737095516150"), None);
    assert_eq!(parse_u64(b""), None);
    assert_eq!(parse_u64(b"+"), None);
    assert_eq!(parse_u64(b"-1"), None);
    assert_eq!(parse_u64(b"1 "), None);
}

#[test]
fn error_messages() {
    assert_eq!(CommandError::ExpectedArray.message(), "Expected array for command parsing");
    assert_eq!(CommandError::Unknown("x".to_string()).message(), "Unknown Command");
    assert_eq!(CommandError::Empty.message(), "Expected command, got empty frame");
    assert_eq!(CommandError::InvalidCommandName.message(), "Failed to parse command name");
    assert_eq!(CommandError::InvalidMsg.message(), "Expected String for message");
    assert_eq!(CommandError::InvalidExpiry.message(), "Invalid expiry");
}
