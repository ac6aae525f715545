//! Tests of the frame codec: exact wire bytes, round trips including
//! nested arrays, incomplete versus malformed inputs, and fragmented
//! delivery through the connection buffer.

use tiny_redis::connection::Connection;
use tiny_redis::frame::{get_decimal, get_line, get_u8, skip, Error, Frame};

fn frames_equal(a: &Frame, b: &Frame) -> bool {
    match (a, b) {
        (Frame::Simple(x), Frame::Simple(y)) => x == y,
        (Frame::Error(x), Frame::Error(y)) => x == y,
        (Frame::Integer(x), Frame::Integer(y)) => x == y,
        (Frame::Bulk(x), Frame::Bulk(y)) => x == y,
        (Frame::Null, Frame::Null) => true,
        (Frame::Array(x), Frame::Array(y)) => {
            x.len() == y.len() && x.iter().zip(y.iter()).all(|(u, v)| frames_equal(u, v))
        }
        _ => false,
    }
}

fn round_trips(f: &Frame) {
    let bytes = f.encode();
    let (parsed, used) = Frame::parse(&bytes, 0).expect("re-parse failed");
    assert_eq!(used, bytes.len());
    assert!(frames_equal(f, &parsed));
    let end = Frame::check(&bytes, 0).expect("check failed");
    assert_eq!(end, bytes.len());
}

#[test]
fn encode_exact_bytes() {
    assert_eq!(Frame::Simple("hello".to_string()).encode(), b"+hello\r\n");
    assert_eq!(Frame::Error("oops".to_string()).encode(), b"-oops\r\n");
    assert_eq!(Frame::Integer(0).encode(), b":0\r\n");
    assert_eq!(Frame::Integer(12345).encode(), b":12345\r\n");
    assert_eq!(
        Frame::Integer(u64::MAX).encode(),
        b":18446744073709551615\r\n"
    );
    assert_eq!(Frame::Bulk(b"PING".to_vec()).encode(), b"$4\r\nPING\r\n");
    assert_eq!(Frame::Bulk(Vec::new()).encode(), b"$0\r\n\r\n");
    assert_eq!(Frame::Null.encode(), b"$-1\r\n");
    let mut arr = Frame::array();
    arr.push_bulk(b"PING".to_vec());
    assert_eq!(arr.encode(), b"*1\r\n$4\r\nPING\r\n");
}

#[test]
fn encode_non_ascii_text() {
    assert_eq!(
        Frame::Simple("h\u{e9}llo".to_string()).encode(),
        b"+h\xc3\xa9llo\r\n"
    );
}

#[test]
fn round_trip_each_variant() {
    round_trips(&Frame::Simple("OK".to_string()));
    round_trips(&Frame::Simple(String::new()));
    round_trips(&Frame::Simple("h\u{e9}llo w\u{f6}rld \u{4e16}\u{754c}".to_string()));
    round_trips(&Frame::Error("ERR something".to_string()));
    round_trips(&Frame::Integer(0));
    round_trips(&Frame::Integer(7));
    round_trips(&Frame::Integer(u64::MAX));
    round_trips(&Frame::Bulk(b"with\r\ninside".to_vec()));
    round_trips(&Frame::Bulk(vec![0u8, 255, 13, 10, 1]));
    round_trips(&Frame::Bulk(Vec::new()));
    round_trips(&Frame::Null);
}

#[test]
fn round_trip_nested_arrays() {
    let inner = Frame::Array(vec![
        Frame::Bulk(b"a".to_vec()),
        Frame::Null,
        Frame::Integer(42),
    ]);
    let outer = Frame::Array(vec![
        Frame::Simple("top".to_string()),
        inner,
        Frame::Array(Vec::new()),
        Frame::Error("e".to_string()),
    ]);
    round_trips(&outer);
}

#[test]
fn parse_accepts_leading_zero_lengths() {
    let (f, used) = Frame::parse(b"$04\r\nPING\r\n", 0).expect("parse");
    assert!(matches!(f, Frame::Bulk(b) if b == b"PING"));
    assert_eq!(used, 11);
}

#[test]
fn check_incomplete_inputs() {
    for bytes in [
        &b""[..],
        b"+",
        b"+pending",
        b"+pending\r",
        b":12",
        b"$4\r\nPI",
        b"$4\r\nPING",
        b"$4\r\nPING\r",
        b"*2\r\n+a\r\n",
        b"*1\r\n",
    ] {
        assert!(
            matches!(Frame::check(bytes, 0), Err(Error::Incomplete)),
            "expected incomplete: {:?}",
            bytes
        );
        assert!(matches!(Frame::parse(bytes, 0), Err(Error::Incomplete)));
    }
}

#[test]
fn check_malformed_inputs() {
    for bytes in [
        &b"@hello\r\n"[..],
        b"!\r\n",
        b":abc\r\n",
        b":\r\n",
        b":18446744073709551616\r\n",
        b"$-2\r\n",
        b"$12x\r\n",
        b"$4\r\nPINGxx",
        b"*x\r\n",
        b"+h\xff\xfe\r\n",
    ] {
        assert!(
            matches!(Frame::check(bytes, 0), Err(Error::Other(_))),
            "expected malformed: {:?}",
            bytes
        );
        assert!(matches!(Frame::parse(bytes, 0), Err(Error::Other(_))));
    }
}

#[test]
fn parse_stops_at_frame_end() {
    let bytes = b"+one\r\n+two\r\n";
    let (f, used) = Frame::parse(bytes, 0).expect("parse");
    assert!(matches!(f, Frame::Simple(s) if s == "one"));
    assert_eq!(used, 6);
    let (g, used2) = Frame::parse(bytes, used).expect("parse rest");
    assert!(matches!(g, Frame::Simple(s) if s == "two"));
    assert_eq!(used2, bytes.len());
}

#[test]
fn cursor_helpers() {
    let bytes = b"abc\r\nrest";
    assert!(matches!(get_u8(bytes, 0), Ok(b'a')));
    assert!(matches!(get_u8(bytes, 9), Err(Error::Incomplete)));
    assert_eq!(get_line(bytes, 0).expect("line"), (3, 5));
    assert!(matches!(get_line(b"no end", 0), Err(Error::Incomplete)));
    assert_eq!(skip(bytes, 2, 3).expect("skip"), 5);
    assert!(matches!(skip(bytes, 5, 100), Err(Error::Incomplete)));
    assert_eq!(get_decimal(b"804\r\n", 0).expect("decimal"), (804, 5));
    assert!(matches!(get_decimal(b"8x\r\n", 0), Err(Error::Other(_))));
}

#[test]
fn fragmented_delivery() {
    let mut conn = Connection::new();
    conn.feed(b"*1\r\n$4\r\nPI");
    assert!(matches!(conn.parse_frame(), Ok(None)));
    conn.feed(b"NG\r\n");
    let frame = conn.parse_frame().expect("no error").expect("a frame");
    let expected = {
        let mut a = Frame::array();
        a.push_bulk(b"PING".to_vec());
        a
    };
    assert!(frames_equal(&frame, &expected));
    assert!(matches!(conn.parse_frame(), Ok(None)));
    assert_eq!(conn.buffered(), 0);
}

#[test]
fn fragmented_delivery_byte_by_byte() {
    let wire = Frame::Array(vec![
        Frame::Bulk(b"set".to_vec()),
        Frame::Bulk(b"k".to_vec()),
        Frame::Bulk(b"v".to_vec()),
    ])
    .encode();
    let mut conn = Connection::new();
    for (i, b) in wire.iter().enumerate() {
        conn.feed(&[*b]);
        if i + 1 < wire.len() {
            assert!(matches!(conn.parse_frame(), Ok(None)), "early at {}", i);
        }
    }
    let frame = conn.parse_frame().expect("no error").expect("a frame");
    assert!(matches!(frame, Frame::Array(items) if items.len() == 3));
}

#[test]
fn connection_keeps_remainder() {
    let mut conn = Connection::new();
    conn.feed(b"+one\r\n+tw");
    let first = conn.parse_frame().expect("ok").expect("frame");
    assert!(matches!(first, Frame::Simple(s) if s == "one"));
    assert!(matches!(conn.parse_frame(), Ok(None)));
    conn.feed(b"o\r\n");
    let second = conn.parse_frame().expect("ok").expect("frame");
    assert!(matches!(second, Frame::Simple(s) if s == "two"));
}

#[test]
fn connection_rejects_malformed() {
    let mut conn = Connection::new();
    conn.feed(b"!bad\r\n");
    assert!(matches!(conn.parse_frame(), Err(Error::Other(_))));
}
