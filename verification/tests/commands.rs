//! Tests of the command layer and the store: end-to-end request handling,
//! unknown commands, connection isolation, and the store's contracts.

use tiny_redis::cmd::{Command, Get, Ping, SetCmd};
use tiny_redis::connection::Connection;
use tiny_redis::db::Db;
use tiny_redis::frame::Frame;
use tiny_redis::parse::{Parse, ParseError};
use tiny_redis::server::handle_frame;

fn request(parts: &[&[u8]]) -> Frame {
    let mut frame = Frame::array();
    for p in parts {
        frame.push_bulk(p.to_vec());
    }
    frame
}

#[test]
fn scenario_ping_no_payload() {
    let mut db = Db::new();
    let resp = handle_frame(&mut db, request(&[b"PING"])).expect("ok");
    assert!(matches!(resp, Frame::Simple(s) if s == "PONG"));
}

#[test]
fn scenario_ping_with_payload() {
    let mut db = Db::new();
    let resp = handle_frame(&mut db, request(&[b"PING", b"hi"])).expect("ok");
    assert!(matches!(resp, Frame::Bulk(b) if b == b"hi"));
}

#[test]
fn scenario_set_then_get() {
    let mut db = Db::new();
    let resp = handle_frame(&mut db, request(&[b"SET", b"foo", b"bar"])).expect("ok");
    assert!(matches!(resp, Frame::Simple(s) if s == "OK"));
    let resp = handle_frame(&mut db, request(&[b"GET", b"foo"])).expect("ok");
    assert!(matches!(resp, Frame::Bulk(b) if b == b"bar"));
}

#[test]
fn scenario_get_missing() {
    let mut db = Db::new();
    let resp = handle_frame(&mut db, request(&[b"GET", b"missing"])).expect("ok");
    assert!(matches!(resp, Frame::Null));
}

#[test]
fn get_absent_is_null_never_error() {
    let mut db = Db::new();
    assert!(db.get("nope").is_none());
    for key in ["", "a", "long"] {
        let resp = handle_frame(&mut db, request(&[b"get", key.as_bytes()])).expect("ok");
        assert!(matches!(resp, Frame::Null));
    }
}

#[test]
fn set_get_empty_value_and_long_key() {
    let mut db = Db::new();
    db.set(String::new(), Vec::new());
    assert_eq!(db.get("").expect("present"), b"");
    let key = "k".repeat(10_000);
    db.set(key.clone(), b"v".to_vec());
    assert_eq!(db.get(&key).expect("present"), b"v");
}

#[test]
fn set_overwrites_last_writer_wins() {
    let mut db = Db::new();
    db.set("k".to_string(), b"one".to_vec());
    db.set("k".to_string(), b"two".to_vec());
    assert_eq!(db.get("k").expect("present"), b"two");
    db.set("other".to_string(), b"x".to_vec());
    assert_eq!(db.get("k").expect("present"), b"two");
}

#[test]
fn unknown_command_keeps_connection_usable() {
    let mut db = Db::new();
    let resp = handle_frame(&mut db, request(&[b"FOO"])).expect("not fatal");
    assert!(matches!(resp, Frame::Error(msg) if msg == "ERR unknown command 'FOO'"));
    let resp = handle_frame(&mut db, request(&[b"PING"])).expect("still usable");
    assert!(matches!(resp, Frame::Simple(s) if s == "PONG"));
}

#[test]
fn malformed_tag_fails_only_that_connection() {
    let mut db = Db::new();
    let mut bad = Connection::new();
    let mut good = Connection::new();
    bad.feed(b"!oops\r\n");
    assert!(bad.parse_frame().is_err());
    good.feed(&request(&[b"SET", b"k", b"v"]).encode());
    let frame = good.parse_frame().expect("ok").expect("frame");
    let resp = handle_frame(&mut db, frame).expect("ok");
    assert!(matches!(resp, Frame::Simple(s) if s == "OK"));
    assert_eq!(db.get("k").expect("present"), b"v");
}

#[test]
fn command_name_case_insensitive() {
    let mut db = Db::new();
    for name in [&b"ping"[..], b"PING", b"PiNg"] {
        let resp = handle_frame(&mut db, request(&[name])).expect("ok");
        assert!(matches!(resp, Frame::Simple(s) if s == "PONG"));
    }
}

#[test]
fn simple_frame_arguments_accepted() {
    let mut db = Db::new();
    let frame = Frame::Array(vec![
        Frame::Simple("set".to_string()),
        Frame::Simple("k".to_string()),
        Frame::Simple("v".to_string()),
    ]);
    let resp = handle_frame(&mut db, frame).expect("ok");
    assert!(matches!(resp, Frame::Simple(s) if s == "OK"));
    assert_eq!(db.get("k").expect("present"), b"v");
}

#[test]
fn wrong_arguments_are_fatal() {
    let mut db = Db::new();
    assert!(matches!(
        handle_frame(&mut db, request(&[b"get"])),
        Err(ParseError::EndOfStream)
    ));
    assert!(matches!(
        handle_frame(&mut db, request(&[b"set", b"k"])),
        Err(ParseError::EndOfStream)
    ));
    assert!(matches!(
        handle_frame(&mut db, request(&[b"ping", b"a", b"b"])),
        Err(ParseError::Other(_))
    ));
    assert!(matches!(
        handle_frame(&mut db, request(&[b"get", b"k", b"extra"])),
        Err(ParseError::Other(_))
    ));
    assert!(matches!(
        handle_frame(&mut db, request(&[])),
        Err(ParseError::EndOfStream)
    ));
}

#[test]
fn non_array_request_is_fatal() {
    let mut db = Db::new();
    assert!(matches!(
        handle_frame(&mut db, Frame::Simple("ping".to_string())),
        Err(ParseError::Other(_))
    ));
    assert!(matches!(
        handle_frame(&mut db, Frame::Integer(3)),
        Err(ParseError::Other(_))
    ));
}

#[test]
fn invalid_utf8_command_name_is_fatal() {
    let mut db = Db::new();
    assert!(matches!(
        handle_frame(&mut db, request(&[b"\xff\xfe"])),
        Err(ParseError::Other(_))
    ));
}

#[test]
fn non_utf8_key_is_fatal_but_value_may_be_binary() {
    let mut db = Db::new();
    assert!(matches!(
        handle_frame(&mut db, request(&[b"set", b"\xff", b"v"])),
        Err(ParseError::Other(_))
    ));
    let resp = handle_frame(&mut db, request(&[b"set", b"k", b"\x00\xff\r\n"])).expect("ok");
    assert!(matches!(resp, Frame::Simple(s) if s == "OK"));
    assert_eq!(db.get("k").expect("present"), b"\x00\xff\r\n");
}

#[test]
fn unknown_name_with_arguments_still_answers() {
    let mut db = Db::new();
    let resp = handle_frame(&mut db, request(&[b"FOO", b"arg"])).expect("ok");
    assert!(matches!(resp, Frame::Error(_)));
}

#[test]
fn parse_cursor_contract() {
    let frame = request(&[b"one", b"two"]);
    let mut parse = Parse::new(frame).expect("array");
    assert_eq!(parse.next_string().expect("first"), "one");
    assert_eq!(parse.next_bytes().expect("second"), b"two");
    assert!(parse.finish().is_ok());

    let mut parse = Parse::new(request(&[])).expect("array");
    assert!(matches!(
        parse.next_string(),
        Err(ParseError::EndOfStream)
    ));

    assert!(Parse::new(Frame::Null).is_err());

    let mut parse =
        Parse::new(Frame::Array(vec![Frame::Integer(1)])).expect("array");
    assert!(matches!(parse.next_string(), Err(ParseError::Other(_))));
}

#[test]
fn client_request_frames() {
    let ping = Ping::new(None).into_frame();
    assert_eq!(ping.encode(), b"*1\r\n$4\r\nping\r\n");
    let ping = Ping::new(Some(b"hi".to_vec())).into_frame();
    assert_eq!(ping.encode(), b"*2\r\n$4\r\nping\r\n$2\r\nhi\r\n");
    let get = Get::new("foo".to_string()).into_frame();
    assert_eq!(get.encode(), b"*2\r\n$3\r\nget\r\n$3\r\nfoo\r\n");
    let set = SetCmd::new("foo".to_string(), b"bar".to_vec()).into_frame();
    assert_eq!(set.encode(), b"*3\r\n$3\r\nset\r\n$3\r\nfoo\r\n$3\r\nbar\r\n");
}

#[test]
fn client_frames_parse_back_as_commands() {
    let frame = SetCmd::new("foo".to_string(), b"bar".to_vec()).into_frame();
    let cmd = Command::from_frame(frame).expect("ok");
    assert!(matches!(cmd, Command::SetCmd(s) if s.key() == "foo" && s.value() == b"bar"));
    let frame = Get::new("foo".to_string()).into_frame();
    let cmd = Command::from_frame(frame).expect("ok");
    assert!(matches!(cmd, Command::Get(g) if g.key() == "foo"));
    let frame = Ping::new(None).into_frame();
    let cmd = Command::from_frame(frame).expect("ok");
    assert_eq!(cmd.get_name(), "ping");
}

#[test]
fn end_to_end_over_connection() {
    let mut db = Db::new();
    let mut conn = Connection::new();
    conn.feed(&request(&[b"SET", b"answer", b"42"]).encode());
    conn.feed(&request(&[b"GET", b"answer"]).encode());
    let frame = conn.parse_frame().expect("ok").expect("frame");
    let resp = handle_frame(&mut db, frame).expect("ok");
    assert!(matches!(resp, Frame::Simple(s) if s == "OK"));
    let frame = conn.parse_frame().expect("ok").expect("frame");
    let resp = handle_frame(&mut db, frame).expect("ok");
    assert!(matches!(resp, Frame::Bulk(b) if b == b"42"));
    assert!(matches!(conn.parse_frame(), Ok(None)));
}
