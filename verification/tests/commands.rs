use byo_redis::command::{Apply, Command, CommandError};
use byo_redis::connection::Connection;
use byo_redis::db::Db;
use byo_redis::frame::Frame;
use byo_redis::parse::ParseError;
use byo_redis::server::{after_read, after_reply, HandlerAction, HandlerError};
use bytes::Bytes;

/// Sends `request` (RESP bytes) through a connection's read side, the
/// handler's decisions and the store, and returns the RESP bytes written back.
fn serve(db: &mut Db, request: &[u8]) -> Vec<u8> {
    let mut conn = Connection::new(());
    conn.receive(request);
    let read = conn.parse_frame().map_err(Into::into);
    match after_read(read) {
        HandlerAction::Dispatch(command) => {
            let reply = after_reply(command.apply(db)).expect("command failed");
            reply.encode()
        }
        HandlerAction::Close => panic!("connection closed"),
        HandlerAction::Fail(e) => panic!("handler failed: {:?}", e),
    }
}

fn command(parts: &[&str]) -> Vec<u8> {
    let frame = Frame::Array(parts.iter().map(|p| Frame::Bulk(Bytes::copy_from_slice(p.as_bytes()))).collect());
    frame.encode()
}

#[test]
fn echo_message() {
    let mut db = Db::new();
    let reply = serve(&mut db, &command(&["ECHO", "Hello World!"]));
    assert_eq!(reply, b"$12\r\nHello World!\r\n".to_vec());
}

#[test]
fn get_set() {
    let mut db = Db::new();
    assert_eq!(serve(&mut db, &command(&["GET", "key"])), b"$-1\r\n".to_vec());
    assert_eq!(serve(&mut db, &command(&["DBSIZE"])), b":0\r\n".to_vec());
    assert_eq!(serve(&mut db, &command(&["SET", "key", "value"])), b"+OK\r\n".to_vec());
    assert_eq!(serve(&mut db, &command(&["DBSIZE"])), b":1\r\n".to_vec());
    assert_eq!(serve(&mut db, &command(&["GET", "key"])), b"$5\r\nvalue\r\n".to_vec());
}

#[test]
fn ping_no_arg() {
    let mut db = Db::new();
    assert_eq!(serve(&mut db, &command(&["PING"])), b"+PONG\r\n".to_vec());
}

#[test]
fn ping_with_message() {
    let mut db = Db::new();
    assert_eq!(serve(&mut db, &command(&["PING", "hello"])), b"$5\r\nhello\r\n".to_vec());
}

#[test]
fn set_overwrites_and_counts_keys_once() {
    let mut db = Db::new();
    serve(&mut db, &command(&["SET", "a", "1"]));
    serve(&mut db, &command(&["SET", "b", "2"]));
    serve(&mut db, &command(&["SET", "a", "3"]));
    assert_eq!(db.len(), 2);
    assert_eq!(serve(&mut db, &command(&["GET", "a"])), b"$1\r\n3\r\n".to_vec());
    assert_eq!(serve(&mut db, &command(&["get", "b"])), b"$1\r\n2\r\n".to_vec());
    assert_eq!(serve(&mut db, &command(&["DBSIZE"])), b":2\r\n".to_vec());
}

#[test]
fn command_names_ignore_case() {
    let mut db = Db::new();
    assert_eq!(serve(&mut db, &command(&["pInG"])), b"+PONG\r\n".to_vec());
    assert_eq!(serve(&mut db, &command(&["echo", "x"])), b"$1\r\nx\r\n".to_vec());
}

#[test]
fn simple_string_parts_are_accepted() {
    let mut db = Db::new();
    let frame = Frame::Array(vec![
        Frame::Simple(Bytes::from("ECHO")),
        Frame::Simple(Bytes::from("hi")),
    ]);
    assert_eq!(serve(&mut db, &frame.encode()), b"$2\r\nhi\r\n".to_vec());
}

#[test]
fn unknown_command_replies_with_error() {
    let mut db = Db::new();
    assert_eq!(
        serve(&mut db, &command(&["FLUSHALL", "now"])),
        b"-ERR unknown command 'FLUSHALL'\r\n".to_vec()
    );
}

#[test]
fn unknown_command_name_that_is_not_utf8() {
    let mut db = Db::new();
    let frame = Frame::Array(vec![Frame::Bulk(Bytes::from(vec![b'a', 0xff]))]);
    let cmd = Command::from_frame(frame).unwrap();
    let reply = cmd.apply(&mut db).unwrap();
    assert!(matches!(reply, Frame::Error(ref b) if b[..] == "ERR unknown command 'a\u{fffd}'".as_bytes()[..]));
}

#[test]
fn wrong_argument_counts_are_parse_errors() {
    let too_many = Frame::Array(vec![
        Frame::Bulk(Bytes::from("GET")),
        Frame::Bulk(Bytes::from("a")),
        Frame::Bulk(Bytes::from("b")),
    ]);
    match Command::from_frame(too_many) {
        Err(ParseError::Other(m)) => assert_eq!(m, "protocol error; expected end of frame, but there was more"),
        _ => panic!("expected an error"),
    }
    let too_few = Frame::Array(vec![Frame::Bulk(Bytes::from("SET")), Frame::Bulk(Bytes::from("a"))]);
    assert!(matches!(Command::from_frame(too_few), Err(ParseError::EndOfStream)));
    let get_without_key = Frame::Array(vec![Frame::Bulk(Bytes::from("GET"))]);
    assert!(matches!(Command::from_frame(get_without_key), Err(ParseError::EndOfStream)));
}

#[test]
fn command_frame_must_be_array_of_strings() {
    match Command::from_frame(Frame::Integer(3)) {
        Err(ParseError::Other(m)) => assert_eq!(m, "protocol error; expected array, got 3"),
        _ => panic!("expected an error"),
    }
    let frame = Frame::Array(vec![Frame::Bulk(Bytes::from("ECHO")), Frame::Integer(7)]);
    match Command::from_frame(frame) {
        Err(ParseError::Other(m)) => {
            assert_eq!(m, "protocol error; expected simple frame or bulk frame, got 7")
        }
        _ => panic!("expected an error"),
    }
    let empty = Frame::Array(vec![]);
    assert!(matches!(Command::from_frame(empty), Err(ParseError::EndOfStream)));
}

#[test]
fn ping_with_a_non_string_argument_fails() {
    let frame = Frame::Array(vec![Frame::Bulk(Bytes::from("PING")), Frame::Null]);
    match Command::from_frame(frame) {
        Err(ParseError::Other(m)) => {
            assert_eq!(m, "protocol error; expected simple frame or bulk frame, got (nil)")
        }
        _ => panic!("expected an error"),
    }
}

#[test]
fn handler_closes_and_fails() {
    assert!(matches!(after_read(Ok(None)), HandlerAction::Close));
    let e = byo_redis::connection::ConnectionError::Parse(byo_redis::frame::FrameError::Incomplete);
    assert!(matches!(after_read(Err(e)), HandlerAction::Fail(HandlerError::Connection(_))));
    assert!(matches!(
        after_read(Ok(Some(Frame::Null))),
        HandlerAction::Fail(HandlerError::Parse(ParseError::Other(_)))
    ));
    assert!(matches!(
        after_reply(Err(CommandError::InternalError)),
        Err(HandlerError::Command(CommandError::InternalError))
    ));
}

#[test]
fn command_error_messages() {
    assert_eq!(CommandError::UnknownCommand.to_string(), "unknown command");
    assert_eq!(CommandError::WrongNumberOfArguments.to_string(), "wrong number of arguments");
    assert_eq!(CommandError::InvalidArgument.to_string(), "invalid argument");
    assert_eq!(CommandError::InternalError.to_string(), "internal error");
}

#[test]
fn only_set_changes_the_store() {
    let mut db = Db::new();
    serve(&mut db, &command(&["SET", "k", "v"]));
    for request in [
        command(&["GET", "k"]),
        command(&["GET", "missing"]),
        command(&["ECHO", "k"]),
        command(&["PING"]),
        command(&["DBSIZE"]),
        command(&["DEL", "k"]),
    ] {
        serve(&mut db, &request);
        assert_eq!(db.len(), 1);
        assert_eq!(serve(&mut db, &command(&["GET", "k"])), b"$1\r\nv\r\n".to_vec());
    }
}
