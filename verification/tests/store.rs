use byo_redis::args::Args;
use byo_redis::command::dbsize::DbSize;
use byo_redis::command::ping::Ping;
use byo_redis::command::unknown::Unknown;
use byo_redis::command::Apply;
use byo_redis::db::{Db, Value};
use byo_redis::decimal::{atoi_i64, decimal_of_u64};
use byo_redis::frame::Frame;
use byo_redis::parse::{ParseError, Parser};
use byo_redis::text::to_ascii_lowercase;
use bytes::Bytes;

#[test]
fn db_get_insert_len() {
    let mut db = Db::default();
    assert_eq!(db.len(), 0);
    assert!(db.get(b"k").is_none());
    db.insert(Bytes::from("k"), Value::String(Bytes::from("v")));
    db.insert(Bytes::from("j"), Value::Members(vec![Bytes::from("m")]));
    assert_eq!(db.len(), 2);
    assert!(matches!(db.get(b"k"), Some(Value::String(v)) if &v[..] == b"v"));
    db.insert(Bytes::from("k"), Value::String(Bytes::from("w")));
    assert_eq!(db.len(), 2);
    assert!(matches!(db.get(b"k"), Some(Value::String(v)) if &v[..] == b"w"));
}

#[test]
fn get_of_a_non_string_value() {
    let mut db = Db::new();
    db.insert(Bytes::from("l"), Value::List(std::collections::VecDeque::new()));
    let frame = Frame::Array(vec![Frame::Bulk(Bytes::from("GET")), Frame::Bulk(Bytes::from("l"))]);
    let cmd = byo_redis::command::Command::from_frame(frame).unwrap();
    match cmd.apply(&mut db).unwrap() {
        Frame::Error(b) => {
            assert_eq!(&b[..], b"WRONGTYPE Operation against a key holding the wrong kind of value")
        }
        other => panic!("{:?}", other),
    }
}

#[test]
fn parser_reads_parts_in_order() {
    let frame = Frame::Array(vec![Frame::Bulk(Bytes::from("a")), Frame::Integer(1)]);
    let mut p = Parser::new(frame).unwrap();
    assert_eq!(&p.next_bytes().unwrap()[..], b"a");
    assert!(matches!(p.next_bytes(), Err(ParseError::Other(_))));
    assert!(matches!(p.next_bytes(), Err(ParseError::EndOfStream)));
    assert!(p.finish().is_ok());
    let mut q = Parser::new(Frame::Array(vec![Frame::Null])).unwrap();
    assert!(q.finish().is_err());
    assert!(q.finish().is_ok());
}

#[test]
fn commands_built_directly() {
    let mut db = Db::new();
    let mut p = Parser::new(Frame::Array(vec![])).unwrap();
    assert!(matches!(DbSize::parse(&mut p).unwrap().apply(&mut db), Ok(Frame::Integer(0))));
    assert!(Ping::default().apply(&mut db).unwrap() == "PONG");
    let u = Unknown::new(Bytes::from("x"));
    assert!(matches!(u.apply(&mut db), Ok(Frame::Error(b)) if &b[..] == b"ERR unknown command 'x'"));
}

#[test]
fn listen_addresses() {
    let defaults = Args { port: None, bind: None, metrics_port: None, metrics_bind: None };
    assert_eq!(defaults.get_addr(), "127.0.0.1:6379");
    assert_eq!(defaults.get_metrics_addr_text(), "127.0.0.1:9000");
    let given = Args {
        port: Some(7000),
        bind: Some("0.0.0.0".to_string()),
        metrics_port: Some(0),
        metrics_bind: Some("::1".to_string()),
    };
    assert_eq!(given.get_addr(), "0.0.0.0:7000");
    assert_eq!(given.get_metrics_addr_text(), "::1:0");
}

#[test]
fn helpers() {
    assert_eq!(to_ascii_lowercase(b"GeT-1"), b"get-1".to_vec());
    assert_eq!(decimal_of_u64(0), b"0".to_vec());
    assert_eq!(decimal_of_u64(1234567), b"1234567".to_vec());
    assert_eq!(atoi_i64(b"-17x"), Some(-17));
    assert_eq!(atoi_i64(b"x"), None);
    assert_eq!(atoi_i64(b"+"), Some(0));
}
