use byo_redis::connection::{Connection, ConnectionError};
use byo_redis::cursor::Cursor;
use byo_redis::frame::{Frame, FrameError};
use bytes::Bytes;

fn check(input: &[u8]) -> (Result<(), FrameError>, u64) {
    let mut c = Cursor::new(input);
    let r = Frame::check(&mut c);
    (r, c.position())
}

fn parse(input: &[u8]) -> (Result<Frame, FrameError>, u64) {
    let mut c = Cursor::new(input);
    let r = Frame::parse(&mut c);
    (r, c.position())
}

fn invalid_message(r: Result<(), FrameError>) -> String {
    match r {
        Err(FrameError::Invalid(m)) => m,
        other => panic!("expected an invalid frame, got {:?}", other),
    }
}

#[test]
fn check_accepts_whole_frames() {
    assert_eq!(check(b"+OK\r\n").1, 5);
    assert!(check(b"+OK\r\n").0.is_ok());
    assert_eq!(check(b"-ERR bad\r\nrest").1, 10);
    assert_eq!(check(b":-42\r\n").1, 6);
    assert_eq!(check(b"$5\r\nhello\r\n").1, 11);
    assert_eq!(check(b"$-1\r\n").1, 5);
    assert_eq!(check(b"*2\r\n$3\r\nGET\r\n$1\r\nk\r\n").1, 20);
    assert_eq!(check(b"*0\r\n").1, 4);
}

#[test]
fn check_reports_incomplete_frames() {
    for input in [
        &b""[..],
        b"+OK",
        b"+OK\r",
        b":12",
        b"$",
        b"$-",
        b"$5\r\nhel",
        b"$5\r\nhello\r",
        b"*2\r\n$3\r\nGET\r\n",
        b"*1\r\n",
    ] {
        assert!(matches!(check(input).0, Err(FrameError::Incomplete)), "{:?}", input);
    }
}

#[test]
fn check_reports_invalid_frames() {
    assert_eq!(invalid_message(check(b"?x\r\n").0), "protocol error; invalid frame type byte `63`");
    assert_eq!(invalid_message(check(b":abc\r\n").0), "invalid number");
    assert_eq!(invalid_message(check(b"$-2\r\n").0), "protocol error; invalid frame format");
    assert_eq!(invalid_message(check(b"*1\r\n!\r\n").0), "protocol error; invalid frame type byte `33`");
}

#[test]
fn numbers_follow_atoi() {
    // A lone sign reads as zero; digits stop at the first non-digit.
    assert!(matches!(parse(b":-\r\n").0, Ok(Frame::Integer(0))));
    assert!(matches!(parse(b":+7\r\n").0, Ok(Frame::Integer(7))));
    assert!(matches!(parse(b":12ab\r\n").0, Ok(Frame::Integer(12))));
    assert!(matches!(parse(b":-9223372036854775808\r\n").0, Ok(Frame::Integer(i64::MIN))));
    assert!(matches!(parse(b":9223372036854775808\r\n").0, Err(FrameError::Invalid(_))));
    // A bulk length may carry a plus sign.
    assert_eq!(check(b"$+2\r\nab\r\n").1, 9);
}

#[test]
fn negative_array_length_passes_check_but_not_parse() {
    assert!(check(b"*-1\r\n").0.is_ok());
    match parse(b"*-1\r\n").0 {
        Err(FrameError::Invalid(m)) => assert_eq!(m, "protocol error; invalid frame format"),
        other => panic!("{:?}", other),
    }
}

#[test]
fn parse_reads_each_kind() {
    let (r, pos) = parse(b"*3\r\n+OK\r\n:5\r\n$-1\r\n");
    assert_eq!(pos, 18);
    match r.unwrap() {
        Frame::Array(parts) => {
            assert_eq!(parts.len(), 3);
            assert!(parts[0] == "OK");
            assert!(matches!(parts[1], Frame::Integer(5)));
            assert!(matches!(parts[2], Frame::Null));
        }
        other => panic!("{:?}", other),
    }
    match parse(b"-boom\r\n").0.unwrap() {
        Frame::Error(b) => assert_eq!(&b[..], b"boom"),
        other => panic!("{:?}", other),
    }
    match parse(b"$4\r\na\r\nb\r\n").0.unwrap() {
        Frame::Bulk(b) => assert_eq!(&b[..], b"a\r\nb"),
        other => panic!("{:?}", other),
    }
}

#[test]
fn encode_writes_resp() {
    assert_eq!(Frame::Simple(Bytes::from("OK")).encode(), b"+OK\r\n".to_vec());
    assert_eq!(Frame::Error(Bytes::from("ERR x")).encode(), b"-ERR x\r\n".to_vec());
    assert_eq!(Frame::Integer(-12).encode(), b":-12\r\n".to_vec());
    assert_eq!(Frame::Integer(i64::MIN).encode(), b":-9223372036854775808\r\n".to_vec());
    assert_eq!(Frame::Bulk(Bytes::from("")).encode(), b"$0\r\n\r\n".to_vec());
    assert_eq!(Frame::Null.encode(), b"$-1\r\n".to_vec());
    let nested = Frame::Array(vec![Frame::Array(vec![Frame::Integer(1)]), Frame::Null]);
    assert_eq!(nested.encode(), b"*2\r\n*1\r\n:1\r\n$-1\r\n".to_vec());
}

#[test]
fn written_frames_read_back() {
    let frame = Frame::Array(vec![
        Frame::Simple(Bytes::from("a\rb")),
        Frame::Error(Bytes::from("e")),
        Frame::Integer(i64::MAX),
        Frame::Bulk(Bytes::from(vec![0u8, 13, 10, 255])),
        Frame::Null,
        Frame::Array(vec![]),
    ]);
    let bytes = frame.encode();
    let (r, pos) = parse(&bytes);
    assert_eq!(pos as usize, bytes.len());
    assert_eq!(r.unwrap().encode(), bytes);
    assert_eq!(check(&bytes).1 as usize, bytes.len());
}

#[test]
fn connection_takes_one_frame_at_a_time() {
    let mut conn = Connection::new(());
    let mut input = Frame::Simple(Bytes::from("one")).encode();
    input.extend(Frame::Integer(2).encode());
    input.extend(b"$3\r\nth");
    conn.receive(&input);
    assert!(conn.parse_frame().unwrap().unwrap() == "one");
    assert!(matches!(conn.parse_frame().unwrap(), Some(Frame::Integer(2))));
    assert!(conn.parse_frame().unwrap().is_none());
    conn.receive(b"r\r\n");
    assert!(conn.parse_frame().unwrap().unwrap() == "thr");
    assert!(conn.parse_frame().unwrap().is_none());
}

#[test]
fn connection_reports_invalid_frames_and_keeps_the_bytes() {
    let mut conn = Connection::new(());
    conn.receive(b"%\r\n");
    assert!(matches!(conn.parse_frame(), Err(FrameError::Invalid(_))));
    assert!(matches!(conn.parse_frame(), Err(FrameError::Invalid(_))));
}

#[test]
fn display_text() {
    assert_eq!(Frame::Simple(Bytes::from("hi")).to_string(), "hi");
    assert_eq!(Frame::Bulk(Bytes::from(vec![0xffu8, b'a'])).to_string(), "b\"\\xffa\"");
    assert_eq!(Frame::Error(Bytes::from("bad\n")).to_string(), "error: b\"bad\\n\"");
    assert_eq!(Frame::Integer(-3).to_string(), "-3");
    assert_eq!(Frame::Null.to_string(), "(nil)");
    let arr = Frame::Array(vec![Frame::Integer(1), Frame::Simple(Bytes::from("x")), Frame::Null]);
    assert_eq!(arr.to_string(), "1 x (nil)");
    assert_eq!(Frame::Array(vec![]).to_string(), "");
    assert_eq!(arr.to_error(), "unexpected frame: 1 x (nil)");
}

#[test]
fn frames_equal_strings() {
    assert!(Frame::Simple(Bytes::from("PONG")) == "PONG");
    assert!(Frame::Bulk(Bytes::from("héllo")) == "héllo");
    assert!(!(Frame::Bulk(Bytes::from("a")) == "b"));
    assert!(!(Frame::Error(Bytes::from("a")) == "a"));
    assert!(!(Frame::Null == ""));
}

#[test]
fn frame_error_messages() {
    assert_eq!(FrameError::Incomplete.to_string(), "stream ended early");
    assert_eq!(FrameError::Invalid("x".to_string()).to_string(), "x");
    assert!(matches!(FrameError::from("y".to_string()), FrameError::Invalid(ref m) if m == "y"));
}

#[test]
fn cursor_moves() {
    let data = [1u8, 2, 3];
    let mut c = Cursor::new(&data);
    assert_eq!(c.remaining(), 3);
    assert_eq!(c.get_u8(), 1);
    assert_eq!(c.chunk(), &[2, 3]);
    c.advance(2);
    assert!(!c.has_remaining());
    c.set_position(10);
    assert_eq!(c.remaining(), 0);
    assert_eq!(c.chunk(), &[] as &[u8]);
    assert_eq!(c.get_ref(), &data);
}

#[test]
fn connection_error_messages() {
    let e: ConnectionError = FrameError::Incomplete.into();
    assert_eq!(e.to_string(), "stream ended early");
    let io: ConnectionError = std::io::Error::other("disk on fire").into();
    assert_eq!(io.to_string(), "disk on fire");
}

#[test]
fn check_ignores_what_follows_and_cut_frames_are_incomplete() {
    let frames: [&[u8]; 5] = [
        b"+OK\r\n",
        b":-42\r\n",
        b"$5\r\nhello\r\n",
        b"*2\r\n$3\r\nGET\r\n$1\r\nk\r\n",
        b"*-1\r\n",
    ];
    for frame in frames {
        let end = check(frame).1;
        assert!(check(frame).0.is_ok());
        let mut longer = frame.to_vec();
        longer.extend_from_slice(b"*9\r\nextra bytes");
        assert!(check(&longer).0.is_ok());
        assert_eq!(check(&longer).1, end);
        for k in 0..frame.len() {
            assert!(
                matches!(check(&frame[..k]).0, Err(FrameError::Incomplete)),
                "{:?} cut at {}",
                frame,
                k
            );
        }
    }
}

#[test]
fn checked_frames_parse_to_the_same_end() {
    for frame in [
        &b"-ERR x\r\n"[..],
        b"$0\r\n\r\n",
        b"$-1\r\n",
        b"*3\r\n:1\r\n*0\r\n+a\r\n",
    ] {
        let (checked, end) = check(frame);
        assert!(checked.is_ok());
        let (parsed, stop) = parse(frame);
        assert!(parsed.is_ok());
        assert_eq!(stop, end);
    }
    // A nested negative count passes check and is rejected by parse.
    assert!(check(b"*1\r\n*-1\r\n").0.is_ok());
    match parse(b"*1\r\n*-1\r\n").0 {
        Err(FrameError::Invalid(m)) => assert_eq!(m, "protocol error; invalid frame format"),
        other => panic!("expected an invalid frame, got {:?}", other),
    }
}

#[test]
fn frames_split_across_reads_come_out_in_order() {
    let frames = vec![
        Frame::Simple(Bytes::from_static(b"OK")),
        Frame::Array(vec![
            Frame::Bulk(Bytes::from_static(b"SET")),
            Frame::Bulk(Bytes::from_static(b"k")),
            Frame::Bulk(Bytes::from_static(b"v\r\nw")),
        ]),
        Frame::Integer(-7),
        Frame::Null,
    ];
    let mut bytes = Vec::new();
    for f in &frames {
        bytes.extend_from_slice(&f.encode());
    }
    for size in 1..=bytes.len() {
        let mut conn = Connection::new(());
        let mut read = Vec::new();
        for chunk in bytes.chunks(size) {
            conn.receive(chunk);
            while let Some(f) = conn.parse_frame().unwrap() {
                read.push(f.encode());
            }
        }
        assert_eq!(conn.buffered_len(), 0);
        let expected: Vec<Vec<u8>> = frames.iter().map(|f| f.encode()).collect();
        assert_eq!(read, expected, "reads of {} bytes", size);
    }
}

#[test]
fn error_text_escapes_bytes() {
    let f = Frame::Error(Bytes::from_static(b"h\n\r\t\\\"\0~\x7f\xff"));
    assert_eq!(f.to_string(), "error: b\"h\\n\\r\\t\\\\\\\"\\0~\\x7f\\xff\"");
    let g = Frame::Bulk(Bytes::from_static(b"\x80a"));
    assert_eq!(g.to_string(), "b\"\\x80a\"");
}
