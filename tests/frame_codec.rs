use mini_redis::frame::{Frame, FrameError};
use mini_redis::FrameReader;

fn bulk(s: &str) -> Frame {
    Frame::Bulk(s.as_bytes().to_vec())
}

fn round_trip(f: &Frame) {
    let bytes = f.encode();
    let (g, n) = Frame::parse(&bytes).unwrap();
    assert_eq!(n, bytes.len());
    assert_eq!(g.encode(), bytes);
}

#[test]
fn encodes_each_kind() {
    assert_eq!(Frame::Simple("OK".to_string()).encode(), b"+OK\r\n".to_vec());
    assert_eq!(Frame::Error("ERR x".to_string()).encode(), b"-ERR x\r\n".to_vec());
    assert_eq!(Frame::Integer(1000).encode(), b":1000\r\n".to_vec());
    assert_eq!(Frame::Integer(0).encode(), b":0\r\n".to_vec());
    assert_eq!(bulk("hi").encode(), b"$2\r\nhi\r\n".to_vec());
    assert_eq!(bulk("").encode(), b"$0\r\n\r\n".to_vec());
    assert_eq!(Frame::Null.encode(), b"$-1\r\n".to_vec());
    let a = Frame::Array(vec![bulk("get"), bulk("k")]);
    assert_eq!(a.encode(), b"*2\r\n$3\r\nget\r\n$1\r\nk\r\n".to_vec());
    assert_eq!(Frame::Array(vec![]).encode(), b"*0\r\n".to_vec());
}

#[test]
fn decodes_what_it_encodes() {
    round_trip(&Frame::Simple("OK".to_string()));
    round_trip(&Frame::Simple("你好世界".to_string()));
    round_trip(&Frame::Error("ERR unknown command 'x'".to_string()));
    round_trip(&Frame::Integer(u64::MAX));
    round_trip(&bulk("hello\r\nworld"));
    round_trip(&Frame::Bulk(vec![0, 255, 13, 10]));
    round_trip(&Frame::Null);
    round_trip(&Frame::Array(vec![
        bulk("set"),
        Frame::Integer(7),
        Frame::Array(vec![Frame::Null, Frame::Simple("a".to_string())]),
        Frame::Array(vec![]),
    ]));
}

#[test]
fn decoded_values_are_the_encoded_ones() {
    let (f, n) = Frame::parse(b":42\r\n").unwrap();
    assert_eq!(n, 5);
    assert!(matches!(f, Frame::Integer(42)));
    let (f, _) = Frame::parse(b"+PONG\r\n").unwrap();
    match f {
        Frame::Simple(s) => assert_eq!(s, "PONG"),
        _ => panic!("not a status line"),
    }
    let (f, _) = Frame::parse(b"$-1\r\n").unwrap();
    assert!(matches!(f, Frame::Null));
    let (f, _) = Frame::parse(b"*2\r\n$1\r\na\r\n:1\r\n").unwrap();
    match f {
        Frame::Array(parts) => {
            assert_eq!(parts.len(), 2);
            match &parts[0] {
                Frame::Bulk(b) => assert_eq!(b, b"a"),
                _ => panic!("not a bulk string"),
            }
            assert!(matches!(parts[1], Frame::Integer(1)));
        }
        _ => panic!("not an array"),
    }
}

#[test]
fn stops_at_the_end_of_the_first_frame() {
    let mut bytes = Frame::Integer(5).encode();
    bytes.extend_from_slice(b"+next\r\n");
    let (f, n) = Frame::parse(&bytes).unwrap();
    assert!(matches!(f, Frame::Integer(5)));
    assert_eq!(n, 4);
}

#[test]
fn every_strict_prefix_is_incomplete() {
    let f = Frame::Array(vec![bulk("publish"), bulk("ch"), Frame::Integer(12), Frame::Null]);
    let bytes = f.encode();
    for k in 0..bytes.len() {
        assert_eq!(Frame::parse(&bytes[..k]).err(), Some(FrameError::Incomplete));
    }
    assert!(Frame::parse(&bytes).is_ok());
}

#[test]
fn reader_gives_the_same_frames_whatever_the_chunks() {
    let frames = vec![
        Frame::Array(vec![bulk("set"), bulk("k"), bulk("v")]),
        Frame::Simple("OK".to_string()),
        Frame::Null,
    ];
    let mut whole = Vec::new();
    for f in &frames {
        whole.extend_from_slice(&f.encode());
    }
    for chunk in [1usize, 2, 3, 7, whole.len()] {
        let mut reader = FrameReader::new();
        let mut got = Vec::new();
        for piece in whole.chunks(chunk) {
            reader.feed(piece);
            while let Some(f) = reader.next_frame().unwrap() {
                got.push(f.encode());
            }
        }
        assert!(reader.is_empty());
        let want: Vec<Vec<u8>> = frames.iter().map(|f| f.encode()).collect();
        assert_eq!(got, want);
    }
}

#[test]
fn reader_keeps_a_partial_frame() {
    let mut reader = FrameReader::new();
    reader.feed(b"$5\r\nhel");
    assert!(reader.next_frame().unwrap().is_none());
    assert!(!reader.is_empty());
    reader.feed(b"lo\r\n");
    match reader.next_frame().unwrap() {
        Some(Frame::Bulk(b)) => assert_eq!(b, b"hello"),
        _ => panic!("expected a bulk string"),
    }
    assert!(reader.is_empty());
}

#[test]
fn rejects_malformed_input() {
    assert_eq!(Frame::parse(b"").err(), Some(FrameError::Incomplete));
    assert_eq!(Frame::parse(b"+OK").err(), Some(FrameError::Incomplete));
    assert_eq!(Frame::parse(b"?x\r\n").err(), Some(FrameError::Protocol));
    assert_eq!(Frame::parse(b":abc\r\n").err(), Some(FrameError::Protocol));
    assert_eq!(Frame::parse(b":\r\n").err(), Some(FrameError::Protocol));
    assert_eq!(Frame::parse(b":18446744073709551616\r\n").err(), Some(FrameError::Overflow));
    assert_eq!(Frame::parse(b":18446744073709551615\r\n").map(|(_, n)| n), Ok(23));
    assert_eq!(Frame::parse(b"$5\r\nhello!!").err(), Some(FrameError::Protocol));
    assert_eq!(Frame::parse(b"$-2\r\n").err(), Some(FrameError::Protocol));
    assert_eq!(Frame::parse(b"+\xff\r\n").err(), Some(FrameError::Utf8));
    assert_eq!(Frame::parse(b"+a\nb\r\n").err(), Some(FrameError::Protocol));
    assert_eq!(Frame::parse(b"$536870913\r\n").err(), Some(FrameError::Overflow));
    assert_eq!(Frame::parse(b"*536870913\r\n").err(), Some(FrameError::Overflow));
    let mut reader = FrameReader::new();
    reader.feed(b"!\r\n");
    assert_eq!(reader.next_frame().err(), Some(FrameError::Protocol));
}

#[test]
fn builds_arrays_by_pushing() {
    let mut f = Frame::array();
    f.push_bulk(b"subscribe".to_vec());
    f.push_int(3);
    assert_eq!(f.encode(), b"*2\r\n$9\r\nsubscribe\r\n:3\r\n".to_vec());
}
