use mini_redis::cli::duration_from_ms_str;
use mini_redis::cmd::{Get, Ping, Publish, SetCmd, Subscribe, Unknown, Unsubscribe};
use mini_redis::frame::Frame;
use mini_redis::parse::{Parse, ParseError};
use mini_redis::Command;

fn bulk(s: &str) -> Frame {
    Frame::Bulk(s.as_bytes().to_vec())
}

fn request(parts: &[&str]) -> Frame {
    Frame::Array(parts.iter().map(|p| bulk(p)).collect())
}

#[test]
fn reads_get_whatever_the_case_of_its_name() {
    match Command::from_frame(request(&["GeT", "hello"])).unwrap() {
        Command::Get(g) => assert_eq!(g.key(), "hello"),
        _ => panic!("not a get"),
    }
}

#[test]
fn reads_set_with_and_without_expiry() {
    match Command::from_frame(request(&["set", "k", "v"])).unwrap() {
        Command::SetCmd(s) => {
            assert_eq!(s.key(), "k");
            assert_eq!(s.value(), &b"v".to_vec());
            assert_eq!(s.expire(), None);
        }
        _ => panic!("not a set"),
    }
    match Command::from_frame(request(&["SET", "k", "v", "ex", "10"])).unwrap() {
        Command::SetCmd(s) => assert_eq!(s.expire(), Some(10_000)),
        _ => panic!("not a set"),
    }
    let with_int = Frame::Array(vec![bulk("set"), bulk("k"), bulk("v"), bulk("PX"), Frame::Integer(100)]);
    match Command::from_frame(with_int).unwrap() {
        Command::SetCmd(s) => assert_eq!(s.expire(), Some(100)),
        _ => panic!("not a set"),
    }
}

#[test]
fn refuses_bad_arguments() {
    assert_eq!(Command::from_frame(request(&["set", "k", "v", "xx", "1"])).err(), Some(ParseError::Invalid));
    assert_eq!(Command::from_frame(request(&["set", "k", "v", "px"])).err(), Some(ParseError::EndOfStream));
    assert_eq!(Command::from_frame(request(&["set", "k", "v", "px", "soon"])).err(), Some(ParseError::Invalid));
    assert_eq!(Command::from_frame(request(&["set", "k"])).err(), Some(ParseError::EndOfStream));
    assert_eq!(Command::from_frame(request(&["get"])).err(), Some(ParseError::EndOfStream));
    assert_eq!(Command::from_frame(request(&["get", "a", "b"])).err(), Some(ParseError::Invalid));
    assert_eq!(Command::from_frame(request(&["subscribe"])).err(), Some(ParseError::EndOfStream));
    assert_eq!(Command::from_frame(request(&[])).err(), Some(ParseError::EndOfStream));
    assert_eq!(Command::from_frame(bulk("get")).err(), Some(ParseError::TypeMismatch));
    let not_text = Frame::Array(vec![bulk("get"), Frame::Integer(3)]);
    assert_eq!(Command::from_frame(not_text).err(), Some(ParseError::TypeMismatch));
    let bad_utf8 = Frame::Array(vec![bulk("get"), Frame::Bulk(vec![0xff])]);
    assert_eq!(Command::from_frame(bad_utf8).err(), Some(ParseError::Utf8));
}

#[test]
fn reads_the_other_commands() {
    match Command::from_frame(request(&["publish", "ch", "msg"])).unwrap() {
        Command::Publish(p) => {
            assert_eq!(p.channel(), "ch");
            assert_eq!(p.message(), &b"msg".to_vec());
        }
        _ => panic!("not a publish"),
    }
    match Command::from_frame(request(&["subscribe", "a", "b"])).unwrap() {
        Command::Subscribe(s) => assert_eq!(s.channels(), &vec!["a".to_string(), "b".to_string()]),
        _ => panic!("not a subscribe"),
    }
    match Command::from_frame(request(&["unsubscribe"])).unwrap() {
        Command::Unsubscribe(u) => assert!(u.channels().is_empty()),
        _ => panic!("not an unsubscribe"),
    }
    match Command::from_frame(request(&["ping"])).unwrap() {
        Command::Ping(p) => assert_eq!(p.response().encode(), b"+PONG\r\n".to_vec()),
        _ => panic!("not a ping"),
    }
    match Command::from_frame(request(&["FLUSHALL", "x"])).unwrap() {
        Command::Unknown(u) => assert_eq!(u.get_name(), "flushall"),
        _ => panic!("not unknown"),
    }
}

#[test]
fn reads_from_a_lowercased_name() {
    let mut parse = Parse::new(request(&["k"])).unwrap();
    match Command::from_parts("get", &mut parse).unwrap() {
        Command::Get(g) => assert_eq!(g.key(), "k"),
        _ => panic!("not a get"),
    }
    let mut parse = Parse::new(request(&["k"])).unwrap();
    match Command::from_parts("GET", &mut parse).unwrap() {
        Command::Unknown(u) => assert_eq!(u.get_name(), "GET"),
        _ => panic!("an uppercase name is not matched here"),
    }
}

#[test]
fn names_commands() {
    assert_eq!(Command::from_frame(request(&["PING"])).unwrap().get_name(), "ping");
    assert_eq!(Command::from_frame(request(&["Set", "a", "b"])).unwrap().get_name(), "set");
    assert_eq!(Command::from_frame(request(&["Nope"])).unwrap().get_name(), "nope");
}

#[test]
fn renders_requests() {
    assert_eq!(Get::new("hello").into_frame().encode(), request(&["get", "hello"]).encode());
    assert_eq!(
        SetCmd::new("k", b"v".to_vec(), None).into_frame().encode(),
        request(&["set", "k", "v"]).encode()
    );
    let mut want = request(&["set", "k", "v", "px"]);
    want.push_int(1500);
    assert_eq!(SetCmd::new("k", b"v".to_vec(), Some(1500)).into_frame().encode(), want.encode());
    assert_eq!(
        Publish::new("ch", b"hi".to_vec()).into_frame().encode(),
        request(&["publish", "ch", "hi"]).encode()
    );
    assert_eq!(
        Subscribe::new(vec!["a".to_string(), "b".to_string()]).into_frame().encode(),
        request(&["subscribe", "a", "b"]).encode()
    );
    assert_eq!(Unsubscribe::new(&[]).into_frame().encode(), request(&["unsubscribe"]).encode());
    assert_eq!(Ping::new(None).into_frame().encode(), request(&["ping"]).encode());
    assert_eq!(Ping::new(Some(b"yo".to_vec())).into_frame().encode(), request(&["ping", "yo"]).encode());
}

#[test]
fn rendered_requests_read_back() {
    let f = SetCmd::new("key", b"value".to_vec(), Some(250)).into_frame();
    match Command::from_frame(f).unwrap() {
        Command::SetCmd(s) => {
            assert_eq!(s.key(), "key");
            assert_eq!(s.value(), &b"value".to_vec());
            assert_eq!(s.expire(), Some(250));
        }
        _ => panic!("not a set"),
    }
}

#[test]
fn answers_unknown_and_ping() {
    assert_eq!(
        Unknown::new("foo").response().encode(),
        b"-ERR unknown command 'foo'\r\n".to_vec()
    );
    assert_eq!(Ping::new(Some("你好世界".as_bytes().to_vec())).response().encode(), Frame::Bulk("你好世界".as_bytes().to_vec()).encode());
}

#[test]
fn parses_millisecond_arguments() {
    assert_eq!(duration_from_ms_str("100").ok(), Some(100));
    assert_eq!(duration_from_ms_str("+7").ok(), Some(7));
    assert!(duration_from_ms_str("").is_err());
    assert!(duration_from_ms_str("1.5").is_err());
    assert!(duration_from_ms_str("18446744073709551616").is_err());
}

#[test]
fn reads_the_expiry_from_an_uppercased_mode() {
    let mut parse = Parse::new(request(&["5"])).unwrap();
    assert_eq!(SetCmd::expire_from_mode("EX", &mut parse), Ok(5000));
    let mut parse = Parse::new(request(&["5"])).unwrap();
    assert_eq!(SetCmd::expire_from_mode("PX", &mut parse), Ok(5));
    let mut parse = Parse::new(request(&["5"])).unwrap();
    assert_eq!(SetCmd::expire_from_mode("px", &mut parse), Err(ParseError::Invalid));
    let mut parse = Parse::new(request(&[])).unwrap();
    assert_eq!(SetCmd::expire_from_mode("EX", &mut parse), Err(ParseError::EndOfStream));
}
