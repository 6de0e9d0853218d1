use mini_redis::db::State;
use mini_redis::frame::Frame;
use mini_redis::server::{handle_frame, Action, Backoff, ShutdownLatch, MAX_BACKOFF, MAX_CONNECTIONS};
use mini_redis::Client;

fn bulk(s: &str) -> Frame {
    Frame::Bulk(s.as_bytes().to_vec())
}

fn request(parts: Vec<Frame>) -> Frame {
    Frame::Array(parts)
}

fn reply(action: Action) -> Frame {
    match action {
        Action::Reply(f) => f,
        _ => panic!("expected a reply"),
    }
}

#[test]
fn ping_pong_without_message() {
    let mut state = State::new();
    let (action, _) = handle_frame(request(vec![bulk("PING")]), &mut state, 0);
    let pong = Client::ping_reply(Client::read_response(Some(reply(action))).unwrap()).unwrap();
    assert_eq!(b"PONG", &pong[..]);
}

#[test]
fn ping_pong_with_message() {
    let mut state = State::new();
    let (action, _) = handle_frame(request(vec![bulk("PING"), bulk("你好世界")]), &mut state, 0);
    let f = reply(action);
    assert_eq!(f.encode(), Frame::Bulk(vec![0xE4, 0xBD, 0xA0, 0xE5, 0xA5, 0xBD, 0xE4, 0xB8, 0x96, 0xE7, 0x95, 0x8C]).encode());
    let pong = Client::ping_reply(Client::read_response(Some(f)).unwrap()).unwrap();
    assert_eq!("你好世界".as_bytes(), &pong[..]);
}

#[test]
fn key_value_get_set() {
    let mut state = State::new();
    let (action, notify) = handle_frame(request(vec![bulk("SET"), bulk("hello"), bulk("不好")]), &mut state, 0);
    assert!(!notify);
    Client::set_reply(reply(action)).unwrap();
    let (action, _) = handle_frame(request(vec![bulk("GET"), bulk("hello")]), &mut state, 1);
    let value = Client::get_reply(reply(action)).unwrap().unwrap();
    assert_eq!("不好".as_bytes(), &value[..]);
}

#[test]
fn set_with_ttl_then_get_after_expiry() {
    let mut state = State::new();
    let (action, notify) = handle_frame(
        request(vec![bulk("SET"), bulk("k"), bulk("v"), bulk("PX"), bulk("100")]),
        &mut state,
        0,
    );
    assert!(notify);
    assert_eq!(reply(action).encode(), b"+OK\r\n".to_vec());
    state.purge_expired_keys(200);
    let (action, _) = handle_frame(request(vec![bulk("GET"), bulk("k")]), &mut state, 200);
    assert!(matches!(reply(action), Frame::Null));
}

#[test]
fn publish_and_subscribe_are_left_to_the_connection() {
    let mut state = State::new();
    match handle_frame(request(vec![bulk("publish"), bulk("ch"), bulk("m")]), &mut state, 0).0 {
        Action::Publish { channel, message } => {
            assert_eq!(channel, "ch");
            assert_eq!(message, b"m".to_vec());
        }
        _ => panic!("expected a publish"),
    }
    match handle_frame(request(vec![bulk("subscribe"), bulk("a"), bulk("b")]), &mut state, 0).0 {
        Action::Subscribe(channels) => assert_eq!(channels, vec!["a".to_string(), "b".to_string()]),
        _ => panic!("expected a subscribe"),
    }
}

#[test]
fn command_errors_are_replies() {
    let mut state = State::new();
    let (action, _) = handle_frame(request(vec![bulk("unsubscribe")]), &mut state, 0);
    assert_eq!(
        reply(action).encode(),
        b"-ERR `unsubscribe` is unsupported in this context\r\n".to_vec()
    );
    let (action, _) = handle_frame(request(vec![bulk("get")]), &mut state, 0);
    assert_eq!(reply(action).encode(), b"-ERR wrong number of arguments\r\n".to_vec());
    let (action, _) = handle_frame(request(vec![bulk("foo")]), &mut state, 0);
    assert_eq!(reply(action).encode(), b"-ERR unknown command 'foo'\r\n".to_vec());
    let (action, _) = handle_frame(Frame::Integer(3), &mut state, 0);
    assert_eq!(reply(action).encode(), b"-ERR protocol error; unexpected frame type\r\n".to_vec());
}

#[test]
fn accept_backoff_doubles_then_gives_up() {
    let mut b = Backoff::new();
    let mut waits = Vec::new();
    while let Some(w) = b.on_error() {
        waits.push(w);
    }
    assert_eq!(waits, vec![1, 2, 4, 8, 16, 32, 64]);
    assert_eq!(MAX_BACKOFF, 64);
    assert_eq!(b.on_error(), None);
}

#[test]
fn shutdown_latches() {
    let mut s = ShutdownLatch::new();
    assert!(!s.is_shutdown());
    s.observe();
    assert!(s.is_shutdown());
    s.observe();
    assert!(s.is_shutdown());
    assert_eq!(MAX_CONNECTIONS, 250);
}
