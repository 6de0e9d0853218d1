use mini_redis::client::ClientError;
use mini_redis::db::PubSub;
use mini_redis::frame::Frame;
use mini_redis::pubsub::{handle_command, make_message_frame, make_subscribe_frame, Subscriptions};
use mini_redis::{Client, Subscriber};

fn bulk(s: &str) -> Frame {
    Frame::Bulk(s.as_bytes().to_vec())
}

#[test]
fn receive_message_subscribed_channel() {
    let mut subs = Subscriptions::new();
    let confirm = subs.subscribe_to_channel("hello".to_string());
    assert!(Client::confirms_subscribe(&confirm, "hello"));
    let message = Subscriber::message_of(&make_message_frame("hello", b"world".to_vec())).unwrap();
    assert_eq!("hello", &message.channel);
    assert_eq!(b"world", &message.content[..]);
}

#[test]
fn receive_message_multiple_subscribed_channels() {
    let mut subs = Subscriptions::new();
    assert_eq!(subs.subscribe_to_channel("hello".to_string()).encode(), make_subscribe_frame("hello", 1).encode());
    assert_eq!(subs.subscribe_to_channel("world".to_string()).encode(), make_subscribe_frame("world", 2).encode());
    let message1 = Subscriber::message_of(&make_message_frame("hello", b"world".to_vec())).unwrap();
    assert_eq!("hello", &message1.channel);
    assert_eq!(b"world", &message1.content[..]);
    let message2 = Subscriber::message_of(&make_message_frame("world", b"howdy?".to_vec())).unwrap();
    assert_eq!("world", &message2.channel);
    assert_eq!(b"howdy?", &message2.content[..]);
}

#[test]
fn unsubscribes_from_channels() {
    let mut subs = Subscriptions::new();
    subs.subscribe_to_channel("hello".to_string());
    subs.subscribe_to_channel("world".to_string());
    let replies = subs.unsubscribe(vec![]);
    assert_eq!(replies.len(), 2);
    assert_eq!(subs.len(), 0);
    let mut subscriber = Subscriber::new(Client::new(), vec!["hello".to_string(), "world".to_string()]);
    assert_eq!(subscriber.unsubscribe_count(&[]), 2);
    for r in &replies {
        subscriber.apply_unsubscribe_reply(r).unwrap();
    }
    assert_eq!(subscriber.get_subscribed().len(), 0);
}

#[test]
fn unsubscribe_all_counts_down() {
    let mut subs = Subscriptions::new();
    for c in ["a", "b", "c"] {
        subs.subscribe_to_channel(c.to_string());
    }
    let replies = subs.unsubscribe(vec![]);
    let want = [("a", 2u64), ("b", 1), ("c", 0)];
    assert_eq!(replies.len(), want.len());
    for (r, (c, n)) in replies.iter().zip(want.iter()) {
        let expected = Frame::Array(vec![bulk("unsubscribe"), bulk(c), Frame::Integer(*n)]);
        assert_eq!(r.encode(), expected.encode());
    }
}

#[test]
fn unsubscribe_named_channels() {
    let mut subs = Subscriptions::new();
    subs.subscribe_to_channel("a".to_string());
    subs.subscribe_to_channel("b".to_string());
    let replies = subs.unsubscribe(vec!["b".to_string(), "zzz".to_string()]);
    assert_eq!(replies[0].encode(), Frame::Array(vec![bulk("unsubscribe"), bulk("b"), Frame::Integer(1)]).encode());
    assert_eq!(replies[1].encode(), Frame::Array(vec![bulk("unsubscribe"), bulk("zzz"), Frame::Integer(1)]).encode());
    assert_eq!(subs.channels(), &vec!["a".to_string()]);
}

#[test]
fn subscribing_twice_keeps_one_subscription() {
    let mut subs = Subscriptions::new();
    subs.subscribe_to_channel("a".to_string());
    let again = subs.subscribe_to_channel("a".to_string());
    assert_eq!(again.encode(), make_subscribe_frame("a", 1).encode());
    assert_eq!(subs.len(), 1);
}

#[test]
fn commands_in_pubsub_state() {
    let mut pending = Vec::new();
    let mut subs = Subscriptions::new();
    subs.subscribe_to_channel("x".to_string());
    let r = handle_command(Frame::Array(vec![bulk("SUBSCRIBE"), bulk("y")]), &mut pending, &mut subs).unwrap();
    assert!(r.is_empty());
    assert_eq!(pending, vec!["y".to_string()]);
    let r = handle_command(Frame::Array(vec![bulk("ping")]), &mut pending, &mut subs).unwrap();
    assert_eq!(r[0].encode(), b"-ERR unknown command 'ping'\r\n".to_vec());
    let r = handle_command(Frame::Array(vec![bulk("unsubscribe"), bulk("x")]), &mut pending, &mut subs).unwrap();
    assert_eq!(r[0].encode(), Frame::Array(vec![bulk("unsubscribe"), bulk("x"), Frame::Integer(0)]).encode());
    assert!(handle_command(Frame::Integer(1), &mut pending, &mut subs).is_err());
}

#[test]
fn client_reads_replies() {
    assert!(matches!(Client::read_response(None), Err(ClientError::ConnectionReset)));
    match Client::read_response(Some(Frame::Error("ERR no".to_string()))) {
        Err(ClientError::Server(m)) => assert_eq!(m, "ERR no"),
        _ => panic!("expected a server error"),
    }
    assert_eq!(Client::get_reply(Frame::Null).unwrap(), None);
    assert!(matches!(Client::get_reply(Frame::Integer(1)), Err(ClientError::Unexpected)));
    assert_eq!(Client::publish_reply(Frame::Integer(3)).unwrap(), 3);
    assert!(Client::set_reply(Frame::Simple("OK".to_string())).is_ok());
    assert!(Client::set_reply(Frame::Simple("NO".to_string())).is_err());
    assert_eq!(Client::ping_reply(Frame::Simple("PONG".to_string())).unwrap(), b"PONG".to_vec());
    assert!(!Client::confirms_subscribe(&make_subscribe_frame("a", 1), "b"));
}

#[test]
fn client_buffers_replies() {
    let mut c = Client::new();
    let bytes = Frame::Integer(7).encode();
    c.feed(&bytes[..2]);
    assert!(c.next_frame().unwrap().is_none());
    assert!(!c.is_between_frames());
    c.feed(&bytes[2..]);
    assert!(matches!(c.next_frame().unwrap(), Some(Frame::Integer(7))));
    assert!(c.is_between_frames());
}

#[test]
fn subscriber_rejects_a_reply_for_an_unknown_channel() {
    let mut s = Subscriber::new(Client::new(), vec!["a".to_string()]);
    let r = Frame::Array(vec![bulk("unsubscribe"), bulk("b"), Frame::Integer(0)]);
    assert!(s.apply_unsubscribe_reply(&r).is_err());
    s.add_channels(&["b".to_string()]);
    assert!(s.apply_unsubscribe_reply(&r).is_ok());
    assert_eq!(s.get_subscribed(), &["a".to_string()]);
}

#[test]
fn publishes_to_live_subscribers_only() {
    let mut registry = PubSub::new();
    assert_eq!(registry.publish("news", b"early".to_vec()), 0);
    let mut rx1 = registry.subscribe("news".to_string());
    let mut rx2 = registry.subscribe("news".to_string());
    assert_eq!(registry.publish("news", b"m1".to_vec()), 2);
    assert_eq!(registry.publish("news", b"m2".to_vec()), 2);
    assert_eq!(rx1.try_recv().unwrap(), b"m1".to_vec());
    assert_eq!(rx1.try_recv().unwrap(), b"m2".to_vec());
    assert_eq!(rx2.try_recv().unwrap(), b"m1".to_vec());
    drop(rx1);
    drop(rx2);
    assert_eq!(registry.publish("news", b"late".to_vec()), 0);
    assert_eq!(registry.publish("other", b"x".to_vec()), 0);
}

#[test]
fn finds_channels_no_longer_subscribed() {
    let mut subs = Subscriptions::new();
    subs.subscribe_to_channel("a".to_string());
    subs.subscribe_to_channel("b".to_string());
    subs.unsubscribe(vec!["a".to_string()]);
    let listening = vec!["a".to_string(), "b".to_string()];
    assert_eq!(subs.stale_channels(&listening), vec!["a".to_string()]);
}
