use mini_redis::db::State;

#[test]
fn keeps_what_is_set() {
    let mut s = State::new();
    assert_eq!(s.get("hello"), None);
    assert!(!s.set("hello".to_string(), b"world".to_vec(), None, 0));
    assert_eq!(s.get("hello"), Some(b"world".to_vec()));
    s.set("hello".to_string(), b"again".to_vec(), None, 5);
    assert_eq!(s.get("hello"), Some(b"again".to_vec()));
    assert_eq!(s.purge_expired_keys(1_000_000), None);
    assert_eq!(s.get("hello"), Some(b"again".to_vec()));
}

#[test]
fn expires_after_the_time_to_live() {
    let mut s = State::new();
    assert!(s.set("k".to_string(), b"v".to_vec(), Some(100), 1000));
    assert_eq!(s.next_expiration(), Some(1100));
    assert_eq!(s.purge_expired_keys(1099), Some(1100));
    assert_eq!(s.get("k"), Some(b"v".to_vec()));
    assert_eq!(s.purge_expired_keys(1200), None);
    assert_eq!(s.get("k"), None);
}

#[test]
fn wakes_the_expirer_only_for_an_earlier_deadline() {
    let mut s = State::new();
    assert!(s.set("a".to_string(), b"1".to_vec(), Some(500), 0));
    assert!(!s.set("b".to_string(), b"2".to_vec(), Some(900), 0));
    assert!(!s.set("c".to_string(), b"3".to_vec(), Some(500), 0));
    assert!(s.set("d".to_string(), b"4".to_vec(), Some(100), 0));
    assert!(!s.set("e".to_string(), b"5".to_vec(), None, 0));
    assert_eq!(s.next_expiration(), Some(100));
    assert_eq!(s.purge_expired_keys(500), Some(900));
    assert_eq!(s.get("a"), None);
    assert_eq!(s.get("c"), None);
    assert_eq!(s.get("d"), None);
    assert_eq!(s.get("b"), Some(b"2".to_vec()));
    assert_eq!(s.get("e"), Some(b"5".to_vec()));
}

#[test]
fn overwriting_drops_the_old_deadline() {
    let mut s = State::new();
    s.set("k".to_string(), b"v".to_vec(), Some(10), 0);
    s.set("k".to_string(), b"w".to_vec(), None, 0);
    assert_eq!(s.next_expiration(), None);
    s.purge_expired_keys(100);
    assert_eq!(s.get("k"), Some(b"w".to_vec()));
}

#[test]
fn deadline_stops_at_the_end_of_the_clock() {
    let mut s = State::new();
    s.set("k".to_string(), b"v".to_vec(), Some(u128::MAX), u64::MAX - 5);
    assert_eq!(s.next_expiration(), Some(u64::MAX));
    s.purge_expired_keys(u64::MAX - 1);
    assert_eq!(s.get("k"), Some(b"v".to_vec()));
}

#[test]
fn purges_nothing_after_shutdown() {
    let mut s = State::new();
    s.set("k".to_string(), b"v".to_vec(), Some(1), 0);
    assert!(!s.is_shutdown());
    s.shutdown_purge_task();
    assert!(s.is_shutdown());
    assert_eq!(s.purge_expired_keys(100), None);
    assert_eq!(s.get("k"), Some(b"v".to_vec()));
}
