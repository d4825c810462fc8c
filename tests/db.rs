use mini_redis::db::Db;

#[test]
fn set_replaces_value_and_deadline() {
    let mut db = Db::new();
    assert_eq!(db.set("k".to_string(), b"a".to_vec(), Some(10), 0), Some(true));
    assert_eq!(db.next_expiration(), Some(10));
    assert_eq!(db.set("k".to_string(), b"b".to_vec(), None, 5), Some(false));
    assert_eq!(db.next_expiration(), None);
    assert_eq!(db.get("k", 100), Some(b"b".to_vec()));
    assert_eq!(db.purge_expired_keys(100), None);
    assert_eq!(db.get("k", 100), Some(b"b".to_vec()));
}

#[test]
fn wake_only_for_an_earlier_deadline() {
    let mut db = Db::new();
    assert_eq!(db.set("a".to_string(), b"1".to_vec(), Some(100), 0), Some(true));
    assert_eq!(db.set("b".to_string(), b"2".to_vec(), Some(200), 0), Some(false));
    assert_eq!(db.set("c".to_string(), b"3".to_vec(), Some(50), 0), Some(true));
    assert_eq!(db.set("d".to_string(), b"4".to_vec(), Some(50), 0), Some(false));
    assert_eq!(db.next_expiration(), Some(50));
}

#[test]
fn purge_removes_due_entries_and_reports_the_next_deadline() {
    let mut db = Db::new();
    db.set("a".to_string(), b"1".to_vec(), Some(100), 0);
    db.set("b".to_string(), b"2".to_vec(), Some(200), 0);
    db.set("c".to_string(), b"3".to_vec(), None, 0);
    assert_eq!(db.purge_expired_keys(99), Some(100));
    assert_eq!(db.purge_expired_keys(150), Some(200));
    assert_eq!(db.get("a", 0), None);
    assert_eq!(db.get("b", 0), Some(b"2".to_vec()));
    assert_eq!(db.purge_expired_keys(200), None);
    assert_eq!(db.get("b", 0), None);
    assert_eq!(db.get("c", 0), Some(b"3".to_vec()));
}

#[test]
fn shutdown_stops_purging() {
    let mut db = Db::new();
    db.set("a".to_string(), b"1".to_vec(), Some(1), 0);
    assert!(!db.is_shutdown());
    db.shutdown_purge_task();
    assert!(db.is_shutdown());
    assert_eq!(db.purge_expired_keys(10), None);
    assert_eq!(db.get("a", 0), Some(b"1".to_vec()));
}

#[test]
fn deadline_saturates() {
    let mut db = Db::new();
    db.set("a".to_string(), b"1".to_vec(), Some(u64::MAX), 10);
    assert_eq!(db.next_expiration(), Some(u64::MAX));
    assert_eq!(db.get("a", u64::MAX - 1), Some(b"1".to_vec()));
}

#[test]
fn publish_counts_receivers() {
    let mut db = Db::new();
    assert_eq!(db.publish("ch", b"x".to_vec()), 0);
    let rx1 = db.subscribe("ch".to_string());
    let mut rx2 = db.subscribe("ch".to_string());
    assert_eq!(db.publish("ch", b"x".to_vec()), 2);
    drop(rx1);
    assert_eq!(db.publish("ch", b"y".to_vec()), 1);
    assert_eq!(rx2.try_recv().unwrap(), b"x".to_vec());
    assert_eq!(rx2.try_recv().unwrap(), b"y".to_vec());
    drop(rx2);
    assert_eq!(db.publish("ch", b"z".to_vec()), 0);
}

#[test]
fn publish_count_from_send_outcome() {
    assert_eq!(mini_redis::db::receivers_reached(Some(3)), 3);
    assert_eq!(mini_redis::db::receivers_reached(None), 0);
}

#[test]
fn subscribing_again_keeps_the_channel() {
    let mut db = Db::new();
    let mut rx1 = db.subscribe("ch".to_string());
    let mut rx2 = db.subscribe("ch".to_string());
    assert_eq!(db.publish("ch", b"x".to_vec()), 2);
    assert_eq!(rx1.try_recv().unwrap(), b"x".to_vec());
    assert_eq!(rx2.try_recv().unwrap(), b"x".to_vec());
}
