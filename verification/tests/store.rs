use kevlar::internal::db::Db;
use kevlar::internal::log::ReplayError;
use kevlar::server::KevlarServer;

fn open_empty() -> KevlarServer {
    KevlarServer::new(Vec::new()).unwrap()
}

#[test]
fn hello_world_scenario() {
    let mut db = open_empty();
    db.put_str("foo".to_string(), "bar".to_string());
    db.put_str("hello".to_string(), "world".to_string());
    db.put_str("asdf".to_string(), "qwerty".to_string());
    db.delete(b"asdf".to_vec());
    assert_eq!(db.get_str("foo".to_string()), "bar");
    assert_eq!(db.get_str("hello".to_string()), "world");
    assert_eq!(db.get_str("asdf".to_string()), "");
}

#[test]
fn get_gives_back_put() {
    let mut db = open_empty();
    db.raw_put(b"k".to_vec(), vec![1, 2, 3]);
    assert_eq!(db.raw_get(b"k".to_vec()), vec![1, 2, 3]);
    db.put("k".to_string(), vec![9]);
    assert_eq!(db.get("k".to_string()), vec![9]);
}

#[test]
fn put_leaves_other_keys() {
    let mut db = open_empty();
    db.raw_put(b"a".to_vec(), b"one".to_vec());
    db.raw_put(b"b".to_vec(), b"two".to_vec());
    db.raw_put(b"a".to_vec(), b"three".to_vec());
    assert_eq!(db.raw_get(b"b".to_vec()), b"two".to_vec());
    assert_eq!(db.raw_get(b"a".to_vec()), b"three".to_vec());
}

#[test]
fn delete_gives_empty_value() {
    let mut db = open_empty();
    db.raw_put(b"a".to_vec(), b"one".to_vec());
    db.delete(b"a".to_vec());
    assert!(db.can_get(b"a"));
    assert_eq!(db.raw_get(b"a".to_vec()), Vec::<u8>::new());
}

#[test]
fn missing_key_cannot_be_read() {
    let db = open_empty();
    assert!(!db.can_get(b"nothing"));
}

#[test]
fn invalid_utf8_value_reads_lossily() {
    let mut db = open_empty();
    db.raw_put(b"k".to_vec(), vec![b'a', 0xff, b'b']);
    assert_eq!(db.get_str("k".to_string()), "a\u{FFFD}b");
}

#[test]
fn log_layout_of_a_put() {
    let mut db = open_empty();
    db.raw_put(b"ab".to_vec(), b"xyz".to_vec());
    let log = db.log_bytes().to_vec();
    assert_eq!(log.len(), 28 + 2 + 3);
    // checksum words, flags, key size, value size, id
    assert_eq!(&log[0..8], &[0u8; 8]);
    assert_eq!(&log[8..12], &[1, 0, 0, 0]);
    assert_eq!(&log[12..16], &[2, 0, 0, 0]);
    assert_eq!(&log[16..20], &[3, 0, 0, 0]);
    assert_eq!(&log[20..28], &[1, 0, 0, 0, 0, 0, 0, 0]);
    assert_eq!(&log[28..30], b"ab");
    assert_eq!(&log[30..33], b"xyz");
}

#[test]
fn reopening_recovers_every_key() {
    let mut db = open_empty();
    db.raw_put(b"a".to_vec(), b"1".to_vec());
    db.raw_put(b"b".to_vec(), b"2".to_vec());
    db.delete(b"a".to_vec());
    db.raw_put(b"c".to_vec(), b"3".to_vec());
    db.raw_put(b"b".to_vec(), b"22".to_vec());
    let log = db.log_bytes().to_vec();
    let mut again = KevlarServer::new(log.clone()).unwrap();
    assert_eq!(again.raw_get(b"a".to_vec()), Vec::<u8>::new());
    assert_eq!(again.raw_get(b"b".to_vec()), b"22".to_vec());
    assert_eq!(again.raw_get(b"c".to_vec()), b"3".to_vec());
    // ids continue after the largest one in the log
    again.raw_put(b"d".to_vec(), b"4".to_vec());
    let log2 = again.log_bytes().to_vec();
    assert_eq!(&log2[log.len() + 20..log.len() + 28], &[6, 0, 0, 0, 0, 0, 0, 0]);
}

#[test]
fn db_reopening_recovers_every_key() {
    let mut db = Db::new(Vec::new()).unwrap();
    db.put(b"x".to_vec(), b"10".to_vec());
    db.put(b"y".to_vec(), b"20".to_vec());
    db.delete(b"x".to_vec());
    let mut again = Db::new(db.log_bytes().to_vec()).unwrap();
    assert_eq!(again.get(b"x".to_vec()), Vec::<u8>::new());
    assert_eq!(again.get(b"y".to_vec()), b"20".to_vec());
    assert!(!again.can_get(b"z"));
}

#[test]
fn truncated_log_is_refused() {
    let mut db = open_empty();
    db.raw_put(b"a".to_vec(), b"1".to_vec());
    let log = db.log_bytes().to_vec();
    // cut inside the header
    assert_eq!(KevlarServer::new(log[..10].to_vec()).err(), Some(ReplayError::Truncated));
    // cut inside the key
    assert_eq!(KevlarServer::new(log[..28].to_vec()).err(), Some(ReplayError::Truncated));
}

#[test]
fn value_past_end_is_kept_but_unreadable() {
    let mut db = open_empty();
    db.raw_put(b"a".to_vec(), b"12345".to_vec());
    let log = db.log_bytes().to_vec();
    let again = KevlarServer::new(log[..31].to_vec()).unwrap();
    assert!(!again.can_get(b"a"));
}

#[test]
fn no_room_when_ids_or_positions_run_out() {
    let db = open_empty();
    assert!(db.has_room(4, 4));
    assert!(!db.has_room(u32::MAX as usize, 1));
}
