use kevlar::config::{parse_port, port_from_arg, DEFAULT_PORT};
use kevlar::internal::log::{Log, ReplayError, LOG_FLAG_WRITE};
use kevlar::internal::server::Server;
use kevlar::internal::table::Table;
use kevlar::internal::txn::{Txn, TxnOp};

fn open_empty() -> Server {
    Server::new(Vec::new()).unwrap()
}

#[test]
fn txn_records_ops_in_order() {
    let mut t = Txn::new();
    t.put(b"a".to_vec(), b"1".to_vec());
    t.delete(b"b".to_vec());
    assert_eq!(t.ops.len(), 2);
    assert!(matches!(&t.ops[0], TxnOp::Put(k, v) if k == b"a" && v == b"1"));
    assert!(matches!(&t.ops[1], TxnOp::Delete(k) if k == b"b"));
}

#[test]
fn committed_txn_is_read_back() {
    let mut s = open_empty();
    let mut t = s.begin_txn();
    t.put(b"a".to_vec(), b"1".to_vec());
    t.put(b"b".to_vec(), b"2".to_vec());
    t.put(b"a".to_vec(), b"3".to_vec());
    assert!(s.has_room_for_commit(&t));
    s.commit(t);
    assert_eq!(s.get(b"a".to_vec()), b"3".to_vec());
    assert_eq!(s.get(b"b".to_vec()), b"2".to_vec());
    let mut t = s.begin_txn();
    t.delete(b"b".to_vec());
    s.commit(t);
    assert_eq!(s.get(b"b".to_vec()), Vec::<u8>::new());
    assert_eq!(s.get(b"a".to_vec()), b"3".to_vec());
}

#[test]
fn committed_txns_survive_reopening() {
    let mut s = open_empty();
    let mut t = s.begin_txn();
    t.put(b"a".to_vec(), b"1".to_vec());
    t.put(b"b".to_vec(), b"2".to_vec());
    s.commit(t);
    let mut t = s.begin_txn();
    t.delete(b"a".to_vec());
    t.put(b"c".to_vec(), b"".to_vec());
    s.commit(t);
    let mut again = Server::new(s.log_bytes().to_vec()).unwrap();
    assert_eq!(again.get(b"a".to_vec()), Vec::<u8>::new());
    assert_eq!(again.get(b"b".to_vec()), b"2".to_vec());
    assert_eq!(again.get(b"c".to_vec()), Vec::<u8>::new());
}

#[test]
fn uncommitted_txn_is_dropped() {
    let mut s = open_empty();
    let mut t = s.begin_txn();
    t.put(b"a".to_vec(), b"1".to_vec());
    s.commit(t);
    // a second transaction whose commit record never reached the log
    let mut log = Log::new(s.log_bytes().to_vec());
    log.append(2, LOG_FLAG_WRITE, b"a", b"lost");
    log.append(2, LOG_FLAG_WRITE, b"b", b"lost");
    let mut again = Server::new(log.bytes().to_vec()).unwrap();
    assert_eq!(again.get(b"a".to_vec()), b"1".to_vec());
    assert!(!again.can_get(b"b"));
    // a later committed transaction does not pick the dropped operations up
    let mut t = again.begin_txn();
    t.put(b"c".to_vec(), b"3".to_vec());
    again.commit(t);
    let mut third = Server::new(again.log_bytes().to_vec()).unwrap();
    assert_eq!(third.get(b"a".to_vec()), b"1".to_vec());
    assert_eq!(third.get(b"c".to_vec()), b"3".to_vec());
    assert!(!third.can_get(b"b"));
}

#[test]
fn empty_committed_txn_makes_the_log_unreadable() {
    let mut s = open_empty();
    let t = s.begin_txn();
    s.commit(t);
    assert_eq!(Server::new(s.log_bytes().to_vec()).err(), Some(ReplayError::CommitOutOfOrder));
}

#[test]
fn table_put_get_delete() {
    let mut t = Table::new();
    assert!(!t.has_key(b"k"));
    t.put(4, b"k".to_vec(), 100, 7);
    assert!(t.contains(b"k"));
    let e = *t.get(b"k");
    assert_eq!((e.file_id, e.value_pos, e.value_size, e.kvid), (0, 100, 7, 4));
    t.delete(5, b"k".to_vec(), 200);
    assert!(t.has_key(b"k"));
    assert!(!t.contains(b"k"));
    let e = *t.get(b"k");
    assert_eq!((e.value_pos, e.value_size, e.kvid), (200, 0, 5));
}

#[test]
fn ports_are_parsed_as_decimal() {
    assert_eq!(parse_port("8080"), Some(8080));
    assert_eq!(parse_port("+80"), Some(80));
    assert_eq!(parse_port("0"), Some(0));
    assert_eq!(parse_port("65535"), Some(65535));
    assert_eq!(parse_port("65536"), None);
    assert_eq!(parse_port("99999999999"), None);
    assert_eq!(parse_port(""), None);
    assert_eq!(parse_port("+"), None);
    assert_eq!(parse_port("-1"), None);
    assert_eq!(parse_port("12a"), None);
    assert_eq!(port_from_arg(None), Some(DEFAULT_PORT));
    assert_eq!(port_from_arg(Some("7000")), Some(7000));
    assert_eq!(DEFAULT_PORT, 6379);
}
