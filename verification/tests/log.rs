use kevlar::cast::{coerce_as_bytes, coerce_from_bytes};
use kevlar::internal::db::Db;
use kevlar::internal::log::{
    fletcher64_consume, Log, LogEntryHeader, ReplayError, LOG_FLAG_COMMIT, LOG_FLAG_DELETE,
    LOG_FLAG_WRITE, LOG_HEADER_SIZE, LOG_OP_DELETE, LOG_OP_PUT,
};

#[test]
fn header_encoding_is_little_endian() {
    let h = LogEntryHeader::new(0x0102030405060708, LOG_FLAG_WRITE, b"ab", b"xyz");
    let bytes = coerce_as_bytes(&h);
    assert_eq!(
        bytes,
        vec![0, 0, 0, 0, 0, 0, 0, 0, 1, 0, 0, 0, 2, 0, 0, 0, 3, 0, 0, 0, 8, 7, 6, 5, 4, 3, 2, 1]
    );
    assert_eq!(coerce_from_bytes(&bytes), h);
}

#[test]
fn header_bytes_round_trip() {
    let bytes: Vec<u8> = (0u8..28).collect();
    let h = coerce_from_bytes(&bytes);
    assert_eq!(h.check0, 0x03020100);
    assert_eq!(h.kvid, 0x1b1a191817161514);
    assert_eq!(coerce_as_bytes(&h), bytes);
}

#[test]
fn header_new_and_verify() {
    let h = LogEntryHeader::new(9, LOG_FLAG_DELETE, b"key", b"");
    assert_eq!(h.check0, 0);
    assert_eq!(h.check1, 0);
    assert_eq!(h.flags, LOG_FLAG_DELETE);
    assert_eq!(h.key_size, 3);
    assert_eq!(h.value_size, 0);
    assert_eq!(h.kvid, 9);
    assert!(h.verify(b"key", b""));
}

#[test]
fn fletcher_ors_bytes_then_adds() {
    assert_eq!(fletcher64_consume(0, 0, &[1, 2, 4]), (7, 7));
    assert_eq!(fletcher64_consume(10, 100, &[0x30, 0x0f]), (10 + 0x3f, 100 + 10 + 0x3f));
    assert_eq!(fletcher64_consume(5, 6, &[]), (5, 11));
    assert_eq!(fletcher64_consume(u32::MAX, 0, &[1]), (0, 0));
}

#[test]
fn append_then_read_back() {
    let mut log = Log::new(Vec::new());
    let pos = log.append(3, LOG_OP_PUT, b"key", b"value");
    assert_eq!(pos, LOG_HEADER_SIZE + 3);
    assert_eq!(log.get_cursor(0), LOG_HEADER_SIZE + 8);
    assert!(log.eof(0));
    let h = log.get_header(0, 0);
    assert_eq!(h, LogEntryHeader::new(3, LOG_OP_PUT, b"key", b"value"));
    assert_eq!(log.get_cursor(0), LOG_HEADER_SIZE);
    assert!(!log.eof(0));
    assert_eq!(log.get_buffer(0, LOG_HEADER_SIZE, 3), b"key".to_vec());
    assert_eq!(log.get_buffer(0, pos, 5), b"value".to_vec());
    let pos2 = log.append(4, LOG_OP_DELETE, b"k", b"");
    assert_eq!(pos2, 2 * LOG_HEADER_SIZE + 8 + 1);
    assert_eq!(log.bytes().len() as u32, pos2);
}

#[test]
fn cursor_moves() {
    let mut log = Log::new(vec![0; 10]);
    assert_eq!(log.get_cursor(0), 0);
    log.advance_cursor(0, 4);
    assert_eq!(log.get_cursor(0), 4);
    log.set_cursor(0, 20);
    assert!(log.eof(0));
    log.set_cursor_end(0);
    assert_eq!(log.get_cursor(0), 10);
    log.set_cursor(0, u32::MAX);
    log.advance_cursor(0, 2);
    assert_eq!(log.get_cursor(0), 1);
}

#[test]
fn delete_entry_with_value_is_refused() {
    let mut log = Log::new(Vec::new());
    log.append(1, LOG_OP_DELETE, b"k", b"v");
    assert_eq!(Db::new(log.bytes().to_vec()).err(), Some(ReplayError::DeleteCarriesValue));
}

#[test]
fn skipped_entry_past_positions_is_refused() {
    let mut log = Log::new(Vec::new());
    log.append(5, LOG_OP_PUT, b"k", b"v");
    let mut bytes = log.bytes().to_vec();
    let mut stale = coerce_as_bytes(&LogEntryHeader::new(1, LOG_OP_PUT, b"", b""));
    stale[12..16].copy_from_slice(&u32::MAX.to_le_bytes());
    bytes.extend_from_slice(&stale);
    assert_eq!(Db::new(bytes).err(), Some(ReplayError::PositionOverflow));
}

#[test]
fn replay_skips_stale_and_unknown_entries() {
    let mut log = Log::new(Vec::new());
    log.append(5, LOG_OP_PUT, b"a", b"new");
    // an older id is skipped whole
    log.append(2, LOG_OP_PUT, b"a", b"old");
    // an entry with an unknown operation only moves past its key
    log.append(6, LOG_FLAG_COMMIT, b"z", b"");
    let mut db = Db::new(log.bytes().to_vec()).unwrap();
    assert_eq!(db.get(b"a".to_vec()), b"new".to_vec());
    assert!(!db.can_get(b"z"));
    // the next id follows the largest seen
    db.put(b"b".to_vec(), b"1".to_vec());
    let bytes = db.log_bytes();
    let h = coerce_from_bytes(&bytes[bytes.len() - 30..bytes.len() - 2]);
    assert_eq!(h.kvid, 7);
}

#[test]
fn empty_read_succeeds_anywhere() {
    let mut log = Log::new(vec![1, 2, 3]);
    assert_eq!(log.get_buffer(0, 100, 0), Vec::<u8>::new());
    assert_eq!(log.get_cursor(0), 100);
    assert_eq!(log.get_buffer(0, 1, 2), vec![2, 3]);
    assert_eq!(log.get_cursor(0), 3);
}
