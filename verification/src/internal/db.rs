//! The store in which every put and delete is logged on its own.
use vstd::prelude::*;

use crate::internal::log::{
    entry_bytes, parse_header, Log, ReplayError,
    LOG_HEADER_SIZE, LOG_MASK_OP, LOG_OP_DELETE, LOG_OP_PUT,
};
use crate::internal::table::{table_entry, Table, TableEntry};

verus! {

pub type KvId = u64;

/// The state of a store as mathematical values: the bytes of its log, its
/// table, and the last operation id it handed out.
pub struct StoreModel {
    pub log: Seq<u8>,
    pub table: Map<Seq<u8>, TableEntry>,
    pub counter: u64,
}

impl StoreModel {
    /// The value that the table points at for `key`.
    pub open spec fn value_of(self, key: Seq<u8>) -> Seq<u8> {
        let e = self.table[key];
        if e.value_size == 0 {
            Seq::empty()
        } else {
            self.log.subrange(e.value_pos as int, e.value_pos + e.value_size)
        }
    }

    /// The position just past the value that the table points at for `key`.
    pub open spec fn value_end(self, key: Seq<u8>) -> int {
        self.table[key].value_pos + self.table[key].value_size
    }

    /// `key` has an entry, and its value is empty or lies inside the log.
    pub open spec fn can_get(self, key: Seq<u8>) -> bool {
        &&& self.table.contains_key(key)
        &&& (self.table[key].value_size == 0 || self.table[key].value_pos + self.table[key].value_size
            <= self.log.len())
    }

    /// One more operation id is left, and an entry with a key and value of
    /// these lengths still ends at a 32-bit position.
    pub open spec fn has_room(self, key_len: nat, value_len: nat) -> bool {
        &&& self.counter < u64::MAX
        &&& self.log.len() + LOG_HEADER_SIZE + key_len + value_len <= u32::MAX
    }

    /// The state after `key` is set to `value`.
    pub open spec fn put(self, key: Seq<u8>, value: Seq<u8>) -> StoreModel {
        let kvid = (self.counter + 1) as u64;
        let value_pos = self.log.len() + LOG_HEADER_SIZE + key.len();
        StoreModel {
            log: self.log + entry_bytes(kvid, LOG_OP_PUT, key, value),
            table: self.table.insert(key, table_entry(kvid, value_pos as u32, value.len() as u32)),
            counter: kvid,
        }
    }

    /// The state after `key` is deleted.
    pub open spec fn delete(self, key: Seq<u8>) -> StoreModel {
        let kvid = (self.counter + 1) as u64;
        let value_pos = self.log.len() + LOG_HEADER_SIZE + key.len();
        StoreModel {
            log: self.log + entry_bytes(kvid, LOG_OP_DELETE, key, Seq::empty()),
            table: self.table.insert(key, table_entry(kvid, value_pos as u32, 0)),
            counter: kvid,
        }
    }

    /// Replaying the log rebuilds exactly this table and counter, and stops
    /// at the end of the log.
    pub open spec fn db_recoverable(self) -> bool {
        match db_replay(self.log) {
            Ok(st) => {
                &&& st.table == self.table
                &&& st.counter == self.counter
                &&& st.cursor == self.log.len()
                &&& st.prev_seen <= self.counter
            },
            Err(_) => false,
        }
    }
}

/// The state of a replay: the table built so far, the largest id seen, the
/// id of the last entry applied, and the read position.
pub struct DbReplay {
    pub table: Map<Seq<u8>, TableEntry>,
    pub counter: u64,
    pub prev_seen: u64,
    pub cursor: int,
}

pub open spec fn max_u64(a: u64, b: u64) -> u64 {
    if a >= b {
        a
    } else {
        b
    }
}

/// Replays the entry at the cursor.
///
/// An entry whose id is below the last one applied is skipped whole.  An
/// entry without a key changes nothing.  Otherwise the key is read and the
/// operation in the low byte of the flags is applied: a put records the value
/// and moves past it, a delete (which must carry no value) records an empty
/// value, any other operation stops right after the key.
pub open spec fn db_replay_step(bytes: Seq<u8>, st: DbReplay) -> Result<DbReplay, ReplayError> {
    let p = st.cursor;
    if p + LOG_HEADER_SIZE > bytes.len() {
        Err(ReplayError::Truncated)
    } else {
        let h = parse_header(bytes.subrange(p, p + LOG_HEADER_SIZE));
        let counter = max_u64(st.counter, h.kvid);
        let key_pos = p + LOG_HEADER_SIZE;
        if h.kvid < st.prev_seen {
            let end = key_pos + h.key_size + h.value_size;
            if end > u32::MAX {
                Err(ReplayError::PositionOverflow)
            } else {
                Ok(DbReplay { counter: counter, cursor: end, ..st })
            }
        } else if h.key_size == 0 {
            Ok(DbReplay { counter: counter, prev_seen: h.kvid, cursor: key_pos, ..st })
        } else {
            let value_pos = key_pos + h.key_size;
            if value_pos > bytes.len() {
                Err(ReplayError::Truncated)
            } else {
                let key = bytes.subrange(key_pos, value_pos);
                let op = h.flags & LOG_MASK_OP;
                if op == LOG_OP_PUT {
                    let end = value_pos + h.value_size;
                    if end > u32::MAX {
                        Err(ReplayError::PositionOverflow)
                    } else {
                        Ok(
                            DbReplay {
                                table: st.table.insert(key, table_entry(h.kvid, value_pos as u32, h.value_size)),
                                counter: counter,
                                prev_seen: h.kvid,
                                cursor: end,
                            },
                        )
                    }
                } else if op == LOG_OP_DELETE {
                    if h.value_size != 0 {
                        Err(ReplayError::DeleteCarriesValue)
                    } else {
                        Ok(
                            DbReplay {
                                table: st.table.insert(key, table_entry(h.kvid, value_pos as u32, 0)),
                                counter: counter,
                                prev_seen: h.kvid,
                                cursor: value_pos,
                            },
                        )
                    }
                } else {
                    Ok(DbReplay { counter: counter, prev_seen: h.kvid, cursor: value_pos, ..st })
                }
            }
        }
    }
}

pub open spec fn replay_measure(len: nat, cursor: int) -> nat {
    if cursor < len {
        (len - cursor) as nat
    } else {
        0
    }
}

/// Replays entries from the cursor until it reaches the end of the log.
pub open spec fn db_replay_from(bytes: Seq<u8>, st: DbReplay) -> Result<DbReplay, ReplayError>
    decreases replay_measure(bytes.len(), st.cursor),
{
    if st.cursor >= bytes.len() {
        Ok(st)
    } else {
        match db_replay_step(bytes, st) {
            Ok(next) => db_replay_from(bytes, next),
            Err(e) => Err(e),
        }
    }
}

/// The replay state before the first entry.
pub open spec fn db_replay_start() -> DbReplay {
    DbReplay { table: Map::empty(), counter: 0, prev_seen: 0, cursor: 0 }
}

/// Replays a whole log.
pub open spec fn db_replay(bytes: Seq<u8>) -> Result<DbReplay, ReplayError> {
    db_replay_from(bytes, db_replay_start())
}

/// Whether replaying from `st` reads a header at position `p`.
pub open spec fn db_reads_header_at(bytes: Seq<u8>, st: DbReplay, p: int) -> bool
    decreases replay_measure(bytes.len(), st.cursor),
{
    if st.cursor >= bytes.len() {
        false
    } else if st.cursor == p {
        true
    } else {
        match db_replay_step(bytes, st) {
            Ok(next) => db_reads_header_at(bytes, next, p),
            Err(_) => false,
        }
    }
}

/// A store whose puts and deletes each go to the log as one entry.
pub struct Db {
    log: Log,
    table: Table,
    kvid_counter: KvId,
}

impl Db {
    pub closed spec fn view(&self) -> StoreModel {
        StoreModel { log: self.log.contents(), table: self.table.view(), counter: self.kvid_counter }
    }

    pub closed spec fn wf(&self) -> bool {
        &&& self.log.wf()
        &&& self.table.wf()
    }

    /// The position of the log's cursor.
    pub closed spec fn cursor(&self) -> u32 {
        self.log.cursor()
    }

    /// Opens a store whose log holds `contents`, rebuilding the table by
    /// replaying the log.
    pub fn new(contents: Vec<u8>) -> (r: Result<Db, ReplayError>)
        requires
            contents@.len() <= u32::MAX,
        ensures
            match (r, db_replay(contents@)) {
                (Ok(db), Ok(st)) => {
                    &&& db.wf()
                    &&& db.view() == StoreModel { log: contents@, table: st.table, counter: st.counter }
                    &&& db.cursor() == st.cursor
                },
                (Err(e), Err(e2)) => e == e2,
                _ => false,
            },
    {
        let mut db = Db { log: Log::new(contents), table: Table::new(), kvid_counter: 0 };
        match db.replay_log() {
            Ok(()) => Ok(db),
            Err(e) => Err(e),
        }
    }

    fn replay_log(&mut self) -> (r: Result<(), ReplayError>)
        requires
            old(self).wf(),
            old(self).log.cursor() == 0,
            old(self).table.view() == Map::<Seq<u8>, TableEntry>::empty(),
            old(self).kvid_counter == 0,
        ensures
            final(self).wf(),
            final(self).log.contents() == old(self).log.contents(),
            match (r, db_replay(old(self).log.contents())) {
                (Ok(_), Ok(st)) => {
                    &&& final(self).table.view() == st.table
                    &&& final(self).kvid_counter == st.counter
                    &&& final(self).log.cursor() == st.cursor
                },
                (Err(e), Err(e2)) => e == e2,
                _ => false,
            },
    {
        let ghost bytes = self.log.contents();
        let len = self.log.bytes().len() as u64;
        let mut prev_seen_kvid: KvId = 0;
        proof {
            assert(self.table.view() == db_replay_start().table);
        }
        while !self.log.eof(0)
            invariant
                self.wf(),
                self.log.contents() == bytes,
                bytes == old(self).log.contents(),
                len == bytes.len(),
                db_replay(bytes) == db_replay_from(
                    bytes,
                    DbReplay {
                        table: self.table.view(),
                        counter: self.kvid_counter,
                        prev_seen: prev_seen_kvid,
                        cursor: self.log.cursor() as int,
                    },
                ),
            decreases replay_measure(bytes.len(), self.log.cursor() as int),
        {
            let ghost st = DbReplay {
                table: self.table.view(),
                counter: self.kvid_counter,
                prev_seen: prev_seen_kvid,
                cursor: self.log.cursor() as int,
            };
            let p = self.log.get_cursor(0);
            if p as u64 + LOG_HEADER_SIZE as u64 > len {
                return Err(ReplayError::Truncated);
            }
            let header = self.log.get_header(0, p);
            let key_pos = p + LOG_HEADER_SIZE;
            if header.kvid < prev_seen_kvid {
                // Out of order id: skip the entry.
                if key_pos as u64 + header.key_size as u64 + header.value_size as u64 > u32::MAX as u64 {
                    return Err(ReplayError::PositionOverflow);
                }
                self.log.advance_cursor(0, header.key_size);
                self.log.advance_cursor(0, header.value_size);
            } else {
                if header.key_size != 0 {
                    if key_pos as u64 + header.key_size as u64 > len {
                        return Err(ReplayError::Truncated);
                    }
                    let key = self.log.get_buffer(0, key_pos, header.key_size);
                    let value_pos = key_pos + header.key_size;
                    let op = header.flags & LOG_MASK_OP;
                    if op == LOG_OP_PUT {
                        if value_pos as u64 + header.value_size as u64 > u32::MAX as u64 {
                            return Err(ReplayError::PositionOverflow);
                        }
                        self.table.put(header.kvid, key, value_pos, header.value_size);
                        self.log.set_cursor(0, value_pos + header.value_size);
                    } else if op == LOG_OP_DELETE {
                        if header.value_size != 0 {
                            return Err(ReplayError::DeleteCarriesValue);
                        }
                        self.table.delete(header.kvid, key, value_pos);
                        self.log.set_cursor(0, value_pos);
                    }
                }
                prev_seen_kvid = header.kvid;
            }
            if header.kvid > self.kvid_counter {
                self.kvid_counter = header.kvid;
            }
            proof {
                let next = DbReplay {
                    table: self.table.view(),
                    counter: self.kvid_counter,
                    prev_seen: prev_seen_kvid,
                    cursor: self.log.cursor() as int,
                };
                assert(db_replay_step(bytes, st) == Ok::<DbReplay, ReplayError>(next));
            }
        }
        Ok(())
    }

    /// The bytes of the log.
    pub fn log_bytes(&self) -> (b: &[u8])
        ensures
            b@ == self.view().log,
    {
        self.log.bytes()
    }

    /// Whether `get` may be called for `key`: the key has an entry whose
    /// value lies inside the log.
    pub fn can_get(&self, key: &[u8]) -> (r: bool)
        requires
            self.wf(),
        ensures
            r == self.view().can_get(key@),
    {
        if !self.table.has_key(key) {
            return false;
        }
        let entry = self.table.get(key);
        let len = self.log.bytes().len() as u64;
        entry.value_size == 0 || entry.value_pos as u64 + entry.value_size as u64 <= len
    }

    /// Whether a put of a key and value of these lengths (or a delete, with
    /// a value length of zero) may be made.
    pub fn has_room(&self, key_len: usize, value_len: usize) -> (r: bool)
        requires
            self.wf(),
        ensures
            r == self.view().has_room(key_len as nat, value_len as nat),
    {
        let len = self.log.bytes().len() as u64;
        self.kvid_counter < u64::MAX && key_len as u64 <= u32::MAX as u64 && value_len as u64 <= u32::MAX as u64
            && len + LOG_HEADER_SIZE as u64 + key_len as u64 + value_len as u64 <= u32::MAX as u64
    }

    /// The value stored for `key`; a deleted key gives an empty value.
    pub fn get(&mut self, key: Vec<u8>) -> (value: Vec<u8>)
        requires
            old(self).wf(),
            old(self).view().can_get(key@),
        ensures
            final(self).wf(),
            final(self).view() == old(self).view(),
            value@ == old(self).view().value_of(key@),
            final(self).cursor() == old(self).view().value_end(key@),
    {
        let entry = *self.table.get(key.as_slice());
        self.log.get_buffer(entry.file_id, entry.value_pos, entry.value_size)
    }

    fn allocate_kvid(&mut self) -> (kvid: KvId)
        requires
            old(self).kvid_counter < u64::MAX,
        ensures
            kvid == old(self).kvid_counter + 1,
            final(self).kvid_counter == kvid,
            final(self).log == old(self).log,
            final(self).table == old(self).table,
            old(self).view().db_recoverable() ==> forall|p: int|
                #[trigger] db_reads_header_at(old(self).view().log, db_replay_start(), p) ==> parse_header(
                    old(self).view().log.subrange(p, p + LOG_HEADER_SIZE),
                ).kvid < kvid,
    {
        proof {
            let m = self.view();
            if m.db_recoverable() {
                assert forall|p: int| #[trigger]
                    db_reads_header_at(m.log, db_replay_start(), p) implies parse_header(
                    m.log.subrange(p, p + LOG_HEADER_SIZE),
                ).kvid < m.counter + 1 by {
                    crate::internal::db_laws::lemma_db_counter_bounds_ids(m.log, db_replay_start(), p);
                }
            }
        }
        self.kvid_counter = self.kvid_counter + 1;
        let kvid = self.kvid_counter;
        kvid
    }

    /// Sets `key` to `value`.
    pub fn put(&mut self, key: Vec<u8>, value: Vec<u8>)
        requires
            old(self).wf(),
            old(self).view().has_room(key@.len(), value@.len()),
        ensures
            final(self).wf(),
            final(self).view() == old(self).view().put(key@, value@),
            final(self).cursor() == final(self).view().log.len(),
    {
        let kvid = self.allocate_kvid();
        let value_pos = self.log.append(kvid, LOG_OP_PUT, key.as_slice(), value.as_slice());
        let value_size = value.len() as u32;
        self.table.put(kvid, key, value_pos, value_size);
    }

    /// Deletes `key`: its entry then points at an empty value.
    pub fn delete(&mut self, key: Vec<u8>)
        requires
            old(self).wf(),
            old(self).view().has_room(key@.len(), 0),
        ensures
            final(self).wf(),
            final(self).view() == old(self).view().delete(key@),
            final(self).cursor() == final(self).view().log.len(),
    {
        let kvid = self.allocate_kvid();
        let empty: Vec<u8> = Vec::new();
        let value_pos = self.log.append(kvid, LOG_OP_DELETE, key.as_slice(), empty.as_slice());
        self.table.delete(kvid, key, value_pos);
    }
}

} // verus!
