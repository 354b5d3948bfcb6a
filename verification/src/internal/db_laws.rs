//! What holds of a `Db` across operations: reads give back writes, and the
//! log replays to the table kept in memory.
use vstd::prelude::*;

use crate::cast::lemma_parse_header_bytes;
use crate::internal::db::{
    db_reads_header_at, replay_measure, db_replay, db_replay_from, db_replay_start, db_replay_step, DbReplay, StoreModel,
};
use crate::internal::log::{
    entry_bytes, header_bytes, header_for, lemma_header_bytes_len, parse_header, ReplayError,
    LOG_HEADER_SIZE, LOG_MASK_OP, LOG_OP_DELETE, LOG_OP_PUT,
};
use crate::internal::table::table_entry;
use crate::internal::server::op_key;
use crate::internal::txn::TxnOpView;
use vstd::utf8::{decode_utf8, encode_utf8, encode_utf8_decode_utf8, encode_utf8_valid_utf8, valid_utf8};

verus! {

/// The bytes of an entry: the header, then the key, then the value, each at
/// its place.
pub proof fn lemma_entry_layout(
    log: Seq<u8>,
    kvid: u64,
    flags: u32,
    key: Seq<u8>,
    value: Seq<u8>,
)
    ensures
        ({
            let all = log + entry_bytes(kvid, flags, key, value);
            let p = log.len() as int;
            let kp = p + LOG_HEADER_SIZE;
            let vp = kp + key.len();
            &&& all.len() == vp + value.len()
            &&& all.subrange(0, p) == log
            &&& all.subrange(p, kp) == header_bytes(header_for(kvid, flags, key, value))
            &&& parse_header(all.subrange(p, kp)) == header_for(kvid, flags, key, value)
            &&& all.subrange(kp, vp) == key
            &&& all.subrange(vp, vp + value.len()) == value
        }),
{
    let h = header_for(kvid, flags, key, value);
    lemma_header_bytes_len(h);
    lemma_parse_header_bytes(h);
    let all = log + entry_bytes(kvid, flags, key, value);
    let p = log.len() as int;
    let kp = p + LOG_HEADER_SIZE;
    let vp = kp + key.len();
    assert(all.subrange(0, p) =~= log);
    assert(all.subrange(p, kp) =~= header_bytes(h));
    assert(all.subrange(kp, vp) =~= key);
    assert(all.subrange(vp, vp + value.len()) =~= value);
}

/// After `key` is set to `value`, reading `key` gives `value`.
pub proof fn lemma_put_then_get(m: StoreModel, key: Seq<u8>, value: Seq<u8>)
    requires
        m.has_room(key.len(), value.len()),
    ensures
        m.put(key, value).can_get(key),
        m.put(key, value).value_of(key) == value,
{
    lemma_entry_layout(m.log, (m.counter + 1) as u64, LOG_OP_PUT, key, value);
}

/// After `key` is deleted, reading `key` gives the empty value, and its entry
/// has size zero.
pub proof fn lemma_delete_then_get(m: StoreModel, key: Seq<u8>)
    requires
        m.has_room(key.len(), 0),
    ensures
        m.delete(key).can_get(key),
        m.delete(key).value_of(key) == Seq::<u8>::empty(),
        m.delete(key).table[key].value_size == 0,
{
    lemma_entry_layout(m.log, (m.counter + 1) as u64, LOG_OP_DELETE, key, Seq::empty());
    assert(m.delete(key).value_of(key) =~= Seq::<u8>::empty());
}

/// Setting one key leaves what every other key reads unchanged.
pub proof fn lemma_put_keeps_others(m: StoreModel, key: Seq<u8>, value: Seq<u8>, other: Seq<u8>)
    requires
        m.has_room(key.len(), value.len()),
        other != key,
        m.can_get(other),
    ensures
        m.put(key, value).can_get(other),
        m.put(key, value).value_of(other) == m.value_of(other),
{
    let e = m.table[other];
    let log2 = m.put(key, value).log;
    if e.value_size != 0 {
        assert(log2.subrange(e.value_pos as int, e.value_pos + e.value_size) =~= m.log.subrange(
            e.value_pos as int,
            e.value_pos + e.value_size,
        ));
    }
}

/// Deleting one key leaves what every other key reads unchanged.
pub proof fn lemma_delete_keeps_others(m: StoreModel, key: Seq<u8>, other: Seq<u8>)
    requires
        m.has_room(key.len(), 0),
        other != key,
        m.can_get(other),
    ensures
        m.delete(key).can_get(other),
        m.delete(key).value_of(other) == m.value_of(other),
{
    let e = m.table[other];
    let log2 = m.delete(key).log;
    if e.value_size != 0 {
        assert(log2.subrange(e.value_pos as int, e.value_pos + e.value_size) =~= m.log.subrange(
            e.value_pos as int,
            e.value_pos + e.value_size,
        ));
    }
}

/// A replay step reads only bytes that lie before the point it reaches, so
/// bytes added at the end do not change it.
proof fn lemma_db_step_extend(bytes: Seq<u8>, extra: Seq<u8>, st: DbReplay)
    requires
        0 <= st.cursor < bytes.len(),
        db_replay_step(bytes, st) is Ok,
    ensures
        db_replay_step(bytes + extra, st) == db_replay_step(bytes, st),
{
    let all = bytes + extra;
    let p = st.cursor;
    assert(all.subrange(p, p + LOG_HEADER_SIZE) =~= bytes.subrange(p, p + LOG_HEADER_SIZE));
    let h = parse_header(bytes.subrange(p, p + LOG_HEADER_SIZE));
    let kp = p + LOG_HEADER_SIZE;
    let vp = kp + h.key_size;
    if h.kvid >= st.prev_seen && h.key_size != 0 {
        assert(all.subrange(kp, vp) =~= bytes.subrange(kp, vp));
    }
}

/// If replaying `bytes` from `st` stops exactly at the end of `bytes`, then
/// replaying `bytes + extra` from `st` passes through the same final state.
proof fn lemma_db_replay_extend(bytes: Seq<u8>, extra: Seq<u8>, st: DbReplay)
    requires
        0 <= st.cursor <= bytes.len(),
        db_replay_from(bytes, st) is Ok,
        db_replay_from(bytes, st)->Ok_0.cursor == bytes.len(),
    ensures
        db_replay_from(bytes + extra, st) == db_replay_from(bytes + extra, db_replay_from(bytes, st)->Ok_0),
    decreases bytes.len() - st.cursor,
{
    if st.cursor < bytes.len() {
        let next = db_replay_step(bytes, st)->Ok_0;
        lemma_db_step_extend(bytes, extra, st);
        assert(next.cursor > st.cursor);
        if next.cursor < bytes.len() {
            lemma_db_replay_extend(bytes, extra, next);
        } else {
            assert(db_replay_from(bytes, next) == Ok::<DbReplay, ReplayError>(next));
        }
    }
}

/// Replaying the entry that a put or delete appends, from the state that
/// replaying the log before it ends in, applies that put or delete.
proof fn lemma_db_replay_new_entry(m: StoreModel, m2: StoreModel, flags: u32, key: Seq<u8>, value: Seq<u8>, fin: DbReplay)
    requires
        m.has_room(key.len(), value.len()),
        key.len() > 0,
        flags == LOG_OP_PUT || (flags == LOG_OP_DELETE && value.len() == 0),
        m2.log == m.log + entry_bytes((m.counter + 1) as u64, flags, key, value),
        m2.counter == m.counter + 1,
        m2.table == m.table.insert(
            key,
            table_entry(m2.counter, (m.log.len() + LOG_HEADER_SIZE + key.len()) as u32, value.len() as u32),
        ),
        fin.table == m.table,
        fin.counter == m.counter,
        fin.prev_seen <= m.counter,
        fin.cursor == m.log.len(),
    ensures
        db_replay_from(m2.log, fin) == Ok::<DbReplay, ReplayError>(
            DbReplay { table: m2.table, counter: m2.counter, prev_seen: m2.counter, cursor: m2.log.len() as int },
        ),
{
    let kvid = (m.counter + 1) as u64;
    lemma_entry_layout(m.log, kvid, flags, key, value);
    let h = header_for(kvid, flags, key, value);
    assert(LOG_OP_PUT & LOG_MASK_OP == LOG_OP_PUT) by (bit_vector);
    assert(LOG_OP_DELETE & LOG_MASK_OP == LOG_OP_DELETE) by (bit_vector);
    assert(h.flags & LOG_MASK_OP == flags);
    let next = DbReplay { table: m2.table, counter: m2.counter, prev_seen: m2.counter, cursor: m2.log.len() as int };
    assert(db_replay_step(m2.log, fin) == Ok::<DbReplay, ReplayError>(next));
    assert(db_replay_from(m2.log, next) == Ok::<DbReplay, ReplayError>(next));
}

/// An empty log replays to the empty store.
pub proof fn lemma_empty_store_recoverable()
    ensures
        (StoreModel { log: Seq::empty(), table: Map::empty(), counter: 0 }).db_recoverable(),
{
}

/// Reopening gives back the same store: when the log of `m` replays to its
/// table, the store that `Db::new` opens on that log is `m` again.
pub proof fn lemma_reopen_gives_same_store(m: StoreModel)
    requires
        m.db_recoverable(),
    ensures
        db_replay(m.log) is Ok,
        (StoreModel {
            log: m.log,
            table: db_replay(m.log)->Ok_0.table,
            counter: db_replay(m.log)->Ok_0.counter,
        }) == m,
{
}

/// Recovery survives a put: if the log of a store replays to its table, it
/// still does after a put of a non-empty key.
pub proof fn lemma_put_recoverable(m: StoreModel, key: Seq<u8>, value: Seq<u8>)
    requires
        m.db_recoverable(),
        m.has_room(key.len(), value.len()),
        key.len() > 0,
    ensures
        m.put(key, value).db_recoverable(),
{
    let m2 = m.put(key, value);
    let kvid = (m.counter + 1) as u64;
    let fin = db_replay(m.log)->Ok_0;
    lemma_db_replay_extend(m.log, entry_bytes(kvid, LOG_OP_PUT, key, value), db_replay_start());
    lemma_db_replay_new_entry(m, m2, LOG_OP_PUT, key, value, fin);
}

/// Recovery survives a delete: if the log of a store replays to its table,
/// it still does after a delete of a non-empty key.
pub proof fn lemma_delete_recoverable(m: StoreModel, key: Seq<u8>)
    requires
        m.db_recoverable(),
        m.has_room(key.len(), 0),
        key.len() > 0,
    ensures
        m.delete(key).db_recoverable(),
{
    let m2 = m.delete(key);
    let kvid = (m.counter + 1) as u64;
    let fin = db_replay(m.log)->Ok_0;
    lemma_db_replay_extend(m.log, entry_bytes(kvid, LOG_OP_DELETE, key, Seq::empty()), db_replay_start());
    lemma_db_replay_new_entry(m, m2, LOG_OP_DELETE, key, Seq::empty(), fin);
}


/// Along a replay the last id applied never exceeds the largest id seen, and
/// the largest id seen never shrinks.
proof fn lemma_db_replay_counter(bytes: Seq<u8>, st: DbReplay)
    requires
        st.prev_seen <= st.counter,
        db_replay_from(bytes, st) is Ok,
    ensures
        db_replay_from(bytes, st)->Ok_0.prev_seen <= db_replay_from(bytes, st)->Ok_0.counter,
        st.counter <= db_replay_from(bytes, st)->Ok_0.counter,
    decreases replay_measure(bytes.len(), st.cursor),
{
    if st.cursor < bytes.len() {
        lemma_db_replay_counter(bytes, db_replay_step(bytes, st)->Ok_0);
    }
}

/// Every id that a replay reads is at most the counter it ends with, so the
/// next id a store opened on the log hands out exceeds every id in the log.
pub proof fn lemma_db_counter_bounds_ids(bytes: Seq<u8>, st: DbReplay, p: int)
    requires
        0 <= st.cursor,
        st.prev_seen <= st.counter,
        db_replay_from(bytes, st) is Ok,
        db_reads_header_at(bytes, st, p),
    ensures
        0 <= p,
        p + LOG_HEADER_SIZE <= bytes.len(),
        parse_header(bytes.subrange(p, p + LOG_HEADER_SIZE)).kvid <= db_replay_from(bytes, st)->Ok_0.counter,
    decreases replay_measure(bytes.len(), st.cursor),
{
    let next = db_replay_step(bytes, st)->Ok_0;
    lemma_db_replay_counter(bytes, next);
    if st.cursor != p {
        lemma_db_counter_bounds_ids(bytes, next, p);
    }
}

/// Opening on any log that replays to its end gives a recoverable store: it
/// keeps replaying to the table in memory through later puts and deletes.
pub proof fn lemma_opened_store_recoverable(bytes: Seq<u8>)
    requires
        db_replay(bytes) is Ok,
        db_replay(bytes)->Ok_0.cursor == bytes.len(),
    ensures
        (StoreModel {
            log: bytes,
            table: db_replay(bytes)->Ok_0.table,
            counter: db_replay(bytes)->Ok_0.counter,
        }).db_recoverable(),
{
    lemma_db_replay_counter(bytes, db_replay_start());
}

/// The state after a sequence of puts and deletes.
pub open spec fn db_apply_writes(m: StoreModel, ops: Seq<TxnOpView>) -> StoreModel
    decreases ops.len(),
{
    if ops.len() == 0 {
        m
    } else {
        let m1 = db_apply_writes(m, ops.drop_last());
        match ops.last() {
            TxnOpView::Put(k, v) => m1.put(k, v),
            TxnOpView::Delete(k) => m1.delete(k),
        }
    }
}

/// Every put and delete of the sequence has room when it is made.
pub open spec fn db_writes_fit(m: StoreModel, ops: Seq<TxnOpView>) -> bool
    decreases ops.len(),
{
    if ops.len() == 0 {
        true
    } else {
        let m1 = db_apply_writes(m, ops.drop_last());
        &&& db_writes_fit(m, ops.drop_last())
        &&& match ops.last() {
            TxnOpView::Put(k, v) => m1.has_room(k.len(), v.len()),
            TxnOpView::Delete(k) => m1.has_room(k.len(), 0),
        }
    }
}

/// Puts and deletes of other keys leave what a readable key reads unchanged.
pub proof fn lemma_writes_keep_value(m: StoreModel, ops: Seq<TxnOpView>, key: Seq<u8>)
    requires
        m.can_get(key),
        db_writes_fit(m, ops),
        forall|i: int| 0 <= i < ops.len() ==> #[trigger] op_key(ops[i]) != key,
    ensures
        db_apply_writes(m, ops).can_get(key),
        db_apply_writes(m, ops).value_of(key) == m.value_of(key),
    decreases ops.len(),
{
    if ops.len() > 0 {
        let prev = ops.drop_last();
        assert forall|i: int| 0 <= i < prev.len() implies #[trigger] op_key(prev[i]) != key by {
            assert(prev[i] == ops[i]);
        }
        lemma_writes_keep_value(m, prev, key);
        let m1 = db_apply_writes(m, prev);
        let last = ops[ops.len() - 1];
        assert(op_key(last) != key);
        match last {
            TxnOpView::Put(k, v) => {
                lemma_put_keeps_others(m1, k, v, key);
            },
            TxnOpView::Delete(k) => {
                lemma_delete_keeps_others(m1, k, key);
            },
        }
    }
}

/// A read gives back a write however many puts and deletes of other keys
/// follow it.
pub proof fn lemma_put_then_get_after_writes(
    m: StoreModel,
    key: Seq<u8>,
    value: Seq<u8>,
    ops: Seq<TxnOpView>,
)
    requires
        m.has_room(key.len(), value.len()),
        db_writes_fit(m.put(key, value), ops),
        forall|i: int| 0 <= i < ops.len() ==> #[trigger] op_key(ops[i]) != key,
    ensures
        db_apply_writes(m.put(key, value), ops).can_get(key),
        db_apply_writes(m.put(key, value), ops).value_of(key) == value,
{
    lemma_put_then_get(m, key, value);
    lemma_writes_keep_value(m.put(key, value), ops, key);
}

/// The id the next put or delete of a recoverable store takes exceeds every
/// id in its log, so a later replay never skips the entry it writes.
pub proof fn lemma_next_id_exceeds_log_ids(m: StoreModel, p: int)
    requires
        m.db_recoverable(),
        db_reads_header_at(m.log, db_replay_start(), p),
    ensures
        parse_header(m.log.subrange(p, p + LOG_HEADER_SIZE)).kvid < m.counter + 1,
{
    lemma_db_counter_bounds_ids(m.log, db_replay_start(), p);
}

/// A put or a delete has room exactly when an id is left and the entry it
/// appends still ends at a 32-bit position; whether the value is empty plays
/// no other part.
pub proof fn lemma_room_is_entry_fit(m: StoreModel, key: Seq<u8>, value: Seq<u8>)
    ensures
        m.has_room(key.len(), value.len()) <==> (m.counter < u64::MAX && m.put(key, value).log.len()
            <= u32::MAX),
        m.has_room(key.len(), 0) <==> (m.counter < u64::MAX && m.delete(key).log.len() <= u32::MAX),
{
    lemma_entry_layout(m.log, (m.counter + 1) as u64, LOG_OP_PUT, key, value);
    lemma_entry_layout(m.log, (m.counter + 1) as u64, LOG_OP_DELETE, key, Seq::empty());
}

/// Room never depends on more than the total size: an entry with a shorter
/// value (an empty one, as a delete writes, too) fits wherever a longer one
/// does, and an empty store has room for any entry that fits 32-bit
/// positions.
pub proof fn lemma_room_by_size(m: StoreModel, key_len: nat, value_len: nat, shorter: nat)
    ensures
        m.has_room(key_len, value_len) && shorter <= value_len ==> m.has_room(key_len, shorter),
        LOG_HEADER_SIZE + key_len + value_len <= u32::MAX ==> (StoreModel {
            log: Seq::empty(),
            table: Map::empty(),
            counter: 0,
        }).has_room(key_len, value_len),
{
}

/// Writing a string value and reading it back as text gives the string: the
/// stored bytes are its UTF-8 encoding, which is valid and decodes to it.
pub proof fn lemma_put_str_then_get_str(m: StoreModel, key: Seq<char>, value: Seq<char>)
    requires
        m.has_room(encode_utf8(key).len(), encode_utf8(value).len()),
    ensures
        m.put(encode_utf8(key), encode_utf8(value)).can_get(encode_utf8(key)),
        valid_utf8(m.put(encode_utf8(key), encode_utf8(value)).value_of(encode_utf8(key))),
        decode_utf8(m.put(encode_utf8(key), encode_utf8(value)).value_of(encode_utf8(key))) == value,
{
    lemma_put_then_get(m, encode_utf8(key), encode_utf8(value));
    encode_utf8_valid_utf8(value);
    encode_utf8_decode_utf8(value);
}

} // verus!
