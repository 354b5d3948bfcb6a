//! What holds of a transactional `Server` across operations: a committed
//! transaction is recovered whole, one without its commit record is not
//! recovered at all, and reads after a commit give back its last writes.
use vstd::prelude::*;

use crate::internal::db::{replay_measure, StoreModel};
use crate::internal::db_laws::lemma_entry_layout;
use crate::internal::log::{
    entry_bytes, parse_header, ReplayError, LOG_FLAG_COMMIT, LOG_FLAG_DELETE,
    LOG_FLAG_WRITE, LOG_HEADER_SIZE,
};
use crate::internal::server::{
    apply_pending, lemma_apply_ops_log, op_key, op_log_len,
    ops_log_len, server_reads_header_at, server_replay, server_replay_from, server_replay_start, server_replay_step, PendingOp,
    ServerReplay,
};
use crate::internal::txn::TxnOpView;

verus! {

/// The operation that replay reads back from the entry that `op` appends to
/// the log of `m`.
pub open spec fn op_pending(m: StoreModel, op: TxnOpView) -> PendingOp {
    let pos = (m.log.len() + LOG_HEADER_SIZE + op_key(op).len()) as u32;
    match op {
        TxnOpView::Put(k, v) => if v.len() > 0 {
            PendingOp::Put(k, pos, v.len() as u32)
        } else {
            PendingOp::Delete(k, pos)
        },
        TxnOpView::Delete(k) => PendingOp::Delete(k, pos),
    }
}

/// The operations that replay reads back from the entries of `ops`.
pub open spec fn ops_pending(m: StoreModel, ops: Seq<TxnOpView>, txnid: u64) -> Seq<PendingOp>
    decreases ops.len(),
{
    if ops.len() == 0 {
        Seq::empty()
    } else {
        ops_pending(m, ops.drop_last(), txnid).push(op_pending(m.apply_ops(ops.drop_last(), txnid), ops.last()))
    }
}

/// Every operation of `ops` has a non-empty key.
pub open spec fn keys_non_empty(ops: Seq<TxnOpView>) -> bool {
    forall|i: int| 0 <= i < ops.len() ==> #[trigger] op_key(ops[i]).len() > 0
}

/// The value that the last operation of `ops` on `key` leaves, if any.
pub open spec fn last_write(ops: Seq<TxnOpView>, key: Seq<u8>) -> Option<Seq<u8>>
    decreases ops.len(),
{
    if ops.len() == 0 {
        None
    } else if op_key(ops.last()) == key {
        match ops.last() {
            TxnOpView::Put(k, v) => Some(v),
            TxnOpView::Delete(k) => Some(Seq::empty()),
        }
    } else {
        last_write(ops.drop_last(), key)
    }
}

/// Applying the operations read back from the log gives the table that
/// applying the transaction's operations gives.
proof fn lemma_ops_pending_table(m: StoreModel, ops: Seq<TxnOpView>, txnid: u64)
    ensures
        apply_pending(m.table, ops_pending(m, ops, txnid), txnid) == m.apply_ops(ops, txnid).table,
        ops_pending(m, ops, txnid).len() == ops.len(),
    decreases ops.len(),
{
    if ops.len() > 0 {
        lemma_ops_pending_table(m, ops.drop_last(), txnid);
        let p = ops_pending(m, ops, txnid);
        assert(p.drop_last() =~= ops_pending(m, ops.drop_last(), txnid));
    }
}

proof fn lemma_server_step_extend(bytes: Seq<u8>, extra: Seq<u8>, st: ServerReplay)
    requires
        0 <= st.cursor < bytes.len(),
        server_replay_step(bytes, st) is Ok,
    ensures
        server_replay_step(bytes + extra, st) == server_replay_step(bytes, st),
{
    let all = bytes + extra;
    let p = st.cursor;
    assert(all.subrange(p, p + LOG_HEADER_SIZE) =~= bytes.subrange(p, p + LOG_HEADER_SIZE));
    let h = parse_header(bytes.subrange(p, p + LOG_HEADER_SIZE));
    let kp = p + LOG_HEADER_SIZE;
    let vp = kp + h.key_size;
    if h.kvid >= st.prev_seen && h.key_size > 0 {
        assert(all.subrange(kp, vp) =~= bytes.subrange(kp, vp));
    }
}

/// If replaying `bytes` from `st` stops exactly at the end of `bytes`, then
/// replaying `bytes + extra` from `st` passes through the same final state.
proof fn lemma_server_replay_extend(bytes: Seq<u8>, extra: Seq<u8>, st: ServerReplay)
    requires
        0 <= st.cursor <= bytes.len(),
        server_replay_from(bytes, st) is Ok,
        server_replay_from(bytes, st)->Ok_0.cursor == bytes.len(),
    ensures
        server_replay_from(bytes + extra, st) == server_replay_from(
            bytes + extra,
            server_replay_from(bytes, st)->Ok_0,
        ),
    decreases bytes.len() - st.cursor,
{
    if st.cursor < bytes.len() {
        let next = server_replay_step(bytes, st)->Ok_0;
        lemma_server_step_extend(bytes, extra, st);
        if next.cursor < bytes.len() {
            lemma_server_replay_extend(bytes, extra, next);
        } else {
            assert(server_replay_from(bytes, next) == Ok::<ServerReplay, ReplayError>(next));
        }
    }
}

/// The replay state reached after the entries of `ops` (without their commit
/// record), starting from `s0`.
pub open spec fn after_entries(m: StoreModel, ops: Seq<TxnOpView>, s0: ServerReplay) -> ServerReplay {
    let txnid = (m.counter + 1) as u64;
    let m_id = StoreModel { counter: txnid, ..m };
    if ops.len() == 0 {
        s0
    } else {
        ServerReplay {
            table: m.table,
            counter: txnid,
            prev_seen: txnid,
            prev_good: s0.prev_good,
            pending: ops_pending(m_id, ops, txnid),
            cursor: m_id.apply_ops(ops, txnid).log.len() as int,
        }
    }
}

/// Replaying the entries of a transaction queues its operations without
/// touching the table.
proof fn lemma_replay_entries(m: StoreModel, ops: Seq<TxnOpView>, s0: ServerReplay)
    requires
        m.counter < u64::MAX,
        m.log.len() + ops_log_len(ops) <= u32::MAX,
        keys_non_empty(ops),
        s0.table == m.table,
        s0.counter == m.counter,
        s0.prev_seen <= m.counter,
        s0.prev_good <= s0.prev_seen,
        s0.prev_good == s0.prev_seen ==> s0.pending.len() == 0,
        s0.cursor == m.log.len(),
    ensures
        ({
            let txnid = (m.counter + 1) as u64;
            let m_id = StoreModel { counter: txnid, ..m };
            server_replay_from(m_id.apply_ops(ops, txnid).log, s0) == Ok::<ServerReplay, ReplayError>(
                after_entries(m, ops, s0),
            )
        }),
    decreases ops.len(),
{
    let txnid = (m.counter + 1) as u64;
    let m_id = StoreModel { counter: txnid, ..m };
    if ops.len() > 0 {
        let prev = ops.drop_last();
        let op = ops.last();
        assert(keys_non_empty(prev)) by {
            assert forall|i: int| 0 <= i < prev.len() implies #[trigger] op_key(prev[i]).len() > 0 by {
                assert(prev[i] == ops[i]);
            }
        }
        assert(op_key(op).len() > 0) by {
            assert(op == ops[ops.len() - 1]);
        }
        assert(ops_log_len(ops) == ops_log_len(prev) + op_log_len(op));
        lemma_replay_entries(m, prev, s0);
        lemma_apply_ops_log(m_id, prev, txnid);
        let m1 = m_id.apply_ops(prev, txnid);
        let s1 = after_entries(m, prev, s0);
        let l1 = m1.log;
        let m2 = m1.apply_op(op, txnid);
        assert(m2 == m_id.apply_ops(ops, txnid));
        let extra = m2.log.subrange(l1.len() as int, m2.log.len() as int);
        let (flags, k, v) = match op {
            TxnOpView::Put(k, v) => (LOG_FLAG_WRITE, k, v),
            TxnOpView::Delete(k) => (LOG_FLAG_DELETE, k, Seq::<u8>::empty()),
        };
        assert(m2.log == l1 + entry_bytes(txnid, flags, k, v));
        assert(l1 + extra =~= m2.log);
        lemma_server_replay_extend(l1, extra, s0);
        lemma_entry_layout(l1, txnid, flags, k, v);
        let s2 = after_entries(m, ops, s0);
        let p = ops_pending(m_id, ops, txnid);
        assert(p == ops_pending(m_id, prev, txnid).push(op_pending(m1, op)));
        if prev.len() == 0 && s0.prev_good == s0.prev_seen {
            assert(s0.pending =~= Seq::<PendingOp>::empty());
        }
        assert(s1.cursor == l1.len());
        assert(server_replay_step(m2.log, s1) == Ok::<ServerReplay, ReplayError>(s2));
        assert(server_replay_from(m2.log, s2) == Ok::<ServerReplay, ReplayError>(s2));
    } else {
        assert(server_replay_from(m.log, s0) == Ok::<ServerReplay, ReplayError>(s0));
    }
}

/// The replay state that a recoverable store's log ends in.
proof fn lemma_recovered_state(m: StoreModel) -> (s0: ServerReplay)
    requires
        m.server_recoverable(),
    ensures
        server_replay(m.log) == Ok::<ServerReplay, ReplayError>(s0),
        s0.table == m.table,
        s0.counter == m.counter,
        s0.prev_seen <= m.counter,
        s0.prev_good <= s0.prev_seen,
        s0.prev_good == s0.prev_seen ==> s0.pending.len() == 0,
        s0.cursor == m.log.len(),
{
    server_replay(m.log)->Ok_0
}

/// Replaying the log of a recoverable store followed by the entries of a
/// transaction reaches the state `after_entries` describes.
proof fn lemma_replay_log_and_entries(m: StoreModel, ops: Seq<TxnOpView>) -> (s0: ServerReplay)
    requires
        m.server_recoverable(),
        m.counter < u64::MAX,
        m.log.len() + ops_log_len(ops) <= u32::MAX,
        keys_non_empty(ops),
    ensures
        ({
            let txnid = (m.counter + 1) as u64;
            let m_id = StoreModel { counter: txnid, ..m };
            &&& s0.table == m.table
            &&& s0.prev_good <= s0.prev_seen
            &&& s0.prev_seen <= m.counter
            &&& server_replay(m_id.apply_ops(ops, txnid).log) == Ok::<ServerReplay, ReplayError>(
                after_entries(m, ops, s0),
            )
        }),
{
    let txnid = (m.counter + 1) as u64;
    let m_id = StoreModel { counter: txnid, ..m };
    let s0 = lemma_recovered_state(m);
    let applied = m_id.apply_ops(ops, txnid);
    lemma_apply_ops_log(m_id, ops, txnid);
    let rest = applied.log.subrange(m.log.len() as int, applied.log.len() as int);
    assert(m.log + rest =~= applied.log);
    lemma_server_replay_extend(m.log, rest, server_replay_start());
    lemma_replay_entries(m, ops, s0);
    s0
}

/// An empty log replays to the empty store.
pub proof fn lemma_empty_server_recoverable()
    ensures
        (StoreModel { log: Seq::empty(), table: Map::empty(), counter: 0 }).server_recoverable(),
{
}

/// Reopening gives back the same store: when the log of `m` replays to its
/// table, the store that `Server::new` opens on that log is `m` again.
pub proof fn lemma_reopen_gives_same_server(m: StoreModel)
    requires
        m.server_recoverable(),
    ensures
        server_replay(m.log) is Ok,
        (StoreModel {
            log: m.log,
            table: server_replay(m.log)->Ok_0.table,
            counter: server_replay(m.log)->Ok_0.counter,
        }) == m,
{
}

/// A transaction without its commit record is not recovered: replaying the
/// log of a recoverable store followed by the entries of a transaction's
/// operations (whose keys are non-empty) gives back the store's table.
pub proof fn lemma_uncommitted_not_recovered(m: StoreModel, ops: Seq<TxnOpView>)
    requires
        m.server_recoverable(),
        m.counter < u64::MAX,
        m.log.len() + ops_log_len(ops) <= u32::MAX,
        keys_non_empty(ops),
    ensures
        ({
            let txnid = (m.counter + 1) as u64;
            let log = (StoreModel { counter: txnid, ..m }).apply_ops(ops, txnid).log;
            &&& server_replay(log) is Ok
            &&& server_replay(log)->Ok_0.table == m.table
        }),
{
    lemma_replay_log_and_entries(m, ops);
}

/// Recovery survives a commit: if the log of a store replays to its table,
/// it still does after a non-empty transaction whose keys are non-empty is
/// committed.
pub proof fn lemma_commit_recoverable(m: StoreModel, ops: Seq<TxnOpView>)
    requires
        m.server_recoverable(),
        m.has_room_for_commit(ops),
        ops.len() > 0,
        keys_non_empty(ops),
    ensures
        m.commit(ops).server_recoverable(),
{
    let txnid = (m.counter + 1) as u64;
    let m_id = StoreModel { counter: txnid, ..m };
    let s0 = lemma_replay_log_and_entries(m, ops);
    let applied = m_id.apply_ops(ops, txnid);
    let s1 = after_entries(m, ops, s0);
    lemma_apply_ops_log(m_id, ops, txnid);
    lemma_ops_pending_table(m_id, ops, txnid);
    let record = entry_bytes(txnid, LOG_FLAG_COMMIT, Seq::empty(), Seq::empty());
    let full = m.commit(ops).log;
    assert(full == applied.log + record);
    lemma_server_replay_extend(applied.log, record, server_replay_start());
    lemma_entry_layout(applied.log, txnid, LOG_FLAG_COMMIT, Seq::empty(), Seq::empty());
    let s2 = ServerReplay {
        table: applied.table,
        counter: txnid,
        prev_seen: txnid,
        prev_good: txnid,
        pending: Seq::empty(),
        cursor: full.len() as int,
    };
    assert(server_replay_step(full, s1) == Ok::<ServerReplay, ReplayError>(s2));
    assert(server_replay_from(full, s2) == Ok::<ServerReplay, ReplayError>(s2));
}

/// Reads after some operations: a key the operations write reads as its last
/// write, and any other readable key reads as before.
proof fn lemma_apply_ops_reads(m: StoreModel, ops: Seq<TxnOpView>, txnid: u64, key: Seq<u8>)
    requires
        m.log.len() + ops_log_len(ops) <= u32::MAX,
    ensures
        ({
            let applied = m.apply_ops(ops, txnid);
            match last_write(ops, key) {
                Some(v) => applied.can_get(key) && applied.value_of(key) == v,
                None => m.can_get(key) ==> applied.can_get(key) && applied.value_of(key) == m.value_of(key),
            }
        }),
    decreases ops.len(),
{
    if ops.len() > 0 {
        let prev = ops.drop_last();
        let op = ops.last();
        assert(ops_log_len(ops) == ops_log_len(prev) + op_log_len(op));
        lemma_apply_ops_reads(m, prev, txnid, key);
        lemma_apply_ops_log(m, prev, txnid);
        let m1 = m.apply_ops(prev, txnid);
        let (flags, k, v) = match op {
            TxnOpView::Put(k, v) => (LOG_FLAG_WRITE, k, v),
            TxnOpView::Delete(k) => (LOG_FLAG_DELETE, k, Seq::<u8>::empty()),
        };
        lemma_entry_layout(m1.log, txnid, flags, k, v);
        let m2 = m1.apply_op(op, txnid);
        if k == key {
            assert(m2.value_of(key) =~= v);
        } else if m1.can_get(key) {
            let e = m1.table[key];
            if e.value_size != 0 {
                assert(m2.log.subrange(e.value_pos as int, e.value_pos + e.value_size) =~= m1.log.subrange(
                    e.value_pos as int,
                    e.value_pos + e.value_size,
                ));
            }
        }
    }
}

/// Reads after a commit give back the transaction's last write to each key
/// it writes, and leave every other readable key as it was.
pub proof fn lemma_commit_reads(m: StoreModel, ops: Seq<TxnOpView>, key: Seq<u8>)
    requires
        m.has_room_for_commit(ops),
    ensures
        ({
            let c = m.commit(ops);
            match last_write(ops, key) {
                Some(v) => c.can_get(key) && c.value_of(key) == v,
                None => m.can_get(key) ==> c.can_get(key) && c.value_of(key) == m.value_of(key),
            }
        }),
{
    let txnid = (m.counter + 1) as u64;
    let m_id = StoreModel { counter: txnid, ..m };
    lemma_apply_ops_reads(m_id, ops, txnid, key);
    lemma_apply_ops_log(m_id, ops, txnid);
    let applied = m_id.apply_ops(ops, txnid);
    let c = m.commit(ops);
    if applied.can_get(key) {
        let e = applied.table[key];
        if e.value_size != 0 {
            assert(c.log.subrange(e.value_pos as int, e.value_pos + e.value_size) =~= applied.log.subrange(
                e.value_pos as int,
                e.value_pos + e.value_size,
            ));
        }
    }
}


/// Along a replay the last transaction applied never passes the last id
/// read, that id never exceeds the largest id seen, and the largest id seen
/// never shrinks.
proof fn lemma_server_replay_counter(bytes: Seq<u8>, st: ServerReplay)
    requires
        st.prev_seen <= st.counter,
        st.prev_good <= st.prev_seen,
        server_replay_from(bytes, st) is Ok,
    ensures
        server_replay_from(bytes, st)->Ok_0.prev_seen <= server_replay_from(bytes, st)->Ok_0.counter,
        server_replay_from(bytes, st)->Ok_0.prev_good <= server_replay_from(bytes, st)->Ok_0.prev_seen,
        st.counter <= server_replay_from(bytes, st)->Ok_0.counter,
    decreases replay_measure(bytes.len(), st.cursor),
{
    if st.cursor < bytes.len() {
        lemma_server_replay_counter(bytes, server_replay_step(bytes, st)->Ok_0);
    }
}

/// Every id that a replay reads is at most the counter it ends with, so the
/// next transaction id a store opened on the log hands out exceeds every id
/// in the log, committed or not.
pub proof fn lemma_server_counter_bounds_ids(bytes: Seq<u8>, st: ServerReplay, p: int)
    requires
        0 <= st.cursor,
        st.prev_seen <= st.counter,
        st.prev_good <= st.prev_seen,
        server_replay_from(bytes, st) is Ok,
        server_reads_header_at(bytes, st, p),
    ensures
        0 <= p,
        p + LOG_HEADER_SIZE <= bytes.len(),
        parse_header(bytes.subrange(p, p + LOG_HEADER_SIZE)).kvid <= server_replay_from(bytes, st)->Ok_0.counter,
    decreases replay_measure(bytes.len(), st.cursor),
{
    let next = server_replay_step(bytes, st)->Ok_0;
    lemma_server_replay_counter(bytes, next);
    if st.cursor != p {
        lemma_server_counter_bounds_ids(bytes, next, p);
    }
}

/// Opening on a log that replays to its end, with no operation waiting under
/// an id that was committed, gives a recoverable store.
pub proof fn lemma_opened_server_recoverable(bytes: Seq<u8>)
    requires
        server_replay(bytes) is Ok,
        server_replay(bytes)->Ok_0.cursor == bytes.len(),
        server_replay(bytes)->Ok_0.prev_good == server_replay(bytes)->Ok_0.prev_seen
            ==> server_replay(bytes)->Ok_0.pending.len() == 0,
    ensures
        (StoreModel {
            log: bytes,
            table: server_replay(bytes)->Ok_0.table,
            counter: server_replay(bytes)->Ok_0.counter,
        }).server_recoverable(),
{
    lemma_server_replay_counter(bytes, server_replay_start());
}

/// A crash in the middle of a commit leaves a recoverable store: the log of
/// a recoverable store followed by whole entries of a transaction's
/// operations (at least one, keys non-empty) and no commit record opens to
/// the store's table with the transaction's id spent, and later commits
/// recover from it.
pub proof fn lemma_crash_mid_commit_recoverable(m: StoreModel, ops: Seq<TxnOpView>)
    requires
        m.server_recoverable(),
        m.counter < u64::MAX,
        m.log.len() + ops_log_len(ops) <= u32::MAX,
        ops.len() > 0,
        keys_non_empty(ops),
    ensures
        ({
            let txnid = (m.counter + 1) as u64;
            let log = (StoreModel { counter: txnid, ..m }).apply_ops(ops, txnid).log;
            (StoreModel { log: log, table: m.table, counter: txnid }).server_recoverable()
        }),
{
    let txnid = (m.counter + 1) as u64;
    lemma_apply_ops_log(StoreModel { counter: txnid, ..m }, ops, txnid);
    lemma_replay_log_and_entries(m, ops);
}

/// The id the next commit of a recoverable store takes exceeds every id in
/// its log, so a later replay never skips the entries it writes.
pub proof fn lemma_next_txnid_exceeds_log_ids(m: StoreModel, p: int)
    requires
        m.server_recoverable(),
        server_reads_header_at(m.log, server_replay_start(), p),
    ensures
        parse_header(m.log.subrange(p, p + LOG_HEADER_SIZE)).kvid < m.counter + 1,
{
    lemma_server_counter_bounds_ids(m.log, server_replay_start(), p);
}

/// A transaction has room exactly when an id is left and the log after its
/// commit still ends at a 32-bit position, whatever mix of puts and deletes
/// it holds.
pub proof fn lemma_commit_room_is_log_fit(m: StoreModel, ops: Seq<TxnOpView>)
    ensures
        m.has_room_for_commit(ops) <==> (m.counter < u64::MAX && m.commit(ops).log.len() <= u32::MAX),
{
    let txnid = (m.counter + 1) as u64;
    let m_id = StoreModel { counter: txnid, ..m };
    lemma_apply_ops_log(m_id, ops, txnid);
    lemma_entry_layout(m_id.apply_ops(ops, txnid).log, txnid, LOG_FLAG_COMMIT, Seq::empty(), Seq::empty());
}

} // verus!
