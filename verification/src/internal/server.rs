//! The store whose writes are grouped in transactions.
//!
//! A committed transaction is logged as one entry per operation, all carrying
//! the transaction's id, followed by a commit record: an entry without key or
//! value.  Replay applies the operations of a transaction only when it meets
//! the commit record.
use vstd::prelude::*;
use vstd::slice::*;

use crate::internal::db::{max_u64, replay_measure, StoreModel};
use crate::internal::log::{
    entry_bytes, lemma_entry_bytes_len, parse_header, Log, ReplayError, LOG_FLAG_COMMIT, LOG_FLAG_DELETE, LOG_FLAG_WRITE,
    LOG_HEADER_SIZE,
};
use crate::internal::table::{table_entry, Table, TableEntry};
use crate::internal::txn::{Txn, TxnId, TxnOp, TxnOpView};

verus! {

/// An operation read back from the log and waiting for its commit record:
/// a put names the position and size of its value, a delete the position
/// where its value would start.
pub enum PendingOp {
    Put(Seq<u8>, u32, u32),
    Delete(Seq<u8>, u32),
}

/// The entry that applying `op` with id `txnid` stores for its key.
pub open spec fn apply_pending_op(
    table: Map<Seq<u8>, TableEntry>,
    op: PendingOp,
    txnid: u64,
) -> Map<Seq<u8>, TableEntry> {
    match op {
        PendingOp::Put(k, pos, size) => table.insert(k, table_entry(txnid, pos, size)),
        PendingOp::Delete(k, pos) => table.insert(k, table_entry(txnid, pos, 0)),
    }
}

/// Applies pending operations in order.
pub open spec fn apply_pending(
    table: Map<Seq<u8>, TableEntry>,
    ops: Seq<PendingOp>,
    txnid: u64,
) -> Map<Seq<u8>, TableEntry>
    decreases ops.len(),
{
    if ops.len() == 0 {
        table
    } else {
        apply_pending_op(apply_pending(table, ops.drop_last(), txnid), ops.last(), txnid)
    }
}

/// The state of a replay: the table built so far, the largest id seen, the
/// ids of the last entry read and of the last transaction applied, the
/// operations waiting for a commit record, and the read position.
pub struct ServerReplay {
    pub table: Map<Seq<u8>, TableEntry>,
    pub counter: u64,
    pub prev_seen: u64,
    pub prev_good: u64,
    pub pending: Seq<PendingOp>,
    pub cursor: int,
}

/// Replays the entry at the cursor.
///
/// An entry whose id is below the last one read is skipped whole.  An entry
/// that starts a new transaction while the previous one was never committed
/// first drops the operations waiting.  An entry with a key is added to the
/// waiting operations (a put if it has a value, else a delete).  An entry
/// without a key is a commit record: it must carry the id of the entries
/// before it, and it applies the waiting operations.
pub open spec fn server_replay_step(bytes: Seq<u8>, st: ServerReplay) -> Result<ServerReplay, ReplayError> {
    let p = st.cursor;
    if p + LOG_HEADER_SIZE > bytes.len() {
        Err(ReplayError::Truncated)
    } else {
        let h = parse_header(bytes.subrange(p, p + LOG_HEADER_SIZE));
        let counter = max_u64(st.counter, h.kvid);
        let key_pos = p + LOG_HEADER_SIZE;
        if h.kvid < st.prev_seen {
            let end = key_pos + h.key_size + h.value_size;
            if end > u32::MAX {
                Err(ReplayError::PositionOverflow)
            } else {
                Ok(ServerReplay { counter: counter, cursor: end, ..st })
            }
        } else {
            let pending = if h.kvid > st.prev_seen && st.prev_good != st.prev_seen {
                Seq::empty()
            } else {
                st.pending
            };
            if h.key_size > 0 {
                let value_pos = key_pos + h.key_size;
                if value_pos > bytes.len() {
                    Err(ReplayError::Truncated)
                } else {
                    let key = bytes.subrange(key_pos, value_pos);
                    if h.value_size > 0 {
                        let end = value_pos + h.value_size;
                        if end > u32::MAX {
                            Err(ReplayError::PositionOverflow)
                        } else {
                            Ok(
                                ServerReplay {
                                    counter: counter,
                                    prev_seen: h.kvid,
                                    pending: pending.push(PendingOp::Put(key, value_pos as u32, h.value_size)),
                                    cursor: end,
                                    ..st
                                },
                            )
                        }
                    } else {
                        Ok(
                            ServerReplay {
                                counter: counter,
                                prev_seen: h.kvid,
                                pending: pending.push(PendingOp::Delete(key, value_pos as u32)),
                                cursor: value_pos,
                                ..st
                            },
                        )
                    }
                }
            } else if h.kvid != st.prev_seen {
                Err(ReplayError::CommitOutOfOrder)
            } else {
                Ok(
                    ServerReplay {
                        table: apply_pending(st.table, pending, h.kvid),
                        counter: counter,
                        prev_seen: h.kvid,
                        prev_good: h.kvid,
                        pending: Seq::empty(),
                        cursor: key_pos,
                    },
                )
            }
        }
    }
}

/// Replays entries from the cursor until it reaches the end of the log.
pub open spec fn server_replay_from(bytes: Seq<u8>, st: ServerReplay) -> Result<ServerReplay, ReplayError>
    decreases replay_measure(bytes.len(), st.cursor),
{
    if st.cursor >= bytes.len() {
        Ok(st)
    } else {
        match server_replay_step(bytes, st) {
            Ok(next) => server_replay_from(bytes, next),
            Err(e) => Err(e),
        }
    }
}

/// The replay state before the first entry.
pub open spec fn server_replay_start() -> ServerReplay {
    ServerReplay {
        table: Map::empty(),
        counter: 0,
        prev_seen: 0,
        prev_good: 0,
        pending: Seq::empty(),
        cursor: 0,
    }
}

/// Replays a whole log.
pub open spec fn server_replay(bytes: Seq<u8>) -> Result<ServerReplay, ReplayError> {
    server_replay_from(bytes, server_replay_start())
}

/// Whether replaying from `st` reads a header at position `p`.
pub open spec fn server_reads_header_at(bytes: Seq<u8>, st: ServerReplay, p: int) -> bool
    decreases replay_measure(bytes.len(), st.cursor),
{
    if st.cursor >= bytes.len() {
        false
    } else if st.cursor == p {
        true
    } else {
        match server_replay_step(bytes, st) {
            Ok(next) => server_reads_header_at(bytes, next, p),
            Err(_) => false,
        }
    }
}

/// The number of log bytes an operation takes.
pub open spec fn op_log_len(op: TxnOpView) -> nat {
    match op {
        TxnOpView::Put(k, v) => (LOG_HEADER_SIZE + k.len() + v.len()) as nat,
        TxnOpView::Delete(k) => (LOG_HEADER_SIZE + k.len()) as nat,
    }
}

/// The number of log bytes a sequence of operations takes.
pub open spec fn ops_log_len(ops: Seq<TxnOpView>) -> nat
    decreases ops.len(),
{
    if ops.len() == 0 {
        0
    } else {
        ops_log_len(ops.drop_last()) + op_log_len(ops.last())
    }
}

/// The key an operation writes.
pub open spec fn op_key(op: TxnOpView) -> Seq<u8> {
    match op {
        TxnOpView::Put(k, v) => k,
        TxnOpView::Delete(k) => k,
    }
}

impl StoreModel {
    /// The state after operation `op` of transaction `txnid` is logged and
    /// applied to the table.
    pub open spec fn apply_op(self, op: TxnOpView, txnid: u64) -> StoreModel {
        let value_pos = (self.log.len() + LOG_HEADER_SIZE + op_key(op).len()) as u32;
        match op {
            TxnOpView::Put(k, v) => StoreModel {
                log: self.log + entry_bytes(txnid, LOG_FLAG_WRITE, k, v),
                table: self.table.insert(k, table_entry(txnid, value_pos, v.len() as u32)),
                counter: self.counter,
            },
            TxnOpView::Delete(k) => StoreModel {
                log: self.log + entry_bytes(txnid, LOG_FLAG_DELETE, k, Seq::empty()),
                table: self.table.insert(k, table_entry(txnid, value_pos, 0)),
                counter: self.counter,
            },
        }
    }

    /// The state after the operations of transaction `txnid` are logged and
    /// applied in order.
    pub open spec fn apply_ops(self, ops: Seq<TxnOpView>, txnid: u64) -> StoreModel
        decreases ops.len(),
    {
        if ops.len() == 0 {
            self
        } else {
            self.apply_ops(ops.drop_last(), txnid).apply_op(ops.last(), txnid)
        }
    }

    /// The state after a transaction with operations `ops` is committed: it
    /// gets the next id, its operations are logged and applied, and a commit
    /// record closes it.
    pub open spec fn commit(self, ops: Seq<TxnOpView>) -> StoreModel {
        let txnid = (self.counter + 1) as u64;
        let applied = (StoreModel { counter: txnid, ..self }).apply_ops(ops, txnid);
        StoreModel {
            log: applied.log + entry_bytes(txnid, LOG_FLAG_COMMIT, Seq::empty(), Seq::empty()),
            ..applied
        }
    }

    /// One more transaction id is left, and the entries of `ops` and the
    /// commit record still end at a 32-bit position.
    pub open spec fn has_room_for_commit(self, ops: Seq<TxnOpView>) -> bool {
        &&& self.counter < u64::MAX
        &&& self.log.len() + ops_log_len(ops) + LOG_HEADER_SIZE <= u32::MAX
    }

    /// Replaying the log rebuilds exactly this table and counter and stops at
    /// the end of the log; operations still waiting there belong to a
    /// transaction that was never committed, so the next transaction drops
    /// them.
    pub open spec fn server_recoverable(self) -> bool {
        match server_replay(self.log) {
            Ok(st) => {
                &&& st.table == self.table
                &&& st.counter == self.counter
                &&& st.cursor == self.log.len()
                &&& st.prev_seen <= self.counter
                &&& st.prev_good <= st.prev_seen
                &&& (st.prev_good == st.prev_seen ==> st.pending.len() == 0)
            },
            Err(_) => false,
        }
    }
}

/// The log length after some operations are applied.
pub proof fn lemma_apply_ops_log(m: StoreModel, ops: Seq<TxnOpView>, txnid: u64)
    ensures
        m.apply_ops(ops, txnid).log.len() == m.log.len() + ops_log_len(ops),
        m.apply_ops(ops, txnid).log.subrange(0, m.log.len() as int) == m.log,
        m.apply_ops(ops, txnid).counter == m.counter,
    decreases ops.len(),
{
    if ops.len() > 0 {
        lemma_apply_ops_log(m, ops.drop_last(), txnid);
        let m1 = m.apply_ops(ops.drop_last(), txnid);
        let m2 = m1.apply_op(ops.last(), txnid);
        match ops.last() {
            TxnOpView::Put(k, v) => lemma_entry_bytes_len(txnid, LOG_FLAG_WRITE, k, v),
            TxnOpView::Delete(k) => lemma_entry_bytes_len(txnid, LOG_FLAG_DELETE, k, Seq::empty()),
        }
        assert(m2.log.subrange(0, m1.log.len() as int) =~= m1.log);
        assert(m2.log.subrange(0, m.log.len() as int) =~= m1.log.subrange(0, m.log.len() as int));
    }
}

/// The log bytes of a prefix of the operations are at most those of all.
pub proof fn lemma_ops_log_len_take(ops: Seq<TxnOpView>, i: int)
    requires
        0 <= i <= ops.len(),
    ensures
        ops_log_len(ops.take(i)) <= ops_log_len(ops),
        i < ops.len() ==> ops_log_len(ops.take(i + 1)) == ops_log_len(ops.take(i)) + op_log_len(ops[i]),
    decreases ops.len() - i,
{
    if i < ops.len() {
        assert(ops.take(i + 1).drop_last() =~= ops.take(i));
        lemma_ops_log_len_take(ops, i + 1);
    } else {
        assert(ops.take(i) =~= ops);
    }
}

/// An operation read back from the log.
enum LogTxnOp {
    Put(Vec<u8>, u32, u32),
    Delete(Vec<u8>, u32),
}

impl LogTxnOp {
    spec fn view(&self) -> PendingOp {
        match self {
            LogTxnOp::Put(k, pos, size) => PendingOp::Put(k@, *pos, *size),
            LogTxnOp::Delete(k, pos) => PendingOp::Delete(k@, *pos),
        }
    }
}

spec fn pending_view(ops: Seq<LogTxnOp>) -> Seq<PendingOp> {
    ops.map_values(|op: LogTxnOp| op.view())
}

/// A transactional store.
pub struct Server {
    log: Log,
    table: Table,
    txnid_counter: TxnId,
}

impl Server {
    pub closed spec fn view(&self) -> StoreModel {
        StoreModel { log: self.log.contents(), table: self.table.view(), counter: self.txnid_counter }
    }

    pub closed spec fn wf(&self) -> bool {
        &&& self.log.wf()
        &&& self.table.wf()
    }

    /// The position of the log's cursor.
    pub closed spec fn cursor(&self) -> u32 {
        self.log.cursor()
    }

    /// Opens a store whose log holds `contents`, rebuilding the table by
    /// replaying the log.  Operations of a transaction without a commit
    /// record are dropped.
    pub fn new(contents: Vec<u8>) -> (r: Result<Server, ReplayError>)
        requires
            contents@.len() <= u32::MAX,
        ensures
            match (r, server_replay(contents@)) {
                (Ok(s), Ok(st)) => {
                    &&& s.wf()
                    &&& s.view() == StoreModel { log: contents@, table: st.table, counter: st.counter }
                    &&& s.cursor() == st.cursor
                },
                (Err(e), Err(e2)) => e == e2,
                _ => false,
            },
    {
        let mut server = Server { log: Log::new(contents), table: Table::new(), txnid_counter: 0 };
        match server.replay_log() {
            Ok(()) => Ok(server),
            Err(e) => Err(e),
        }
    }

    fn apply_txn(&mut self, txnid: TxnId, ops: Vec<LogTxnOp>)
        requires
            old(self).wf(),
        ensures
            final(self).wf(),
            final(self).log == old(self).log,
            final(self).txnid_counter == old(self).txnid_counter,
            final(self).table.view() == apply_pending(old(self).table.view(), pending_view(ops@), txnid),
    {
        let mut i: usize = 0;
        while i < ops.len()
            invariant
                self.wf(),
                self.log == old(self).log,
                self.txnid_counter == old(self).txnid_counter,
                i <= ops@.len(),
                self.table.view() == apply_pending(
                    old(self).table.view(),
                    pending_view(ops@).take(i as int),
                    txnid,
                ),
            decreases ops@.len() - i,
        {
            proof {
                assert(pending_view(ops@).take(i + 1).drop_last() =~= pending_view(ops@).take(i as int));
            }
            match &ops[i] {
                LogTxnOp::Put(key, value_pos, value_size) => {
                    let k = slice_to_vec(key.as_slice());
                    self.table.put(txnid, k, *value_pos, *value_size);
                },
                LogTxnOp::Delete(key, value_pos) => {
                    let k = slice_to_vec(key.as_slice());
                    self.table.delete(txnid, k, *value_pos);
                },
            }
            i = i + 1;
        }
        proof {
            assert(pending_view(ops@).take(i as int) =~= pending_view(ops@));
        }
    }

    fn replay_log(&mut self) -> (r: Result<(), ReplayError>)
        requires
            old(self).wf(),
            old(self).log.cursor() == 0,
            old(self).table.view() == Map::<Seq<u8>, TableEntry>::empty(),
            old(self).txnid_counter == 0,
        ensures
            final(self).wf(),
            final(self).log.contents() == old(self).log.contents(),
            match (r, server_replay(old(self).log.contents())) {
                (Ok(_), Ok(st)) => {
                    &&& final(self).table.view() == st.table
                    &&& final(self).txnid_counter == st.counter
                    &&& final(self).log.cursor() == st.cursor
                },
                (Err(e), Err(e2)) => e == e2,
                _ => false,
            },
    {
        let ghost bytes = self.log.contents();
        let len = self.log.bytes().len() as u64;
        let mut prev_seen_txnid: TxnId = 0;
        let mut prev_good_txnid: TxnId = 0;
        let mut curr_txn: Vec<LogTxnOp> = Vec::new();
        proof {
            assert(pending_view(curr_txn@) =~= Seq::<PendingOp>::empty());
        }
        while !self.log.eof(0)
            invariant
                self.wf(),
                self.log.contents() == bytes,
                bytes == old(self).log.contents(),
                len == bytes.len(),
                server_replay(bytes) == server_replay_from(
                    bytes,
                    ServerReplay {
                        table: self.table.view(),
                        counter: self.txnid_counter,
                        prev_seen: prev_seen_txnid,
                        prev_good: prev_good_txnid,
                        pending: pending_view(curr_txn@),
                        cursor: self.log.cursor() as int,
                    },
                ),
            decreases replay_measure(bytes.len(), self.log.cursor() as int),
        {
            let ghost st = ServerReplay {
                table: self.table.view(),
                counter: self.txnid_counter,
                prev_seen: prev_seen_txnid,
                prev_good: prev_good_txnid,
                pending: pending_view(curr_txn@),
                cursor: self.log.cursor() as int,
            };
            let p = self.log.get_cursor(0);
            if p as u64 + LOG_HEADER_SIZE as u64 > len {
                return Err(ReplayError::Truncated);
            }
            let header = self.log.get_header(0, p);
            let key_pos = p + LOG_HEADER_SIZE;
            if header.kvid < prev_seen_txnid {
                // Out of order id: skip the entry.
                if key_pos as u64 + header.key_size as u64 + header.value_size as u64 > u32::MAX as u64 {
                    return Err(ReplayError::PositionOverflow);
                }
                self.log.advance_cursor(0, header.key_size);
                self.log.advance_cursor(0, header.value_size);
            } else {
                if header.kvid > prev_seen_txnid && prev_good_txnid != prev_seen_txnid {
                    // The transaction before was never committed: roll it back.
                    curr_txn.clear();
                    proof {
                        assert(pending_view(curr_txn@) =~= Seq::<PendingOp>::empty());
                    }
                }
                if header.key_size > 0 {
                    if key_pos as u64 + header.key_size as u64 > len {
                        return Err(ReplayError::Truncated);
                    }
                    let key = self.log.get_buffer(0, key_pos, header.key_size);
                    let value_pos = key_pos + header.key_size;
                    let ghost before = curr_txn@;
                    if header.value_size > 0 {
                        if value_pos as u64 + header.value_size as u64 > u32::MAX as u64 {
                            return Err(ReplayError::PositionOverflow);
                        }
                        curr_txn.push(LogTxnOp::Put(key, value_pos, header.value_size));
                        self.log.set_cursor(0, value_pos + header.value_size);
                    } else {
                        curr_txn.push(LogTxnOp::Delete(key, value_pos));
                    }
                    proof {
                        assert(pending_view(curr_txn@) =~= pending_view(before).push(curr_txn@.last().view()));
                    }
                } else {
                    if header.kvid != prev_seen_txnid {
                        return Err(ReplayError::CommitOutOfOrder);
                    }
                    let mut ops: Vec<LogTxnOp> = Vec::new();
                    std::mem::swap(&mut ops, &mut curr_txn);
                    self.apply_txn(header.kvid, ops);
                    prev_good_txnid = header.kvid;
                    proof {
                        assert(pending_view(curr_txn@) =~= Seq::<PendingOp>::empty());
                    }
                }
                prev_seen_txnid = header.kvid;
            }
            if header.kvid > self.txnid_counter {
                self.txnid_counter = header.kvid;
            }
            proof {
                let next = ServerReplay {
                    table: self.table.view(),
                    counter: self.txnid_counter,
                    prev_seen: prev_seen_txnid,
                    prev_good: prev_good_txnid,
                    pending: pending_view(curr_txn@),
                    cursor: self.log.cursor() as int,
                };
                assert(server_replay_step(bytes, st) == Ok::<ServerReplay, ReplayError>(next));
            }
        }
        Ok(())
    }

    /// The bytes of the log.
    pub fn log_bytes(&self) -> (b: &[u8])
        ensures
            b@ == self.view().log,
    {
        self.log.bytes()
    }

    /// Starts a new, empty transaction.
    pub fn begin_txn(&mut self) -> (t: Txn)
        ensures
            *final(self) == *old(self),
            t.view() == Seq::<TxnOpView>::empty(),
    {
        Txn::new()
    }

    /// Whether `get` may be called for `key`: the key has an entry whose
    /// value lies inside the log.
    pub fn can_get(&self, key: &[u8]) -> (r: bool)
        requires
            self.wf(),
        ensures
            r == self.view().can_get(key@),
    {
        if !self.table.has_key(key) {
            return false;
        }
        let entry = self.table.get(key);
        let len = self.log.bytes().len() as u64;
        entry.value_size == 0 || entry.value_pos as u64 + entry.value_size as u64 <= len
    }

    /// The value stored for `key`; a deleted key gives an empty value.
    pub fn get(&mut self, key: Vec<u8>) -> (value: Vec<u8>)
        requires
            old(self).wf(),
            old(self).view().can_get(key@),
        ensures
            final(self).wf(),
            final(self).view() == old(self).view(),
            value@ == old(self).view().value_of(key@),
            final(self).cursor() == old(self).view().value_end(key@),
    {
        let entry = *self.table.get(key.as_slice());
        self.log.get_buffer(entry.file_id, entry.value_pos, entry.value_size)
    }

    /// Whether `txn` may be committed: an id is left and its entries fit.
    pub fn has_room_for_commit(&self, txn: &Txn) -> (r: bool)
        requires
            self.wf(),
        ensures
            r == self.view().has_room_for_commit(txn.view()),
    {
        if self.txnid_counter == u64::MAX {
            return false;
        }
        let ghost ops = txn.view();
        let limit = u32::MAX as u64;
        let mut total = self.log.bytes().len() as u64 + LOG_HEADER_SIZE as u64;
        if total > limit {
            return false;
        }
        proof {
            assert(ops.take(0) =~= Seq::<TxnOpView>::empty());
        }
        let mut i: usize = 0;
        while i < txn.ops.len()
            invariant
                i <= ops.len(),
                ops == txn.view(),
                total == self.view().log.len() + ops_log_len(ops.take(i as int)) + LOG_HEADER_SIZE,
                total <= limit,
                limit == u32::MAX,
            decreases ops.len() - i,
        {
            proof {
                lemma_ops_log_len_take(ops, i as int);
            }
            let size = match &txn.ops[i] {
                TxnOp::Put(key, value) => {
                    if key.len() as u64 > limit || value.len() as u64 > limit {
                        proof {
                            lemma_ops_log_len_take(ops, i + 1);
                        }
                        return false;
                    }
                    LOG_HEADER_SIZE as u64 + key.len() as u64 + value.len() as u64
                },
                TxnOp::Delete(key) => {
                    if key.len() as u64 > limit {
                        proof {
                            lemma_ops_log_len_take(ops, i + 1);
                        }
                        return false;
                    }
                    LOG_HEADER_SIZE as u64 + key.len() as u64
                },
            };
            if total + size > limit {
                proof {
                    lemma_ops_log_len_take(ops, i + 1);
                }
                return false;
            }
            total = total + size;
            i = i + 1;
        }
        proof {
            assert(ops.take(i as int) =~= ops);
        }
        true
    }

    fn allocate_txnid(&mut self) -> (txnid: TxnId)
        requires
            old(self).txnid_counter < u64::MAX,
        ensures
            txnid == old(self).txnid_counter + 1,
            final(self).txnid_counter == txnid,
            final(self).log == old(self).log,
            final(self).table == old(self).table,
            old(self).view().server_recoverable() ==> forall|p: int|
                #[trigger] server_reads_header_at(old(self).view().log, server_replay_start(), p) ==> parse_header(
                    old(self).view().log.subrange(p, p + LOG_HEADER_SIZE),
                ).kvid < txnid,
    {
        proof {
            let m = self.view();
            if m.server_recoverable() {
                assert forall|p: int| #[trigger]
                    server_reads_header_at(m.log, server_replay_start(), p) implies parse_header(
                    m.log.subrange(p, p + LOG_HEADER_SIZE),
                ).kvid < m.counter + 1 by {
                    crate::internal::server_laws::lemma_server_counter_bounds_ids(m.log, server_replay_start(), p);
                }
            }
        }
        self.txnid_counter = self.txnid_counter + 1;
        let txnid = self.txnid_counter;
        txnid
    }

    /// Commits `txn`: it gets the next id, each operation is logged and
    /// applied to the table in order, and a commit record closes it.
    pub fn commit(&mut self, txn: Txn)
        requires
            old(self).wf(),
            old(self).view().has_room_for_commit(txn.view()),
        ensures
            final(self).wf(),
            final(self).view() == old(self).view().commit(txn.view()),
            final(self).cursor() == final(self).view().log.len(),
    {
        let txnid = self.allocate_txnid();
        let ghost m0 = self.view();
        let ghost ops = txn.view();
        let mut i: usize = 0;
        while i < txn.ops.len()
            invariant
                self.wf(),
                i <= ops.len(),
                ops == txn.view(),
                m0.counter == txnid,
                m0.log.len() + ops_log_len(ops) + LOG_HEADER_SIZE <= u32::MAX,
                self.view() == m0.apply_ops(ops.take(i as int), txnid),
            decreases ops.len() - i,
        {
            proof {
                lemma_ops_log_len_take(ops, i as int);
                lemma_ops_log_len_take(ops, i + 1);
                lemma_apply_ops_log(m0, ops.take(i as int), txnid);
                assert(ops.take(i + 1).drop_last() =~= ops.take(i as int));
            }
            match &txn.ops[i] {
                TxnOp::Put(key, value) => {
                    let value_pos = self.log.append(txnid, LOG_FLAG_WRITE, key.as_slice(), value.as_slice());
                    let value_size = value.len() as u32;
                    self.table.put(txnid, slice_to_vec(key.as_slice()), value_pos, value_size);
                },
                TxnOp::Delete(key) => {
                    let empty: Vec<u8> = Vec::new();
                    let value_pos = self.log.append(txnid, LOG_FLAG_DELETE, key.as_slice(), empty.as_slice());
                    self.table.delete(txnid, slice_to_vec(key.as_slice()), value_pos);
                },
            }
            i = i + 1;
        }
        proof {
            assert(ops.take(i as int) =~= ops);
            lemma_apply_ops_log(m0, ops, txnid);
        }
        let empty: Vec<u8> = Vec::new();
        self.log.append(txnid, LOG_FLAG_COMMIT, empty.as_slice(), empty.as_slice());
    }
}

} // verus!
