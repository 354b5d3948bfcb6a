//! Transactions: batches of writes that are committed together.
use vstd::prelude::*;

verus! {

pub type TxnId = u64;

/// One operation of a transaction.
pub enum TxnOp {
    Put(Vec<u8>, Vec<u8>),
    Delete(Vec<u8>),
}

/// An operation of a transaction, as a mathematical value.
pub enum TxnOpView {
    Put(Seq<u8>, Seq<u8>),
    Delete(Seq<u8>),
}

impl TxnOp {
    pub open spec fn view(&self) -> TxnOpView {
        match self {
            TxnOp::Put(k, v) => TxnOpView::Put(k@, v@),
            TxnOp::Delete(k) => TxnOpView::Delete(k@),
        }
    }
}

/// The operations of a transaction, in the order they were added.
pub struct Txn {
    pub ops: Vec<TxnOp>,
}

impl Txn {
    /// The operations as a sequence of values.
    pub open spec fn view(&self) -> Seq<TxnOpView> {
        self.ops@.map_values(|op: TxnOp| op.view())
    }

    /// An empty transaction.
    pub fn new() -> (t: Txn)
        ensures
            t.view() == Seq::<TxnOpView>::empty(),
    {
        let t = Txn { ops: Vec::new() };
        assert(t.view() =~= Seq::<TxnOpView>::empty());
        t
    }

    /// Adds a write of `value` to `key`.
    pub fn put(&mut self, key: Vec<u8>, value: Vec<u8>)
        ensures
            final(self).view() == old(self).view().push(TxnOpView::Put(key@, value@)),
    {
        self.ops.push(TxnOp::Put(key, value));
        assert(self.view() =~= old(self).view().push(TxnOpView::Put(key@, value@)));
    }

    /// Adds a removal of `key`.
    pub fn delete(&mut self, key: Vec<u8>)
        ensures
            final(self).view() == old(self).view().push(TxnOpView::Delete(key@)),
    {
        self.ops.push(TxnOp::Delete(key));
        assert(self.view() =~= old(self).view().push(TxnOpView::Delete(key@)));
    }
}

} // verus!
