//! The in-memory index from keys to the positions of their values in the log.
use vstd::prelude::*;

verus! {

/// Where the latest value of a key lies in the log, and the id of the
/// operation that wrote it.  A deleted key has an entry of size zero.
#[derive(Clone, Copy, Debug, PartialEq, Eq, Structural)]
pub struct TableEntry {
    pub file_id: u32,
    pub value_pos: u32,
    pub value_size: u32,
    pub kvid: u64,
}

/// The entry that the table stores for a write of `value_size` bytes at
/// `value_pos` by operation `kvid`.
pub open spec fn table_entry(kvid: u64, value_pos: u32, value_size: u32) -> TableEntry {
    TableEntry { file_id: 0, value_pos: value_pos, value_size: value_size, kvid: kvid }
}

/// Whether two byte strings are equal.
pub fn bytes_equal(a: &[u8], b: &[u8]) -> (r: bool)
    ensures
        r == (a@ == b@),
{
    if a.len() != b.len() {
        return false;
    }
    let mut i: usize = 0;
    while i < a.len()
        invariant
            i <= a@.len(),
            a@.len() == b@.len(),
            forall|j: int| 0 <= j < i ==> a@[j] == b@[j],
        decreases a@.len() - i,
    {
        if a[i] != b[i] {
            return false;
        }
        i = i + 1;
    }
    assert(a@ =~= b@);
    true
}

/// A map from keys to table entries, held as a list of pairs in which no key
/// occurs twice.  Lookups scan the list; a write replaces the pair of its key
/// in place or adds a pair at the end.
pub struct Table {
    entries: Vec<(Vec<u8>, TableEntry)>,
}

impl Table {
    closed spec fn key_at(&self, i: int) -> Seq<u8> {
        self.entries@[i].0@
    }

    closed spec fn has_index(&self, k: Seq<u8>) -> bool {
        exists|i: int| 0 <= i < self.entries@.len() && self.key_at(i) == k
    }

    closed spec fn index_of(&self, k: Seq<u8>) -> int {
        choose|i: int| 0 <= i < self.entries@.len() && self.key_at(i) == k
    }

    /// No key occurs twice.
    pub closed spec fn wf(&self) -> bool {
        forall|i: int, j: int|
            0 <= i < j < self.entries@.len() ==> self.key_at(i) != self.key_at(j)
    }

    /// The table as a map from keys to entries.
    pub closed spec fn view(&self) -> Map<Seq<u8>, TableEntry> {
        Map::new(|k: Seq<u8>| self.has_index(k), |k: Seq<u8>| self.entries@[self.index_of(k)].1)
    }

    proof fn lemma_view_at(&self, i: int)
        requires
            self.wf(),
            0 <= i < self.entries@.len(),
        ensures
            self.view().contains_key(self.key_at(i)),
            self.view()[self.key_at(i)] == self.entries@[i].1,
    {
        let k = self.key_at(i);
        assert(self.has_index(k));
        let j = self.index_of(k);
        assert(self.key_at(j) == k);
        if j != i {
            if j < i {
                assert(self.key_at(j) != self.key_at(i));
            } else {
                assert(self.key_at(i) != self.key_at(j));
            }
        }
    }

    /// An empty table.
    pub fn new() -> (t: Table)
        ensures
            t.wf(),
            t.view() == Map::<Seq<u8>, TableEntry>::empty(),
    {
        let t = Table { entries: Vec::new() };
        assert(t.view() =~= Map::<Seq<u8>, TableEntry>::empty());
        t
    }

    fn find(&self, key: &[u8]) -> (r: Option<usize>)
        ensures
            match r {
                Some(i) => i < self.entries@.len() && self.key_at(i as int) == key@,
                None => !self.has_index(key@),
            },
    {
        let mut i: usize = 0;
        while i < self.entries.len()
            invariant
                i <= self.entries@.len(),
                forall|j: int| 0 <= j < i ==> self.key_at(j) != key@,
            decreases self.entries@.len() - i,
        {
            if bytes_equal(self.entries[i].0.as_slice(), key) {
                return Some(i);
            }
            i = i + 1;
        }
        None
    }

    /// Whether `key` has an entry.
    pub fn has_key(&self, key: &[u8]) -> (r: bool)
        requires
            self.wf(),
        ensures
            r == self.view().contains_key(key@),
    {
        match self.find(key) {
            Some(i) => {
                proof {
                    self.lemma_view_at(i as int);
                }
                true
            },
            None => false,
        }
    }

    /// Whether `key` has an entry with a non-empty value.
    pub fn contains(&self, key: &[u8]) -> (r: bool)
        requires
            self.wf(),
        ensures
            r == (self.view().contains_key(key@) && self.view()[key@].value_size != 0),
    {
        match self.find(key) {
            Some(i) => {
                proof {
                    self.lemma_view_at(i as int);
                }
                self.entries[i].1.value_size != 0
            },
            None => false,
        }
    }

    /// The entry of `key`, which must have one.
    pub fn get(&self, key: &[u8]) -> (e: &TableEntry)
        requires
            self.wf(),
            self.view().contains_key(key@),
        ensures
            *e == self.view()[key@],
    {
        match self.find(key) {
            Some(i) => {
                proof {
                    self.lemma_view_at(i as int);
                }
                &self.entries[i].1
            },
            None => {
                proof {
                    assert(self.has_index(key@));
                }
                &self.entries[0].1
            },
        }
    }

    fn insert(&mut self, key: Vec<u8>, entry: TableEntry)
        requires
            old(self).wf(),
        ensures
            final(self).wf(),
            final(self).view() == old(self).view().insert(key@, entry),
    {
        let ghost k = key@;
        match self.find(key.as_slice()) {
            Some(i) => {
                self.entries.set(i, (key, entry));
                proof {
                    let o = *old(self);
                    assert forall|a: int, b: int|
                        0 <= a < b < self.entries@.len() implies self.key_at(a) != self.key_at(b) by {
                        assert(o.key_at(a) != o.key_at(b));
                    }
                    assert forall|k2: Seq<u8>| #[trigger] self.view().contains_key(k2) <==> o.view().insert(k, entry).contains_key(k2) by {
                        if k2 != k {
                            if self.has_index(k2) {
                                let j = self.index_of(k2);
                                assert(o.key_at(j) == k2);
                            }
                            if o.has_index(k2) {
                                let j = o.index_of(k2);
                                assert(self.key_at(j) == k2);
                            }
                        } else {
                            assert(self.key_at(i as int) == k);
                        }
                    }
                    assert forall|k2: Seq<u8>| #[trigger] self.view().contains_key(k2) implies self.view()[k2] == o.view().insert(k, entry)[k2] by {
                        let j = self.index_of(k2);
                        self.lemma_view_at(j);
                        self.lemma_view_at(i as int);
                        if k2 != k {
                            assert(j != i);
                            assert(o.key_at(j) == k2);
                            o.lemma_view_at(j);
                        }
                    }
                    assert(self.view() =~= o.view().insert(k, entry));
                }
            },
            None => {
                self.entries.push((key, entry));
                proof {
                    let o = *old(self);
                    let n = o.entries@.len() as int;
                    assert forall|a: int, b: int|
                        0 <= a < b < self.entries@.len() implies self.key_at(a) != self.key_at(b) by {
                        if b == n {
                            assert(self.key_at(b) == k);
                            assert(o.key_at(a) == self.key_at(a));
                        } else {
                            assert(o.key_at(a) != o.key_at(b));
                        }
                    }
                    assert forall|k2: Seq<u8>| #[trigger] self.view().contains_key(k2) <==> o.view().insert(k, entry).contains_key(k2) by {
                        if k2 != k {
                            if self.has_index(k2) {
                                let j = self.index_of(k2);
                                assert(j != n);
                                assert(o.key_at(j) == k2);
                            }
                            if o.has_index(k2) {
                                let j = o.index_of(k2);
                                assert(self.key_at(j) == k2);
                            }
                        } else {
                            assert(self.key_at(n) == k);
                        }
                    }
                    assert forall|k2: Seq<u8>| #[trigger] self.view().contains_key(k2) implies self.view()[k2] == o.view().insert(k, entry)[k2] by {
                        let j = self.index_of(k2);
                        self.lemma_view_at(j);
                        if k2 != k {
                            assert(j != n);
                            assert(o.key_at(j) == k2);
                            o.lemma_view_at(j);
                        }
                    }
                    assert(self.view() =~= o.view().insert(k, entry));
                }
            },
        }
    }

    /// Records that operation `kvid` wrote `value_size` bytes for `key` at
    /// `value_pos`.
    pub fn put(&mut self, kvid: u64, key: Vec<u8>, value_pos: u32, value_size: u32)
        requires
            old(self).wf(),
        ensures
            final(self).wf(),
            final(self).view() == old(self).view().insert(key@, table_entry(kvid, value_pos, value_size)),
    {
        let entry = TableEntry { file_id: 0, value_pos: value_pos, value_size: value_size, kvid: kvid };
        self.insert(key, entry);
    }

    /// Records that operation `kvid` deleted `key`; the entry points at
    /// `value_pos` with size zero.
    pub fn delete(&mut self, kvid: u64, key: Vec<u8>, value_pos: u32)
        requires
            old(self).wf(),
        ensures
            final(self).wf(),
            final(self).view() == old(self).view().insert(key@, table_entry(kvid, value_pos, 0)),
    {
        let entry = TableEntry { file_id: 0, value_pos: value_pos, value_size: 0, kvid: kvid };
        self.insert(key, entry);
    }
}

} // verus!
