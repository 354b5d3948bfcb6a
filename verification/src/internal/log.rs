//! The append-only log.
//!
//! The log is a sequence of entries.  Each entry is a fixed-size header
//! (`LOG_HEADER_SIZE` bytes, fields stored little-endian in declaration
//! order) followed by the key bytes and then the value bytes.  The log keeps
//! the whole byte image in memory together with a read/write cursor; the
//! program around the library mirrors every appended byte to disk.
use vstd::bytes::*;
use vstd::prelude::*;
use vstd::slice::*;

use crate::cast::{coerce_as_bytes, coerce_from_bytes};

verus! {

/// Size in bytes of an encoded `LogEntryHeader`.
pub const LOG_HEADER_SIZE: u32 = 28;

/// Entry flag: the entry stores a value for its key.
pub const LOG_FLAG_WRITE: u32 = 0x01;

/// Entry flag: the entry removes the value of its key.
pub const LOG_FLAG_DELETE: u32 = 0x02;

/// Entry flag: the entry marks the end of a committed transaction.
pub const LOG_FLAG_COMMIT: u32 = 0x04;

/// Entry flag: the entry is padded to an 8-byte boundary.
pub const LOG_FLAG_PAD_8: u32 = 0x0100;

/// Entry flag: the entry is padded to a 64-byte boundary.
pub const LOG_FLAG_PAD_64: u32 = 0x0200;

/// Operation code of a put entry (the low byte of the flags).
pub const LOG_OP_PUT: u32 = 0x01;

/// Operation code of a delete entry (the low byte of the flags).
pub const LOG_OP_DELETE: u32 = 0x02;

/// Mask selecting the operation code out of the flags.
pub const LOG_MASK_OP: u32 = 0xff;

/// Why replaying a log failed.
#[derive(Clone, Copy, Debug, PartialEq, Eq, Structural)]
pub enum ReplayError {
    /// An entry's header or key runs past the end of the log.
    Truncated,
    /// A delete entry carries a value.
    DeleteCarriesValue,
    /// A commit record belongs to a transaction other than the one before it.
    CommitOutOfOrder,
    /// An entry ends past the largest position a log can have.
    PositionOverflow,
}

/// The header that starts every log entry.
#[derive(Clone, Copy, Debug, PartialEq, Eq, Structural)]
pub struct LogEntryHeader {
    pub check0: u32,
    pub check1: u32,
    pub flags: u32,
    pub key_size: u32,
    pub value_size: u32,
    pub kvid: u64,
}

/// The encoding of a header: its six fields, little-endian, in order.
pub open spec fn header_bytes(h: LogEntryHeader) -> Seq<u8> {
    spec_u32_to_le_bytes(h.check0) + spec_u32_to_le_bytes(h.check1) + spec_u32_to_le_bytes(h.flags)
        + spec_u32_to_le_bytes(h.key_size) + spec_u32_to_le_bytes(h.value_size)
        + spec_u64_to_le_bytes(h.kvid)
}

/// The header that `LOG_HEADER_SIZE` bytes encode.
pub open spec fn parse_header(s: Seq<u8>) -> LogEntryHeader {
    LogEntryHeader {
        check0: spec_u32_from_le_bytes(s.subrange(0, 4)),
        check1: spec_u32_from_le_bytes(s.subrange(4, 8)),
        flags: spec_u32_from_le_bytes(s.subrange(8, 12)),
        key_size: spec_u32_from_le_bytes(s.subrange(12, 16)),
        value_size: spec_u32_from_le_bytes(s.subrange(16, 20)),
        kvid: spec_u64_from_le_bytes(s.subrange(20, 28)),
    }
}

/// The header written in front of `key` and `value`: no checksum, the given
/// flags and id, and the two lengths cut to 32 bits.
pub open spec fn header_for(kvid: u64, flags: u32, key: Seq<u8>, value: Seq<u8>) -> LogEntryHeader {
    LogEntryHeader {
        check0: 0,
        check1: 0,
        flags: flags,
        key_size: key.len() as u32,
        value_size: value.len() as u32,
        kvid: kvid,
    }
}

/// The bytes of a whole log entry.
pub open spec fn entry_bytes(kvid: u64, flags: u32, key: Seq<u8>, value: Seq<u8>) -> Seq<u8> {
    header_bytes(header_for(kvid, flags, key, value)) + key + value
}

pub proof fn lemma_header_bytes_len(h: LogEntryHeader)
    ensures
        header_bytes(h).len() == LOG_HEADER_SIZE,
{
    lemma_auto_spec_u32_to_from_le_bytes();
    lemma_auto_spec_u64_to_from_le_bytes();
}

pub proof fn lemma_entry_bytes_len(kvid: u64, flags: u32, key: Seq<u8>, value: Seq<u8>)
    ensures
        entry_bytes(kvid, flags, key, value).len() == LOG_HEADER_SIZE + key.len() + value.len(),
{
    lemma_header_bytes_len(header_for(kvid, flags, key, value));
}

/// Appending an entry keeps the bytes already in the log as they were and
/// puts the entry right after them.
pub proof fn lemma_append_keeps_prefix(contents: Seq<u8>, kvid: u64, flags: u32, key: Seq<u8>, value: Seq<u8>)
    ensures
        (contents + entry_bytes(kvid, flags, key, value)).subrange(0, contents.len() as int) == contents,
        (contents + entry_bytes(kvid, flags, key, value)).len() == contents.len() + LOG_HEADER_SIZE + key.len()
            + value.len(),
{
    lemma_entry_bytes_len(kvid, flags, key, value);
    assert((contents + entry_bytes(kvid, flags, key, value)).subrange(0, contents.len() as int) =~= contents);
}

/// Bitwise OR of all bytes, each widened to 32 bits.
pub open spec fn or_fold(bytes: Seq<u8>) -> u32
    decreases bytes.len(),
{
    if bytes.len() == 0 {
        0
    } else {
        or_fold(bytes.drop_last()) | (bytes.last() as u32)
    }
}

/// What `fletcher64_consume` returns.
pub open spec fn spec_fletcher64_consume(c0: u32, c1: u32, bytes: Seq<u8>) -> (u32, u32) {
    let c0_new = c0.wrapping_add(or_fold(bytes));
    (c0_new, c1.wrapping_add(c0_new))
}

/// Folds `bytes` into the running checksum pair `(c0, c1)`.
///
/// Each byte is OR-ed into the low bits of an accumulator word; the word is
/// then added (wrapping) to `c0`, and the new `c0` is added (wrapping) to
/// `c1`.
pub fn fletcher64_consume(c0: u32, c1: u32, bytes: &[u8]) -> (r: (u32, u32))
    ensures
        r == spec_fletcher64_consume(c0, c1, bytes@),
{
    let mut word: u32 = 0;
    let mut i: usize = 0;
    while i < bytes.len()
        invariant
            i <= bytes@.len(),
            word == or_fold(bytes@.take(i as int)),
        decreases bytes@.len() - i,
    {
        let byte = bytes[i];
        proof {
            assert(bytes@.take(i + 1).drop_last() =~= bytes@.take(i as int));
        }
        word = word | (byte as u32);
        i = i + 1;
    }
    proof {
        assert(bytes@.take(i as int) =~= bytes@);
    }
    let c0_new = c0.wrapping_add(word);
    let c1_new = c1.wrapping_add(c0_new);
    (c0_new, c1_new)
}

impl LogEntryHeader {
    /// The header for an entry with the given id, flags, key and value.  The
    /// checksum fields are left zero.
    pub fn new(kvid: u64, flags: u32, key: &[u8], value: &[u8]) -> (h: LogEntryHeader)
        ensures
            h == header_for(kvid, flags, key@, value@),
    {
        let key_size = key.len() as u32;
        let value_size = value.len() as u32;
        LogEntryHeader {
            check0: 0,
            check1: 0,
            flags: flags,
            key_size: key_size,
            value_size: value_size,
            kvid: kvid,
        }
    }

    /// Checks the entry against its header.  Checksums are not computed, so
    /// every entry is accepted.
    pub fn verify(&self, key: &[u8], value: &[u8]) -> (ok: bool)
        ensures
            ok,
    {
        true
    }
}

/// The log: its byte image and a cursor into it.
pub struct Log {
    curr_file_id: u32,
    contents: Vec<u8>,
    cursor: u32,
}

impl Log {
    /// The bytes of the log.
    pub closed spec fn contents(&self) -> Seq<u8> {
        self.contents@
    }

    /// The position of the cursor.
    pub closed spec fn cursor(&self) -> u32 {
        self.cursor
    }

    /// Positions in the log are 32-bit, so the log never outgrows them.
    pub closed spec fn wf(&self) -> bool {
        &&& self.contents@.len() <= u32::MAX
        &&& self.curr_file_id == 0
    }

    /// Opens a log whose bytes are `contents`, with the cursor at the start.
    pub fn new(contents: Vec<u8>) -> (log: Log)
        requires
            contents@.len() <= u32::MAX,
        ensures
            log.wf(),
            log.contents() == contents@,
            log.cursor() == 0,
    {
        Log { curr_file_id: 0, contents, cursor: 0 }
    }

    /// The bytes of the log.
    pub fn bytes(&self) -> (b: &[u8])
        ensures
            b@ == self.contents(),
            self.wf() ==> b@.len() <= u32::MAX,
    {
        self.contents.as_slice()
    }

    /// Whether the cursor is at or past the end of the log.
    pub fn eof(&self, file_id: u32) -> (r: bool)
        requires
            self.wf(),
        ensures
            r == (self.cursor() >= self.contents().len()),
    {
        let size = self.contents.len() as u32;
        let p = self.get_cursor(file_id);
        p >= size
    }

    /// The position of the cursor.
    pub fn get_cursor(&self, file_id: u32) -> (p: u32)
        ensures
            p == self.cursor(),
    {
        self.cursor
    }

    /// Moves the cursor to `pos`, which may lie past the end.
    pub fn set_cursor(&mut self, file_id: u32, pos: u32)
        ensures
            final(self).contents() == old(self).contents(),
            final(self).cursor() == pos,
            old(self).wf() ==> final(self).wf(),
    {
        self.cursor = pos;
    }

    /// Moves the cursor to the end of the log.
    pub fn set_cursor_end(&mut self, file_id: u32)
        requires
            old(self).wf(),
        ensures
            final(self).wf(),
            final(self).contents() == old(self).contents(),
            final(self).cursor() == old(self).contents().len(),
    {
        let end = self.contents.len() as u32;
        self.set_cursor(file_id, end);
    }

    /// Moves the cursor forward by `offset` (wrapping at 32 bits).
    pub fn advance_cursor(&mut self, file_id: u32, offset: u32)
        ensures
            final(self).contents() == old(self).contents(),
            final(self).cursor() == old(self).cursor().wrapping_add(offset),
            old(self).wf() ==> final(self).wf(),
    {
        let pos = self.get_cursor(file_id);
        let new_pos = pos.wrapping_add(offset);
        self.set_cursor(file_id, new_pos);
    }

    /// Reads the header stored at `header_pos`; the cursor ends just past it.
    pub fn get_header(&mut self, file_id: u32, header_pos: u32) -> (h: LogEntryHeader)
        requires
            old(self).wf(),
            header_pos + LOG_HEADER_SIZE <= old(self).contents().len(),
        ensures
            final(self).wf(),
            final(self).contents() == old(self).contents(),
            final(self).cursor() == header_pos + LOG_HEADER_SIZE,
            h == parse_header(old(self).contents().subrange(header_pos as int, header_pos + LOG_HEADER_SIZE)),
    {
        self.set_cursor(file_id, header_pos);
        let end = header_pos + LOG_HEADER_SIZE;
        let bytes = slice_subrange(self.contents.as_slice(), header_pos as usize, end as usize);
        let header = coerce_from_bytes(bytes);
        self.set_cursor(file_id, end);
        header
    }

    /// Reads the `buffer_size` bytes stored at `buffer_pos`; the cursor ends
    /// just past them.  A read of no bytes succeeds at any position.
    pub fn get_buffer(&mut self, file_id: u32, buffer_pos: u32, buffer_size: u32) -> (buf: Vec<u8>)
        requires
            old(self).wf(),
            buffer_size == 0 || buffer_pos + buffer_size <= old(self).contents().len(),
        ensures
            final(self).wf(),
            final(self).contents() == old(self).contents(),
            final(self).cursor() == buffer_pos + buffer_size,
            buf@ == (if buffer_size == 0 {
                Seq::<u8>::empty()
            } else {
                old(self).contents().subrange(buffer_pos as int, buffer_pos + buffer_size)
            }),
    {
        self.set_cursor(file_id, buffer_pos);
        if buffer_size == 0 {
            return Vec::new();
        }
        let end = buffer_pos + buffer_size;
        let buffer = slice_to_vec(slice_subrange(self.contents.as_slice(), buffer_pos as usize, end as usize));
        self.set_cursor(file_id, end);
        buffer
    }

    /// Appends an entry for `key` and `value` at the end of the log and
    /// returns the position of the value.  The cursor ends at the new end.
    pub fn append(&mut self, kvid: u64, flags: u32, key: &[u8], value: &[u8]) -> (value_pos: u32)
        requires
            old(self).wf(),
            old(self).contents().len() + LOG_HEADER_SIZE + key@.len() + value@.len() <= u32::MAX,
        ensures
            final(self).wf(),
            final(self).contents() == old(self).contents() + entry_bytes(kvid, flags, key@, value@),
            final(self).cursor() == final(self).contents().len(),
            value_pos == old(self).contents().len() + LOG_HEADER_SIZE + key@.len(),
    {
        let file_id = self.curr_file_id;
        self.set_cursor_end(file_id);
        let header = LogEntryHeader::new(kvid, flags, key, value);
        let mut header_bytes = coerce_as_bytes(&header);
        let mut key_bytes = slice_to_vec(key);
        let mut value_bytes = slice_to_vec(value);
        self.contents.append(&mut header_bytes);
        self.contents.append(&mut key_bytes);
        let value_pos = self.contents.len() as u32;
        self.contents.append(&mut value_bytes);
        proof {
            assert(self.contents@ =~= old(self).contents@ + entry_bytes(kvid, flags, key@, value@));
        }
        self.set_cursor_end(file_id);
        value_pos
    }
}

} // verus!
