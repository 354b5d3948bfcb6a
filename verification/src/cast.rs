//! Conversion between a log entry header and its byte encoding.
use vstd::bytes::*;
use vstd::prelude::*;
use vstd::slice::*;

use crate::internal::log::{header_bytes, parse_header, LogEntryHeader, LOG_HEADER_SIZE};

verus! {

/// Decodes a header from exactly `LOG_HEADER_SIZE` bytes.
pub fn coerce_from_bytes(bytes: &[u8]) -> (h: LogEntryHeader)
    requires
        bytes@.len() == LOG_HEADER_SIZE,
    ensures
        h == parse_header(bytes@),
{
    LogEntryHeader {
        check0: u32_from_le_bytes(slice_subrange(bytes, 0, 4)),
        check1: u32_from_le_bytes(slice_subrange(bytes, 4, 8)),
        flags: u32_from_le_bytes(slice_subrange(bytes, 8, 12)),
        key_size: u32_from_le_bytes(slice_subrange(bytes, 12, 16)),
        value_size: u32_from_le_bytes(slice_subrange(bytes, 16, 20)),
        kvid: u64_from_le_bytes(slice_subrange(bytes, 20, 28)),
    }
}

/// Encodes a header as `LOG_HEADER_SIZE` bytes.
pub fn coerce_as_bytes(val: &LogEntryHeader) -> (bytes: Vec<u8>)
    ensures
        bytes@ == header_bytes(*val),
        bytes@.len() == LOG_HEADER_SIZE,
{
    let mut bytes = u32_to_le_bytes(val.check0);
    let mut part = u32_to_le_bytes(val.check1);
    bytes.append(&mut part);
    let mut part = u32_to_le_bytes(val.flags);
    bytes.append(&mut part);
    let mut part = u32_to_le_bytes(val.key_size);
    bytes.append(&mut part);
    let mut part = u32_to_le_bytes(val.value_size);
    bytes.append(&mut part);
    let mut part = u64_to_le_bytes(val.kvid);
    bytes.append(&mut part);
    proof {
        crate::internal::log::lemma_header_bytes_len(*val);
    }
    bytes
}

/// Decoding the encoding of a header gives the header back.
pub proof fn lemma_parse_header_bytes(h: LogEntryHeader)
    ensures
        parse_header(header_bytes(h)) == h,
{
    lemma_auto_spec_u32_to_from_le_bytes();
    lemma_auto_spec_u64_to_from_le_bytes();
    let b = header_bytes(h);
    assert(b.subrange(0, 4) =~= spec_u32_to_le_bytes(h.check0));
    assert(b.subrange(4, 8) =~= spec_u32_to_le_bytes(h.check1));
    assert(b.subrange(8, 12) =~= spec_u32_to_le_bytes(h.flags));
    assert(b.subrange(12, 16) =~= spec_u32_to_le_bytes(h.key_size));
    assert(b.subrange(16, 20) =~= spec_u32_to_le_bytes(h.value_size));
    assert(b.subrange(20, 28) =~= spec_u64_to_le_bytes(h.kvid));
}

/// Encoding the header that `LOG_HEADER_SIZE` bytes decode to gives the
/// bytes back.
pub proof fn lemma_header_bytes_parse(s: Seq<u8>)
    requires
        s.len() == LOG_HEADER_SIZE,
    ensures
        header_bytes(parse_header(s)) == s,
{
    lemma_auto_spec_u32_to_from_le_bytes();
    lemma_auto_spec_u64_to_from_le_bytes();
    assert(spec_u32_to_le_bytes(spec_u32_from_le_bytes(s.subrange(0, 4))) == s.subrange(0, 4));
    assert(spec_u32_to_le_bytes(spec_u32_from_le_bytes(s.subrange(4, 8))) == s.subrange(4, 8));
    assert(spec_u32_to_le_bytes(spec_u32_from_le_bytes(s.subrange(8, 12))) == s.subrange(8, 12));
    assert(spec_u32_to_le_bytes(spec_u32_from_le_bytes(s.subrange(12, 16))) == s.subrange(12, 16));
    assert(spec_u32_to_le_bytes(spec_u32_from_le_bytes(s.subrange(16, 20))) == s.subrange(16, 20));
    assert(spec_u64_to_le_bytes(spec_u64_from_le_bytes(s.subrange(20, 28))) == s.subrange(20, 28));
    assert(header_bytes(parse_header(s)) =~= s);
}

} // verus!
