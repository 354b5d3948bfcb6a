//! The public face of the store: byte and string keys and values.
use vstd::prelude::*;
use vstd::slice::*;
use vstd::utf8::{decode_utf8, encode_utf8, valid_utf8};

use crate::internal::db::{db_replay, Db, StoreModel};
use crate::internal::log::ReplayError;

verus! {

/// The string that `String::from_utf8_lossy` makes of `bytes`.
pub uninterp spec fn utf8_lossy(bytes: Seq<u8>) -> Seq<char>;

/// Calls `String::from_utf8_lossy` and takes ownership of the result.
///
/// Claimed: the result is the function's string for these bytes, and for
/// valid UTF-8 it is the text the bytes encode.  How invalid sequences are
/// replaced is left unsaid.
#[verifier::external_body]
fn string_from_utf8_lossy(bytes: &[u8]) -> (s: String)
    ensures
        s@ == utf8_lossy(bytes@),
        valid_utf8(bytes@) ==> s@ == decode_utf8(bytes@),
{
    String::from_utf8_lossy(bytes).into_owned()
}

/// The UTF-8 bytes of a string.
fn string_bytes(s: &String) -> (b: Vec<u8>)
    ensures
        b@ == encode_utf8(s@),
{
    slice_to_vec(s.as_str().as_bytes())
}

/// A key-value store over a log.
pub struct KevlarServer {
    _inner: Db,
}

impl KevlarServer {
    pub closed spec fn view(&self) -> StoreModel {
        self._inner.view()
    }

    pub closed spec fn wf(&self) -> bool {
        self._inner.wf()
    }

    /// The position of the log's cursor.
    pub closed spec fn cursor(&self) -> u32 {
        self._inner.cursor()
    }

    /// Opens a store whose log holds `contents`.
    pub fn new(contents: Vec<u8>) -> (r: Result<KevlarServer, ReplayError>)
        requires
            contents@.len() <= u32::MAX,
        ensures
            match (r, db_replay(contents@)) {
                (Ok(s), Ok(st)) => {
                    &&& s.wf()
                    &&& s.view() == StoreModel { log: contents@, table: st.table, counter: st.counter }
                    &&& s.cursor() == st.cursor
                },
                (Err(e), Err(e2)) => e == e2,
                _ => false,
            },
    {
        match Db::new(contents) {
            Ok(db) => Ok(KevlarServer { _inner: db }),
            Err(e) => Err(e),
        }
    }

    /// The bytes of the log.
    pub fn log_bytes(&self) -> (b: &[u8])
        ensures
            b@ == self.view().log,
    {
        self._inner.log_bytes()
    }

    /// Whether a get of `key` may be made.
    pub fn can_get(&self, key: &[u8]) -> (r: bool)
        requires
            self.wf(),
        ensures
            r == self.view().can_get(key@),
    {
        self._inner.can_get(key)
    }

    /// Whether a put of a key and value of these lengths (or a delete, with
    /// a value length of zero) may be made.
    pub fn has_room(&self, key_len: usize, value_len: usize) -> (r: bool)
        requires
            self.wf(),
        ensures
            r == self.view().has_room(key_len as nat, value_len as nat),
    {
        self._inner.has_room(key_len, value_len)
    }

    /// The value of a byte key.
    pub fn raw_get(&mut self, key: Vec<u8>) -> (value: Vec<u8>)
        requires
            old(self).wf(),
            old(self).view().can_get(key@),
        ensures
            final(self).wf(),
            final(self).view() == old(self).view(),
            value@ == old(self).view().value_of(key@),
            final(self).cursor() == old(self).view().value_end(key@),
    {
        self._inner.get(key)
    }

    /// The value of a string key.
    pub fn get(&mut self, key: String) -> (value: Vec<u8>)
        requires
            old(self).wf(),
            old(self).view().can_get(encode_utf8(key@)),
        ensures
            final(self).wf(),
            final(self).view() == old(self).view(),
            value@ == old(self).view().value_of(encode_utf8(key@)),
            final(self).cursor() == old(self).view().value_end(encode_utf8(key@)),
    {
        self._inner.get(string_bytes(&key))
    }

    /// The value of a string key, read as text.
    pub fn get_str(&mut self, key: String) -> (value: String)
        requires
            old(self).wf(),
            old(self).view().can_get(encode_utf8(key@)),
        ensures
            final(self).wf(),
            final(self).view() == old(self).view(),
            value@ == utf8_lossy(old(self).view().value_of(encode_utf8(key@))),
            final(self).cursor() == old(self).view().value_end(encode_utf8(key@)),
            valid_utf8(old(self).view().value_of(encode_utf8(key@))) ==> value@ == decode_utf8(
                old(self).view().value_of(encode_utf8(key@)),
            ),
    {
        let bytes = self.get(key);
        string_from_utf8_lossy(bytes.as_slice())
    }

    /// Sets a byte key to a byte value.
    pub fn raw_put(&mut self, key: Vec<u8>, value: Vec<u8>)
        requires
            old(self).wf(),
            old(self).view().has_room(key@.len(), value@.len()),
        ensures
            final(self).wf(),
            final(self).view() == old(self).view().put(key@, value@),
            final(self).cursor() == final(self).view().log.len(),
    {
        self._inner.put(key, value);
    }

    /// Sets a string key to a byte value.
    pub fn put(&mut self, key: String, value: Vec<u8>)
        requires
            old(self).wf(),
            old(self).view().has_room(encode_utf8(key@).len(), value@.len()),
        ensures
            final(self).wf(),
            final(self).view() == old(self).view().put(encode_utf8(key@), value@),
            final(self).cursor() == final(self).view().log.len(),
    {
        self._inner.put(string_bytes(&key), value);
    }

    /// Sets a string key to a string value.
    pub fn put_str(&mut self, key: String, value: String)
        requires
            old(self).wf(),
            old(self).view().has_room(encode_utf8(key@).len(), encode_utf8(value@).len()),
        ensures
            final(self).wf(),
            final(self).view() == old(self).view().put(encode_utf8(key@), encode_utf8(value@)),
            final(self).cursor() == final(self).view().log.len(),
    {
        self._inner.put(string_bytes(&key), string_bytes(&value));
    }

    /// Deletes a byte key.
    pub fn delete(&mut self, key: Vec<u8>)
        requires
            old(self).wf(),
            old(self).view().has_room(key@.len(), 0),
        ensures
            final(self).wf(),
            final(self).view() == old(self).view().delete(key@),
            final(self).cursor() == final(self).view().log.len(),
    {
        self._inner.delete(key);
    }
}

} // verus!
