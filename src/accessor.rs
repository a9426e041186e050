//! Read-only access to the keys of a collection's rows.
use std::collections::VecDeque;
use vstd::prelude::*;
use vstd::string::StringSliceAdditionalSpecFns;
use crate::prefix::{load_u64_be, prefix64};

verus! {

/// Maps a row index to the bytes of that row's key.
///
/// Both operations are pure functions of the collection: the engine reads
/// the same key each time it asks for the same row.
///
/// `row_count` and `row_key` model the collection for the contracts. The
/// collections of this crate define them and are checked against them. An
/// implementation written in plain Rust cannot define them and is not
/// checked: the library then relies on its `len` and `get_key` behaving as
/// their contracts say.
pub trait KeyAccessor {
    /// Number of rows.
    closed spec fn row_count(&self) -> nat {
        0
    }

    /// Key of row `i`.
    closed spec fn row_key(&self, i: int) -> Seq<u8> {
        Seq::empty()
    }

    /// Returns the bytes of the key of row `index`.
    fn get_key(&self, index: usize) -> (r: &[u8])
        requires
            index < self.row_count(),
        ensures
            r@ == self.row_key(index as int),
    ;

    /// Returns the number of rows.
    fn len(&self) -> (r: usize)
        ensures
            r == self.row_count(),
    ;

    /// Returns `true` when there are no rows.
    fn is_empty(&self) -> (r: bool)
        ensures
            r == (self.row_count() == 0),
    {
        self.len() == 0
    }

    /// Returns the eight key bytes of row `index` from `offset` on, big-endian,
    /// zero past the end of the key (so zero when `offset` is at or past it).
    fn get_u64_prefix(&self, index: usize, offset: usize) -> (r: u64)
        requires
            index < self.row_count(),
        ensures
            r == prefix64(self.row_key(index as int), offset as int),
    {
        let key = self.get_key(index);
        load_u64_be(key, offset)
    }
}

/// A value that reads as a byte string: the element type of the collections
/// that the library sorts directly.
pub trait AsKeyBytes {
    /// The bytes this value reads as.
    spec fn key_view(&self) -> Seq<u8>;

    /// Returns the bytes this value reads as.
    fn key_bytes(&self) -> (r: &[u8])
        ensures
            r@ == self.key_view(),
    ;
}

impl AsKeyBytes for Vec<u8> {
    open spec fn key_view(&self) -> Seq<u8> {
        self@
    }

    fn key_bytes(&self) -> (r: &[u8]) {
        self.as_slice()
    }
}

impl AsKeyBytes for String {
    open spec fn key_view(&self) -> Seq<u8> {
        vstd::utf8::encode_utf8(self@)
    }

    fn key_bytes(&self) -> (r: &[u8]) {
        self.as_str().as_bytes()
    }
}

impl<'a> AsKeyBytes for &'a str {
    open spec fn key_view(&self) -> Seq<u8> {
        (*self).spec_bytes()
    }

    fn key_bytes(&self) -> (r: &[u8]) {
        (*self).as_bytes()
    }
}

impl<'a> AsKeyBytes for &'a [u8] {
    open spec fn key_view(&self) -> Seq<u8> {
        (*self)@
    }

    fn key_bytes(&self) -> (r: &[u8]) {
        *self
    }
}

impl<T: AsKeyBytes> KeyAccessor for [T] {
    open spec fn row_count(&self) -> nat {
        self@.len()
    }

    open spec fn row_key(&self, i: int) -> Seq<u8> {
        self@[i].key_view()
    }

    fn get_key(&self, index: usize) -> (r: &[u8]) {
        self[index].key_bytes()
    }

    fn len(&self) -> (r: usize) {
        self.len()
    }
}

impl<T: AsKeyBytes> KeyAccessor for Vec<T> {
    open spec fn row_count(&self) -> nat {
        self@.len()
    }

    open spec fn row_key(&self, i: int) -> Seq<u8> {
        self@[i].key_view()
    }

    fn get_key(&self, index: usize) -> (r: &[u8]) {
        self[index].key_bytes()
    }

    fn len(&self) -> (r: usize) {
        self.len()
    }
}

impl<T: AsKeyBytes> KeyAccessor for VecDeque<T> {
    open spec fn row_count(&self) -> nat {
        self@.len()
    }

    open spec fn row_key(&self, i: int) -> Seq<u8> {
        self@[i].key_view()
    }

    fn get_key(&self, index: usize) -> (r: &[u8]) {
        self[index].key_bytes()
    }

    fn len(&self) -> (r: usize) {
        self.len()
    }
}

/// The rows of a string are its bytes, each a key of length one.
impl KeyAccessor for str {
    open spec fn row_count(&self) -> nat {
        self.spec_bytes().len()
    }

    open spec fn row_key(&self, i: int) -> Seq<u8> {
        seq![self.spec_bytes()[i]]
    }

    fn get_key(&self, index: usize) -> (r: &[u8]) {
        let bytes = self.as_bytes();
        let n = bytes.len();
        assert(index < n);
        let r = &bytes[index..index + 1];
        assert(r@ =~= seq![self.spec_bytes()[index as int]]);
        r
    }

    fn len(&self) -> (r: usize) {
        self.as_bytes().len()
    }
}

/// The rows of a string are its bytes, each a key of length one.
impl KeyAccessor for String {
    open spec fn row_count(&self) -> nat {
        vstd::utf8::encode_utf8(self@).len()
    }

    open spec fn row_key(&self, i: int) -> Seq<u8> {
        seq![vstd::utf8::encode_utf8(self@)[i]]
    }

    fn get_key(&self, index: usize) -> (r: &[u8]) {
        let bytes = self.as_str().as_bytes();
        let n = bytes.len();
        assert(index < n);
        let r = &bytes[index..index + 1];
        assert(r@ =~= seq![vstd::utf8::encode_utf8(self@)[index as int]]);
        r
    }

    fn len(&self) -> (r: usize) {
        self.as_str().as_bytes().len()
    }
}

} // verus!
