//! A record: an immutable pair of opaque byte strings.

use vstd::prelude::*;

verus! {

/// The mathematical content of a record: its key and its value, as byte
/// sequences.
pub struct RecordView {
    pub key: Seq<u8>,
    pub value: Seq<u8>,
}

/// An immutable pair `(key, value)` of opaque byte strings.  Keys need not
/// be unique in general, but must be unique within a single database.
#[derive(Debug)]
pub struct Record {
    key: Vec<u8>,
    value: Vec<u8>,
}

impl View for Record {
    type V = RecordView;

    closed spec fn view(&self) -> RecordView {
        RecordView { key: self.key@, value: self.value@ }
    }
}

impl Record {
    /// Create a record from a key and a value; both are copied.
    pub fn new(key: &[u8], value: &[u8]) -> (r: Record)
        ensures
            r@.key == key@,
            r@.value == value@,
    {
        Record { key: vstd::slice::slice_to_vec(key), value: vstd::slice::slice_to_vec(value) }
    }

    /// The record's key.
    pub fn key(&self) -> (r: &[u8])
        ensures
            r@ == self@.key,
    {
        self.key.as_slice()
    }

    /// The record's value.
    pub fn value(&self) -> (r: &[u8])
        ensures
            r@ == self@.value,
    {
        self.value.as_slice()
    }
}

} // verus!
