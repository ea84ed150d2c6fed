//! A record with a key.

use vstd::prelude::*;

verus! {

/// A database record: a key and a value, both borrowed.
pub struct Record<'a> {
    key: &'a [u8],
    value: &'a [u8],
}

impl<'a> Record<'a> {
    /// The bytes of the key.
    pub closed spec fn key_bytes(&self) -> Seq<u8> {
        self.key@
    }

    /// The bytes of the value.
    pub closed spec fn value_bytes(&self) -> Seq<u8> {
        self.value@
    }

    /// The record with this key and this value.
    pub fn new(key: &'a [u8], value: &'a [u8]) -> (r: Self)
        ensures
            r.key_bytes() == key@,
            r.value_bytes() == value@,
    {
        Self { key, value }
    }

    /// The key of the record.
    pub fn key(&self) -> (r: &'a [u8])
        ensures
            r@ == self.key_bytes(),
    {
        self.key
    }

    /// The value of the record.
    pub fn value(&self) -> (r: &'a [u8])
        ensures
            r@ == self.value_bytes(),
    {
        self.value
    }
}

} // verus!
