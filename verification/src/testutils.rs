//! Sample records for trying the serializers.

use vstd::prelude::*;

verus! {

/// A key and a value of any length.
#[derive(Debug, Clone)]
pub struct TestData {
    pub key: Vec<u8>,
    pub value: Vec<u8>,
}

/// A key of 32 bytes and a value of any length.
#[derive(Debug, Clone)]
pub struct FixLenTestData {
    pub key: [u8; 32],
    pub value: Vec<u8>,
}

} // verus!
