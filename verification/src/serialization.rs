//! How a record with a key is laid out in bytes.

use vstd::prelude::*;
use vstd::bytes::{
    lemma_auto_spec_u64_to_from_le_bytes,
    spec_u64_from_le_bytes,
    spec_u64_to_le_bytes,
    u64_from_le_bytes,
    u64_to_le_bytes,
};
use vstd::slice::slice_subrange;
use crate::record::Record;

verus! {

/// The number of bytes that a length takes in a serialized record.
pub const LENGTH_SIZE: usize = 8;

/// Serialization interface for different ways to serialize a `Record`.
pub trait RecordSerializer {
    /// Whether this serializer can write a record with this key and value.
    spec fn accepts(&self, key: Seq<u8>, value: Seq<u8>) -> bool;

    /// The bytes that stand for a record with this key and value.
    spec fn encoding(&self, key: Seq<u8>, value: Seq<u8>) -> Seq<u8>;

    /// The key and the value of the record that `bytes` begin with, if they
    /// begin with one.
    spec fn decoding(&self, bytes: Seq<u8>) -> Option<(Seq<u8>, Seq<u8>)>;

    /// Serialize the record and write it into the provided slice. The slice
    /// must have enough space to fit this record; what lies behind the
    /// record stays as it is.
    fn serialize(&self, r: &Record, w: &mut [u8])
        requires
            self.accepts(r.key_bytes(), r.value_bytes()),
            self.encoding(r.key_bytes(), r.value_bytes()).len() <= old(w)@.len(),
        ensures
            final(w)@ == self.encoding(r.key_bytes(), r.value_bytes()) + old(w)@.subrange(
                self.encoding(r.key_bytes(), r.value_bytes()).len() as int,
                old(w)@.len() as int,
            ),
    ;

    /// Try to deserialize a record. None is returned upon failure.
    fn deserialize<'a>(&self, r: &'a [u8]) -> (o: Option<Record<'a>>)
        ensures
            match o {
                Some(record) => self.decoding(r@) == Some(
                    (record.key_bytes(), record.value_bytes()),
                ),
                None => self.decoding(r@) is None,
            },
    ;

    /// The number of bytes this record will occupy on the drive.
    fn size(&self, r: &Record) -> (n: usize)
        requires
            self.accepts(r.key_bytes(), r.value_bytes()),
        ensures
            n == self.encoding(r.key_bytes(), r.value_bytes()).len(),
    ;
}

impl<T: RecordSerializer> RecordSerializer for &T {
    open spec fn accepts(&self, key: Seq<u8>, value: Seq<u8>) -> bool {
        (**self).accepts(key, value)
    }

    open spec fn encoding(&self, key: Seq<u8>, value: Seq<u8>) -> Seq<u8> {
        (**self).encoding(key, value)
    }

    open spec fn decoding(&self, bytes: Seq<u8>) -> Option<(Seq<u8>, Seq<u8>)> {
        (**self).decoding(bytes)
    }

    fn serialize(&self, r: &Record, w: &mut [u8]) {
        (**self).serialize(r, w)
    }

    fn deserialize<'a>(&self, r: &'a [u8]) -> (o: Option<Record<'a>>) {
        (**self).deserialize(r)
    }

    fn size(&self, r: &Record) -> (n: usize) {
        (**self).size(r)
    }
}

/// Copies `data` into `w` from index `at` on.
fn write_bytes(w: &mut [u8], at: usize, data: &[u8])
    requires
        at + data@.len() <= old(w)@.len(),
    ensures
        final(w)@ == old(w)@.subrange(0, at as int) + data@ + old(w)@.subrange(
            at + data@.len(),
            old(w)@.len() as int,
        ),
{
    let total: usize = w.len();
    let mut i: usize = 0;
    while i < data.len()
        invariant
            i <= data@.len(),
            at + data@.len() <= w@.len() == total,
            w@.len() == old(w)@.len(),
            w@ == old(w)@.subrange(0, at as int) + data@.subrange(0, i as int) + old(w)@.subrange(
                at + i,
                old(w)@.len() as int,
            ),
        decreases data@.len() - i,
    {
        let ghost before = w@;
        w[at + i] = data[i];
        i = i + 1;
        assert(w@ =~= old(w)@.subrange(0, at as int) + data@.subrange(0, i as int) + old(
            w,
        )@.subrange(at + i, old(w)@.len() as int));
    }
    assert(data@.subrange(0, i as int) =~= data@);
}

/// Writes `x` into `w` at index `at`, as eight bytes, little-endian.
fn write_length(w: &mut [u8], at: usize, x: usize)
    requires
        at + LENGTH_SIZE <= old(w)@.len(),
    ensures
        final(w)@ == old(w)@.subrange(0, at as int) + spec_u64_to_le_bytes(x as u64) + old(
            w,
        )@.subrange(at + LENGTH_SIZE, old(w)@.len() as int),
{
    let bytes = u64_to_le_bytes(x as u64);
    write_bytes(w, at, bytes.as_slice());
}

/// A record serialized in a form of:
///
/// * key length - 8 bytes
/// * value length - 8 bytes
/// * key bytes
/// * value bytes
///
/// Length values are recorded as little-endian. They are located next to each
/// other to make use of CPU caches.
#[derive(Clone)]
pub struct BasicRecordSerializer;

/// A record serialized in a form of:
///
/// * value length - 8 bytes
/// * key bytes (specified in advance)
/// * value bytes
#[derive(Clone)]
pub struct ConstKeyLenRecordSerializer {
    key_length: usize,
}

impl RecordSerializer for BasicRecordSerializer {
    open spec fn accepts(&self, key: Seq<u8>, value: Seq<u8>) -> bool {
        key.len() + value.len() + 2 * LENGTH_SIZE <= usize::MAX
    }

    open spec fn encoding(&self, key: Seq<u8>, value: Seq<u8>) -> Seq<u8> {
        spec_u64_to_le_bytes(key.len() as u64) + spec_u64_to_le_bytes(value.len() as u64) + key
            + value
    }

    open spec fn decoding(&self, bytes: Seq<u8>) -> Option<(Seq<u8>, Seq<u8>)> {
        if bytes.len() < 2 * LENGTH_SIZE {
            None
        } else {
            let key_length = spec_u64_from_le_bytes(bytes.subrange(0, LENGTH_SIZE as int)) as int;
            let value_length = spec_u64_from_le_bytes(
                bytes.subrange(LENGTH_SIZE as int, 2 * LENGTH_SIZE),
            ) as int;
            if bytes.len() < 2 * LENGTH_SIZE + key_length + value_length {
                None
            } else {
                Some(
                    (
                        bytes.subrange(2 * LENGTH_SIZE, 2 * LENGTH_SIZE + key_length),
                        bytes.subrange(
                            2 * LENGTH_SIZE + key_length,
                            2 * LENGTH_SIZE + key_length + value_length,
                        ),
                    ),
                )
            }
        }
    }

    fn serialize(&self, r: &Record, w: &mut [u8]) {
        proof {
            lemma_auto_spec_u64_to_from_le_bytes();
        }
        let key = r.key();
        let value = r.value();
        write_length(w, 0, key.len());
        write_length(w, LENGTH_SIZE, value.len());
        write_bytes(w, 2 * LENGTH_SIZE, key);
        write_bytes(w, 2 * LENGTH_SIZE + key.len(), value);
        assert(w@ =~= self.encoding(r.key_bytes(), r.value_bytes()) + old(w)@.subrange(
            self.encoding(r.key_bytes(), r.value_bytes()).len() as int,
            old(w)@.len() as int,
        ));
    }

    fn deserialize<'a>(&self, r: &'a [u8]) -> (o: Option<Record<'a>>) {
        if r.len() < 2 * LENGTH_SIZE {
            return None;
        }
        let key_length: u64 = u64_from_le_bytes(slice_subrange(r, 0, LENGTH_SIZE));
        let value_length: u64 = u64_from_le_bytes(slice_subrange(r, LENGTH_SIZE, 2 * LENGTH_SIZE));
        let rest: usize = r.len() - 2 * LENGTH_SIZE;
        if key_length > rest as u64 {
            return None;
        }
        let key_end: usize = 2 * LENGTH_SIZE + key_length as usize;
        if value_length > (r.len() - key_end) as u64 {
            return None;
        }
        let key = slice_subrange(r, 2 * LENGTH_SIZE, key_end);
        let value = slice_subrange(r, key_end, key_end + value_length as usize);
        Some(Record::new(key, value))
    }

    fn size(&self, r: &Record) -> (n: usize) {
        proof {
            lemma_auto_spec_u64_to_from_le_bytes();
        }
        r.key().len() + r.value().len() + 2 * LENGTH_SIZE
    }
}

impl BasicRecordSerializer {
    /// What was serialized is read back, whatever follows it.
    pub proof fn lemma_round_trip(&self, key: Seq<u8>, value: Seq<u8>, tail: Seq<u8>)
        requires
            self.accepts(key, value),
        ensures
            self.encoding(key, value).len() == key.len() + value.len() + 2 * LENGTH_SIZE,
            self.decoding(self.encoding(key, value) + tail) == Some((key, value)),
    {
        lemma_auto_spec_u64_to_from_le_bytes();
        let bytes = self.encoding(key, value) + tail;
        assert(bytes.subrange(0, LENGTH_SIZE as int) =~= spec_u64_to_le_bytes(key.len() as u64));
        assert(bytes.subrange(LENGTH_SIZE as int, 2 * LENGTH_SIZE) =~= spec_u64_to_le_bytes(
            value.len() as u64,
        ));
        assert(bytes.subrange(2 * LENGTH_SIZE, 2 * LENGTH_SIZE + key.len()) =~= key);
        assert(bytes.subrange(
            2 * LENGTH_SIZE + key.len(),
            2 * LENGTH_SIZE + key.len() + value.len(),
        ) =~= value);
    }
}

impl ConstKeyLenRecordSerializer {
    /// The length that every key has.
    pub closed spec fn spec_key_length(&self) -> int {
        self.key_length as int
    }

    /// The serializer for records whose keys have `key_length` bytes.
    pub fn new(key_length: usize) -> (r: Self)
        ensures
            r.spec_key_length() == key_length,
    {
        Self { key_length }
    }

    /// What was serialized is read back, whatever follows it.
    pub proof fn lemma_round_trip(&self, key: Seq<u8>, value: Seq<u8>, tail: Seq<u8>)
        requires
            self.accepts(key, value),
        ensures
            self.encoding(key, value).len() == key.len() + value.len() + LENGTH_SIZE,
            self.decoding(self.encoding(key, value) + tail) == Some((key, value)),
    {
        lemma_auto_spec_u64_to_from_le_bytes();
        let bytes = self.encoding(key, value) + tail;
        assert(bytes.subrange(0, LENGTH_SIZE as int) =~= spec_u64_to_le_bytes(value.len() as u64));
        assert(bytes.subrange(LENGTH_SIZE as int, LENGTH_SIZE + key.len()) =~= key);
        assert(bytes.subrange(LENGTH_SIZE + key.len(), LENGTH_SIZE + key.len() + value.len())
            =~= value);
    }
}

impl RecordSerializer for ConstKeyLenRecordSerializer {
    closed spec fn accepts(&self, key: Seq<u8>, value: Seq<u8>) -> bool {
        &&& key.len() == self.key_length
        &&& key.len() + value.len() + LENGTH_SIZE <= usize::MAX
    }

    closed spec fn encoding(&self, key: Seq<u8>, value: Seq<u8>) -> Seq<u8> {
        spec_u64_to_le_bytes(value.len() as u64) + key + value
    }

    closed spec fn decoding(&self, bytes: Seq<u8>) -> Option<(Seq<u8>, Seq<u8>)> {
        if bytes.len() < self.key_length + LENGTH_SIZE {
            None
        } else {
            let value_length = spec_u64_from_le_bytes(bytes.subrange(0, LENGTH_SIZE as int)) as int;
            if bytes.len() < LENGTH_SIZE + self.key_length + value_length {
                None
            } else {
                Some(
                    (
                        bytes.subrange(LENGTH_SIZE as int, LENGTH_SIZE + self.key_length),
                        bytes.subrange(
                            LENGTH_SIZE + self.key_length,
                            LENGTH_SIZE + self.key_length + value_length,
                        ),
                    ),
                )
            }
        }
    }

    fn serialize(&self, r: &Record, w: &mut [u8]) {
        proof {
            lemma_auto_spec_u64_to_from_le_bytes();
        }
        let key = r.key();
        let value = r.value();
        write_length(w, 0, value.len());
        write_bytes(w, LENGTH_SIZE, key);
        write_bytes(w, LENGTH_SIZE + key.len(), value);
        assert(w@ =~= self.encoding(r.key_bytes(), r.value_bytes()) + old(w)@.subrange(
            self.encoding(r.key_bytes(), r.value_bytes()).len() as int,
            old(w)@.len() as int,
        ));
    }

    fn deserialize<'a>(&self, r: &'a [u8]) -> (o: Option<Record<'a>>) {
        if r.len() < LENGTH_SIZE || r.len() - LENGTH_SIZE < self.key_length {
            return None;
        }
        let value_length: u64 = u64_from_le_bytes(slice_subrange(r, 0, LENGTH_SIZE));
        let key_end: usize = LENGTH_SIZE + self.key_length;
        if value_length > (r.len() - key_end) as u64 {
            return None;
        }
        let key = slice_subrange(r, LENGTH_SIZE, key_end);
        let value = slice_subrange(r, key_end, key_end + value_length as usize);
        Some(Record::new(key, value))
    }

    fn size(&self, r: &Record) -> (n: usize) {
        proof {
            lemma_auto_spec_u64_to_from_le_bytes();
        }
        self.key_length + r.value().len() + LENGTH_SIZE
    }
}

} // verus!
