//! The index from the key of a record to its offset in the flat file.

use vstd::prelude::*;
use vstd::slice::slice_to_vec;
use crate::flatfile::FlatFile;
use crate::seqno::{entry, entry_count, SeqNoIndex};
use crate::seqno_iter::{read_record, record_at, DbView};
use crate::serialization::RecordSerializer;

verus! {

/// One key with the offset of its record.
struct Entry {
    key: Vec<u8>,
    offset: usize,
}

/// Whether the two slices hold the same bytes.
pub fn same_bytes(a: &[u8], b: &[u8]) -> (r: bool)
    ensures
        r == (a@ == b@),
{
    if a.len() != b.len() {
        return false;
    }
    let mut i: usize = 0;
    while i < a.len()
        invariant
            i <= a@.len(),
            a@.len() == b@.len(),
            a@.subrange(0, i as int) == b@.subrange(0, i as int),
        decreases a@.len() - i,
    {
        if a[i] != b[i] {
            return false;
        }
        i = i + 1;
        assert(a@.subrange(0, i as int) =~= a@.subrange(0, i - 1).push(a@[i - 1]));
        assert(b@.subrange(0, i as int) =~= b@.subrange(0, i - 1).push(b@[i - 1]));
    }
    assert(a@ =~= a@.subrange(0, i as int));
    assert(b@ =~= b@.subrange(0, i as int));
    true
}

/// The keys of the records of `db` from number `k` on, each with the offset
/// of its record, added to `found`. The walk ends at the first record that
/// cannot be read or does not deserialize.
pub open spec fn scanned<R: RecordSerializer>(
    db: DbView,
    serializer: R,
    k: int,
    found: Map<Seq<u8>, usize>,
) -> Map<Seq<u8>, usize>
    decreases entry_count(db.seqno) - k,
{
    if k < 0 || k >= entry_count(db.seqno) {
        found
    } else {
        match (record_at(db, k), entry(db.seqno, k)) {
            (Some(bytes), Some(offset)) => match serializer.decoding(bytes) {
                Some((key, value)) => scanned(
                    db,
                    serializer,
                    k + 1,
                    found.insert(key, offset as usize),
                ),
                None => found,
            },
            _ => found,
        }
    }
}

/// For each key the offset of the record that was put under it last.
pub struct Index {
    mapping: Vec<Entry>,
}

impl View for Index {
    type V = Map<Seq<u8>, usize>;

    closed spec fn view(&self) -> Map<Seq<u8>, usize> {
        Map::new(
            |key: Seq<u8>| exists|i: int| self.holds(i, key),
            |key: Seq<u8>| self.mapping@[choose|i: int| self.holds(i, key)].offset,
        )
    }
}

impl Index {
    /// Entry `i` is the entry of `key`.
    spec fn holds(&self, i: int, key: Seq<u8>) -> bool {
        0 <= i < self.mapping@.len() && self.mapping@[i].key@ == key
    }

    /// No key has two entries.
    pub closed spec fn wf(&self) -> bool {
        forall|i: int, j: int|
            0 <= i < j < self.mapping@.len() ==> self.mapping@[i].key@ != self.mapping@[j].key@
    }

    /// An index without keys.
    pub fn empty() -> (r: Index)
        ensures
            r.wf(),
            r@ == Map::<Seq<u8>, usize>::empty(),
    {
        let r = Index { mapping: Vec::new() };
        assert(r@ =~= Map::<Seq<u8>, usize>::empty());
        r
    }

    /// The index of the records that the two streams hold: each record is
    /// deserialized, and its key gets the offset of the record. See `scanned`.
    pub fn new<R: RecordSerializer>(data: &FlatFile, index: &SeqNoIndex, serializer: &R) -> (r:
        Index)
        requires
            data.wf(),
            index.wf(),
        ensures
            r.wf(),
            r@ == scanned(
                DbView { flat: data@, seqno: index@ },
                *serializer,
                0,
                Map::<Seq<u8>, usize>::empty(),
            ),
    {
        let ghost db = DbView { flat: data@, seqno: index@ };
        let ghost all = scanned(db, *serializer, 0, Map::<Seq<u8>, usize>::empty());
        let mut found = Index::empty();
        let count: usize = index.size();
        let mut seqno: usize = 0;
        while seqno < count
            invariant
                data.wf(),
                index.wf(),
                found.wf(),
                db == (DbView { flat: data@, seqno: index@ }),
                count == entry_count(db.seqno),
                seqno <= count,
                all == scanned(db, *serializer, 0, Map::<Seq<u8>, usize>::empty()),
                all == scanned(db, *serializer, seqno as int, found@),
            decreases count - seqno,
        {
            let bytes = match read_record(data, index, seqno) {
                Some(bytes) => bytes,
                None => {
                    return found;
                },
            };
            let offset: u64 = match index.get_pointer_to_value(seqno) {
                Some(offset) => offset,
                None => {
                    return found;
                },
            };
            proof {
                data.lemma_view_wf();
                let next = match entry(db.seqno, seqno + 1) {
                    Some(next) => next as int,
                    None => db.flat.len(),
                };
                db.flat.lemma_read_len(offset as int, next - offset);
            }
            match serializer.deserialize(bytes.as_slice()) {
                Some(record) => {
                    found.put(record.key(), offset as usize);
                },
                None => {
                    return found;
                },
            }
            seqno = seqno + 1;
        }
        found
    }

    /// The position of the entry of `key`.
    fn position(&self, key: &[u8]) -> (r: Option<usize>)
        requires
            self.wf(),
        ensures
            match r {
                Some(i) => self.holds(i as int, key@) && self@.dom().contains(key@) && self@[key@]
                    == self.mapping@[i as int].offset,
                None => !self@.dom().contains(key@),
            },
    {
        let mut i: usize = 0;
        while i < self.mapping.len()
            invariant
                self.wf(),
                i <= self.mapping@.len(),
                forall|j: int| 0 <= j < i ==> !self.holds(j, key@),
            decreases self.mapping@.len() - i,
        {
            if same_bytes(self.mapping[i].key.as_slice(), key) {
                proof {
                    assert(self.holds(i as int, key@));
                    let chosen = choose|j: int| self.holds(j, key@);
                    assert(self.holds(chosen, key@));
                    assert(chosen == i) by {
                        if chosen < i {
                            assert(self.mapping@[chosen].key@ != self.mapping@[i as int].key@);
                        } else if i < chosen {
                            assert(self.mapping@[i as int].key@ != self.mapping@[chosen].key@);
                        }
                    }
                }
                return Some(i);
            }
            i = i + 1;
        }
        None
    }

    /// Puts `offset` under `key`, in place of what was there.
    #[verifier::rlimit(50)]
    pub fn put(&mut self, key: &[u8], offset: usize)
        requires
            old(self).wf(),
        ensures
            final(self).wf(),
            final(self)@ == old(self)@.insert(key@, offset),
    {
        match self.position(key) {
            Some(i) => {
                self.mapping[i].offset = offset;
                proof {
                    assert forall|k: Seq<u8>| final(self)@.dom().contains(k) == old(self)@.insert(key@, offset).dom().contains(k) by {
                        if final(self)@.dom().contains(k) {
                            let j = choose|j: int| final(self).holds(j, k);
                            assert(old(self).holds(j, k));
                        }
                        if old(self)@.insert(key@, offset).dom().contains(k) {
                            if k == key@ {
                                assert(final(self).holds(i as int, k));
                            } else {
                                let j = choose|j: int| old(self).holds(j, k);
                                assert(final(self).holds(j, k));
                            }
                        }
                    }
                    assert forall|k: Seq<u8>| final(self)@.dom().contains(k) implies final(self)@[k] == old(self)@.insert(key@, offset)[k] by {
                        let j = choose|j: int| final(self).holds(j, k);
                        assert(final(self).holds(j, k));
                        assert(old(self).holds(j, k));
                        let before = choose|j: int| old(self).holds(j, k);
                        assert(old(self).holds(before, k));
                    }
                    assert(final(self)@ =~= old(self)@.insert(key@, offset));
                }
            },
            None => {
                self.mapping.push(Entry { key: slice_to_vec(key), offset });
                proof {
                    let last = old(self).mapping@.len() as int;
                    assert forall|i: int, j: int|
                        0 <= i < j < final(self).mapping@.len() implies final(self).mapping@[i].key@ != final(self).mapping@[j].key@ by {
                        if j == last {
                            assert(!old(self).holds(i, key@));
                        }
                    }
                    assert forall|k: Seq<u8>| final(self)@.dom().contains(k) == old(self)@.insert(key@, offset).dom().contains(k) by {
                        if final(self)@.dom().contains(k) {
                            let j = choose|j: int| final(self).holds(j, k);
                            if j < last {
                                assert(old(self).holds(j, k));
                            }
                        }
                        if old(self)@.insert(key@, offset).dom().contains(k) {
                            if k == key@ {
                                assert(final(self).holds(last, k));
                            } else {
                                let j = choose|j: int| old(self).holds(j, k);
                                assert(final(self).holds(j, k));
                            }
                        }
                    }
                    assert forall|k: Seq<u8>| final(self)@.dom().contains(k) implies final(self)@[k] == old(self)@.insert(key@, offset)[k] by {
                        let j = choose|j: int| final(self).holds(j, k);
                        assert(final(self).holds(j, k));
                        if j < last {
                            assert(old(self).holds(j, k));
                            let before = choose|j: int| old(self).holds(j, k);
                            assert(old(self).holds(before, k));
                        }
                    }
                    assert(final(self)@ =~= old(self)@.insert(key@, offset));
                }
            },
        }
    }

    /// The offset that was put under `key` last.
    pub fn get(&self, key: &[u8]) -> (r: Option<usize>)
        requires
            self.wf(),
        ensures
            r == (if self@.dom().contains(key@) {
                Some(self@[key@])
            } else {
                None
            }),
    {
        match self.position(key) {
            Some(i) => Some(self.mapping[i].offset),
            None => None,
        }
    }

    /// Whether an offset was put under `key`.
    pub fn contains(&self, key: &[u8]) -> (r: bool)
        requires
            self.wf(),
        ensures
            r == self@.dom().contains(key@),
    {
        self.position(key).is_some()
    }
}

} // verus!
