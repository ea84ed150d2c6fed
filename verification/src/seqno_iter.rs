//! Reading records in the order in which they were added.

use vstd::prelude::*;
use crate::consistency::{consistent, lemma_record, records_of};
use crate::flatfile::FlatFile;
use crate::seqno::{entry, entry_count, lemma_no_entry, SeqNoIndex, ENTRY_SIZE};
use crate::stream::StreamView;

verus! {

/// The two streams of a database.
pub struct DbView {
    /// The flat file: the bytes of all records.
    pub flat: StreamView,
    /// The index: the offset of each record in the flat file.
    pub seqno: StreamView,
}

/// The record with sequence number `seqno`: the bytes of the flat file from
/// its offset up to the offset of the next record, or up to the end of the
/// flat file for the last one. There is none where the index has no entry
/// for it, where the next offset lies below its own, and where the flat
/// file does not hold these bytes in one map.
pub open spec fn record_at(db: DbView, seqno: int) -> Option<Seq<u8>> {
    match entry(db.seqno, seqno) {
        None => None,
        Some(offset) => {
            let next = match entry(db.seqno, seqno + 1) {
                Some(next) => next as int,
                None => db.flat.len(),
            };
            if next < offset {
                None
            } else {
                db.flat.read(offset as int, next - offset)
            }
        },
    }
}

/// Reads the record with sequence number `seqno` from the two streams.
pub fn read_record(data: &FlatFile, index: &SeqNoIndex, seqno: usize) -> (r: Option<Vec<u8>>)
    requires
        data.wf(),
        index.wf(),
    ensures
        match r {
            Some(bytes) => record_at(DbView { flat: data@, seqno: index@ }, seqno as int) == Some(
                bytes@,
            ),
            None => record_at(DbView { flat: data@, seqno: index@ }, seqno as int) is None,
        },
{
    proof {
        data.lemma_view_wf();
        index.lemma_view_wf();
    }
    let offset: u64 = match index.get_pointer_to_value(seqno) {
        Some(offset) => offset,
        None => {
            return None;
        },
    };
    let following: Option<u64> = if seqno < usize::MAX {
        index.get_pointer_to_value(seqno + 1)
    } else {
        None
    };
    let size: usize = data.len();
    let next: u64 = match following {
        Some(next) => next,
        None => size as u64,
    };
    if next < offset || next > size as u64 {
        proof {
            if next >= offset && data@.read(offset as int, next - offset) is Some {
                data@.lemma_read_len(offset as int, next - offset);
            }
        }
        return None;
    }
    data.get_record_at_offset(offset as usize, (next - offset) as usize)
}

/// Walks over the records of a database in the order in which they were
/// added, from a given sequence number on.
pub struct SeqNoIter<'a> {
    data: &'a FlatFile,
    index: &'a SeqNoIndex,
    seqno: usize,
}

impl<'a> SeqNoIter<'a> {
    /// The streams that the records are read from.
    pub closed spec fn db(&self) -> DbView {
        DbView { flat: self.data@, seqno: self.index@ }
    }

    /// The sequence number of the record that comes next.
    pub closed spec fn position(&self) -> int {
        self.seqno as int
    }

    /// The streams are well formed.
    pub closed spec fn wf(&self) -> bool {
        self.data.wf() && self.index.wf()
    }

    /// An iterator over `data` and `index` that begins at `seqno`.
    pub fn new(data: &'a FlatFile, index: &'a SeqNoIndex, seqno: usize) -> (r: SeqNoIter<'a>)
        requires
            data.wf(),
            index.wf(),
        ensures
            r.wf(),
            r.db() == (DbView { flat: data@, seqno: index@ }),
            r.position() == seqno,
    {
        SeqNoIter { data, index, seqno }
    }

    /// The next record, if there is one. The iterator moves on by one
    /// record each time it gives one, and stays where it is once there is
    /// none.
    pub fn next(&mut self) -> (r: Option<Vec<u8>>)
        requires
            old(self).wf(),
        ensures
            final(self).wf(),
            final(self).db() == old(self).db(),
            match r {
                Some(bytes) => {
                    &&& record_at(old(self).db(), old(self).position()) == Some(bytes@)
                    &&& final(self).position() == old(self).position() + 1
                },
                None => {
                    &&& record_at(old(self).db(), old(self).position()) is None
                    &&& final(self).position() == old(self).position()
                },
            },
            old(self).position() >= entry_count(old(self).db().seqno) ==> r is None,
    {
        proof {
            self.index.lemma_view_wf();
            if self.seqno >= entry_count(self.index@) {
                lemma_no_entry(self.index@, self.seqno as int);
            }
        }
        let item = read_record(self.data, self.index, self.seqno);
        if item.is_some() {
            proof {
                self.index.lemma_view_wf();
                self.index@.lemma_read_len(ENTRY_SIZE * self.seqno, ENTRY_SIZE as int);
            }
            self.seqno = self.seqno + 1;
        }
        item
    }

    /// All records that are left, in order.
    pub fn collect(&mut self) -> (r: Vec<Vec<u8>>)
        requires
            old(self).wf(),
        ensures
            final(self).wf(),
            final(self).db() == old(self).db(),
            final(self).position() == old(self).position() + r@.len(),
            forall|i: int|
                0 <= i < r@.len() ==> record_at(old(self).db(), old(self).position() + i) == Some(
                    (#[trigger] r@[i])@,
                ),
            record_at(old(self).db(), final(self).position()) is None,
            consistent(old(self).db()) && old(self).position() <= entry_count(old(self).db().seqno)
                ==> {
                &&& final(self).position() == entry_count(old(self).db().seqno)
                &&& forall|i: int|
                    0 <= i < r@.len() ==> (#[trigger] r@[i])@ == records_of(old(self).db())[old(
                        self,
                    ).position() + i]
            },
    {
        proof {
            self.index.lemma_view_wf();
        }
        let mut items: Vec<Vec<u8>> = Vec::new();
        loop
            invariant
                self.wf(),
                self.db() == old(self).db(),
                self.position() == old(self).position() + items@.len(),
                forall|i: int|
                    0 <= i < items@.len() ==> record_at(old(self).db(), old(self).position() + i)
                        == Some((#[trigger] items@[i])@),
            ensures
                self.wf(),
                self.db() == old(self).db(),
                self.position() == old(self).position() + items@.len(),
                forall|i: int|
                    0 <= i < items@.len() ==> record_at(old(self).db(), old(self).position() + i)
                        == Some((#[trigger] items@[i])@),
                record_at(old(self).db(), self.position()) is None,
            decreases usize::MAX - self.position(),
        {
            match self.next() {
                Some(item) => {
                    items.push(item);
                },
                None => {
                    break ;
                },
            }
        }
        proof {
            let db = old(self).db();
            let from = old(self).position();
            let count = entry_count(db.seqno);
            if consistent(db) && from <= count {
                if self.position() < count {
                    lemma_record(db, self.position());
                }
                assert forall|i: int| 0 <= i < items@.len() implies (#[trigger] items@[i])@
                    == records_of(db)[from + i] by {
                    if from + i >= count {
                        lemma_no_entry(db.seqno, from + i);
                    } else {
                        lemma_record(db, from + i);
                    }
                }
                if items@.len() > 0 {
                    let last = items@.len() - 1;
                    assert(record_at(db, from + last) == Some(items@[last]@));
                    if from + last >= count {
                        lemma_no_entry(db.seqno, from + last);
                    }
                }
            }
        }
        items
    }
}

} // verus!
