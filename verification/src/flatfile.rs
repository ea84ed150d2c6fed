//! The flat file: all records one after the other, with nothing between them.

use vstd::prelude::*;
use memmap2::MmapMut;
use crate::appender::Appender;
use crate::error::Error;
use crate::growable_mmap::{
    append_outcome,
    failure,
    suits,
    MappingRequest,
    Prepared,
    HEADER_SIZE,
};
use crate::mapping::unsuitable;
use crate::stream::StreamView;

verus! {

/// The records laid end to end.
pub open spec fn concat(records: Seq<Seq<u8>>) -> Seq<u8>
    decreases records.len(),
{
    if records.len() == 0 {
        Seq::empty()
    } else {
        concat(records.drop_last()) + records.last()
    }
}

/// The bytes of each of the records.
pub open spec fn views(records: Seq<&[u8]>) -> Seq<Seq<u8>> {
    Seq::new(records.len(), |i: int| records[i]@)
}

/// No record is empty.
pub open spec fn all_filled(records: Seq<Seq<u8>>) -> bool {
    forall|i: int| 0 <= i < records.len() ==> (#[trigger] records[i]).len() > 0
}

/// Where record `i` begins in `concat(records)`.
pub open spec fn start_of(records: Seq<Seq<u8>>, i: int) -> int {
    concat(records.take(i)).len() as int
}

/// One record laid end to end is that record.
pub proof fn lemma_concat_single(record: Seq<u8>)
    ensures
        concat(seq![record]) == record,
{
    assert(seq![record].drop_last() =~= Seq::<Seq<u8>>::empty());
    assert(concat(seq![record].drop_last()) =~= Seq::<u8>::empty());
    assert(concat(seq![record]) =~= record);
}

/// The first `i + 1` records laid end to end are the first `i` followed by
/// record `i`.
pub proof fn lemma_concat_step(records: Seq<Seq<u8>>, i: int)
    requires
        0 <= i < records.len(),
    ensures
        concat(records.take(i + 1)) == concat(records.take(i)) + records[i],
        start_of(records, i + 1) == start_of(records, i) + records[i].len(),
{
    assert(records.take(i + 1).drop_last() =~= records.take(i));
}

/// Record `i` lies in `concat(records)` from `start_of(records, i)` on, and
/// the records before it and behind it lie around it.
pub proof fn lemma_concat_holds(records: Seq<Seq<u8>>, i: int)
    requires
        0 <= i < records.len(),
    ensures
        start_of(records, i) + records[i].len() == start_of(records, i + 1),
        start_of(records, i + 1) <= concat(records).len(),
        concat(records).subrange(start_of(records, i), start_of(records, i + 1)) == records[i],
    decreases records.len(),
{
    lemma_concat_step(records, i);
    if i == records.len() - 1 {
        assert(records.take(i + 1) =~= records);
        assert(concat(records).subrange(start_of(records, i), start_of(records, i + 1))
            =~= records[i]);
    } else {
        let front = records.drop_last();
        lemma_concat_holds(front, i);
        assert(front.take(i) =~= records.take(i));
        assert(front.take(i + 1) =~= records.take(i + 1));
        assert(concat(records).subrange(start_of(records, i), start_of(records, i + 1))
            =~= concat(front).subrange(start_of(front, i), start_of(front, i + 1)));
    }
}

/// Flat files hold the records of a database and nothing else: no spaces
/// between the records and no sizes. A record is found by its offset and
/// its length.
pub struct FlatFile {
    inner: Appender,
}

impl View for FlatFile {
    type V = StreamView;

    closed spec fn view(&self) -> StreamView {
        self.inner@
    }
}

impl FlatFile {
    /// The stream below is well formed.
    pub closed spec fn wf(&self) -> bool {
        self.inner.wf()
    }

    /// A well-formed flat file has a well-formed view.
    pub proof fn lemma_view_wf(&self)
        requires
            self.wf(),
        ensures
            self@.wf(),
    {
        self.inner.lemma_view_wf();
    }

    /// The flat file over `inner`.
    pub fn new(inner: Appender) -> (r: FlatFile)
        requires
            inner.wf(),
        ensures
            r.wf(),
            r@ == inner@,
    {
        FlatFile { inner }
    }

    /// An empty flat file in anonymous memory.
    pub fn memory() -> (r: Result<FlatFile, Error>)
        ensures
            match r {
                Ok(file) => file.wf() && file@ == StreamView::empty(false),
                Err(e) => e is Mmap || e is Flush,
            },
    {
        match Appender::memory() {
            Ok(inner) => Ok(FlatFile { inner }),
            Err(e) => Err(e),
        }
    }

    /// See `GrowableMmap::mapping_needed`.
    pub fn mapping_needed(&self, add: usize) -> (r: Option<MappingRequest>)
        requires
            self.wf(),
            HEADER_SIZE + self@.len() <= u64::MAX,
        ensures
            r == (if self@.has_room(add as int) {
                None
            } else {
                Some(
                    MappingRequest {
                        len: self@.next_capacity(add as int) as usize,
                        offset: (HEADER_SIZE + self@.len()) as u64,
                    },
                )
            }),
    {
        self.inner.mapping_needed(add)
    }

    /// See `GrowableMmap::create_mmap`.
    pub fn create_mmap(&self, add: usize) -> (r: Result<Option<MmapMut>, Error>)
        requires
            self.wf(),
        ensures
            match r {
                Ok(fresh) => suits(self@, add as int, fresh) && (fresh is Some
                    ==> !self@.file_backed),
                Err(e) => e is Mmap && !self@.has_room(add as int),
            },
            self@.has_room(add as int) ==> r is Ok,
            !self@.has_room(add as int) && self@.file_backed ==> r is Err,
    {
        self.inner.create_mmap(add)
    }

    /// The records in one buffer, laid end to end.
    pub fn flatten(records: &[&[u8]]) -> (r: Vec<u8>)
        ensures
            r@ == concat(views(records@)),
    {
        let mut buffer: Vec<u8> = Vec::new();
        let mut i: usize = 0;
        while i < records.len()
            invariant
                i <= records@.len(),
                buffer@ == concat(views(records@).take(i as int)),
            decreases records@.len() - i,
        {
            proof {
                lemma_concat_step(views(records@), i as int);
            }
            buffer.extend_from_slice(records[i]);
            i = i + 1;
        }
        assert(views(records@).take(i as int) =~= views(records@));
        buffer
    }

    /// See `GrowableMmap::accepts`.
    pub fn accepts(&self, add: usize, fresh: &Option<MmapMut>) -> (r: bool)
        requires
            self.wf(),
        ensures
            r == suits(self@, add as int, *fresh),
    {
        self.inner.accepts(add, fresh)
    }

    /// The number of bytes that the records take together.
    pub fn size_of(records: &[&[u8]]) -> (r: usize)
        requires
            concat(views(records@)).len() <= usize::MAX,
        ensures
            r == concat(views(records@)).len(),
    {
        let mut size: usize = 0;
        let mut i: usize = 0;
        while i < records.len()
            invariant
                i <= records@.len(),
                concat(views(records@)).len() <= usize::MAX,
                size == start_of(views(records@), i as int),
            decreases records@.len() - i,
        {
            proof {
                lemma_concat_holds(views(records@), i as int);
            }
            size = size + records[i].len();
            i = i + 1;
        }
        assert(views(records@).take(i as int) =~= views(records@));
        size
    }

    /// Whether no record is empty.
    pub fn filled(records: &[&[u8]]) -> (r: bool)
        ensures
            r == all_filled(views(records@)),
    {
        let mut i: usize = 0;
        while i < records.len()
            invariant
                i <= records@.len(),
                forall|j: int| 0 <= j < i ==> (#[trigger] views(records@)[j]).len() > 0,
            decreases records@.len() - i,
        {
            if records[i].len() == 0 {
                assert(views(records@)[i as int].len() == 0);
                return false;
            }
            i = i + 1;
        }
        true
    }

    /// Writes the records to the end of the file, one after the other, as
    /// one append. Nothing happens without records. An empty record is not
    /// supported: where there is one, all records are refused with
    /// `MmapWrite` and nothing is written. See `append_outcome`.
    pub fn append(&mut self, records: &[&[u8]], fresh: Option<MmapMut>) -> (r: Result<(), Error>)
        requires
            old(self).wf(),
            old(self)@.len() + concat(views(records@)).len() <= usize::MAX,
        ensures
            final(self).wf(),
            if records@.len() == 0 {
                r is Ok && final(self)@ == old(self)@
            } else if !all_filled(views(records@)) {
                &&& r matches Err(e)
                &&& e is MmapWrite
                &&& final(self)@ == old(self)@
            } else {
                &&& concat(views(records@)).len() > 0
                &&& !(r matches Err(e) && e is MmapWrite)
                &&& append_outcome(
                    old(self)@,
                    concat(views(records@)),
                    fresh,
                    failure(r),
                    final(self)@,
                )
            },
    {
        if records.len() == 0 {
            return Ok(());
        }
        if !FlatFile::filled(records) {
            return Err(Error::MmapWrite(unsuitable()));
        }
        let data = FlatFile::flatten(records);
        proof {
            let all = views(records@);
            let last = all.len() - 1;
            lemma_concat_holds(all, last);
            assert(all[last].len() > 0);
        }
        self.inner.append(data.as_slice(), fresh)
    }

    /// See `GrowableMmap::pending`.
    pub closed spec fn pending(&self, ready: Prepared) -> bool {
        self.inner.pending(ready)
    }

    /// See `GrowableMmap::began`.
    pub closed spec fn began(&self, ready: Prepared) -> StreamView {
        self.inner.began(ready)
    }

    /// Does all of an append of the records that can fail. See
    /// `GrowableMmap::prepare`.
    pub(crate) fn prepare(&mut self, records: &[&[u8]], fresh: Option<MmapMut>) -> (r: Result<
        Prepared,
        Error,
    >)
        requires
            old(self).wf(),
            records@.len() > 0,
            all_filled(views(records@)),
            old(self)@.len() + concat(views(records@)).len() <= usize::MAX,
        ensures
            concat(views(records@)).len() > 0,
            match r {
                Ok(ready) => {
                    &&& final(self).pending(ready)
                    &&& final(self).began(ready) == old(self)@
                    &&& ready.data() == concat(views(records@))
                    &&& suits(old(self)@, concat(views(records@)).len() as int, fresh)
                },
                Err(e) => {
                    &&& final(self).wf()
                    &&& append_outcome(
                        old(self)@,
                        concat(views(records@)),
                        fresh,
                        Some(e),
                        final(self)@,
                    )
                },
            },
    {
        let data = FlatFile::flatten(records);
        proof {
            let all = views(records@);
            let last = all.len() - 1;
            lemma_concat_holds(all, last);
            assert(all[last].len() > 0);
        }
        self.inner.prepare(data.as_slice(), fresh)
    }

    /// See `GrowableMmap::commit`.
    pub(crate) fn commit(&mut self, ready: Prepared)
        requires
            old(self).pending(ready),
        ensures
            final(self).wf(),
            final(self)@ == old(self).began(ready).grown(ready.data()),
    {
        self.inner.commit(ready);
    }

    /// See `GrowableMmap::abort`.
    pub(crate) fn abort(&mut self, ready: Prepared)
        requires
            old(self).pending(ready),
        ensures
            final(self).wf(),
            final(self)@.holds_what(old(self).began(ready)),
    {
        self.inner.abort(ready);
    }

    /// A copy of the `length` bytes at `offset`, where the file holds them
    /// in one map. Whether a record begins at `offset` is not looked at.
    pub fn get_record_at_offset(&self, offset: usize, length: usize) -> (r: Option<Vec<u8>>)
        requires
            self.wf(),
        ensures
            match r {
                Some(bytes) => self@.read(offset as int, length as int) == Some(bytes@),
                None => self@.read(offset as int, length as int) is None,
            },
    {
        self.inner.get_data(offset, length)
    }

    /// The number of bytes in the file.
    pub fn len(&self) -> (r: usize)
        requires
            self.wf(),
        ensures
            r == self@.len(),
    {
        self.inner.memory_size()
    }
}

} // verus!
