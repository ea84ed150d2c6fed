//! The index from the sequence number of a record to its place in the flat file.

use vstd::prelude::*;
use vstd::bytes::{
    lemma_auto_spec_u64_to_from_le_bytes,
    spec_u64_from_le_bytes,
    spec_u64_to_le_bytes,
    u64_from_le_bytes,
    u64_to_le_bytes,
};
use memmap2::{Mmap, MmapMut};
use crate::appender::Appender;
use crate::error::Error;
use crate::growable_mmap::{
    append_outcome,
    failure,
    suits,
    GrowableMmap,
    MappingRequest,
    Prepared,
    StorageHeader,
    HEADER_SIZE,
};
use crate::mapping::frozen_bytes;
use crate::stream::StreamView;

verus! {

/// The number of bytes that one entry of the index takes.
pub const ENTRY_SIZE: usize = 8;

/// The offsets as the index stores them: eight bytes each, little-endian.
pub open spec fn encode(offsets: Seq<u64>) -> Seq<u8>
    decreases offsets.len(),
{
    if offsets.len() == 0 {
        Seq::empty()
    } else {
        encode(offsets.drop_last()) + spec_u64_to_le_bytes(offsets.last())
    }
}

/// Entry `seqno` of an index stream: the eight bytes at its place, where
/// the stream holds them in one map.
pub open spec fn entry(index: StreamView, seqno: int) -> Option<u64> {
    match index.read(ENTRY_SIZE * seqno, ENTRY_SIZE as int) {
        Some(bytes) => Some(spec_u64_from_le_bytes(bytes)),
        None => None,
    }
}

/// The number of whole entries in an index stream.
pub open spec fn entry_count(index: StreamView) -> int {
    index.len() / (ENTRY_SIZE as int)
}

/// Each offset takes eight bytes of the encoding, in order.
pub proof fn lemma_encode(offsets: Seq<u64>, i: int)
    requires
        0 <= i < offsets.len(),
    ensures
        encode(offsets).len() == ENTRY_SIZE * offsets.len(),
        encode(offsets).subrange(ENTRY_SIZE * i, ENTRY_SIZE * i + ENTRY_SIZE)
            == spec_u64_to_le_bytes(offsets[i]),
        spec_u64_from_le_bytes(
            encode(offsets).subrange(ENTRY_SIZE * i, ENTRY_SIZE * i + ENTRY_SIZE),
        ) == offsets[i],
    decreases offsets.len(),
{
    lemma_auto_spec_u64_to_from_le_bytes();
    lemma_encode_len(offsets);
    let front = offsets.drop_last();
    lemma_encode_len(front);
    if i == offsets.len() - 1 {
        assert(encode(offsets).subrange(ENTRY_SIZE * i, ENTRY_SIZE * i + ENTRY_SIZE)
            =~= spec_u64_to_le_bytes(offsets[i]));
    } else {
        lemma_encode(front, i);
        assert(encode(offsets).subrange(ENTRY_SIZE * i, ENTRY_SIZE * i + ENTRY_SIZE)
            =~= encode(front).subrange(ENTRY_SIZE * i, ENTRY_SIZE * i + ENTRY_SIZE));
    }
}

/// The encoding takes eight bytes for each offset.
pub proof fn lemma_encode_len(offsets: Seq<u64>)
    ensures
        encode(offsets).len() == ENTRY_SIZE * offsets.len(),
    decreases offsets.len(),
{
    lemma_auto_spec_u64_to_from_le_bytes();
    if offsets.len() > 0 {
        lemma_encode_len(offsets.drop_last());
    }
}

/// No index has an entry at its count or above, nor below zero.
pub proof fn lemma_no_entry(index: StreamView, k: int)
    requires
        index.wf(),
        k < 0 || k >= entry_count(index),
    ensures
        entry(index, k) is None,
{
    if index.read(ENTRY_SIZE * k, ENTRY_SIZE as int) is Some {
        index.lemma_read_len(ENTRY_SIZE * k, ENTRY_SIZE as int);
    }
}

/// Index from the sequence number of a record to its offset in the flat file.
pub struct SeqNoIndex {
    inner: Appender,
}

impl View for SeqNoIndex {
    type V = StreamView;

    closed spec fn view(&self) -> StreamView {
        self.inner@
    }
}

impl SeqNoIndex {
    /// The stream below is well formed.
    pub closed spec fn wf(&self) -> bool {
        self.inner.wf()
    }

    /// A well-formed index has a well-formed view.
    pub proof fn lemma_view_wf(&self)
        requires
            self.wf(),
        ensures
            self@.wf(),
    {
        self.inner.lemma_view_wf();
    }

    /// The index over `inner`.
    pub fn new(inner: Appender) -> (r: SeqNoIndex)
        requires
            inner.wf(),
        ensures
            r.wf(),
            r@ == inner@,
    {
        SeqNoIndex { inner }
    }

    /// The part of an index file of `file_len` bytes that holds the entries:
    /// what the header counts, behind the header. An index file that is
    /// shorter than its header says is a damaged index.
    pub fn existing_mapping(header: &StorageHeader, file_len: u64) -> (r: Result<
        Option<MappingRequest>,
        Error,
    >)
        requires
            header.wf(),
        ensures
            match r {
                Ok(request) => {
                    &&& HEADER_SIZE + header.stored_size() <= file_len
                    &&& request == (if file_len > HEADER_SIZE {
                        Some(
                            MappingRequest {
                                len: header.stored_size() as usize,
                                offset: HEADER_SIZE as u64,
                            },
                        )
                    } else {
                        None
                    })
                },
                Err(e) => {
                    ||| e is ReadHeader && header.stored_size() > usize::MAX
                    ||| e is SeqNoIndexDamaged && header.stored_size() <= usize::MAX && file_len
                        < HEADER_SIZE + header.stored_size()
                },
            },
    {
        match GrowableMmap::existing_mapping(header, file_len) {
            Ok(request) => Ok(request),
            Err(Error::DataFileDamaged) => Err(Error::SeqNoIndexDamaged),
            Err(e) => Err(e),
        }
    }

    /// Opens the index that a file holds: `existing` are the bytes of the
    /// file behind its header, which the header must account for exactly,
    /// else the index is damaged.
    pub fn open(header: StorageHeader, existing: Option<Mmap>) -> (r: Result<SeqNoIndex, Error>)
        requires
            header.wf(),
        ensures
            match r {
                Ok(index) => {
                    let bytes = match existing {
                        Some(map) => frozen_bytes(map),
                        None => Seq::empty(),
                    };
                    &&& index.wf()
                    &&& header.stored_size() == bytes.len()
                    &&& index@ == StreamView::opened(bytes)
                },
                Err(e) => {
                    ||| e is ReadHeader && header.stored_size() > usize::MAX
                    ||| e is SeqNoIndexDamaged && header.stored_size() != (match existing {
                        Some(map) => frozen_bytes(map).len(),
                        None => 0,
                    })
                },
            },
    {
        match GrowableMmap::new(header, existing) {
            Ok(mmap) => Ok(SeqNoIndex { inner: Appender::new(mmap) }),
            Err(Error::DataFileDamaged) => Err(Error::SeqNoIndexDamaged),
            Err(e) => Err(e),
        }
    }

    /// An empty index in anonymous memory.
    pub fn memory() -> (r: Result<SeqNoIndex, Error>)
        ensures
            match r {
                Ok(index) => index.wf() && index@ == StreamView::empty(false),
                Err(e) => e is Mmap || e is Flush,
            },
    {
        match Appender::memory() {
            Ok(inner) => Ok(SeqNoIndex { inner }),
            Err(e) => Err(e),
        }
    }

    /// See `GrowableMmap::mapping_needed`.
    pub fn mapping_needed(&self, add: usize) -> (r: Option<MappingRequest>)
        requires
            self.wf(),
            HEADER_SIZE + self@.len() <= u64::MAX,
        ensures
            r == (if self@.has_room(add as int) {
                None
            } else {
                Some(
                    MappingRequest {
                        len: self@.next_capacity(add as int) as usize,
                        offset: (HEADER_SIZE + self@.len()) as u64,
                    },
                )
            }),
    {
        self.inner.mapping_needed(add)
    }

    /// See `GrowableMmap::create_mmap`.
    pub fn create_mmap(&self, add: usize) -> (r: Result<Option<MmapMut>, Error>)
        requires
            self.wf(),
        ensures
            match r {
                Ok(fresh) => suits(self@, add as int, fresh) && (fresh is Some
                    ==> !self@.file_backed),
                Err(e) => e is Mmap && !self@.has_room(add as int),
            },
            self@.has_room(add as int) ==> r is Ok,
            !self@.has_room(add as int) && self@.file_backed ==> r is Err,
    {
        self.inner.create_mmap(add)
    }

    /// The offsets as the index stores them.
    pub fn serialize(offsets: &[u64]) -> (r: Vec<u8>)
        ensures
            r@ == encode(offsets@),
    {
        let mut buffer: Vec<u8> = Vec::new();
        let mut i: usize = 0;
        while i < offsets.len()
            invariant
                i <= offsets@.len(),
                buffer@ == encode(offsets@.take(i as int)),
            decreases offsets@.len() - i,
        {
            let mut bytes = u64_to_le_bytes(offsets[i]);
            assert(offsets@.take(i + 1).drop_last() =~= offsets@.take(i as int));
            buffer.append(&mut bytes);
            i = i + 1;
        }
        assert(offsets@.take(i as int) =~= offsets@);
        buffer
    }

    /// See `GrowableMmap::accepts`.
    pub fn accepts(&self, add: usize, fresh: &Option<MmapMut>) -> (r: bool)
        requires
            self.wf(),
        ensures
            r == suits(self@, add as int, *fresh),
    {
        self.inner.accepts(add, fresh)
    }

    /// Adds the offsets to the index as one append and returns the sequence
    /// number of the first of them. Nothing happens without offsets. See
    /// `append_outcome`.
    pub fn append(&mut self, offsets: &[u64], fresh: Option<MmapMut>) -> (r: Result<
        Option<usize>,
        Error,
    >)
        requires
            old(self).wf(),
            old(self)@.len() + ENTRY_SIZE * offsets@.len() <= usize::MAX,
        ensures
            final(self).wf(),
            if offsets@.len() == 0 {
                r == Ok::<Option<usize>, Error>(None) && final(self)@ == old(self)@
            } else {
                &&& r matches Ok(seqno) ==> seqno == Some(entry_count(old(self)@) as usize)
                &&& encode(offsets@).len() == ENTRY_SIZE * offsets@.len()
                &&& append_outcome(old(self)@, encode(offsets@), fresh, failure(r), final(self)@)
            },
    {
        if offsets.len() == 0 {
            return Ok(None);
        }
        let current_seqno: usize = self.inner.memory_size() / ENTRY_SIZE;
        let data = SeqNoIndex::serialize(offsets);
        proof {
            lemma_encode_len(offsets@);
        }
        match self.inner.append(data.as_slice(), fresh) {
            Ok(()) => Ok(Some(current_seqno)),
            Err(e) => Err(e),
        }
    }

    /// See `GrowableMmap::pending`.
    pub closed spec fn pending(&self, ready: Prepared) -> bool {
        self.inner.pending(ready)
    }

    /// See `GrowableMmap::began`.
    pub closed spec fn began(&self, ready: Prepared) -> StreamView {
        self.inner.began(ready)
    }

    /// Does all of an append of the offsets that can fail. See
    /// `GrowableMmap::prepare`.
    pub(crate) fn prepare(&mut self, offsets: &[u64], fresh: Option<MmapMut>) -> (r: Result<
        Prepared,
        Error,
    >)
        requires
            old(self).wf(),
            offsets@.len() > 0,
            old(self)@.len() + ENTRY_SIZE * offsets@.len() <= usize::MAX,
        ensures
            encode(offsets@).len() == ENTRY_SIZE * offsets@.len(),
            match r {
                Ok(ready) => {
                    &&& final(self).pending(ready)
                    &&& final(self).began(ready) == old(self)@
                    &&& ready.data() == encode(offsets@)
                    &&& suits(old(self)@, ENTRY_SIZE * offsets@.len(), fresh)
                },
                Err(e) => {
                    &&& final(self).wf()
                    &&& append_outcome(old(self)@, encode(offsets@), fresh, Some(e), final(self)@)
                },
            },
    {
        let data = SeqNoIndex::serialize(offsets);
        proof {
            lemma_encode_len(offsets@);
        }
        self.inner.prepare(data.as_slice(), fresh)
    }

    /// See `GrowableMmap::commit`.
    pub(crate) fn commit(&mut self, ready: Prepared)
        requires
            old(self).pending(ready),
        ensures
            final(self).wf(),
            final(self)@ == old(self).began(ready).grown(ready.data()),
    {
        self.inner.commit(ready);
    }

    /// See `GrowableMmap::abort`.
    pub(crate) fn abort(&mut self, ready: Prepared)
        requires
            old(self).pending(ready),
        ensures
            final(self).wf(),
            final(self)@.holds_what(old(self).began(ready)),
    {
        self.inner.abort(ready);
    }

    /// The offset of the record with the given sequence number.
    pub fn get_pointer_to_value(&self, seqno: usize) -> (r: Option<u64>)
        requires
            self.wf(),
        ensures
            r == entry(self@, seqno as int),
    {
        if seqno > usize::MAX / ENTRY_SIZE {
            proof {
                self.lemma_view_wf();
            }
            return None;
        }
        let offset: usize = seqno * ENTRY_SIZE;
        match self.inner.get_data(offset, ENTRY_SIZE) {
            Some(bytes) => {
                proof {
                    self.lemma_view_wf();
                    self@.lemma_read_len(offset as int, ENTRY_SIZE as int);
                }
                Some(u64_from_le_bytes(bytes.as_slice()))
            },
            None => None,
        }
    }

    /// The number of bytes in the index.
    pub fn memory_size(&self) -> (r: usize)
        requires
            self.wf(),
        ensures
            r == self@.len(),
    {
        self.inner.memory_size()
    }

    /// The number of whole entries in the index.
    pub fn size(&self) -> (r: usize)
        requires
            self.wf(),
        ensures
            r == entry_count(self@),
    {
        self.inner.memory_size() / ENTRY_SIZE
    }
}

} // verus!
