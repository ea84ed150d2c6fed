//! A stream for append-only use: what is written stays, and a read sees
//! only what was written completely.

use vstd::prelude::*;
use memmap2::MmapMut;
use crate::error::Error;
use crate::growable_mmap::{
    append_outcome,
    failure,
    suits,
    GrowableMmap,
    MappingRequest,
    Prepared,
    HEADER_SIZE,
};
use crate::stream::StreamView;

verus! {

/// A growing stream together with the number of its bytes that are valid.
/// Reads are held below that number; an append raises it once the bytes are
/// written and flushed.
pub struct Appender {
    mmap: GrowableMmap,
    actual_size: usize,
}

impl View for Appender {
    type V = StreamView;

    closed spec fn view(&self) -> StreamView {
        self.mmap@
    }
}

impl Appender {
    /// The stream is well formed and all of its bytes are valid.
    pub closed spec fn wf(&self) -> bool {
        &&& self.mmap.wf()
        &&& self.actual_size == self.mmap@.len()
    }

    /// A well-formed appender has a well-formed view.
    pub proof fn lemma_view_wf(&self)
        requires
            self.wf(),
        ensures
            self@.wf(),
    {
        self.mmap.lemma_view_wf();
    }

    /// The appender over `mmap`, with all bytes of `mmap` valid.
    pub fn new(mmap: GrowableMmap) -> (r: Appender)
        requires
            mmap.wf(),
        ensures
            r.wf(),
            r@ == mmap@,
    {
        let actual_size = mmap.memory_size();
        Appender { mmap, actual_size }
    }

    /// An empty appender in anonymous memory.
    pub fn memory() -> (r: Result<Appender, Error>)
        ensures
            match r {
                Ok(appender) => appender.wf() && appender@ == StreamView::empty(false),
                Err(e) => e is Mmap || e is Flush,
            },
    {
        match GrowableMmap::memory() {
            Ok(mmap) => Ok(Appender::new(mmap)),
            Err(e) => Err(e),
        }
    }

    /// See `GrowableMmap::mapping_needed`.
    pub fn mapping_needed(&self, add: usize) -> (r: Option<MappingRequest>)
        requires
            self.wf(),
            HEADER_SIZE + self@.len() <= u64::MAX,
        ensures
            r == (if self@.has_room(add as int) {
                None
            } else {
                Some(
                    MappingRequest {
                        len: self@.next_capacity(add as int) as usize,
                        offset: (HEADER_SIZE + self@.len()) as u64,
                    },
                )
            }),
    {
        self.mmap.mapping_needed(add)
    }

    /// See `GrowableMmap::create_mmap`.
    pub fn create_mmap(&self, add: usize) -> (r: Result<Option<MmapMut>, Error>)
        requires
            self.wf(),
        ensures
            match r {
                Ok(fresh) => suits(self@, add as int, fresh) && (fresh is Some
                    ==> !self@.file_backed),
                Err(e) => e is Mmap && !self@.has_room(add as int),
            },
            self@.has_room(add as int) ==> r is Ok,
            !self@.has_room(add as int) && self@.file_backed ==> r is Err,
    {
        self.mmap.create_mmap(add)
    }

    /// See `GrowableMmap::accepts`.
    pub fn accepts(&self, add: usize, fresh: &Option<MmapMut>) -> (r: bool)
        requires
            self.wf(),
        ensures
            r == suits(self@, add as int, *fresh),
    {
        self.mmap.accepts(add, fresh)
    }

    /// Appends `data` and counts its bytes as valid once they are written.
    /// Nothing happens for empty `data`. See `append_outcome`.
    pub fn append(&mut self, data: &[u8], fresh: Option<MmapMut>) -> (r: Result<(), Error>)
        requires
            old(self).wf(),
            old(self)@.len() + data@.len() <= usize::MAX,
        ensures
            final(self).wf(),
            if data@.len() == 0 {
                r is Ok && final(self)@ == old(self)@
            } else {
                append_outcome(old(self)@, data@, fresh, failure(r), final(self)@)
            },
    {
        let size_inc: usize = data.len();
        if size_inc == 0 {
            return Ok(());
        }
        let new_size: usize = self.actual_size + size_inc;
        match self.mmap.grow_and_apply(data, fresh) {
            Ok(()) => {
                proof {
                    old(self).mmap.lemma_view_wf();
                    old(self).mmap@.lemma_grown_wf(data@);
                }
                self.actual_size = new_size;
                Ok(())
            },
            Err(e) => Err(e),
        }
    }

    /// See `GrowableMmap::pending`.
    pub closed spec fn pending(&self, ready: Prepared) -> bool {
        &&& self.mmap.pending(ready)
        &&& self.actual_size == self.mmap.began(ready).len()
    }

    /// See `GrowableMmap::began`.
    pub closed spec fn began(&self, ready: Prepared) -> StreamView {
        self.mmap.began(ready)
    }

    /// See `GrowableMmap::prepare`. No byte becomes valid before `commit`.
    pub(crate) fn prepare(&mut self, data: &[u8], fresh: Option<MmapMut>) -> (r: Result<
        Prepared,
        Error,
    >)
        requires
            old(self).wf(),
            data@.len() > 0,
            old(self)@.len() + data@.len() <= usize::MAX,
        ensures
            match r {
                Ok(ready) => {
                    &&& final(self).pending(ready)
                    &&& final(self).began(ready) == old(self)@
                    &&& ready.data() == data@
                    &&& suits(old(self)@, data@.len() as int, fresh)
                },
                Err(e) => {
                    &&& final(self).wf()
                    &&& append_outcome(old(self)@, data@, fresh, Some(e), final(self)@)
                },
            },
    {
        self.mmap.prepare(data, fresh)
    }

    /// See `GrowableMmap::commit`. The bytes of the append become valid.
    pub(crate) fn commit(&mut self, ready: Prepared)
        requires
            old(self).pending(ready),
        ensures
            final(self).wf(),
            final(self)@ == old(self).began(ready).grown(ready.data()),
    {
        self.mmap.commit(ready);
        self.actual_size = self.mmap.memory_size();
    }

    /// See `GrowableMmap::abort`. The valid bytes are the ones that were.
    pub(crate) fn abort(&mut self, ready: Prepared)
        requires
            old(self).pending(ready),
        ensures
            final(self).wf(),
            final(self)@.holds_what(old(self).began(ready)),
    {
        self.mmap.abort(ready);
    }

    /// A copy of `length` valid bytes that start at `offset`, where they all
    /// lie in one map. See `GrowableMmap::get_ref_and_apply`.
    pub fn get_data(&self, offset: usize, length: usize) -> (r: Option<Vec<u8>>)
        requires
            self.wf(),
        ensures
            match r {
                Some(bytes) => self@.read(offset as int, length as int) == Some(bytes@),
                None => self@.read(offset as int, length as int) is None,
            },
    {
        if offset >= self.actual_size {
            return None;
        }
        self.mmap.get_ref_and_apply(offset, length)
    }

    /// The number of valid bytes.
    pub fn memory_size(&self) -> (r: usize)
        requires
            self.wf(),
        ensures
            r == self@.len(),
    {
        self.actual_size
    }
}

} // verus!
