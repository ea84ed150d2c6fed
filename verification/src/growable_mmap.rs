//! A byte stream that grows by memory maps.
//!
//! The stream has one writable map at its end and behind it the maps that
//! were filled before, which are read-only. When an append does not fit into
//! the writable map, that map is frozen and a larger one takes its place.

use vstd::prelude::*;
use vstd::bytes::{
    lemma_auto_spec_u64_to_from_le_bytes,
    spec_u64_from_le_bytes,
    spec_u64_to_le_bytes,
    u64_from_le_bytes,
    u64_to_le_bytes,
};
use memmap2::{Mmap, MmapMut};
use std::io;
use vstd::slice::{slice_subrange, slice_to_vec};
use crate::error::Error;
use crate::index_on_mmaps::{IndexOnMmaps, SingleMmapIndex};
use crate::mapping::{
    flush_map,
    freeze,
    frozen_bytes,
    frozen_len,
    map_anonymous,
    read_writable,
    unsuitable,
    writable_bytes,
    writable_len,
    write_at,
};
use crate::shared_mmap::{Edge, SharedMmap};
use crate::stream::{StreamView, INITIAL_CAPACITY};

verus! {

/// The number of bytes at the beginning of a file that hold its header.
pub const HEADER_SIZE: usize = 16;

/// The size that a header of these bytes records: the first eight bytes,
/// read as a little-endian number.
pub open spec fn recorded_size(header: Seq<u8>) -> int {
    spec_u64_from_le_bytes(header.subrange(0, 8)) as int
}

/// The header of a stream: a map of `HEADER_SIZE` bytes that records how
/// many bytes of the stream are committed.
pub struct StorageHeader {
    mmap: MmapMut,
}

impl StorageHeader {
    /// The map has the length of a header.
    pub closed spec fn wf(&self) -> bool {
        writable_bytes(self.mmap).len() == HEADER_SIZE
    }

    /// The size that the header records.
    pub closed spec fn stored_size(&self) -> int {
        recorded_size(writable_bytes(self.mmap))
    }

    /// The bytes of the header behind the size, which are kept for later use.
    pub closed spec fn reserved(&self) -> Seq<u8> {
        writable_bytes(self.mmap).subrange(8, HEADER_SIZE as int)
    }

    /// The header that `mmap` holds. A map of another length is no header.
    pub fn new(mmap: MmapMut) -> (r: Result<StorageHeader, Error>)
        ensures
            match r {
                Ok(header) => header.wf() && header.stored_size() == recorded_size(
                    writable_bytes(mmap),
                ),
                Err(e) => e is ReadHeader && writable_bytes(mmap).len() != HEADER_SIZE,
            },
    {
        if writable_len(&mmap) != HEADER_SIZE {
            return Err(Error::ReadHeader);
        }
        Ok(StorageHeader { mmap })
    }

    /// Makes `mmap` the header of an empty stream and flushes it.
    pub fn create(mmap: MmapMut) -> (r: Result<StorageHeader, Error>)
        ensures
            match r {
                Ok(header) => header.wf() && header.stored_size() == 0,
                Err(e) => (e is ReadHeader && writable_bytes(mmap).len() != HEADER_SIZE)
                    || e is Flush,
            },
    {
        let mut header = match StorageHeader::new(mmap) {
            Ok(header) => header,
            Err(e) => {
                return Err(e);
            },
        };
        match header.store_storage_size(0) {
            Ok(()) => Ok(header),
            Err(e) => Err(e),
        }
    }

    /// The header of an empty stream in anonymous memory.
    pub fn memory() -> (r: Result<StorageHeader, Error>)
        ensures
            match r {
                Ok(header) => header.wf() && header.stored_size() == 0,
                Err(e) => e is Mmap || e is Flush,
            },
    {
        match map_anonymous(HEADER_SIZE) {
            Ok(mmap) => StorageHeader::create(mmap),
            Err(e) => Err(Error::Mmap(e)),
        }
    }

    /// The size that the header records, if it is a size of this machine.
    pub fn load_storage_size(&self) -> (r: Result<usize, Error>)
        requires
            self.wf(),
        ensures
            match r {
                Ok(size) => size == self.stored_size(),
                Err(e) => e is ReadHeader && self.stored_size() > usize::MAX,
            },
    {
        let bytes = read_writable(&self.mmap, 0, 8);
        let size: u64 = u64_from_le_bytes(bytes.as_slice());
        if size > usize::MAX as u64 {
            Err(Error::ReadHeader)
        } else {
            Ok(size as usize)
        }
    }

    /// Records `new_size` in the header.
    fn put(&mut self, new_size: usize)
        requires
            old(self).wf(),
        ensures
            final(self).wf(),
            final(self).stored_size() == new_size,
            final(self).reserved() == old(self).reserved(),
    {
        let bytes = u64_to_le_bytes(new_size as u64);
        write_at(&mut self.mmap, 0, 8, bytes.as_slice());
        proof {
            lemma_auto_spec_u64_to_from_le_bytes();
            assert(writable_bytes(self.mmap).subrange(0, 8) =~= spec_u64_to_le_bytes(
                new_size as u64,
            ));
            assert(self.reserved() =~= old(self).reserved());
        }
    }

    /// Records `new_size` in the header and flushes the header. The size is
    /// recorded whether or not the flush succeeds.
    pub fn store_storage_size(&mut self, new_size: usize) -> (r: Result<(), Error>)
        requires
            old(self).wf(),
        ensures
            final(self).wf(),
            final(self).stored_size() == new_size,
            final(self).reserved() == old(self).reserved(),
            r matches Err(e) ==> e is Flush,
    {
        self.put(new_size);
        self.flush()
    }

    fn flush(&self) -> (r: Result<(), Error>)
        ensures
            r matches Err(e) ==> e is Flush,
    {
        match flush_map(&self.mmap) {
            Ok(()) => Ok(()),
            Err(e) => Err(Error::Flush(e)),
        }
    }
}

/// The writable map at the end of a stream.
struct ActiveMmap {
    len: usize,
    mmap: MmapMut,
    bounds: SingleMmapIndex,
}

/// A map that was filled and gave way to a new one: read-only now, or,
/// where it could not be made read-only, a copy of what was written to it.
enum Retired {
    Frozen(SharedMmap),
    Copied(Vec<u8>),
}

impl Retired {
    /// The bytes that the map held when it was retired.
    spec fn bytes(&self) -> Seq<u8> {
        match self {
            Retired::Frozen(map) => map@,
            Retired::Copied(copy) => copy@,
        }
    }

    spec fn wf(&self) -> bool {
        match self {
            Retired::Frozen(map) => map.wf(),
            Retired::Copied(_) => true,
        }
    }

    fn len(&self) -> (r: usize)
        requires
            self.wf(),
        ensures
            r == self.bytes().len(),
    {
        match self {
            Retired::Frozen(map) => map.len(),
            Retired::Copied(copy) => copy.len(),
        }
    }

    /// A copy of the bytes from `from` up to `to`.
    fn read(&self, from: usize, to: usize) -> (r: Vec<u8>)
        requires
            self.wf(),
            from <= to <= self.bytes().len(),
        ensures
            r@ == self.bytes().subrange(from as int, to as int),
    {
        match self {
            Retired::Frozen(map) => {
                let r = map.slice(Edge::Included(from), Edge::Excluded(to)).to_vec();
                assert(r@ =~= self.bytes().subrange(from as int, to as int));
                r
            },
            Retired::Copied(copy) => slice_to_vec(slice_subrange(copy.as_slice(), from, to)),
        }
    }
}

/// The maps that were filled and retired, and where each of them lies.
struct InactiveMmaps {
    index: IndexOnMmaps,
    maps: Vec<Retired>,
}

/// What is left of a writable map that gives way to a new one: its room,
/// its bounds, a copy of what was written to it, and what came of making it
/// read-only.
struct Retiring {
    len: usize,
    bounds: SingleMmapIndex,
    copy: Vec<u8>,
    frozen: Result<Mmap, io::Error>,
}

/// An append that is ready to be counted: its bytes are written and flushed
/// and the header records them, but the stream does not show them yet.
pub struct Prepared {
    add: usize,
    data: Ghost<Seq<u8>>,
    fresh: Option<MmapMut>,
    retiring: Option<Retiring>,
}

impl Prepared {
    /// The bytes of the append.
    pub closed spec fn data(&self) -> Seq<u8> {
        self.data@
    }
}

/// `flush_map`, with the cause of a failure put into the error of the store.
fn flushed(map: &MmapMut) -> (r: Result<(), Error>)
    ensures
        r matches Err(e) ==> e is Flush,
{
    match flush_map(map) {
        Ok(()) => Ok(()),
        Err(e) => Err(Error::Flush(e)),
    }
}

/// The map that a stream needs before it can take an append.
#[derive(Debug, Clone, Copy, PartialEq, Eq, Structural)]
pub struct MappingRequest {
    /// The length of the map.
    pub len: usize,
    /// Where in the file the map begins.
    pub offset: u64,
}

/// Whether `fresh` is what a stream needs for an append of `add` bytes:
/// nothing where the bytes fit into the writable map, else a map of the
/// length that the growth asks for.
pub open spec fn suits(stream: StreamView, add: int, fresh: Option<MmapMut>) -> bool {
    match fresh {
        Some(map) => !stream.has_room(add) && writable_bytes(map).len() == stream.next_capacity(add),
        None => stream.has_room(add),
    }
}

/// The error of a result, if it is one.
pub open spec fn failure<T>(r: Result<T, Error>) -> Option<Error> {
    match r {
        Ok(_) => None,
        Err(e) => Some(e),
    }
}

/// What an append of `data` with the map `fresh` does to a stream.
///
/// An append that succeeds grows the stream by `data`. An append that fails
/// leaves the bytes of the stream and its segments as they were, so the
/// stream never gets shorter:
/// - a map that does not suit is refused with `Mmap`;
/// - a flush that fails ends the append with `Flush`;
/// - where the writable map cannot be made read-only the append ends with
///   `Protect`. The stream then keeps a copy of what was written to that
///   map, and has no writable map any more.
pub open spec fn append_outcome(
    before: StreamView,
    data: Seq<u8>,
    fresh: Option<MmapMut>,
    failed: Option<Error>,
    after: StreamView,
) -> bool {
    match failed {
        None => suits(before, data.len() as int, fresh) && after == before.grown(data),
        Some(e) => {
            &&& after.contents == before.contents
            &&& after.cuts == before.cuts
            &&& after.file_backed == before.file_backed
            &&& if e is Mmap {
                !suits(before, data.len() as int, fresh) && after.capacity == before.capacity
            } else if e is Protect {
                &&& suits(before, data.len() as int, fresh)
                &&& fresh is Some
                &&& before.capacity is Some
                &&& after.capacity is None
            } else {
                &&& e is Flush
                &&& suits(before, data.len() as int, fresh)
                &&& after.capacity == before.capacity
            }
        },
    }
}

/// A stream that has a writable map at its end and a tail of frozen maps.
/// An append that fits goes into the writable map. For one that does not,
/// the writable map is frozen and joins the tail, and a new map of twice the
/// room, or of the size of the append if that is more, becomes the writable
/// one.
pub struct GrowableMmap {
    header: StorageHeader,
    inactive_mmaps: InactiveMmaps,
    active_map: Option<ActiveMmap>,
    file_backed: bool,
    contents: Ghost<Seq<u8>>,
}

impl View for GrowableMmap {
    type V = StreamView;

    closed spec fn view(&self) -> StreamView {
        StreamView {
            contents: self.contents@,
            cuts: Seq::new(
                self.inactive_mmaps.maps@.len() + (if self.active_map is Some {
                    1nat
                } else {
                    0nat
                }),
                |k: int|
                    if k < self.inactive_mmaps.maps@.len() {
                        self.inactive_mmaps.index.maps()[k].spec_last_global_index()
                    } else {
                        self.contents@.len() as int
                    },
            ),
            capacity: match self.active_map {
                Some(active) => Some(active.len as int),
                None => None,
            },
            file_backed: self.file_backed,
        }
    }
}

impl GrowableMmap {
    /// Frozen map `k` shows the bytes of the stream that the index gives it.
    spec fn frozen_ok(&self, k: int) -> bool {
        let place = self.inactive_mmaps.index.maps()[k];
        &&& self.inactive_mmaps.maps@[k].wf()
        &&& place.origin() < place.spec_last_global_index() <= self.contents@.len()
        &&& self.inactive_mmaps.maps@[k].bytes() == self.contents@.subrange(
            place.origin(),
            place.spec_last_global_index(),
        )
    }

    /// The header records the length of the stream, the retired maps show
    /// its beginning and the written part of the writable map shows the rest.
    pub closed spec fn wf(&self) -> bool {
        &&& self.sound()
        &&& self.header.stored_size() == self.contents@.len()
    }

    /// The maps show the bytes of the stream. The header may record another
    /// length, as it does while an append is under way.
    spec fn sound(&self) -> bool {
        &&& self.header.wf()
        &&& self.contents@.len() <= usize::MAX
        &&& self.inactive_mmaps.index.wf()
        &&& self.inactive_mmaps.index.maps().len() == self.inactive_mmaps.maps@.len()
        &&& forall|k: int| 0 <= k < self.inactive_mmaps.maps@.len() ==> self.frozen_ok(k)
        &&& match self.active_map {
            Some(active) => {
                let written = active.bounds.spec_current_mmap_size();
                &&& active.bounds.wf()
                &&& active.bounds.origin() == self.inactive_mmaps.index.spec_memory_size()
                &&& 0 < written <= active.len
                &&& active.len == writable_bytes(active.mmap).len()
                &&& self.contents@.len() == active.bounds.origin() + written
                &&& writable_bytes(active.mmap).subrange(0, written) == self.contents@.subrange(
                    active.bounds.origin(),
                    self.contents@.len() as int,
                )
            },
            None => self.contents@.len() == self.inactive_mmaps.index.spec_memory_size(),
        }
    }

    /// A well-formed stream has a well-formed view.
    pub proof fn lemma_view_wf(&self)
        requires
            self.wf(),
        ensures
            self@.wf(),
    {
        self.lemma_sound_view();
    }

    /// The view is well formed whatever the header records.
    proof fn lemma_sound_view(&self)
        requires
            self.sound(),
        ensures
            self@.wf(),
    {
        let v = self@;
        let index = self.inactive_mmaps.index;
        let frozen = self.inactive_mmaps.maps@.len() as int;
        assert forall|i: int, j: int| 0 <= i < j < v.cuts.len() implies v.cuts[i] < v.cuts[j] by {
            assert(self.frozen_ok(i));
            if j < frozen {
                assert(self.frozen_ok(j));
                index.lemma_ends_ordered(i, j - 1);
            } else {
                index.lemma_ends_ordered(i, frozen - 1);
            }
        }
        if v.cuts.len() > 0 && frozen > 0 {
            assert(self.frozen_ok(0));
        }
        if frozen > 0 {
            assert(self.frozen_ok(frozen - 1));
        }
    }

    /// The part of a file of `file_len` bytes that holds the bytes of its
    /// stream: what the header counts, behind the header. What the file
    /// holds behind that is room that was never counted and is left out. A
    /// file that is shorter than its header says is damaged.
    pub fn existing_mapping(header: &StorageHeader, file_len: u64) -> (r: Result<
        Option<MappingRequest>,
        Error,
    >)
        requires
            header.wf(),
        ensures
            match r {
                Ok(request) => {
                    &&& HEADER_SIZE + header.stored_size() <= file_len
                    &&& request == (if file_len > HEADER_SIZE {
                        Some(
                            MappingRequest {
                                len: header.stored_size() as usize,
                                offset: HEADER_SIZE as u64,
                            },
                        )
                    } else {
                        None
                    })
                },
                Err(e) => {
                    ||| e is ReadHeader && header.stored_size() > usize::MAX
                    ||| e is DataFileDamaged && header.stored_size() <= usize::MAX && file_len
                        < HEADER_SIZE + header.stored_size()
                },
            },
    {
        let size: usize = match header.load_storage_size() {
            Ok(size) => size,
            Err(e) => {
                return Err(e);
            },
        };
        if file_len < HEADER_SIZE as u64 || file_len - (HEADER_SIZE as u64) < size as u64 {
            return Err(Error::DataFileDamaged);
        }
        if file_len > HEADER_SIZE as u64 {
            Ok(Some(MappingRequest { len: size, offset: HEADER_SIZE as u64 }))
        } else {
            Ok(None)
        }
    }

    /// The stream that begins with the bytes of `existing`, which the header
    /// must account for exactly. The stream is file-backed.
    pub fn new(header: StorageHeader, existing: Option<Mmap>) -> (r: Result<GrowableMmap, Error>)
        requires
            header.wf(),
        ensures
            match r {
                Ok(stream) => {
                    let bytes = match existing {
                        Some(map) => frozen_bytes(map),
                        None => Seq::empty(),
                    };
                    &&& stream.wf()
                    &&& header.stored_size() == bytes.len()
                    &&& stream@ == StreamView::opened(bytes)
                },
                Err(e) => {
                    ||| e is ReadHeader && header.stored_size() > usize::MAX
                    ||| e is DataFileDamaged && header.stored_size() != (match existing {
                        Some(map) => frozen_bytes(map).len(),
                        None => 0,
                    })
                },
            },
    {
        let size: usize = match header.load_storage_size() {
            Ok(size) => size,
            Err(e) => {
                return Err(e);
            },
        };
        let mut index = IndexOnMmaps::new();
        let mut maps: Vec<Retired> = Vec::new();
        let ghost mut contents: Seq<u8> = Seq::empty();
        match existing {
            Some(map) => {
                if frozen_len(&map) != size {
                    return Err(Error::DataFileDamaged);
                }
                if size > 0 {
                    let shared = SharedMmap::new(map);
                    let mut place = SingleMmapIndex::new(0);
                    place.append(shared.len());
                    index.add_mmap(place);
                    maps.push(Retired::Frozen(shared));
                    proof {
                        contents = frozen_bytes(map);
                        assert(shared@ =~= contents.subrange(0, size as int));
                    }
                }
            },
            None => {
                if size != 0 {
                    return Err(Error::DataFileDamaged);
                }
            },
        }
        let stream = GrowableMmap {
            header,
            inactive_mmaps: InactiveMmaps { index, maps },
            active_map: None,
            file_backed: true,
            contents: Ghost(contents),
        };
        proof {
            assert forall|k: int| 0 <= k < stream.inactive_mmaps.maps@.len() implies stream.frozen_ok(
                k,
            ) by {}
            assert(stream@.cuts =~= (if contents.len() > 0 {
                seq![contents.len() as int]
            } else {
                Seq::empty()
            }));
            assert(stream@.contents =~= (match existing {
                Some(map) => frozen_bytes(map),
                None => Seq::empty(),
            }));
        }
        Ok(stream)
    }

    /// An empty stream in anonymous memory.
    pub fn memory() -> (r: Result<GrowableMmap, Error>)
        ensures
            match r {
                Ok(stream) => stream.wf() && stream@ == StreamView::empty(false),
                Err(e) => e is Mmap || e is Flush,
            },
    {
        let header = match StorageHeader::memory() {
            Ok(header) => header,
            Err(e) => {
                return Err(e);
            },
        };
        let stream = GrowableMmap {
            header,
            inactive_mmaps: InactiveMmaps { index: IndexOnMmaps::new(), maps: Vec::new() },
            active_map: None,
            file_backed: false,
            contents: Ghost(Seq::empty()),
        };
        assert(stream@.cuts =~= Seq::<int>::empty());
        Ok(stream)
    }

    /// The number of committed bytes, as the header records it.
    pub fn data_size(&self) -> (r: Result<usize, Error>)
        requires
            self.wf(),
        ensures
            r matches Ok(size) && size == self@.len(),
    {
        self.header.load_storage_size()
    }

    /// The number of bytes in the stream.
    pub fn memory_size(&self) -> (r: usize)
        requires
            self.wf(),
        ensures
            r == self@.len(),
    {
        self.length()
    }

    /// The number of bytes in the stream, whatever the header records.
    fn length(&self) -> (r: usize)
        requires
            self.sound(),
        ensures
            r == self.contents@.len(),
    {
        let frozen = self.inactive_mmaps.index.memory_size();
        match &self.active_map {
            Some(active) => frozen + active.bounds.current_mmap_size(),
            None => frozen,
        }
    }

    /// Whether the maps of the stream are maps of a file.
    pub fn is_file_backed(&self) -> (r: bool)
        ensures
            r == self@.file_backed,
    {
        self.file_backed
    }

    /// The length of the map that an append of `add` bytes needs, if it
    /// does not fit into the writable map.
    pub fn get_new_mmap_size(&self, add: usize) -> (r: Option<usize>)
        requires
            self.wf(),
        ensures
            r == (if self@.has_room(add as int) {
                None
            } else {
                Some(self@.next_capacity(add as int) as usize)
            }),
            r matches Some(len) ==> len == self@.next_capacity(add as int),
    {
        let least: usize = match &self.active_map {
            Some(active) => {
                if add <= active.len - active.bounds.current_mmap_size() {
                    return None;
                }
                if active.len <= usize::MAX / 2 {
                    active.len * 2
                } else {
                    usize::MAX
                }
            },
            None => if self.file_backed {
                INITIAL_CAPACITY
            } else {
                0
            },
        };
        if add < least {
            Some(least)
        } else {
            Some(add)
        }
    }

    /// The map that the stream needs before it can take `add` more bytes,
    /// with the place in the file at which it begins: behind the header and
    /// the bytes of the stream.
    pub fn mapping_needed(&self, add: usize) -> (r: Option<MappingRequest>)
        requires
            self.wf(),
            HEADER_SIZE + self@.len() <= u64::MAX,
        ensures
            r == (if self@.has_room(add as int) {
                None
            } else {
                Some(
                    MappingRequest {
                        len: self@.next_capacity(add as int) as usize,
                        offset: (HEADER_SIZE + self@.len()) as u64,
                    },
                )
            }),
    {
        match self.get_new_mmap_size(add) {
            Some(len) => Some(
                MappingRequest { len, offset: HEADER_SIZE as u64 + self.memory_size() as u64 },
            ),
            None => None,
        }
    }

    /// A map in anonymous memory for an append of `add` bytes, if the stream
    /// needs one. A stream on a file is refused one: its maps are maps of the
    /// file, which `mapping_needed` asks for.
    pub fn create_mmap(&self, add: usize) -> (r: Result<Option<MmapMut>, Error>)
        requires
            self.wf(),
        ensures
            match r {
                Ok(fresh) => suits(self@, add as int, fresh) && (fresh is Some
                    ==> !self@.file_backed),
                Err(e) => e is Mmap && !self@.has_room(add as int),
            },
            self@.has_room(add as int) ==> r is Ok,
            !self@.has_room(add as int) && self@.file_backed ==> r is Err,
    {
        match self.get_new_mmap_size(add) {
            Some(len) => {
                if self.file_backed {
                    return Err(Error::Mmap(unsuitable()));
                }
                match map_anonymous(len) {
                    Ok(map) => Ok(Some(map)),
                    Err(e) => Err(Error::Mmap(e)),
                }
            },
            None => Ok(None),
        }
    }

    /// Whether `fresh` is what the stream needs for an append of `add` bytes.
    pub fn accepts(&self, add: usize, fresh: &Option<MmapMut>) -> (r: bool)
        requires
            self.wf(),
        ensures
            r == suits(self@, add as int, *fresh),
    {
        match self.get_new_mmap_size(add) {
            Some(len) => match fresh {
                Some(map) => writable_len(map) == len,
                None => false,
            },
            None => fresh.is_none(),
        }
    }

    /// Appends `data`, in the writable map where it fits and else in
    /// `fresh`, which then becomes the writable map while the old one is
    /// retired. The bytes are flushed before the header and the stream count
    /// them. See `append_outcome`.
    pub fn grow_and_apply(&mut self, data: &[u8], fresh: Option<MmapMut>) -> (r: Result<(), Error>)
        requires
            old(self).wf(),
            data@.len() > 0,
            old(self)@.len() + data@.len() <= usize::MAX,
        ensures
            final(self).wf(),
            append_outcome(old(self)@, data@, fresh, failure(r), final(self)@),
    {
        match self.prepare(data, fresh) {
            Ok(ready) => {
                self.commit(ready);
                Ok(())
            },
            Err(e) => Err(e),
        }
    }

    /// An append of the bytes of `ready` is under way in this stream: all
    /// that can fail is done, and what is left is to count the bytes.
    pub closed spec fn pending(&self, ready: Prepared) -> bool {
        &&& ready.add == ready.data@.len()
        &&& ready.add > 0
        &&& self.contents@.len() + ready.add <= usize::MAX
        &&& self.header.stored_size() == self.contents@.len() + ready.add
        &&& match ready.fresh {
            None => {
                &&& ready.retiring is None
                &&& self.sound()
                &&& self.holds_staged(ready.data@)
            },
            Some(map) => {
                &&& self.awaiting(ready.retiring)
                &&& !(ready.retiring matches Some(left) && left.frozen is Err)
                &&& ready.add <= writable_bytes(map).len() <= usize::MAX
                &&& writable_bytes(map).len() == self.prior(ready.retiring).next_capacity(
                    ready.add as int,
                )
                &&& !self.prior(ready.retiring).has_room(ready.add as int)
                &&& writable_bytes(map).subrange(0, ready.add as int) == ready.data@
            },
        }
    }

    /// The stream as it was when the append of `ready` began.
    pub closed spec fn began(&self, ready: Prepared) -> StreamView {
        match ready.fresh {
            None => self@,
            Some(_) => self.prior(ready.retiring),
        }
    }

    /// Does all of an append that can fail: refuses a map that does not
    /// suit, writes `data` into the writable map or into `fresh`, flushes
    /// the bytes, tells the header and flushes it, and retires the writable
    /// map that gives way to `fresh`. On failure the stream is left as
    /// `append_outcome` says. On success the append is ready: the stream
    /// still shows what it showed, and `commit` or `abort` ends the append.
    pub(crate) fn prepare(&mut self, data: &[u8], fresh: Option<MmapMut>) -> (r: Result<
        Prepared,
        Error,
    >)
        requires
            old(self).wf(),
            data@.len() > 0,
            old(self)@.len() + data@.len() <= usize::MAX,
        ensures
            match r {
                Ok(ready) => {
                    &&& final(self).pending(ready)
                    &&& final(self).began(ready) == old(self)@
                    &&& ready.data() == data@
                    &&& suits(old(self)@, data@.len() as int, fresh)
                },
                Err(e) => {
                    &&& final(self).wf()
                    &&& append_outcome(old(self)@, data@, fresh, Some(e), final(self)@)
                },
            },
    {
        if !self.accepts(data.len(), &fresh) {
            return Err(Error::Mmap(unsuitable()));
        }
        let add: usize = data.len();
        let size: usize = self.memory_size();
        proof {
            self.lemma_view_wf();
        }
        match fresh {
            None => {
                self.stage_in_place(data);
                let flushed = self.flush_active();
                if let Err(e) = self.record(add, flushed, Ok(())) {
                    return Err(e);
                }
                let stored = self.header.flush();
                if let Err(e) = self.settle_header(size, stored) {
                    return Err(e);
                }
                Ok(Prepared { add, data: Ghost(data@), fresh: None, retiring: None })
            },
            Some(map) => {
                let mut map = map;
                write_at(&mut map, 0, add, data);
                assert(writable_bytes(map).subrange(0, add as int) =~= data@);
                let fresh_flushed = flushed(&map);
                let active_flushed = self.flush_active();
                if let Err(e) = self.record(add, fresh_flushed, active_flushed) {
                    return Err(e);
                }
                let stored = self.header.flush();
                if let Err(e) = self.settle_header(size, stored) {
                    return Err(e);
                }
                let retiring = self.retire();
                let lost: bool = match &retiring {
                    Some(left) => left.frozen.is_err(),
                    None => false,
                };
                if lost {
                    return Err(self.settle_lost(retiring));
                }
                Ok(Prepared { add, data: Ghost(data@), fresh: Some(map), retiring })
            },
        }
    }

    /// Counts the bytes of an append that is ready. Nothing in it can fail.
    pub(crate) fn commit(&mut self, ready: Prepared)
        requires
            old(self).pending(ready),
        ensures
            final(self).wf(),
            final(self)@ == old(self).began(ready).grown(ready.data()),
    {
        match ready.fresh {
            None => {
                proof {
                    self.lemma_sound_view();
                }
                self.commit_in_place(ready.add, ready.data);
            },
            Some(map) => {
                self.install(ready.add, ready.data, map, ready.retiring);
            },
        }
    }

    /// Gives up an append that is ready: the header is told the old length
    /// again, and the stream holds what it held when the append began. The
    /// writable map that was retired for the append stays retired.
    pub(crate) fn abort(&mut self, ready: Prepared)
        requires
            old(self).pending(ready),
        ensures
            final(self).wf(),
            final(self)@.holds_what(old(self).began(ready)),
    {
        match ready.fresh {
            None => {
                let ghost before: GrowableMmap = *self;
                let size: usize = self.length();
                self.header.put(size);
                proof {
                    Self::lemma_sound_of(before, *self);
                }
            },
            Some(_) => {
                let _ = self.keep(ready.retiring);
                let ghost mid: GrowableMmap = *self;
                let size: usize = self.length();
                self.header.put(size);
                proof {
                    Self::lemma_sound_of(mid, *self);
                }
            },
        }
    }

    /// Flushes the writable map, if there is one. Without a writable map
    /// there is nothing to flush, and the call succeeds.
    fn flush_active(&self) -> (r: Result<(), Error>)
        ensures
            self@.capacity is None ==> r is Ok,
            r matches Err(e) ==> e is Flush,
    {
        match &self.active_map {
            Some(active) => match flush_map(&active.mmap) {
                Ok(()) => Ok(()),
                Err(e) => Err(Error::Flush(e)),
            },
            None => Ok(()),
        }
    }

    /// The writable map holds `data` behind what was written to it and
    /// counted.
    spec fn holds_staged(&self, data: Seq<u8>) -> bool {
        &&& self.active_map matches Some(active)
        &&& active.bounds.spec_current_mmap_size() + data.len() <= active.len
        &&& writable_bytes(active.mmap).subrange(
            active.bounds.spec_current_mmap_size(),
            active.bounds.spec_current_mmap_size() + data.len(),
        ) == data
    }

    /// Writes `data` into the room of the writable map. The bytes are not
    /// counted yet, and the stream is as it was.
    fn stage_in_place(&mut self, data: &[u8])
        requires
            old(self).wf(),
            old(self)@.has_room(data@.len() as int),
        ensures
            final(self).wf(),
            final(self)@ == old(self)@,
            final(self).holds_staged(data@),
    {
        let add: usize = data.len();
        let mut active: ActiveMmap = self.active_map.take().unwrap();
        let written: usize = active.bounds.current_mmap_size();
        let ghost before = writable_bytes(active.mmap);
        write_at(&mut active.mmap, written, written + add, data);
        proof {
            assert(writable_bytes(active.mmap).subrange(0, written as int) =~= before.subrange(
                0,
                written as int,
            ));
            assert(writable_bytes(active.mmap).subrange(written as int, written + add) =~= data@);
        }
        self.active_map = Some(active);
        proof {
            assert forall|k: int|
                0 <= k < self.inactive_mmaps.maps@.len() implies self.frozen_ok(k) by {
                assert(old(self).frozen_ok(k));
            }
            assert(self@.cuts =~= old(self)@.cuts);
        }
    }

    /// Takes the outcome of the flushes of the bytes of an append of `add`
    /// bytes. Where one of them failed, the append ends with that failure
    /// and the stream is as it was. Where both succeeded, the header is told
    /// the new length, which the stream does not count yet.
    fn record(&mut self, add: usize, first: Result<(), Error>, second: Result<(), Error>) -> (r:
        Result<(), Error>)
        requires
            old(self).wf(),
            old(self).contents@.len() + add <= usize::MAX,
            first matches Err(e) ==> e is Flush,
            second matches Err(e) ==> e is Flush,
        ensures
            final(self).sound(),
            final(self).inactive_mmaps == old(self).inactive_mmaps,
            final(self).active_map == old(self).active_map,
            final(self).file_backed == old(self).file_backed,
            final(self).contents == old(self).contents,
            if first is Ok && second is Ok {
                r is Ok && final(self).header.stored_size() == old(self).contents@.len() + add
            } else {
                &&& r matches Err(e)
                &&& e is Flush
                &&& final(self).wf()
            },
    {
        proof {
            Self::lemma_sound_of(*old(self), *old(self));
        }
        match first {
            Ok(()) => match second {
                Ok(()) => {
                    let size: usize = self.memory_size();
                    self.header.put(size + add);
                    proof {
                        Self::lemma_sound_of(*old(self), *self);
                    }
                    Ok(())
                },
                Err(e) => Err(e),
            },
            Err(e) => Err(e),
        }
    }

    /// Takes the outcome of the flush of the header after it was told a new
    /// length. Where it failed, the header is told the old length of `size`
    /// bytes again, the append ends with that failure and the stream is as
    /// it was.
    fn settle_header(&mut self, size: usize, stored: Result<(), Error>) -> (r: Result<(), Error>)
        requires
            old(self).sound(),
            size == old(self).contents@.len(),
            stored matches Err(e) ==> e is Flush,
        ensures
            final(self).sound(),
            final(self).inactive_mmaps == old(self).inactive_mmaps,
            final(self).active_map == old(self).active_map,
            final(self).file_backed == old(self).file_backed,
            final(self).contents == old(self).contents,
            match stored {
                Ok(()) => r is Ok && final(self).header.stored_size() == old(
                    self,
                ).header.stored_size(),
                Err(_) => {
                    &&& r matches Err(e)
                    &&& e is Flush
                    &&& final(self).wf()
                },
            },
    {
        match stored {
            Ok(()) => Ok(()),
            Err(e) => {
                self.header.put(size);
                proof {
                    Self::lemma_sound_of(*old(self), *self);
                }
                Err(e)
            },
        }
    }

    /// A stream that differs from a sound one in its header alone is sound.
    proof fn lemma_sound_of(before: GrowableMmap, after: GrowableMmap)
        requires
            before.sound(),
            after.header.wf(),
            after.inactive_mmaps == before.inactive_mmaps,
            after.active_map == before.active_map,
            after.file_backed == before.file_backed,
            after.contents == before.contents,
        ensures
            after.sound(),
            after@ == before@,
    {
        assert forall|k: int| 0 <= k < after.inactive_mmaps.maps@.len() implies after.frozen_ok(
            k,
        ) by {
            assert(before.frozen_ok(k));
        }
        assert(after@.cuts =~= before@.cuts);
    }

    /// Counts the bytes that were written into the room of the writable map,
    /// once they are flushed and the header records them.
    #[verifier::rlimit(50)]
    fn commit_in_place(&mut self, add: usize, data: Ghost<Seq<u8>>)
        requires
            old(self).sound(),
            old(self).holds_staged(data@),
            add == data@.len(),
            data@.len() > 0,
            old(self).header.stored_size() == old(self).contents@.len() + data@.len(),
            old(self).contents@.len() + data@.len() <= usize::MAX,
        ensures
            final(self).wf(),
            final(self)@ == old(self)@.grown(data@),
    {
        proof {
            self.lemma_sound_view();
        }
        let mut active: ActiveMmap = self.active_map.take().unwrap();
        let written: usize = active.bounds.current_mmap_size();
        let ghost size = self.contents@.len() as int;
        active.bounds.append(written + add);
        self.contents = Ghost(self.contents@ + data@);
        self.active_map = Some(active);
        proof {
            let origin = active.bounds.origin();
            let bytes = writable_bytes(active.mmap);
            assert(bytes.subrange(0, written + add) =~= bytes.subrange(0, written as int)
                + bytes.subrange(written as int, written + add));
            assert(self.contents@.subrange(origin, size + add) =~= old(self).contents@.subrange(
                origin,
                size,
            ) + data@);
            assert forall|k: int|
                0 <= k < self.inactive_mmaps.maps@.len() implies self.frozen_ok(k) by {
                assert(old(self).frozen_ok(k));
                let place = self.inactive_mmaps.index.maps()[k];
                assert(self.contents@.subrange(place.origin(), place.spec_last_global_index())
                    =~= old(self).contents@.subrange(
                    place.origin(),
                    place.spec_last_global_index(),
                ));
            }
            assert(self@.cuts =~= old(self)@.grown(data@).cuts);
        }
    }

    /// The stream has given up its writable map, of which `retiring` is
    /// left, and holds the maps that were retired before.
    spec fn awaiting(&self, retiring: Option<Retiring>) -> bool {
        &&& self.header.wf()
        &&& self.contents@.len() <= usize::MAX
        &&& self.inactive_mmaps.index.wf()
        &&& self.inactive_mmaps.index.maps().len() == self.inactive_mmaps.maps@.len()
        &&& forall|k: int| 0 <= k < self.inactive_mmaps.maps@.len() ==> self.frozen_ok(k)
        &&& self.active_map is None
        &&& match retiring {
            Some(left) => {
                let written = left.bounds.spec_current_mmap_size();
                &&& left.bounds.wf()
                &&& left.bounds.origin() == self.inactive_mmaps.index.spec_memory_size()
                &&& 0 < written <= left.len
                &&& self.contents@.len() == left.bounds.origin() + written
                &&& left.copy@ == self.contents@.subrange(
                    left.bounds.origin(),
                    self.contents@.len() as int,
                )
                &&& left.frozen matches Ok(map) ==> {
                    &&& frozen_bytes(map).len() == left.len
                    &&& frozen_bytes(map).subrange(0, written) == left.copy@
                }
            },
            None => self.contents@.len() == self.inactive_mmaps.index.spec_memory_size(),
        }
    }

    /// The stream as it was before it gave up its writable map.
    spec fn prior(&self, retiring: Option<Retiring>) -> StreamView {
        StreamView {
            contents: self.contents@,
            cuts: match retiring {
                Some(_) => self@.cuts.push(self.contents@.len() as int),
                None => self@.cuts,
            },
            capacity: match retiring {
                Some(left) => Some(left.len as int),
                None => None,
            },
            file_backed: self.file_backed,
        }
    }

    /// Takes the writable map out of the stream, copies what was written to
    /// it and asks for it to be made read-only.
    fn retire(&mut self) -> (r: Option<Retiring>)
        requires
            old(self).sound(),
        ensures
            final(self).awaiting(r),
            final(self).prior(r) == old(self)@,
            final(self).header == old(self).header,
            final(self).contents == old(self).contents,
    {
        let r = match self.active_map.take() {
            Some(active) => {
                let written: usize = active.bounds.current_mmap_size();
                let copy = read_writable(&active.mmap, 0, written);
                let frozen = freeze(active.mmap);
                Some(Retiring { len: active.len, bounds: active.bounds, copy, frozen })
            },
            None => None,
        };
        proof {
            assert forall|k: int|
                0 <= k < self.inactive_mmaps.maps@.len() implies self.frozen_ok(k) by {
                assert(old(self).frozen_ok(k));
            }
            assert(self.prior(r).cuts =~= old(self)@.cuts);
        }
        r
    }

    /// Puts what is left of the retired map among the maps that were filled:
    /// the read-only map, or the copy where the map could not be made
    /// read-only, and then the cause of that is returned.
    fn keep(&mut self, retiring: Option<Retiring>) -> (failed: Option<io::Error>)
        requires
            old(self).awaiting(retiring),
        ensures
            final(self).sound(),
            final(self).active_map is None,
            final(self).header == old(self).header,
            final(self).contents == old(self).contents,
            final(self).file_backed == old(self).file_backed,
            final(self)@ == old(self).prior(retiring).retired(),
            failed is Some <==> (retiring matches Some(left) && left.frozen is Err),
    {
        let ghost before = self.prior(retiring);
        let ghost frozen_before = self.inactive_mmaps.maps@.len();
        let mut failed: Option<io::Error> = None;
        if let Some(left) = retiring {
            let written: usize = left.bounds.current_mmap_size();
            let kept = match left.frozen {
                Ok(map) => Retired::Frozen(
                    SharedMmap::new(map).slice(Edge::Unbounded, Edge::Excluded(written)),
                ),
                Err(e) => {
                    failed = Some(e);
                    Retired::Copied(left.copy)
                },
            };
            assert(kept.bytes() =~= self.contents@.subrange(
                left.bounds.origin(),
                self.contents@.len() as int,
            ));
            self.inactive_mmaps.index.add_mmap(left.bounds);
            self.inactive_mmaps.maps.push(kept);
            proof {
                assert forall|k: int|
                    0 <= k < self.inactive_mmaps.maps@.len() implies self.frozen_ok(k) by {
                    if k < frozen_before {
                        assert(old(self).frozen_ok(k));
                    }
                }
                assert(self@.cuts =~= before.cuts);
            }
        }
        proof {
            assert forall|k: int|
                0 <= k < self.inactive_mmaps.maps@.len() implies self.frozen_ok(k) by {
                if retiring is None {
                    assert(old(self).frozen_ok(k));
                }
            }
            assert(self@.cuts =~= before.cuts);
        }
        failed
    }

    /// Takes what is left of a retired map that could not be made read-only:
    /// the copy joins the maps that were filled, the header is told the old
    /// length again, and the append ends with the failure that is returned.
    /// The stream holds what it held and has no writable map any more.
    fn settle_lost(&mut self, retiring: Option<Retiring>) -> (e: Error)
        requires
            old(self).awaiting(retiring),
            retiring matches Some(left) && left.frozen is Err,
        ensures
            final(self).wf(),
            e is Protect,
            final(self)@ == old(self).prior(retiring).retired(),
    {
        let cause = self.keep(retiring).unwrap();
        let ghost mid: GrowableMmap = *self;
        let size: usize = self.length();
        self.header.put(size);
        proof {
            Self::lemma_sound_of(mid, *self);
        }
        Error::Protect(cause)
    }

    /// Takes what is left of a retired map that was made read-only, if one
    /// was retired, and counts the bytes of `data`, which `fresh` holds at
    /// its beginning: the retired map joins the maps that were filled, and
    /// `fresh` becomes the writable map.
    #[verifier::rlimit(50)]
    fn install(
        &mut self,
        add: usize,
        data: Ghost<Seq<u8>>,
        fresh: MmapMut,
        retiring: Option<Retiring>,
    )
        requires
            old(self).awaiting(retiring),
            !(retiring matches Some(left) && left.frozen is Err),
            add == data@.len(),
            data@.len() > 0,
            old(self).header.stored_size() == old(self).contents@.len() + data@.len(),
            old(self).contents@.len() + data@.len() <= usize::MAX,
            data@.len() <= writable_bytes(fresh).len() <= usize::MAX,
            writable_bytes(fresh).len() == old(self).prior(retiring).next_capacity(
                data@.len() as int,
            ),
            !old(self).prior(retiring).has_room(data@.len() as int),
            writable_bytes(fresh).subrange(0, data@.len() as int) == data@,
        ensures
            final(self).wf(),
            final(self)@ == old(self).prior(retiring).grown(data@),
    {
        let ghost before = self.prior(retiring);
        let _ = self.keep(retiring);
        let ghost mid: GrowableMmap = *self;
        let size: usize = self.length();
        let capacity: usize = writable_len(&fresh);
        let mut bounds = SingleMmapIndex::new(size);
        bounds.append(add);
        let ghost held = self.contents@;
        self.active_map = Some(ActiveMmap { len: capacity, mmap: fresh, bounds });
        self.contents = Ghost(self.contents@ + data@);
        proof {
            assert(self.contents@.subrange(size as int, size + add) =~= data@);
            assert forall|k: int|
                0 <= k < self.inactive_mmaps.maps@.len() implies self.frozen_ok(k) by {
                assert(mid.frozen_ok(k));
                let place = self.inactive_mmaps.index.maps()[k];
                assert(self.contents@.subrange(place.origin(), place.spec_last_global_index())
                    =~= held.subrange(place.origin(), place.spec_last_global_index()));
            }
            assert(self@.cuts =~= before.grown(data@).cuts);
        }
    }

    /// A copy of `length` bytes of the stream that start at `address`. The
    /// bytes must all lie in the map that holds `address`: no read crosses
    /// from one map into the next.
    pub fn get_ref_and_apply(&self, address: usize, length: usize) -> (r: Option<Vec<u8>>)
        requires
            self.wf(),
        ensures
            match r {
                Some(bytes) => self@.read(address as int, length as int) == Some(bytes@),
                None => self@.read(address as int, length as int) is None,
            },
    {
        proof {
            self.lemma_view_wf();
        }
        if address < self.inactive_mmaps.index.memory_size() {
            let found = match self.inactive_mmaps.index.find(address) {
                Some(found) => found,
                None => {
                    return None;
                },
            };
            let number: usize = found.mmap_number;
            let offset: usize = found.mmap_offset;
            proof {
                assert(self.frozen_ok(number as int));
                if number > 0 {
                    assert(self.frozen_ok(number - 1));
                }
                assert(self@.holds(number as int, address as int));
                self@.lemma_segment_unique(number as int, address as int);
            }
            let map = &self.inactive_mmaps.maps[number];
            if length > map.len() - offset {
                return None;
            }
            let bytes = map.read(offset, offset + length);
            assert(bytes@ =~= self@.contents.subrange(address as int, address + length));
            return Some(bytes);
        }
        match &self.active_map {
            None => None,
            Some(active) => {
                let found = match active.bounds.find(address) {
                    Some(found) => found,
                    None => {
                        return None;
                    },
                };
                let offset: usize = found.mmap_offset;
                let ghost last: int = self@.cuts.len() - 1;
                proof {
                    if last > 0 {
                        assert(self.frozen_ok(last - 1));
                    }
                    assert(self@.holds(last, address as int));
                    self@.lemma_segment_unique(last, address as int);
                }
                if length > active.bounds.current_mmap_size() - offset {
                    return None;
                }
                let bytes = read_writable(&active.mmap, offset, offset + length);
                assert(bytes@ =~= self@.contents.subrange(address as int, address + length)) by {
                    let written = active.bounds.spec_current_mmap_size();
                    assert(bytes@ =~= writable_bytes(active.mmap).subrange(0, written).subrange(
                        offset as int,
                        offset + length,
                    ));
                }
                Some(bytes)
            },
        }
    }
}

} // verus!
