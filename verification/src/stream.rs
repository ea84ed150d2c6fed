//! The model of a segmented byte stream.
//!
//! A stream is a run of bytes cut into segments. A read starts anywhere in
//! the stream and never crosses the end of the segment it starts in.

use vstd::prelude::*;

verus! {

/// The room that the first segment of a file-backed stream is given at least.
pub const INITIAL_CAPACITY: usize = 4096;

/// What a stream holds and how it is cut.
pub struct StreamView {
    /// All bytes of the stream, in the order in which they were written.
    pub contents: Seq<u8>,
    /// The address just behind each segment, in order.
    pub cuts: Seq<int>,
    /// The room of the writable segment, which is the last one, if there is one.
    pub capacity: Option<int>,
    /// Whether the segments are maps of a file.
    pub file_backed: bool,
}

impl StreamView {
    /// A stream without bytes.
    pub open spec fn empty(file_backed: bool) -> StreamView {
        StreamView { contents: Seq::empty(), cuts: Seq::empty(), capacity: None, file_backed }
    }

    /// The stream that a file holds when it is opened: all of its bytes in
    /// one read-only segment, and no writable segment yet.
    pub open spec fn opened(bytes: Seq<u8>) -> StreamView {
        StreamView {
            contents: bytes,
            cuts: if bytes.len() > 0 {
                seq![bytes.len() as int]
            } else {
                Seq::empty()
            },
            capacity: None,
            file_backed: true,
        }
    }

    /// The number of bytes in the stream.
    pub open spec fn len(self) -> int {
        self.contents.len() as int
    }

    /// The address at which segment `k` begins.
    pub open spec fn segment_start(self, k: int) -> int {
        if k <= 0 {
            0
        } else {
            self.cuts[k - 1]
        }
    }

    /// No segment is empty, the segments cover the bytes exactly, and what
    /// the writable segment holds fits in its room.
    pub open spec fn wf(self) -> bool {
        &&& forall|i: int, j: int| 0 <= i < j < self.cuts.len() ==> self.cuts[i] < self.cuts[j]
        &&& self.cuts.len() > 0 ==> self.cuts[0] > 0
        &&& self.len() == self.segment_start(self.cuts.len() as int)
        &&& self.len() <= usize::MAX
        &&& self.capacity matches Some(c) ==> self.cuts.len() > 0 && self.written() <= c
            <= usize::MAX
    }

    /// The number of bytes in the last segment.
    pub open spec fn written(self) -> int {
        self.len() - self.segment_start(self.cuts.len() - 1)
    }

    /// Whether `n` more bytes fit into the writable segment.
    pub open spec fn has_room(self, n: int) -> bool {
        self.capacity matches Some(c) && self.written() + n <= c
    }

    /// The room of the segment that is made when `n` bytes do not fit: twice
    /// the room of the writable segment, and at least `n`. The first segment
    /// of a stream in memory has room for `n` bytes and no more.
    pub open spec fn next_capacity(self, n: int) -> int {
        let least = match self.capacity {
            Some(c) => if 2 * c <= usize::MAX {
                2 * c
            } else {
                usize::MAX as int
            },
            None => if self.file_backed {
                INITIAL_CAPACITY as int
            } else {
                0
            },
        };
        if n < least {
            least
        } else {
            n
        }
    }

    /// The stream after `data` was appended: in the writable segment where
    /// it fits, in a new segment where it does not.
    pub open spec fn grown(self, data: Seq<u8>) -> StreamView {
        if self.has_room(data.len() as int) {
            StreamView {
                contents: self.contents + data,
                cuts: self.cuts.drop_last().push(self.len() + data.len()),
                capacity: self.capacity,
                file_backed: self.file_backed,
            }
        } else {
            StreamView {
                contents: self.contents + data,
                cuts: self.cuts.push(self.len() + data.len()),
                capacity: Some(self.next_capacity(data.len() as int)),
                file_backed: self.file_backed,
            }
        }
    }

    /// The stream once its writable segment has been retired: the same
    /// bytes in the same segments, and no room to write in place.
    pub open spec fn retired(self) -> StreamView {
        StreamView {
            contents: self.contents,
            cuts: self.cuts,
            capacity: None,
            file_backed: self.file_backed,
        }
    }

    /// Whether this stream holds what `before` held: the same bytes in the
    /// same segments. It has the room to write that `before` had, or none.
    pub open spec fn holds_what(self, before: StreamView) -> bool {
        &&& self.contents == before.contents
        &&& self.cuts == before.cuts
        &&& self.file_backed == before.file_backed
        &&& self.capacity == before.capacity || self.capacity is None
    }

    /// Whether segment `k` holds `address`.
    pub open spec fn holds(self, k: int, address: int) -> bool {
        0 <= k < self.cuts.len() && self.segment_start(k) <= address < self.cuts[k]
    }

    /// The end of the segment that holds `address`.
    pub open spec fn cut_above(self, address: int) -> int {
        self.cuts[choose|k: int| self.holds(k, address)]
    }

    /// What a read of `length` bytes at `address` gives: the bytes, where
    /// they all lie in the segment that holds `address`.
    pub open spec fn read(self, address: int, length: int) -> Option<Seq<u8>> {
        if 0 <= address < self.len() && 0 <= length && address + length <= self.cut_above(address) {
            Some(self.contents.subrange(address, address + length))
        } else {
            None
        }
    }

    /// Every address of the stream lies in exactly one segment.
    pub proof fn lemma_segment_unique(self, k: int, address: int)
        requires
            self.wf(),
            self.holds(k, address),
        ensures
            self.cut_above(address) == self.cuts[k],
            0 <= address < self.cut_above(address) <= self.len(),
    {
        let c = choose|c: int| self.holds(c, address);
        assert(self.holds(c, address));
        if c < k {
            assert(self.cuts[c] <= self.segment_start(k));
        } else if k < c {
            assert(self.cuts[k] <= self.segment_start(c));
        }
        assert(self.cuts[k] <= self.len());
    }

    /// An address below the length of the stream lies in some segment.
    pub proof fn lemma_segment_exists(self, address: int) -> (k: int)
        requires
            self.wf(),
            0 <= address < self.len(),
        ensures
            self.holds(k, address),
            self.cut_above(address) == self.cuts[k],
    {
        let k = self.first_cut_above(address, self.cuts.len() - 1);
        self.lemma_segment_unique(k, address);
        k
    }

    /// Walks down from segment `k`, whose end lies above `address`, to the
    /// segment that holds `address`.
    proof fn first_cut_above(self, address: int, k: int) -> (r: int)
        requires
            self.wf(),
            0 <= address,
            0 <= k < self.cuts.len(),
            address < self.cuts[k],
        ensures
            self.holds(r, address),
        decreases k,
    {
        if self.segment_start(k) <= address {
            k
        } else {
            self.first_cut_above(address, k - 1)
        }
    }

    /// A read that succeeds gives as many bytes as were asked for, all of
    /// them bytes of the stream.
    pub proof fn lemma_read_len(self, address: int, length: int)
        requires
            self.wf(),
            self.read(address, length) is Some,
        ensures
            self.read(address, length)->0.len() == length,
            0 <= address < self.len(),
            address + length <= self.cut_above(address) <= self.len(),
    {
        let k = self.lemma_segment_exists(address);
    }

    /// Appending keeps a stream well formed.
    pub proof fn lemma_grown_wf(self, data: Seq<u8>)
        requires
            self.wf(),
            data.len() > 0,
            self.len() + data.len() <= usize::MAX,
        ensures
            self.grown(data).wf(),
            self.grown(data).len() == self.len() + data.len(),
            self.grown(data).holds(self.grown(data).cuts.len() - 1, self.len()),
            self.grown(data).cut_above(self.len()) == self.len() + data.len(),
    {
        let g = self.grown(data);
        let last = g.cuts.len() - 1;
        assert(g.holds(last, self.len()));
        g.lemma_segment_unique(last, self.len());
    }

    /// Appending changes no read of the bytes that were there.
    pub proof fn lemma_grown_keeps_reads(self, data: Seq<u8>, address: int, length: int)
        requires
            self.wf(),
            data.len() > 0,
            self.len() + data.len() <= usize::MAX,
            self.read(address, length) is Some,
        ensures
            self.grown(data).read(address, length) == self.read(address, length),
    {
        let g = self.grown(data);
        self.lemma_grown_wf(data);
        let k = self.lemma_segment_exists(address);
        assert(g.holds(k, address));
        g.lemma_segment_unique(k, address);
        assert(g.contents.subrange(address, address + length) =~= self.contents.subrange(
            address,
            address + length,
        ));
    }

    /// A read inside the bytes that were appended last gives those bytes.
    pub proof fn lemma_grown_reads_new(self, data: Seq<u8>, from: int, length: int)
        requires
            self.wf(),
            data.len() > 0,
            self.len() + data.len() <= usize::MAX,
            0 <= from < data.len(),
            0 <= length,
            from + length <= data.len(),
        ensures
            self.grown(data).read(self.len() + from, length) == Some(
                data.subrange(from, from + length),
            ),
    {
        let g = self.grown(data);
        self.lemma_grown_wf(data);
        let last = g.cuts.len() - 1;
        assert(g.holds(last, self.len() + from));
        g.lemma_segment_unique(last, self.len() + from);
        assert(g.contents.subrange(self.len() + from, self.len() + from + length) =~= data.subrange(
            from,
            from + length,
        ));
    }

}

} // verus!
