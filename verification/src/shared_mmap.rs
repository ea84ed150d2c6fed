//! A shared window into a read-only memory map.

use vstd::prelude::*;
use memmap2::Mmap;
use std::sync::Arc;
use crate::mapping::{frozen_bytes, frozen_len, read_frozen, share};

verus! {

/// One end of a range of indices.
#[derive(Debug, Clone, Copy, PartialEq, Eq, Structural)]
pub enum Edge {
    /// The range reaches this index and holds it.
    Included(usize),
    /// The range reaches this index and leaves it out.
    Excluded(usize),
    /// The range reaches as far as the view does.
    Unbounded,
}

/// The first index of a range that starts at `start`.
pub open spec fn first_index(start: Edge) -> int {
    match start {
        Edge::Included(s) => s as int,
        Edge::Excluded(s) => s + 1,
        Edge::Unbounded => 0,
    }
}

/// The index just behind a range that ends at `end`, in a view of `len` bytes.
pub open spec fn end_index(end: Edge, len: int) -> int {
    match end {
        Edge::Included(e) => e + 1,
        Edge::Excluded(e) => e as int,
        Edge::Unbounded => len,
    }
}

/// Where the range from `start` to `end` begins once it is cut to a view of `len` bytes.
pub open spec fn window_low(len: int, start: Edge) -> int {
    if first_index(start) < len {
        first_index(start)
    } else {
        len
    }
}

/// Where the range from `start` to `end` stops once it is cut to a view of
/// `len` bytes. A range that ends before it begins is empty.
pub open spec fn window_high(len: int, start: Edge, end: Edge) -> int {
    let low = window_low(len, start);
    let high = if end_index(end, len) < len {
        end_index(end, len)
    } else {
        len
    };
    if high < low {
        low
    } else {
        high
    }
}

/// A view into a read-only memory map. Clones and sub-views share the map,
/// which lives as long as any of them.
#[derive(Debug)]
pub struct SharedMmap {
    mmap: Arc<Mmap>,
    start: usize,
    len: usize,
}

impl View for SharedMmap {
    type V = Seq<u8>;

    /// The bytes that the view shows.
    closed spec fn view(&self) -> Seq<u8> {
        frozen_bytes(*self.mmap).subrange(self.start as int, self.start + self.len)
    }
}

impl Clone for SharedMmap {
    /// One more view of the same bytes, on the same map.
    fn clone(&self) -> (r: SharedMmap)
        ensures
            r == *self,
            r.map() == self.map(),
    {
        SharedMmap { mmap: share(&self.mmap), start: self.start, len: self.len }
    }
}

impl SharedMmap {
    /// The map that the view looks into. Views of one map share it: each
    /// keeps it alive, and none holds bytes of its own.
    pub closed spec fn map(&self) -> Mmap {
        *self.mmap
    }

    /// The window lies inside the map.
    pub closed spec fn wf(&self) -> bool {
        self.start + self.len <= frozen_bytes(*self.mmap).len() <= usize::MAX
    }

    /// A view of the whole map.
    pub fn new(mmap: Mmap) -> (r: SharedMmap)
        ensures
            r.wf(),
            r.map() == mmap,
            r@ == frozen_bytes(mmap),
    {
        let len = frozen_len(&mmap);
        let r = SharedMmap { mmap: Arc::new(mmap), start: 0, len };
        assert(r@ =~= frozen_bytes(mmap));
        r
    }

    /// The number of bytes in the view.
    pub fn len(&self) -> (r: usize)
        requires
            self.wf(),
        ensures
            r == self@.len(),
    {
        self.len
    }

    /// Whether the view shows no byte.
    pub fn is_empty(&self) -> (r: bool)
        requires
            self.wf(),
        ensures
            r == (self@.len() == 0),
    {
        self.len == 0
    }

    /// The view cut down to the indices from `start` to `end`, as far as it
    /// holds them. It shares the map of this view.
    pub fn slice(&self, start: Edge, end: Edge) -> (r: SharedMmap)
        requires
            self.wf(),
        ensures
            r.wf(),
            r.map() == self.map(),
            r@ == self@.subrange(
                window_low(self@.len() as int, start),
                window_high(self@.len() as int, start, end),
            ),
    {
        let first: usize = match start {
            Edge::Included(s) => s,
            Edge::Excluded(s) => if s < self.len {
                s + 1
            } else {
                self.len
            },
            Edge::Unbounded => 0,
        };
        if first >= self.len {
            return self.window(self.len, self.len);
        }
        let stop: usize = match end {
            Edge::Included(e) => if e < self.len {
                e + 1
            } else {
                self.len
            },
            Edge::Excluded(e) => if e < self.len {
                e
            } else {
                self.len
            },
            Edge::Unbounded => self.len,
        };
        if stop < first {
            self.window(first, first)
        } else {
            self.window(first, stop)
        }
    }

    /// The view from index `low` up to index `high`, on the same map.
    fn window(&self, low: usize, high: usize) -> (r: SharedMmap)
        requires
            self.wf(),
            low <= high <= self@.len(),
        ensures
            r.wf(),
            r.map() == self.map(),
            r@ == self@.subrange(low as int, high as int),
    {
        let r = SharedMmap { mmap: share(&self.mmap), start: self.start + low, len: high - low };
        assert(r@ =~= self@.subrange(low as int, high as int));
        r
    }

    /// A copy of the bytes that the view shows.
    pub fn to_vec(&self) -> (r: Vec<u8>)
        requires
            self.wf(),
        ensures
            r@ == self@,
    {
        read_frozen(&self.mmap, self.start, self.start + self.len)
    }
}

} // verus!
