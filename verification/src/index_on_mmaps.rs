//! Where a logical address lies in a chain of memory maps.
//!
//! Each map remembers the ends of the batches that were written to it, so a
//! lookup tells how far one may read from an address without leaving its batch.

use vstd::prelude::*;
use crate::page_index::strictly_increasing;

verus! {

/// Where an address lies: in which map, at which offset of that map, and how
/// many bytes follow it up to the end of its batch.
#[derive(Debug, PartialEq, Eq, Structural)]
pub struct IndexDescriptor {
    pub mmap_number: usize,
    pub mmap_offset: usize,
    pub len: usize,
}

/// The batch ends of one map, counted from the map's own beginning, and the
/// logical address at which the map begins.
pub struct SingleMmapIndex {
    pub internal_bounds: Vec<usize>,
    start: usize,
}

impl SingleMmapIndex {
    /// The logical address at which this map begins.
    pub closed spec fn origin(&self) -> int {
        self.start as int
    }

    /// The batch ends written so far, led by a zero once there is one.
    pub closed spec fn bounds(&self) -> Seq<usize> {
        self.internal_bounds@
    }

    /// The bounds are empty, or start at zero and grow strictly; the map ends
    /// at an address that is still a `usize`.
    pub open spec fn wf(&self) -> bool {
        &&& self.bounds().len() != 1
        &&& strictly_increasing(self.bounds())
        &&& self.bounds().len() > 0 ==> self.bounds()[0] == 0
        &&& 0 <= self.origin()
        &&& self.origin() + self.spec_current_mmap_size() <= usize::MAX
    }

    /// The number of bytes written to this map so far.
    pub open spec fn spec_current_mmap_size(&self) -> int {
        if self.bounds().len() == 0 {
            0
        } else {
            self.bounds()[self.bounds().len() - 1] as int
        }
    }

    /// The logical address just behind the last byte written to this map.
    pub open spec fn spec_last_global_index(&self) -> int {
        self.origin() + self.spec_current_mmap_size()
    }

    /// `d` is the answer for `address`: the offset in this map, and the bytes
    /// that remain up to the next batch end above it.
    pub open spec fn answers(&self, d: IndexDescriptor, address: usize) -> bool {
        &&& d.mmap_number == 0
        &&& d.mmap_offset == address - self.origin()
        &&& exists|i: int|
            #![trigger self.bounds()[i]]
            {
                &&& 0 <= i < self.bounds().len() - 1
                &&& self.bounds()[i] <= d.mmap_offset < self.bounds()[i + 1]
                &&& d.len == self.bounds()[i + 1] - d.mmap_offset
            }
    }

    /// The index of a map that begins at `start` and holds nothing yet.
    pub fn new(start: usize) -> (r: Self)
        ensures
            r.wf(),
            r.origin() == start,
            r.bounds() == Seq::<usize>::empty(),
    {
        Self { internal_bounds: Vec::new(), start }
    }

    /// The logical address just behind the last byte written to this map.
    pub fn last_global_index(&self) -> (r: usize)
        requires
            self.wf(),
        ensures
            r == self.spec_last_global_index(),
    {
        self.start + self.current_mmap_size()
    }

    /// The number of bytes written to this map so far.
    pub fn current_mmap_size(&self) -> (r: usize)
        ensures
            r == self.spec_current_mmap_size(),
    {
        let n = self.internal_bounds.len();
        if n == 0 {
            0
        } else {
            self.internal_bounds[n - 1]
        }
    }

    /// Records a batch that ends `end` bytes into this map.
    pub fn append(&mut self, end: usize)
        requires
            old(self).wf(),
            old(self).spec_current_mmap_size() < end,
            old(self).origin() + end <= usize::MAX,
        ensures
            final(self).wf(),
            final(self).origin() == old(self).origin(),
            final(self).bounds() == (if old(self).bounds().len() == 0 {
                seq![0usize, end]
            } else {
                old(self).bounds().push(end)
            }),
            final(self).spec_current_mmap_size() == end,
    {
        if self.internal_bounds.len() == 0 {
            self.internal_bounds.push(0);
        }
        self.internal_bounds.push(end);
        assert(final(self).bounds() =~= (if old(self).bounds().len() == 0 {
            seq![0usize, end]
        } else {
            old(self).bounds().push(end)
        }));
    }

    /// Whether the map begins at address zero and holds nothing.
    pub fn is_empty(&self) -> (r: bool)
        requires
            self.wf(),
        ensures
            r == (self.spec_last_global_index() == 0),
    {
        self.last_global_index() == 0
    }

    /// Where `address` lies in this map, if a batch of the map holds it.
    pub fn find(&self, address: usize) -> (r: Option<IndexDescriptor>)
        requires
            self.wf(),
        ensures
            match r {
                Some(d) => self.answers(d, address),
                None => address < self.origin() || address >= self.spec_last_global_index(),
            },
    {
        if address < self.start {
            return None;
        }
        let offset: usize = address - self.start;
        let n: usize = self.internal_bounds.len();
        if n == 0 || offset >= self.internal_bounds[n - 1] {
            return None;
        }
        // The least position whose bound lies above `offset` is in (low, high].
        let mut low: usize = 0;
        let mut high: usize = n - 1;
        while high - low > 1
            invariant
                self.wf(),
                n == self.bounds().len(),
                low < high < n,
                self.bounds()[low as int] <= offset < self.bounds()[high as int],
            decreases high - low,
        {
            let middle: usize = low + (high - low) / 2;
            if self.internal_bounds[middle] <= offset {
                low = middle;
            } else {
                high = middle;
            }
        }
        let d = IndexDescriptor {
            mmap_number: 0,
            mmap_offset: offset,
            len: self.internal_bounds[high] - offset,
        };
        assert(self.bounds()[low as int] <= d.mmap_offset < self.bounds()[low + 1]);
        Some(d)
    }
}

/// The maps of a stream in the order of their making, each beginning where
/// the one before it ends.
pub struct IndexOnMmaps {
    mmaps: Vec<SingleMmapIndex>,
}

impl IndexOnMmaps {
    /// The maps, in order.
    pub closed spec fn maps(&self) -> Seq<SingleMmapIndex> {
        self.mmaps@
    }

    /// Every map is well formed, the first begins at zero and each other one
    /// where its predecessor ends.
    pub open spec fn wf(&self) -> bool {
        &&& forall|i: int| 0 <= i < self.maps().len() ==> (#[trigger] self.maps()[i]).wf()
        &&& self.maps().len() > 0 ==> self.maps()[0].origin() == 0
        &&& forall|i: int, j: int|
            #![trigger self.maps()[i], self.maps()[j]]
            0 <= i && j == i + 1 && j < self.maps().len()
                ==> self.maps()[i].spec_last_global_index() == self.maps()[j].origin()
    }

    /// The address just behind the last map, zero without maps.
    pub open spec fn spec_memory_size(&self) -> int {
        if self.maps().len() == 0 {
            0
        } else {
            self.maps()[self.maps().len() - 1].spec_last_global_index()
        }
    }

    /// `d` is the answer for `address`: the map that holds it, and what that
    /// map's own index answers.
    pub open spec fn answers(&self, d: IndexDescriptor, address: usize) -> bool {
        &&& d.mmap_number < self.maps().len()
        &&& self.maps()[d.mmap_number as int].answers(
            IndexDescriptor { mmap_number: 0, mmap_offset: d.mmap_offset, len: d.len },
            address,
        )
    }

    /// The maps end in the order in which they stand.
    pub proof fn lemma_ends_ordered(&self, i: int, j: int)
        requires
            self.wf(),
            0 <= i <= j < self.maps().len(),
        ensures
            self.maps()[i].spec_last_global_index() <= self.maps()[j].spec_last_global_index(),
            self.maps()[i].origin() <= self.maps()[j].origin(),
            self.maps()[i].spec_last_global_index() <= self.spec_memory_size(),
        decreases self.maps().len() - i,
    {
        assert(self.maps()[i].wf());
        assert(self.maps()[j].wf());
        assert(self.maps()[self.maps().len() - 1].wf());
        if i < j {
            self.lemma_ends_ordered(i + 1, j);
            assert(self.maps()[i + 1].wf());
        } else if i < self.maps().len() - 1 {
            self.lemma_ends_ordered(i + 1, self.maps().len() - 1);
            assert(self.maps()[i + 1].wf());
        }
    }

    /// An index without maps.
    pub fn new() -> (r: Self)
        ensures
            r.wf(),
            r.maps() == Seq::<SingleMmapIndex>::empty(),
    {
        Self { mmaps: Vec::new() }
    }

    /// Adds the index of the next map. One that begins at zero and holds
    /// nothing is left out.
    pub fn add_mmap(&mut self, mmap_index: SingleMmapIndex)
        requires
            old(self).wf(),
            mmap_index.wf(),
            mmap_index.spec_last_global_index() != 0 ==> mmap_index.origin() == old(
                self,
            ).spec_memory_size(),
        ensures
            final(self).wf(),
            final(self).maps() == (if mmap_index.spec_last_global_index() == 0 {
                old(self).maps()
            } else {
                old(self).maps().push(mmap_index)
            }),
    {
        if mmap_index.is_empty() {
            return ;
        }
        self.mmaps.push(mmap_index);
        proof {
            let before = old(self).maps();
            let after = final(self).maps();
            assert forall|i: int| 0 <= i < after.len() implies (#[trigger] after[i]).wf() by {
                if i < before.len() {
                    assert(before[i].wf());
                }
            }
            assert forall|i: int, j: int|
                #![trigger after[i], after[j]]
                0 <= i && j == i + 1 && j < after.len() implies after[i].spec_last_global_index()
                == after[j].origin() by {
                if j < before.len() {
                    assert(before[i].spec_last_global_index() == before[j].origin());
                }
            }
        }
    }

    /// Where `address` lies, if a batch of some map holds it.
    pub fn find(&self, address: usize) -> (r: Option<IndexDescriptor>)
        requires
            self.wf(),
        ensures
            match r {
                Some(d) => self.answers(d, address),
                None => address >= self.spec_memory_size(),
            },
    {
        let n: usize = self.mmaps.len();
        if n == 0 {
            return None;
        }
        assert(self.maps()[n - 1].wf());
        if address >= self.mmaps[n - 1].last_global_index() {
            return None;
        }
        // The first map that ends above `address` is in [low, high].
        let mut low: usize = 0;
        let mut high: usize = n - 1;
        while low < high
            invariant
                self.wf(),
                n == self.maps().len(),
                low <= high < n,
                address < self.maps()[high as int].spec_last_global_index(),
                low > 0 ==> self.maps()[low - 1].spec_last_global_index() <= address,
            decreases high - low,
        {
            let middle: usize = low + (high - low) / 2;
            assert(self.maps()[middle as int].wf());
            if address < self.mmaps[middle].last_global_index() {
                high = middle;
            } else {
                low = middle + 1;
            }
        }
        assert(self.maps()[low as int].wf());
        assert(self.maps()[low as int].origin() <= address) by {
            if low > 0 {
                assert(self.maps()[low - 1].spec_last_global_index() == self.maps()[low as int].origin());
            }
        }
        match self.mmaps[low].find(address) {
            Some(index) => Some(
                IndexDescriptor { mmap_number: low, mmap_offset: index.mmap_offset, len: index.len },
            ),
            None => None,
        }
    }

    /// The address just behind the last map, zero without maps.
    pub fn memory_size(&self) -> (r: usize)
        requires
            self.wf(),
        ensures
            r == self.spec_memory_size(),
    {
        let n: usize = self.mmaps.len();
        if n == 0 {
            0
        } else {
            assert(self.maps()[n - 1].wf());
            self.mmaps[n - 1].last_global_index()
        }
    }
}

} // verus!
