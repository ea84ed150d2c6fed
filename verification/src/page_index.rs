//! Pages laid end to end: which page holds a given address.

use vstd::prelude::*;
use vstd::slice::slice_subrange;

verus! {

/// The page that holds an address: its number, where it starts and how long it is.
#[derive(Debug, PartialEq, Eq, Structural)]
pub struct PageDescriptor {
    pub len: usize,
    pub offset: usize,
    pub number: usize,
}

/// The ends of consecutive pages. The first page starts at address zero and
/// every page starts where the one before it ends.
pub struct PageIndex {
    bounds: Vec<usize>,
}

/// `bounds` grows strictly from each entry to the next.
pub open spec fn strictly_increasing(bounds: Seq<usize>) -> bool {
    forall|i: int, j: int| 0 <= i < j < bounds.len() ==> bounds[i] < bounds[j]
}

/// `d` describes the gap between `bounds[i]` and `bounds[i + 1]`, numbered from `offset`.
pub open spec fn describes_gap(d: PageDescriptor, bounds: Seq<usize>, offset: int, i: int) -> bool {
    &&& 0 <= i < bounds.len() - 1
    &&& d.number == offset + i
    &&& d.offset == bounds[i]
    &&& d.len == bounds[i + 1] - bounds[i]
}

/// Splits `bounds` in the middle until the gap that holds `address` is found.
fn find_impl(bounds: &[usize], offset: usize, address: usize) -> (r: Option<PageDescriptor>)
    requires
        strictly_increasing(bounds@),
        offset + bounds@.len() <= usize::MAX,
    ensures
        match r {
            Some(d) => exists|i: int|
                #![trigger bounds@[i]]
                describes_gap(d, bounds@, offset as int, i) && bounds@[i] <= address < bounds@[i + 1],
            None => bounds@.len() < 2 || address < bounds@[0] || address >= bounds@[bounds@.len() - 1],
        },
    decreases bounds@.len(),
{
    if bounds.len() < 2 {
        return None;
    }
    let end_position: usize = bounds.len() / 2;
    let start_position: usize = end_position - 1;

    if bounds[start_position] <= address && address < bounds[end_position] {
        let d = PageDescriptor {
            len: bounds[end_position] - bounds[start_position],
            offset: bounds[start_position],
            number: offset + start_position,
        };
        assert(describes_gap(d, bounds@, offset as int, start_position as int));
        Some(d)
    } else if address < bounds[start_position] {
        let lower = slice_subrange(bounds, 0, end_position);
        let r = find_impl(lower, offset, address);
        proof {
            if r is Some {
                let d = r->0;
                let i = choose|i: int|
                    #![trigger lower@[i]]
                    describes_gap(d, lower@, offset as int, i) && lower@[i] <= address < lower@[i + 1];
                assert(lower@[i] == bounds@[i]);
                assert(lower@[i + 1] == bounds@[i + 1]);
                assert(describes_gap(d, bounds@, offset as int, i));
            } else {
                assert(lower@[0] == bounds@[0]);
                assert(lower@[lower@.len() - 1] == bounds@[start_position as int]);
            }
        }
        r
    } else {
        let upper = slice_subrange(bounds, end_position, bounds.len());
        let r = find_impl(upper, offset + end_position, address);
        proof {
            if r is Some {
                let d = r->0;
                let i = choose|i: int|
                    #![trigger upper@[i]]
                    describes_gap(d, upper@, offset + end_position, i) && upper@[i] <= address
                        < upper@[i + 1];
                assert(upper@[i] == bounds@[i + end_position]);
                assert(upper@[i + 1] == bounds@[i + end_position + 1]);
                assert(describes_gap(d, bounds@, offset as int, i + end_position));
            } else {
                assert(upper@[0] == bounds@[end_position as int]);
                assert(upper@[upper@.len() - 1] == bounds@[bounds@.len() - 1]);
            }
        }
        r
    }
}

impl PageIndex {
    /// The page ends, in order.
    pub closed spec fn ends(&self) -> Seq<usize> {
        if self.bounds@.len() == 0 {
            Seq::empty()
        } else {
            self.bounds@.subrange(1, self.bounds@.len() as int)
        }
    }

    /// Every page is non-empty: the ends grow strictly and the first is above zero.
    pub closed spec fn wf(&self) -> bool {
        &&& self.bounds@.len() != 1
        &&& strictly_increasing(self.bounds@)
        &&& self.bounds@.len() > 0 ==> self.bounds@[0] == 0
    }

    /// Where page `number` starts.
    pub open spec fn page_start(&self, number: int) -> int {
        if number == 0 {
            0
        } else {
            self.ends()[number - 1] as int
        }
    }

    /// The end of the last page, zero without pages.
    pub open spec fn spec_memory_size(&self) -> int {
        if self.ends().len() == 0 {
            0
        } else {
            self.ends()[self.ends().len() - 1] as int
        }
    }

    /// `d` is page `d.number` of this index and `address` lies in it.
    pub open spec fn locates(&self, d: PageDescriptor, address: usize) -> bool {
        &&& d.number < self.ends().len()
        &&& d.offset == self.page_start(d.number as int)
        &&& d.offset + d.len == self.ends()[d.number as int]
        &&& d.offset <= address < d.offset + d.len
    }

    /// In a well-formed index every page is non-empty: the ends grow
    /// strictly and the first lies above zero. So `locates` fixes one page
    /// for an address, and none for an address at or above the last end.
    pub proof fn lemma_ends_grow(&self)
        requires
            self.wf(),
        ensures
            strictly_increasing(self.ends()),
            self.ends().len() > 0 ==> self.ends()[0] > 0,
    {
        let bounds = self.bounds@;
        let ends = self.ends();
        assert forall|i: int, j: int| 0 <= i < j < ends.len() implies ends[i] < ends[j] by {
            assert(ends[i] == bounds[i + 1]);
            assert(ends[j] == bounds[j + 1]);
        }
        if ends.len() > 0 {
            assert(ends[0] == bounds[1]);
            assert(bounds[0] < bounds[1]);
        }
    }

    /// An index without pages.
    pub fn new() -> (r: Self)
        ensures
            r.wf(),
            r.ends() == Seq::<usize>::empty(),
    {
        Self { bounds: Vec::new() }
    }

    /// Adds a page that reaches from the end of the last one up to `end`.
    pub fn add_page(&mut self, end: usize)
        requires
            old(self).wf(),
            old(self).spec_memory_size() < end,
        ensures
            final(self).wf(),
            final(self).ends() == old(self).ends().push(end),
    {
        if self.bounds.len() == 0 {
            self.bounds.push(0);
        }
        proof {
            let b = self.bounds@;
            if old(self).bounds@.len() > 0 {
                assert(old(self).ends()[old(self).ends().len() - 1] == b[b.len() - 1]);
            }
        }
        self.bounds.push(end);
        assert(final(self).ends() =~= old(self).ends().push(end));
    }

    /// The page that holds `address`, if the index reaches that far.
    pub fn find(&self, address: usize) -> (r: Option<PageDescriptor>)
        requires
            self.wf(),
        ensures
            match r {
                Some(d) => self.locates(d, address),
                None => address >= self.spec_memory_size(),
            },
            r is Some <==> address < self.spec_memory_size(),
    {
        proof {
            self.lemma_ends_grow();
        }
        let bounds = self.bounds.as_slice();
        assert(bounds@.len() == bounds.len());
        let r = find_impl(bounds, 0, address);
        proof {
            let b = self.bounds@;
            if r is Some {
                let d = r->0;
                let i = choose|i: int|
                    #![trigger b[i]]
                    describes_gap(d, b, 0, i) && b[i] <= address < b[i + 1];
                assert(self.ends()[i] == b[i + 1]);
                if i > 0 {
                    assert(self.ends()[i - 1] == b[i]);
                }
            } else if b.len() >= 2 {
                assert(self.ends()[self.ends().len() - 1] == b[b.len() - 1]);
            }
        }
        r
    }

    /// The end of the last page, zero without pages.
    pub fn memory_size(&self) -> (r: usize)
        requires
            self.wf(),
        ensures
            r == self.spec_memory_size(),
    {
        let n = self.bounds.len();
        if n == 0 {
            0
        } else {
            proof {
                assert(self.ends()[self.ends().len() - 1] == self.bounds@[n - 1]);
            }
            self.bounds[n - 1]
        }
    }
}

} // verus!
