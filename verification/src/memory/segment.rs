//! Segments: the unit in which the arena hands memory to a cache.
//!
//! A segment is tiled by slices, runs of neighbouring pages. The first page of a slice, its head,
//! knows the length of the slice; the last page knows the distance to the head, so that a
//! neighbour on the right finds it.

use crate::memory::page::{Page, Slice, PAGE_SIZE};
use vstd::prelude::*;

verus! {

pub const SEGMENT_SIZE: usize = 33554432;

pub const SEGMENT_SIZE_BITS: usize = 25;

/// The number of pages in a segment.
///
/// The headers share the segment with the pages: a page takes its 65536 bytes and a header of 384,
/// and three words are kept for the segment itself.
pub const PAGES_PER_SEGMENT: usize = 509;

/// Where the first page starts in a segment: the pages fill the end of it.
pub const FIRST_PAGE_OFFSET: usize = 196608;

/// `after` is `before` but for its place in a slice.
pub open spec fn same_but_shape(before: Page, after: Page) -> bool {
    after == (Page { slice_count: after.slice_count, slice_offset: after.slice_offset, ..before })
}

pub struct Segment {
    /// Number of pages that are in slices cut into blocks.
    pub allocated: usize,
    pub num_slices: usize,
    pub pages: Vec<Page>,
    /// The cache that the segment belongs to.
    pub thread_id: usize,
    /// The heads of the slices.
    pub heads: Ghost<Set<int>>,
    /// The pages that `allocated` counts.
    pub in_use: Ghost<Set<int>>,
}

impl Segment {
    #[verifier::inline]
    pub open spec fn is_head(self, h: int) -> bool {
        self.heads@.contains(h)
    }

    pub open spec fn count(self, h: int) -> int {
        self.pages@[h].slice_count as int
    }

    /// The head of the slice that ends just before page `h`.
    pub open spec fn left_of(self, h: int) -> int {
        h - 1 - self.pages@[h - 1].slice_offset
    }

    /// The slice at `h` lies in the segment and fits between its neighbours.
    pub open spec fn head_ok(self, h: int) -> bool {
        let c = self.count(h);
        &&& 0 <= h < PAGES_PER_SEGMENT
        &&& 1 <= c
        &&& h + c <= PAGES_PER_SEGMENT
        &&& self.pages@[h].slice_offset == 0
        &&& self.pages@[h + c - 1].slice_offset == c - 1
        &&& h + c < PAGES_PER_SEGMENT ==> self.is_head(h + c)
        &&& h > 0 ==> {
            let g = self.left_of(h);
            &&& 0 <= g
            &&& self.is_head(g)
            &&& g + self.count(g) == h
        }
        &&& forall|k: int| h < k < h + c ==> !#[trigger] self.is_head(k)
    }

    /// The slices tile the segment.
    pub open spec fn tiled(self) -> bool {
        &&& self.pages@.len() == PAGES_PER_SEGMENT
        &&& self.is_head(0)
        &&& forall|h: int| self.is_head(h) ==> #[trigger] self.head_ok(h)
    }

    /// The slice at `h` is counted as used if and only if it is cut into blocks.
    pub open spec fn use_ok(self, h: int) -> bool {
        let c = self.count(h);
        forall|p: int| h <= p < h + c ==> (#[trigger] self.in_use@.contains(p) <==> self.pages@[h].block_size != 0)
    }

    /// `allocated` counts the pages of the slices that are cut into blocks.
    pub open spec fn accounted(self) -> bool {
        &&& self.in_use@.finite()
        &&& self.in_use@.len() == self.allocated
        &&& forall|p: int| #[trigger] self.in_use@.contains(p) ==> 0 <= p < PAGES_PER_SEGMENT
        &&& forall|h: int| self.is_head(h) ==> #[trigger] self.use_ok(h)
    }

    /// The pages lie where they belong in a segment at address `base`.
    pub open spec fn placed(self, base: int) -> bool {
        &&& self.pages@.len() == PAGES_PER_SEGMENT
        &&& forall|p: int| 0 <= p < PAGES_PER_SEGMENT
            ==> #[trigger] self.pages@[p].page_start == base + FIRST_PAGE_OFFSET + p * PAGE_SIZE
    }

    /// A segment in the given memory: every page a free slice of its own.
    pub fn new_from_slice(slice: Slice) -> (segment: Segment)
        requires
            slice.ptr + SEGMENT_SIZE <= usize::MAX,
        ensures
            segment.tiled(),
            segment.accounted(),
            segment.placed(slice.ptr as int),
            segment.allocated == 0,
            segment.num_slices == PAGES_PER_SEGMENT,
            segment.thread_id == 0,
            forall|p: int| 0 <= p < PAGES_PER_SEGMENT ==> {
                &&& (#[trigger] segment.pages@[p]).idle()
                &&& segment.pages@[p].unlinked()
                &&& segment.pages@[p].slice_count == 1
                &&& segment.pages@[p].slice_offset == 0
            },
    {
        let mut start_ptr: usize = slice.ptr + FIRST_PAGE_OFFSET;
        let mut pages: Vec<Page> = Vec::new();
        let mut i: usize = 0;
        while i < PAGES_PER_SEGMENT
            invariant
                i <= PAGES_PER_SEGMENT,
                pages@.len() == i,
                slice.ptr + SEGMENT_SIZE <= usize::MAX,
                start_ptr == slice.ptr + FIRST_PAGE_OFFSET + i * PAGE_SIZE,
                forall|p: int| 0 <= p < i ==> {
                    &&& (#[trigger] pages@[p]).idle()
                    &&& pages@[p].unlinked()
                    &&& pages@[p].slice_count == 1
                    &&& pages@[p].slice_offset == 0
                    &&& pages@[p].page_start == slice.ptr + FIRST_PAGE_OFFSET + p * PAGE_SIZE
                },
            decreases PAGES_PER_SEGMENT - i,
        {
            pages.push(Page::from_slice(Slice { ptr: start_ptr, size: PAGE_SIZE }));
            start_ptr = start_ptr + PAGE_SIZE;
            i = i + 1;
        }
        let segment = Segment {
            allocated: 0,
            num_slices: PAGES_PER_SEGMENT,
            pages,
            thread_id: 0,
            heads: Ghost(Set::new(|h: int| 0 <= h < PAGES_PER_SEGMENT)),
            in_use: Ghost(Set::empty()),
        };
        assert forall|h: int| segment.is_head(h) implies #[trigger] segment.head_ok(h) by {
            if h > 0 {
                assert(segment.pages@[h - 1].slice_count == 1);
            }
        }
        segment
    }

    /// Every page of the segment is in a slice that is cut into blocks.
    pub fn full(&self) -> (full: bool)
        ensures
            full == (self.allocated == self.num_slices),
    {
        self.allocated == self.num_slices
    }

    /// Makes every page a slice of its own.
    pub fn reset(&mut self)
        requires
            old(self).pages@.len() == PAGES_PER_SEGMENT,
        ensures
            final(self).tiled(),
            final(self).pages@.len() == PAGES_PER_SEGMENT,
            final(self).allocated == old(self).allocated,
            final(self).num_slices == old(self).num_slices,
            final(self).thread_id == old(self).thread_id,
            final(self).in_use == old(self).in_use,
            forall|p: int| 0 <= p < PAGES_PER_SEGMENT ==> #[trigger] final(self).pages@[p] == (Page {
                slice_count: 1,
                slice_offset: 0,
                ..old(self).pages@[p]
            }),
    {
        let mut i: usize = 0;
        while i < PAGES_PER_SEGMENT
            invariant
                i <= PAGES_PER_SEGMENT,
                old(self).pages@.len() == PAGES_PER_SEGMENT,
                self.pages@.len() == PAGES_PER_SEGMENT,
                self.allocated == old(self).allocated,
                self.num_slices == old(self).num_slices,
                self.thread_id == old(self).thread_id,
                self.in_use == old(self).in_use,
                forall|p: int| 0 <= p < i ==> #[trigger] self.pages@[p] == (Page {
                    slice_count: 1,
                    slice_offset: 0,
                    ..old(self).pages@[p]
                }),
                forall|p: int| i <= p < PAGES_PER_SEGMENT ==> #[trigger] self.pages@[p] == old(self).pages@[p],
            decreases PAGES_PER_SEGMENT - i,
        {
            self.pages[i].slice_count = 1;
            self.pages[i].slice_offset = 0;
            i = i + 1;
        }
        self.heads = Ghost(Set::new(|h: int| 0 <= h < PAGES_PER_SEGMENT));
        assert forall|h: int| self.is_head(h) implies #[trigger] self.head_ok(h) by {
            assert(self.pages@[h].slice_count == 1);
            if h > 0 {
                assert(self.pages@[h - 1].slice_count == 1);
            }
        }
    }

    /// The address of the segment that holds `ptr`: segments lie at multiples of their size.
    pub fn get_segment_from_ptr(ptr: usize) -> (base: usize)
        ensures
            base == ptr - ptr % SEGMENT_SIZE,
    {
        assert((ptr >> 25usize) << 25usize == ptr - ptr % 33554432usize) by (bit_vector);
        (ptr >> SEGMENT_SIZE_BITS) << SEGMENT_SIZE_BITS
    }

    /// The page that holds `ptr`.
    pub fn get_page_from_ptr(&self, ptr: usize) -> (page: usize)
        requires
            self.pages@.len() == PAGES_PER_SEGMENT,
            self.pages@[0].page_start <= ptr < self.pages@[0].page_start + PAGES_PER_SEGMENT * PAGE_SIZE,
        ensures
            page == (ptr - self.pages@[0].page_start) / (PAGE_SIZE as int),
            page < PAGES_PER_SEGMENT,
    {
        let base: usize = self.pages[0].page_start;
        (ptr - base) / PAGE_SIZE
    }

    /// Cuts the slice at `index` in two, the first of `num_slices` pages, and returns the head of the
    /// second.
    pub fn split_page(&mut self, index: usize, num_slices: usize) -> (second: usize)
        requires
            old(self).tiled(),
            old(self).is_head(index as int),
            0 < num_slices < old(self).count(index as int),
        ensures
            final(self).tiled(),
            second == index + num_slices,
            final(self).heads@ == old(self).heads@.insert(second as int),
            final(self).count(index as int) == num_slices,
            final(self).count(second as int) == old(self).count(index as int) - num_slices,
            forall|p: int| 0 <= p < PAGES_PER_SEGMENT ==> {
                &&& same_but_shape(old(self).pages@[p], #[trigger] final(self).pages@[p])
                &&& p != index && p != second ==> final(self).count(p) == old(self).count(p)
                &&& p != index && p != second - 1 && p != second && p != index + old(self).count(index as int) - 1
                    ==> final(self).pages@[p] == old(self).pages@[p]
            },
            final(self).allocated == old(self).allocated,
            final(self).num_slices == old(self).num_slices,
            final(self).thread_id == old(self).thread_id,
            final(self).in_use == old(self).in_use,
    {
        proof {
            assert(self.head_ok(index as int));
        }
        let whole: usize = self.pages[index].slice_count;
        let second: usize = index + num_slices;
        self.pages[index].slice_offset = 0;
        self.pages[index].slice_count = num_slices;
        self.pages[second - 1].slice_offset = num_slices - 1;
        self.pages[second].slice_offset = 0;
        self.pages[second].slice_count = whole - num_slices;
        self.pages[index + whole - 1].slice_offset = whole - num_slices - 1;
        self.heads = Ghost(self.heads@.insert(second as int));
        proof {
            let i = index as int;
            let before = *old(self);
            assert forall|h: int| self.is_head(h) implies #[trigger] self.head_ok(h) by {
                if h == second {
                    assert(self.left_of(h) == i);
                } else {
                    assert(before.head_ok(h));
                    if h > i {
                        assert(h >= i + whole);
                        if h == i + whole {
                            assert(self.left_of(h) == second);
                        } else {
                            assert(before.head_ok(before.left_of(h)));
                            assert(before.left_of(h) >= i + whole) by {
                                if before.left_of(h) <= i {
                                    assert(!before.is_head(i + whole));
                                }
                            }
                        }
                    } else if h < i {
                        assert(h + before.count(h) <= i);
                        if h > 0 {
                            assert(before.head_ok(before.left_of(h)));
                        }
                    } else if h > 0 {
                        assert(before.head_ok(before.left_of(h)));
                    }
                }
            }
        }
        second
    }

    /// Joins two neighbouring slices into one.
    pub fn coalesce_slices(&mut self, left: usize, right: usize)
        requires
            old(self).tiled(),
            old(self).is_head(left as int),
            old(self).is_head(right as int),
            left + old(self).count(left as int) == right,
        ensures
            final(self).tiled(),
            final(self).heads@ == old(self).heads@.remove(right as int),
            final(self).count(left as int) == old(self).count(left as int) + old(self).count(right as int),
            forall|p: int| 0 <= p < PAGES_PER_SEGMENT ==> {
                &&& same_but_shape(old(self).pages@[p], #[trigger] final(self).pages@[p])
                &&& p != left ==> final(self).count(p) == old(self).count(p)
                &&& p != left && p != right + old(self).count(right as int) - 1
                    ==> final(self).pages@[p] == old(self).pages@[p]
            },
            final(self).allocated == old(self).allocated,
            final(self).num_slices == old(self).num_slices,
            final(self).thread_id == old(self).thread_id,
            final(self).in_use == old(self).in_use,
    {
        proof {
            assert(self.head_ok(left as int));
            assert(self.head_ok(right as int));
        }
        let count: usize = self.pages[left].slice_count + self.pages[right].slice_count;
        self.pages[left].slice_offset = 0;
        self.pages[left].slice_count = count;
        self.pages[left + count - 1].slice_offset = count - 1;
        self.heads = Ghost(self.heads@.remove(right as int));
        proof {
            let before = *old(self);
            let l = left as int;
            let r = right as int;
            assert forall|h: int| self.is_head(h) implies #[trigger] self.head_ok(h) by {
                assert(before.head_ok(h));
                if h < l {
                    assert(h + before.count(h) <= l);
                    if h > 0 {
                        assert(before.head_ok(before.left_of(h)));
                    }
                } else if h == l {
                    if h > 0 {
                        assert(before.head_ok(before.left_of(h)));
                    }
                } else {
                    assert(h >= l + count) by {
                        if h < l + count {
                            assert(!before.is_head(h));
                        }
                    }
                    if h == l + count {
                        assert(self.left_of(h) == l);
                    } else {
                        let g = before.left_of(h);
                        assert(before.head_ok(g));
                        assert(g >= l + count) by {
                            if g < l + count {
                                assert(!before.is_head(l + count));
                            }
                        }
                    }
                }
            }
        }
    }

    /// Walking from page `at`, slice by slice, every head and last page agree, up to the end.
    pub open spec fn valid_from(self, at: int) -> bool
        decreases PAGES_PER_SEGMENT - at,
    {
        if at >= PAGES_PER_SEGMENT || at < 0 {
            true
        } else {
            let c = self.count(at);
            &&& self.pages@[at].slice_offset == 0
            &&& 1 <= c
            &&& at + c <= PAGES_PER_SEGMENT
            &&& self.pages@[at + c - 1].slice_offset == c - 1
            &&& self.valid_from(at + c)
        }
    }

    /// A tiled segment passes the check at every head.
    pub proof fn lemma_tiled_is_valid(self, h: int)
        requires
            self.tiled(),
            self.is_head(h) || h == PAGES_PER_SEGMENT,
        ensures
            self.valid_from(h),
        decreases PAGES_PER_SEGMENT - h,
    {
        if h < PAGES_PER_SEGMENT {
            assert(self.head_ok(h));
            self.lemma_tiled_is_valid(h + self.count(h));
        }
    }

    /// Checks that the slices tile the segment.
    pub fn check_valid_segment(&self) -> (valid: bool)
        requires
            self.pages@.len() == PAGES_PER_SEGMENT,
        ensures
            valid == self.valid_from(0),
            self.tiled() ==> valid,
    {
        proof {
            if self.tiled() {
                self.lemma_tiled_is_valid(0);
            }
        }
        let mut idx: usize = 0;
        while idx < PAGES_PER_SEGMENT
            invariant
                self.pages@.len() == PAGES_PER_SEGMENT,
                idx <= PAGES_PER_SEGMENT,
                self.valid_from(0) == self.valid_from(idx as int),
                self.tiled() ==> self.valid_from(0),
            decreases PAGES_PER_SEGMENT - idx,
        {
            let slice_count: usize = self.pages[idx].slice_count;
            if self.pages[idx].slice_offset != 0 || slice_count == 0 || slice_count > PAGES_PER_SEGMENT - idx {
                return false;
            }
            if self.pages[idx + slice_count - 1].slice_offset != slice_count - 1 {
                return false;
            }
            idx = idx + slice_count;
        }
        true
    }
}

} // verus!
