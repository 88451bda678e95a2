//! The cache of one processor: which slices of its segments are free, and which pages are cut into
//! blocks of which size.

use crate::memory::arena;
use crate::memory::arena::Arena;
use crate::memory::page;
use crate::memory::page::{Page, PageId, MAX_BLOCKS_PER_PAGE, PAGE_SIZE};
use crate::memory::segment;
use crate::memory::segment::{Segment, FIRST_PAGE_OFFSET, PAGES_PER_SEGMENT, SEGMENT_SIZE};
use vstd::prelude::*;

verus! {

/// The number of block sizes that share pages.
pub const NUM_SIZE_CLASSES: usize = 5;

/// The number of spans.
pub const SEGMENT_BINS: usize = 10;

/// The block size of a class: 4 KiB, doubled for each further class.
pub open spec fn class_size(class: int) -> int {
    if class == 0 {
        4096
    } else if class == 1 {
        8192
    } else if class == 2 {
        16384
    } else if class == 3 {
        32768
    } else {
        65536
    }
}

/// How often 4 KiB must be doubled to reach `size`.
pub open spec fn size_class(size: int) -> int
    decreases size,
{
    if size <= 4096 {
        0
    } else {
        1 + size_class((size + 1) / 2)
    }
}

/// The queue for pages whose blocks have this size: one for each class, and one for all larger ones.
pub open spec fn queue_of(block_size: int) -> int {
    if size_class(block_size) >= NUM_SIZE_CLASSES {
        NUM_SIZE_CLASSES as int
    } else {
        size_class(block_size)
    }
}

pub open spec fn floor_log2(n: nat) -> nat
    decreases n,
{
    if n <= 1 {
        0
    } else {
        1 + floor_log2(n / 2)
    }
}

pub proof fn lemma_floor_log2_monotone(m: nat, n: nat)
    requires
        m <= n,
    ensures
        floor_log2(m) <= floor_log2(n),
    decreases n,
{
    if m > 1 {
        lemma_floor_log2_monotone(m / 2, n / 2);
    }
}

/// A slice of a segment always has a span.
pub proof fn lemma_bin_in_range(n: nat)
    requires
        n <= PAGES_PER_SEGMENT,
    ensures
        floor_log2(n) < SEGMENT_BINS - 1,
{
    lemma_floor_log2_monotone(n, 511);
    reveal_with_fuel(floor_log2, 10);
}

/// A block size up to a page has a class, the smallest that holds it.
pub proof fn lemma_size_class_small(size: int)
    requires
        0 <= size <= PAGE_SIZE,
    ensures
        0 <= size_class(size) < NUM_SIZE_CLASSES,
        size <= class_size(size_class(size)),
        size_class(size) > 0 ==> class_size(size_class(size) - 1) < size,
        queue_of(size) == size_class(size),
{
    reveal_with_fuel(size_class, 6);
}

proof fn lemma_size_class_large(size: int)
    requires
        size > PAGE_SIZE,
    ensures
        size_class(size) >= NUM_SIZE_CLASSES,
        queue_of(size) == NUM_SIZE_CLASSES,
{
    let s1 = (size + 1) / 2;
    let s2 = (s1 + 1) / 2;
    let s3 = (s2 + 1) / 2;
    let s4 = (s3 + 1) / 2;
    lemma_size_class_nonneg((s4 + 1) / 2);
    assert(size_class(s4) >= 1);
    assert(size_class(s3) >= 2);
    assert(size_class(s2) >= 3);
    assert(size_class(s1) >= 4);
}

proof fn lemma_size_class_nonneg(size: int)
    ensures
        size_class(size) >= 0,
    decreases size,
{
    if size > 4096 {
        lemma_size_class_nonneg((size + 1) / 2);
    }
}

proof fn lemma_class_of_class_size(class: int)
    requires
        0 <= class < NUM_SIZE_CLASSES,
    ensures
        size_class(class_size(class)) == class,
        queue_of(class_size(class)) == class,
        4096 <= class_size(class) <= PAGE_SIZE,
{
    reveal_with_fuel(size_class, 6);
}

/// What a cache has done so far. The counters wrap.
#[derive(Clone, Copy, PartialEq, Eq, Structural, Debug)]
pub struct TCacheStats {
    pub total_allocations: usize,
    pub unsuccessful_allocations: usize,
    pub total_segments_allocated: usize,
    /// Allocations from the current page of a class.
    pub fast_allocations: usize,
    /// Allocations from another page of the class.
    pub allocations_from_pages: usize,
    pub allocations_from_segment: usize,
    pub allocations_from_arena: usize,
    pub pages_retired: usize,
    pub segments_retired: usize,
}

/// The counters of a cache that has done nothing yet.
pub open spec fn no_stats() -> TCacheStats {
    TCacheStats {
        total_allocations: 0,
        unsuccessful_allocations: 0,
        total_segments_allocated: 0,
        fast_allocations: 0,
        allocations_from_pages: 0,
        allocations_from_segment: 0,
        allocations_from_arena: 0,
        pages_retired: 0,
        segments_retired: 0,
    }
}

impl TCacheStats {
    pub fn new() -> (stats: TCacheStats)
        ensures
            stats == no_stats(),
    {
        TCacheStats {
            total_allocations: 0,
            unsuccessful_allocations: 0,
            total_segments_allocated: 0,
            fast_allocations: 0,
            allocations_from_pages: 0,
            allocations_from_segment: 0,
            allocations_from_arena: 0,
            pages_retired: 0,
            segments_retired: 0,
        }
    }
}

/// A list of free slices, linked through their heads.
#[derive(Clone, Copy, PartialEq, Eq, Structural, Debug)]
pub struct Span {
    pub first: Option<PageId>,
    pub last: Option<PageId>,
}

pub struct TCache {
    /// The page of each class that blocks are taken from first.
    pub free_pages: [Option<PageId>; NUM_SIZE_CLASSES],
    /// The other pages that are cut into blocks, by class, with one queue more for large blocks.
    pub used_pages: Vec<Vec<PageId>>,
    /// The free slices; a slice of `n` pages is in the span of the logarithm of `n`.
    pub spans: [Span; SEGMENT_BINS],
    pub thread_id: usize,
    pub stats: TCacheStats,
    /// The slices of each span, in order.
    pub lists: Ghost<Seq<Seq<PageId>>>,
}

/// Page `id` of the arena.
pub open spec fn page_at(a: Arena, id: PageId) -> Page {
    a.segments@[id.segment as int].pages@[id.page as int]
}

/// Segment `s` is handed out to cache `t`.
pub open spec fn owned(a: Arena, t: usize, s: int) -> bool {
    &&& 0 <= s < a.segments@.len()
    &&& a.used_bitmap@[s] == 1
    &&& a.segments@[s].thread_id == t
}

/// `id` is the head of a slice of cache `t`.
pub open spec fn head_at(a: Arena, t: usize, id: PageId) -> bool {
    &&& owned(a, t, id.segment as int)
    &&& a.segments@[id.segment as int].is_head(id.page as int)
}

/// `id` is the head of a free slice of cache `t`.
pub open spec fn free_head(a: Arena, t: usize, id: PageId) -> bool {
    head_at(a, t, id) && page_at(a, id).block_size == 0
}

/// `id` is the head of a slice of cache `t` that is cut into blocks.
pub open spec fn used_head(a: Arena, t: usize, id: PageId) -> bool {
    head_at(a, t, id) && page_at(a, id).block_size != 0
}

/// The span in which a free slice belongs.
pub open spec fn bin_of(a: Arena, id: PageId) -> int {
    floor_log2(page_at(a, id).slice_count as nat) as int
}

/// The book-keeping of one page, but for its links.
pub open spec fn page_books(g: Segment, p: int) -> bool {
    let page = g.pages@[p];
    if g.is_head(p) && page.block_size != 0 {
        page.blocks_wf() && (page.slice_count == 1 || page.num_blocks() == 1)
    } else {
        page.idle()
    }
}

/// The book-keeping of a segment at address `base`, but for the links.
pub open spec fn seg_books(g: Segment, base: int) -> bool {
    &&& g.tiled()
    &&& g.accounted()
    &&& g.placed(base)
    &&& g.num_slices == PAGES_PER_SEGMENT
    &&& forall|p: int| 0 <= p < PAGES_PER_SEGMENT ==> #[trigger] page_books(g, p)
}

/// The book-keeping of all segments of cache `t`, but for the links.
pub open spec fn books(a: Arena, t: usize) -> bool {
    forall|s: int| #[trigger] owned(a, t, s) ==> seg_books(a.segments@[s], a.base(s))
}

/// Two neighbouring slices are not both free, unless one of them is detached.
pub open spec fn calm(a: Arena, detached: Set<PageId>, id: PageId) -> bool {
    let right = PageId {
        segment: id.segment,
        page: (id.page + page_at(a, id).slice_count) as usize,
    };
    id.page + page_at(a, id).slice_count < PAGES_PER_SEGMENT && page_at(a, id).block_size == 0 && page_at(
        a,
        right,
    ).block_size == 0 ==> detached.contains(id) || detached.contains(right)
}

/// Free neighbours are joined, but for detached slices.
pub open spec fn all_calm(a: Arena, t: usize, detached: Set<PageId>) -> bool {
    forall|id: PageId| head_at(a, t, id) ==> #[trigger] calm(a, detached, id)
}

/// Segments differ at most in the links of their pages.
pub open spec fn same_but_links_seg(g: Segment, h: Segment) -> bool {
    &&& h.allocated == g.allocated
    &&& h.num_slices == g.num_slices
    &&& h.thread_id == g.thread_id
    &&& h.heads == g.heads
    &&& h.in_use == g.in_use
    &&& h.pages@.len() == g.pages@.len()
    &&& forall|p: int| 0 <= p < g.pages@.len() ==> #[trigger] h.pages@[p] == (Page {
        next_page: h.pages@[p].next_page,
        previous_page: h.pages@[p].previous_page,
        ..g.pages@[p]
    })
}

/// Arenas differ at most in the links of their pages.
pub open spec fn same_but_links(a: Arena, b: Arena) -> bool {
    &&& b.same_memory(a)
    &&& b.used_bitmap == a.used_bitmap
    &&& b.segments@.len() == a.segments@.len()
    &&& forall|s: int| 0 <= s < a.segments@.len() ==> same_but_links_seg(a.segments@[s], #[trigger] b.segments@[s])
}

proof fn lemma_links_keep_seg_books(g: Segment, h: Segment, base: int)
    requires
        seg_books(g, base),
        same_but_links_seg(g, h),
    ensures
        seg_books(h, base),
{
    assert forall|p: int| h.is_head(p) implies #[trigger] h.head_ok(p) by {
        assert(g.head_ok(p));
    }
    assert forall|p: int| h.is_head(p) implies #[trigger] h.use_ok(p) by {
        assert(g.use_ok(p));
        assert(g.head_ok(p));
    }
    assert forall|p: int| 0 <= p < PAGES_PER_SEGMENT implies #[trigger] page_books(h, p) by {
        assert(page_books(g, p));
        assert(h.pages@[p].returned() == g.pages@[p].returned());
    }
    assert(h.placed(base)) by {
        assert forall|p: int| 0 <= p < PAGES_PER_SEGMENT implies #[trigger] h.pages@[p].page_start == base
            + FIRST_PAGE_OFFSET + p * PAGE_SIZE by {
            assert(g.pages@[p].page_start == base + FIRST_PAGE_OFFSET + p * PAGE_SIZE);
        }
    }
}

/// A change of links keeps everything that does not speak of links.
proof fn lemma_links_keep_books(a: Arena, b: Arena, t: usize, detached: Set<PageId>)
    requires
        a.wf(),
        books(a, t),
        same_but_links(a, b),
    ensures
        b.wf(),
        books(b, t),
        all_calm(a, t, detached) ==> all_calm(b, t, detached),
        forall|id: PageId| #[trigger] head_at(b, t, id) == head_at(a, t, id),
        forall|id: PageId| #[trigger] free_head(b, t, id) == free_head(a, t, id),
        forall|id: PageId| #[trigger] used_head(b, t, id) == used_head(a, t, id),
        forall|id: PageId| head_at(a, t, id) ==> #[trigger] bin_of(b, id) == bin_of(a, id),
        forall|id: PageId| head_at(a, t, id) ==> (#[trigger] page_at(b, id)).block_size == page_at(a, id).block_size
            && page_at(b, id).slice_count == page_at(a, id).slice_count,
{
    assert(b.wf());
    assert forall|s: int| #[trigger] owned(b, t, s) implies seg_books(b.segments@[s], b.base(s)) by {
        assert(owned(a, t, s));
        lemma_links_keep_seg_books(a.segments@[s], b.segments@[s], a.base(s));
    }
    assert forall|id: PageId| #[trigger] head_at(b, t, id) == head_at(a, t, id) by {
        assert(owned(b, t, id.segment as int) == owned(a, t, id.segment as int));
    }
    assert forall|id: PageId| head_at(a, t, id) implies (#[trigger] page_at(b, id)).block_size == page_at(a, id).block_size
        && page_at(b, id).slice_count == page_at(a, id).slice_count by {
        assert(owned(a, t, id.segment as int));
        assert(a.segments@[id.segment as int].head_ok(id.page as int));
        assert(same_but_links_seg(a.segments@[id.segment as int], b.segments@[id.segment as int]));
    }
    assert forall|id: PageId| #[trigger] free_head(b, t, id) == free_head(a, t, id) by {
        assert(head_at(b, t, id) == head_at(a, t, id));
        assert(head_at(a, t, id) ==> page_at(b, id).block_size == page_at(a, id).block_size);
    }
    assert forall|id: PageId| #[trigger] used_head(b, t, id) == used_head(a, t, id) by {
        assert(head_at(b, t, id) == head_at(a, t, id));
        assert(head_at(a, t, id) ==> page_at(b, id).block_size == page_at(a, id).block_size);
    }
    if all_calm(a, t, detached) {
        assert forall|id: PageId| head_at(b, t, id) implies #[trigger] calm(b, detached, id) by {
            assert(head_at(a, t, id));
            assert(calm(a, detached, id));
            assert(owned(a, t, id.segment as int));
            assert(a.segments@[id.segment as int].head_ok(id.page as int));
            assert(page_at(b, id).slice_count == page_at(a, id).slice_count);
            assert(same_but_links_seg(a.segments@[id.segment as int], b.segments@[id.segment as int]));
        }
    }
}

/// Block `block` of page `id` is in somebody's hands.
pub open spec fn live_block(a: Arena, id: PageId, block: int) -> bool {
    &&& id.segment < a.segments@.len()
    &&& a.used_bitmap@[id.segment as int] == 1
    &&& a.segments@[id.segment as int].is_head(id.page as int)
    &&& page_at(a, id).block_size != 0
    &&& page_at(a, id).is_live(block)
}

/// The same blocks are in somebody's hands, and they have the same size.
pub open spec fn same_live(a: Arena, b: Arena) -> bool {
    &&& forall|id: PageId, block: int| #[trigger] live_block(b, id, block) <==> live_block(a, id, block)
    &&& forall|id: PageId, block: int| #[trigger] live_block(b, id, block) ==> page_at(b, id).block_size == page_at(
        a,
        id,
    ).block_size
}

/// What an operation of cache `t` leaves alone: the memory, and the segments of other caches.
pub open spec fn others_kept(a: Arena, b: Arena, t: usize) -> bool {
    &&& b.same_memory(a)
    &&& b.segments@.len() == a.segments@.len()
    &&& forall|s: int|
        0 <= s < a.segments@.len() && a.used_bitmap@[s] == 1 && a.segments@[s].thread_id != t ==> {
            &&& #[trigger] b.segments@[s] == a.segments@[s]
            &&& b.used_bitmap@[s] == 1
        }
    &&& forall|s: int|
        0 <= s < a.segments@.len() && #[trigger] b.used_bitmap@[s] == 1 && b.segments@[s].thread_id != t ==> {
            &&& a.used_bitmap@[s] == 1
            &&& a.segments@[s].thread_id == b.segments@[s].thread_id
        }
}

/// `id` names a page of the arena.
pub open spec fn in_arena(a: Arena, id: PageId) -> bool {
    id.segment < a.segments@.len() && id.page < PAGES_PER_SEGMENT
}

/// A head names a page of the arena, and its slice has a span.
pub proof fn lemma_head(a: Arena, t: usize, id: PageId)
    requires
        a.wf(),
        books(a, t),
        head_at(a, t, id),
    ensures
        in_arena(a, id),
        0 <= bin_of(a, id) < SEGMENT_BINS,
        1 <= page_at(a, id).slice_count <= PAGES_PER_SEGMENT - id.page,
        a.segments@[id.segment as int].head_ok(id.page as int),
        seg_books(a.segments@[id.segment as int], a.base(id.segment as int)),
        page_books(a.segments@[id.segment as int], id.page as int),
{
    assert(owned(a, t, id.segment as int));
    assert(a.segments@[id.segment as int].head_ok(id.page as int));
    lemma_bin_in_range(page_at(a, id).slice_count as nat);
}

/// Only the links of page `id` differ, and there it is `page`.
pub open spec fn relinked(a: Arena, b: Arena, id: PageId, page: Page) -> bool {
    &&& same_but_links(a, b)
    &&& forall|x: PageId| in_arena(a, x) ==> #[trigger] page_at(b, x) == (if x == id {
        page
    } else {
        page_at(a, x)
    })
}

fn set_next_page(arena: &mut Arena, id: PageId, next_page: Option<PageId>)
    requires
        old(arena).wf(),
        in_arena(*old(arena), id),
    ensures
        final(arena).wf(),
        relinked(*old(arena), *final(arena), id, Page { next_page, ..page_at(*old(arena), id) }),
        forall|s: int| 0 <= s < old(arena).segments@.len() && s != id.segment
            ==> #[trigger] final(arena).segments@[s] == old(arena).segments@[s],
{
    arena.segments[id.segment].pages[id.page].next_page = next_page;
}

fn set_previous_page(arena: &mut Arena, id: PageId, previous_page: Option<PageId>)
    requires
        old(arena).wf(),
        in_arena(*old(arena), id),
    ensures
        final(arena).wf(),
        relinked(*old(arena), *final(arena), id, Page { previous_page, ..page_at(*old(arena), id) }),
        forall|s: int| 0 <= s < old(arena).segments@.len() && s != id.segment
            ==> #[trigger] final(arena).segments@[s] == old(arena).segments@[s],
{
    arena.segments[id.segment].pages[id.page].previous_page = previous_page;
}

impl TCache {
    /// The `i`th slice of span `b` is in its place and linked to its neighbours.
    pub open spec fn node_ok(self, a: Arena, b: int, i: int) -> bool {
        let l = self.lists@[b];
        let page = page_at(a, l[i]);
        &&& free_head(a, self.thread_id, l[i])
        &&& bin_of(a, l[i]) == b
        &&& page.next_page == (if i + 1 < l.len() {
            Some(l[i + 1])
        } else {
            None
        })
        &&& page.previous_page == (if i > 0 {
            Some(l[i - 1])
        } else {
            None
        })
    }

    /// Span `b` is a doubly linked list of free slices.
    pub open spec fn list_ok(self, a: Arena, b: int) -> bool {
        let l = self.lists@[b];
        &&& l.no_duplicates()
        &&& self.spans@[b].first == (if l.len() > 0 {
            Some(l[0])
        } else {
            None
        })
        &&& self.spans@[b].last == (if l.len() > 0 {
            Some(l[l.len() - 1])
        } else {
            None
        })
        &&& forall|i: int| 0 <= i < l.len() ==> #[trigger] self.node_ok(a, b, i)
    }

    /// Slice `id` is in its span.
    pub open spec fn listed(self, a: Arena, id: PageId) -> bool {
        self.lists@[bin_of(a, id)].contains(id)
    }

    /// The spans list the free slices, but for the detached ones, and no other page is linked.
    pub open spec fn spans_ok(self, a: Arena, detached: Set<PageId>) -> bool {
        &&& self.lists@.len() == SEGMENT_BINS
        &&& forall|b: int| 0 <= b < SEGMENT_BINS ==> #[trigger] self.list_ok(a, b)
        &&& forall|id: PageId| #[trigger] free_head(a, self.thread_id, id) ==> detached.contains(id) || self.listed(a, id)
        &&& forall|id: PageId| #[trigger] detached.contains(id) ==> free_head(a, self.thread_id, id) && !self.listed(a, id)
        &&& forall|id: PageId|
            owned(a, self.thread_id, id.segment as int) && id.page < PAGES_PER_SEGMENT && !(free_head(
                a,
                self.thread_id,
                id,
            ) && !detached.contains(id)) ==> (#[trigger] page_at(a, id)).unlinked()
    }

    /// Page `id` is the current page of its class or waits in its queue.
    pub open spec fn queued(self, a: Arena, id: PageId) -> bool {
        let c = queue_of(page_at(a, id).block_size as int);
        ||| c < NUM_SIZE_CLASSES && self.free_pages@[c] == Some(id)
        ||| self.used_pages@[c]@.contains(id)
    }

    /// The current page of class `c` is cut into blocks of that class.
    pub open spec fn current_ok(self, a: Arena, loose: Set<PageId>, c: int) -> bool {
        match self.free_pages@[c] {
            Some(id) => {
                &&& used_head(a, self.thread_id, id)
                &&& page_at(a, id).block_size == class_size(c)
                &&& !loose.contains(id)
                &&& !self.used_pages@[c]@.contains(id)
            },
            None => true,
        }
    }

    /// The pages in queue `c` belong there.
    pub open spec fn queue_ok(self, a: Arena, loose: Set<PageId>, c: int) -> bool {
        let q = self.used_pages@[c]@;
        &&& q.no_duplicates()
        &&& forall|i: int| 0 <= i < q.len() ==> {
            &&& used_head(a, self.thread_id, #[trigger] q[i])
            &&& queue_of(page_at(a, q[i]).block_size as int) == c
            &&& c < NUM_SIZE_CLASSES ==> page_at(a, q[i]).block_size == class_size(c)
            &&& !loose.contains(q[i])
        }
    }

    /// The pages that are cut into blocks are each in one place, but for the loose ones.
    pub open spec fn queues_ok(self, a: Arena, loose: Set<PageId>) -> bool {
        &&& self.used_pages@.len() == NUM_SIZE_CLASSES + 1
        &&& forall|c: int| 0 <= c < NUM_SIZE_CLASSES ==> #[trigger] self.current_ok(a, loose, c)
        &&& forall|c: int| 0 <= c <= NUM_SIZE_CLASSES ==> #[trigger] self.queue_ok(a, loose, c)
        &&& forall|id: PageId| #[trigger] used_head(a, self.thread_id, id) ==> loose.contains(id) || self.queued(a, id)
        &&& forall|id: PageId| #[trigger] loose.contains(id) ==> used_head(a, self.thread_id, id)
    }

    /// All that holds of a cache and its segments, with some free slices outside their spans and some
    /// used pages outside their queues.
    pub open spec fn inv_with(self, a: Arena, detached: Set<PageId>, loose: Set<PageId>) -> bool {
        &&& a.wf()
        &&& books(a, self.thread_id)
        &&& self.spans_ok(a, detached)
        &&& all_calm(a, self.thread_id, detached)
        &&& self.queues_ok(a, loose)
    }

    /// What holds of a cache and its segments between any two operations.
    pub open spec fn inv(self, a: Arena) -> bool {
        self.inv_with(a, Set::empty(), Set::empty())
    }

    pub fn size_of_class(class: usize) -> (size: usize)
        requires
            class < NUM_SIZE_CLASSES,
        ensures
            size == class_size(class as int),
    {
        if class == 0 {
            4096
        } else if class == 1 {
            8192
        } else if class == 2 {
            16384
        } else if class == 3 {
            32768
        } else {
            65536
        }
    }

    /// The class of blocks of `size` bytes.
    pub fn get_size_class(size: usize) -> (class: usize)
        ensures
            class == size_class(size as int),
    {
        let mut class: usize = 0;
        let mut rest: usize = size;
        while rest > 4096
            invariant
                class + size_class(rest as int) == size_class(size as int),
                class + rest <= size,
            decreases rest,
        {
            rest = rest / 2 + rest % 2;
            class = class + 1;
        }
        class
    }

    /// The span for slices of `slice_count` pages.
    pub fn get_span_idx_from_slice_count(slice_count: usize) -> (idx: usize)
        requires
            slice_count > 0,
        ensures
            idx == floor_log2(slice_count as nat),
    {
        let mut idx: usize = 0;
        let mut rest: usize = slice_count;
        while rest > 1
            invariant
                idx + floor_log2(rest as nat) == floor_log2(slice_count as nat),
                idx + rest <= slice_count,
                rest >= 1,
            decreases rest,
        {
            rest = rest / 2;
            idx = idx + 1;
        }
        idx
    }

    /// Appends a detached slice to its span.
    #[verifier::rlimit(50)]
    fn add_slice_to_span(
        &mut self,
        arena: &mut Arena,
        id: PageId,
        Ghost(detached): Ghost<Set<PageId>>,
        Ghost(loose): Ghost<Set<PageId>>,
    )
        requires
            old(self).inv_with(*old(arena), detached, loose),
            all_calm(*old(arena), old(self).thread_id, detached.remove(id)),
            detached.contains(id),
        ensures
            same_but_links(*old(arena), *final(arena)),
            same_live(*old(arena), *final(arena)),
            others_kept(*old(arena), *final(arena), old(self).thread_id),
            final(self).inv_with(*final(arena), detached.remove(id), loose),
            *final(self) == (TCache { spans: final(self).spans, lists: final(self).lists, ..*old(self) }),
            final(self).lists@ == enlisted(old(self).lists@, id, page_at(*old(arena), id).slice_count as int),
    {
        let ghost t = self.thread_id;
        let ghost b = bin_of(*arena, id);
        let ghost l = self.lists@[b];
        proof {
            assert(free_head(*arena, t, id));
            lemma_head(*arena, t, id);
            assert(self.list_ok(*arena, b));
            if l.len() > 0 {
                assert(self.node_ok(*arena, b, l.len() - 1));
                lemma_head(*arena, t, l.last());
                assert(l.contains(l[l.len() - 1]));
            }
        }
        let count: usize = arena.segments[id.segment].pages[id.page].slice_count;
        let bin: usize = Self::get_span_idx_from_slice_count(count);
        match self.spans[bin].last {
            None => {
                self.spans[bin].first = Some(id);
                self.spans[bin].last = Some(id);
            },
            Some(last) => {
                set_next_page(arena, last, Some(id));
                set_previous_page(arena, id, Some(last));
                self.spans[bin].last = Some(id);
            },
        }
        self.lists = Ghost(self.lists@.update(b, l.push(id)));
        proof {
            let a0 = *old(arena);
            let a1 = *arena;
            let before = *old(self);
            assert(same_but_links(a0, a1));
            lemma_links_keep_books(a0, a1, t, detached.remove(id));
            lemma_links_keep_queues(before, *self, a0, a1, loose);
            assert forall|s: int| 0 <= s < a0.segments@.len() && a0.segments@[s].thread_id != t
                implies #[trigger] a1.segments@[s] == a0.segments@[s] by {}
            lemma_links_keep_live(a0, a1, t);
            assert(page_at(a0, id).unlinked());
            assert forall|c: int| 0 <= c < SEGMENT_BINS implies #[trigger] self.list_ok(a1, c) by {
                assert(before.list_ok(a0, c));
                let m = before.lists@[c];
                assert forall|i: int| 0 <= i < self.lists@[c].len() implies #[trigger] self.node_ok(a1, c, i) by {
                    if i < m.len() {
                        assert(before.node_ok(a0, c, i));
                        lemma_head(a0, t, m[i]);
                        assert(m.contains(m[i]));
                        assert(m[i] != id);
                        if c == b && i + 1 < m.len() {
                            assert(m[i] != m[m.len() - 1]);
                        }
                    }
                }
                if c == b {
                    assert(self.lists@[c].no_duplicates()) by {
                        assert(!l.contains(id));
                    }
                }
            }
            assert forall|x: PageId| #[trigger] free_head(a1, t, x) implies detached.remove(id).contains(x)
                || self.listed(a1, x) by {
                assert(free_head(a0, t, x));
                lemma_head(a0, t, x);
                assert(self.lists@[b][l.len() as int] == id);
                if x != id && !detached.contains(x) {
                    let m = before.lists@[bin_of(a0, x)];
                    let i = choose|i: int| 0 <= i < m.len() && m[i] == x;
                    assert(self.lists@[bin_of(a0, x)][i] == x);
                }
            }
            assert forall|x: PageId| #[trigger] detached.remove(id).contains(x) implies free_head(a1, t, x)
                && !self.listed(a1, x) by {
                assert(detached.contains(x));
                lemma_head(a0, t, x);
                if self.listed(a1, x) {
                    let m = self.lists@[bin_of(a0, x)];
                    let i = choose|i: int| 0 <= i < m.len() && m[i] == x;
                    if i < before.lists@[bin_of(a0, x)].len() {
                        assert(before.lists@[bin_of(a0, x)][i] == x);
                    }
                }
            }
            assert forall|x: PageId|
                owned(a1, t, x.segment as int) && x.page < PAGES_PER_SEGMENT && !(free_head(a1, t, x)
                    && !detached.remove(id).contains(x)) implies (#[trigger] page_at(a1, x)).unlinked() by {
                assert(owned(a0, t, x.segment as int));
                assert(page_at(a0, x).unlinked());
            }
        }
    }

    /// Takes a free slice out of its span.
    #[verifier::rlimit(50)]
    fn remove_slice_from_span(
        &mut self,
        arena: &mut Arena,
        id: PageId,
        Ghost(detached): Ghost<Set<PageId>>,
        Ghost(loose): Ghost<Set<PageId>>,
    )
        requires
            old(self).inv_with(*old(arena), detached, loose),
            free_head(*old(arena), old(self).thread_id, id),
            !detached.contains(id),
        ensures
            same_but_links(*old(arena), *final(arena)),
            same_live(*old(arena), *final(arena)),
            others_kept(*old(arena), *final(arena), old(self).thread_id),
            final(self).inv_with(*final(arena), detached.insert(id), loose),
            *final(self) == (TCache { spans: final(self).spans, lists: final(self).lists, ..*old(self) }),
            final(self).lists@ == unlisted(old(self).lists@, id),
    {
        let ghost t = self.thread_id;
        let ghost b = bin_of(*arena, id);
        let ghost l = self.lists@[b];
        let ghost k = l.index_of(id);
        proof {
            lemma_head(*arena, t, id);
            assert(self.list_ok(*arena, b));
            assert(l.contains(id));
            assert(l[k] == id);
            assert(self.node_ok(*arena, b, k));
            if k > 0 {
                assert(self.node_ok(*arena, b, k - 1));
                lemma_head(*arena, t, l[k - 1]);
                assert(l[k - 1] != l[k]);
                assert(l[0] != l[k]);
            }
            if k + 1 < l.len() {
                assert(self.node_ok(*arena, b, k + 1));
                lemma_head(*arena, t, l[k + 1]);
                assert(l[k + 1] != l[k]);
                assert(l[l.len() - 1] != l[k]);
            }
        }
        let count: usize = arena.segments[id.segment].pages[id.page].slice_count;
        let next_page: Option<PageId> = arena.segments[id.segment].pages[id.page].next_page;
        let previous_page: Option<PageId> = arena.segments[id.segment].pages[id.page].previous_page;
        let bin: usize = Self::get_span_idx_from_slice_count(count);
        match previous_page {
            None => {
                self.spans[bin].first = next_page;
                match next_page {
                    None => {
                        self.spans[bin].last = None;
                    },
                    Some(next) => {
                        set_previous_page(arena, next, None);
                    },
                }
            },
            Some(previous) => {
                match next_page {
                    None => {
                        self.spans[bin].last = previous_page;
                        set_next_page(arena, previous, None);
                    },
                    Some(next) => {
                        set_next_page(arena, previous, next_page);
                        set_previous_page(arena, next, previous_page);
                    },
                }
            },
        }
        set_next_page(arena, id, None);
        set_previous_page(arena, id, None);
        self.lists = Ghost(self.lists@.update(b, l.remove(k)));
        proof {
            lemma_unlisted(*old(self), *old(arena), detached, id);
            assert(self.spans@ =~= old(self).spans@.update(b, self.spans@[b]));
            assert forall|x: PageId| in_arena(*old(arena), x) implies #[trigger] page_at(*arena, x) == without(
                l,
                k,
                x,
                page_at(*old(arena), x),
            ) by {}
            lemma_slice_removed(*old(self), *self, *old(arena), *arena, id, detached);
            assert(all_calm(*old(arena), t, detached.insert(id))) by {
                assert forall|x: PageId| head_at(*old(arena), t, x) implies #[trigger] calm(
                    *old(arena),
                    detached.insert(id),
                    x,
                ) by {
                    assert(calm(*old(arena), detached, x));
                }
            }
            lemma_links_keep_books(*old(arena), *arena, t, detached.insert(id));
            lemma_links_keep_queues(*old(self), *self, *old(arena), *arena, loose);
            assert forall|s: int| 0 <= s < old(arena).segments@.len() && old(arena).segments@[s].thread_id != t
                implies #[trigger] arena.segments@[s] == old(arena).segments@[s] by {}
            lemma_links_keep_live(*old(arena), *arena, t);
        }
    }
}

/// The page that takes the place of `id` once slice `out` is taken out of list `l`.
spec fn without(l: Seq<PageId>, k: int, id: PageId, page: Page) -> Page {
    if id == l[k] {
        Page { next_page: None, previous_page: None, ..page }
    } else if k > 0 && id == l[k - 1] {
        Page {
            next_page: if k + 1 < l.len() {
                Some(l[k + 1])
            } else {
                None
            },
            ..page
        }
    } else if k + 1 < l.len() && id == l[k + 1] {
        Page {
            previous_page: if k > 0 {
                Some(l[k - 1])
            } else {
                None
            },
            ..page
        }
    } else {
        page
    }
}

/// Relinking the neighbours of a slice takes it out of its span.
#[verifier::rlimit(50)]
proof fn lemma_slice_removed(before: TCache, after: TCache, a0: Arena, a1: Arena, id: PageId, detached: Set<PageId>)
    requires
        a0.wf(),
        books(a0, before.thread_id),
        before.spans_ok(a0, detached),
        free_head(a0, before.thread_id, id),
        !detached.contains(id),
        same_but_links(a0, a1),
        ({
            let b = bin_of(a0, id);
            let l = before.lists@[b];
            let k = l.index_of(id);
            &&& forall|x: PageId| in_arena(a0, x) ==> #[trigger] page_at(a1, x) == without(l, k, x, page_at(a0, x))
            &&& after.lists@ == before.lists@.update(b, l.remove(k))
            &&& after.spans@ == before.spans@.update(b, Span {
                first: if k > 0 {
                    before.spans@[b].first
                } else if l.len() > 1 {
                    Some(l[1])
                } else {
                    None
                },
                last: if k + 1 < l.len() {
                    before.spans@[b].last
                } else if k > 0 {
                    Some(l[k - 1])
                } else {
                    None
                },
            })
        }),
        after.thread_id == before.thread_id,
    ensures
        after.spans_ok(a1, detached.insert(id)),
{
    let t = before.thread_id;
    let b = bin_of(a0, id);
    let l = before.lists@[b];
    let k = l.index_of(id);
    lemma_head(a0, t, id);
    assert(before.list_ok(a0, b));
    assert(l.contains(id));
    assert(before.node_ok(a0, b, k));
    if k > 0 {
        assert(before.node_ok(a0, b, k - 1));
        assert(l.contains(l[k - 1]));
    }
    if k + 1 < l.len() {
        assert(before.node_ok(a0, b, k + 1));
        assert(l.contains(l[k + 1]));
    }
    assert(same_but_links(a0, a1));
    lemma_links_keep_books(a0, a1, t, detached);
    assert forall|c: int| 0 <= c < SEGMENT_BINS implies #[trigger] after.list_ok(a1, c) by {
        assert(before.list_ok(a0, c));
        let m = before.lists@[c];
        assert forall|i: int| 0 <= i < after.lists@[c].len() implies #[trigger] after.node_ok(a1, c, i) by {
            let j = if c == b && i >= k {
                i + 1
            } else {
                i
            };
            assert(before.node_ok(a0, c, j));
            lemma_head(a0, t, m[j]);
            if c == b {
                assert(m[j] != m[k]);
                if k > 0 && j != k - 1 {
                    assert(m[j] != m[k - 1]);
                }
                if k + 1 < m.len() && j != k + 1 {
                    assert(m[j] != m[k + 1]);
                }
            }
        }
        if c == b {
            assert(after.lists@[c].no_duplicates()) by {
                assert forall|i: int, j: int|
                    0 <= i < after.lists@[c].len() && 0 <= j < after.lists@[c].len() && i != j
                    implies after.lists@[c][i] != after.lists@[c][j] by {
                    let oi = if i >= k { i + 1 } else { i };
                    let oj = if j >= k { j + 1 } else { j };
                    assert(l[oi] != l[oj]);
                }
            }
        }
    }
    assert forall|x: PageId| #[trigger] free_head(a1, t, x) implies detached.insert(id).contains(x)
        || after.listed(a1, x) by {
        assert(free_head(a0, t, x));
        lemma_head(a0, t, x);
        if x != id && !detached.contains(x) {
            let m = before.lists@[bin_of(a0, x)];
            let i = choose|i: int| 0 <= i < m.len() && m[i] == x;
            let j = if bin_of(a0, x) == b && i > k { i - 1 } else { i };
            assert(after.lists@[bin_of(a0, x)][j] == x);
        }
    }
    assert forall|x: PageId| #[trigger] detached.insert(id).contains(x) implies free_head(a1, t, x)
        && !after.listed(a1, x) by {
        lemma_head(a0, t, x);
        if after.listed(a1, x) {
            let m = after.lists@[bin_of(a0, x)];
            let i = choose|i: int| 0 <= i < m.len() && m[i] == x;
            let j = if bin_of(a0, x) == b && i >= k { i + 1 } else { i };
            assert(before.lists@[bin_of(a0, x)][j] == x);
            assert(before.lists@[bin_of(a0, x)].contains(x));
            if x == id {
                assert(l[j] != l[k]);
            }
        }
    }
    assert forall|x: PageId|
        owned(a1, t, x.segment as int) && x.page < PAGES_PER_SEGMENT && !(free_head(a1, t, x)
            && !detached.insert(id).contains(x)) implies (#[trigger] page_at(a1, x)).unlinked() by {
        assert(owned(a0, t, x.segment as int));
        if x != id {
            assert(page_at(a0, x).unlinked());
        }
    }
}

/// A change of links keeps the queues.
proof fn lemma_links_keep_queues(c: TCache, d: TCache, a: Arena, b: Arena, loose: Set<PageId>)
    requires
        a.wf(),
        books(a, c.thread_id),
        same_but_links(a, b),
        c.queues_ok(a, loose),
        d.thread_id == c.thread_id,
        d.free_pages == c.free_pages,
        d.used_pages == c.used_pages,
    ensures
        d.queues_ok(b, loose),
{
    let t = c.thread_id;
    lemma_links_keep_books(a, b, t, Set::empty());
    assert forall|k: int| 0 <= k < NUM_SIZE_CLASSES implies #[trigger] d.current_ok(b, loose, k) by {
        assert(c.current_ok(a, loose, k));
    }
    assert forall|k: int| 0 <= k <= NUM_SIZE_CLASSES implies #[trigger] d.queue_ok(b, loose, k) by {
        assert(c.queue_ok(a, loose, k));
    }
    assert forall|id: PageId| #[trigger] used_head(b, t, id) implies loose.contains(id) || d.queued(b, id) by {
        assert(used_head(a, t, id));
        assert(page_at(b, id).block_size == page_at(a, id).block_size);
    }
}

/// A change of links keeps the blocks in somebody's hands, and the segments of other caches.
proof fn lemma_links_keep_live(a: Arena, b: Arena, t: usize)
    requires
        a.wf(),
        books(a, t),
        same_but_links(a, b),
        forall|s: int| 0 <= s < a.segments@.len() && a.segments@[s].thread_id != t ==> #[trigger] b.segments@[s] == a.segments@[s],
    ensures
        same_live(a, b),
        others_kept(a, b, t),
{
    assert forall|id: PageId, block: int| #[trigger] live_block(b, id, block) <==> live_block(a, id, block) by {
        if id.segment < a.segments@.len() {
            let g = a.segments@[id.segment as int];
            let h = b.segments@[id.segment as int];
            assert(same_but_links_seg(g, h));
            if g.is_head(id.page as int) && a.used_bitmap@[id.segment as int] == 1 && g.thread_id == t {
                assert(owned(a, t, id.segment as int));
                assert(g.head_ok(id.page as int));
                assert(h.pages@[id.page as int].returned() == g.pages@[id.page as int].returned());
            }
        }
    }
    assert forall|id: PageId, block: int| #[trigger] live_block(b, id, block) implies page_at(b, id).block_size == page_at(
        a,
        id,
    ).block_size by {
        if id.segment < a.segments@.len() {
            let g = a.segments@[id.segment as int];
            let h = b.segments@[id.segment as int];
            assert(same_but_links_seg(g, h));
            if g.is_head(id.page as int) && a.used_bitmap@[id.segment as int] == 1 && g.thread_id == t {
                assert(owned(a, t, id.segment as int));
                assert(g.head_ok(id.page as int));
                assert(h.pages@[id.page as int].returned() == g.pages@[id.page as int].returned());
            }
        }
    }
}

/// Where one slice accounts for all allocated pages, no other slice is cut into blocks.
proof fn lemma_sole_used(g: Segment, p: int, h: int)
    requires
        g.tiled(),
        g.accounted(),
        g.is_head(p),
        g.is_head(h),
        g.pages@[p].block_size != 0,
        g.pages@[h].block_size != 0,
        g.allocated == g.count(p),
    ensures
        h == p,
{
    assert(g.head_ok(p));
    assert(g.head_ok(h));
    assert(g.use_ok(p));
    assert(g.use_ok(h));
    if h != p {
        let range = vstd::set_lib::set_int_range(p, p + g.count(p));
        vstd::set_lib::lemma_int_range(p, p + g.count(p));
        assert(!range.contains(h));
        assert(g.in_use@.contains(h));
        assert(range.insert(h).subset_of(g.in_use@));
        vstd::set_lib::lemma_len_subset(range.insert(h), g.in_use@);
    }
}

/// At most the header of segment `s` differs, and it keeps its owner.
pub open spec fn one_segment(a: Arena, b: Arena, s: int) -> bool {
    &&& b.same_memory(a)
    &&& b.used_bitmap == a.used_bitmap
    &&& b.segments@.len() == a.segments@.len()
    &&& 0 <= s < a.segments@.len()
    &&& b.segments@[s].thread_id == a.segments@[s].thread_id
    &&& b.segments@[s].pages@.len() == PAGES_PER_SEGMENT
    &&& forall|k: int| 0 <= k < a.segments@.len() && k != s ==> #[trigger] b.segments@[k] == a.segments@[k]
}

/// A page that is cut into blocks stays as it is.
spec fn used_pages_kept(a: Arena, b: Arena, t: usize) -> bool {
    forall|x: PageId| #[trigger] used_head(a, t, x) ==> used_head(b, t, x) && page_at(b, x) == page_at(a, x)
}

/// Joining two detached neighbours keeps everything; the right one is no slice any more.
#[verifier::rlimit(50)]
proof fn lemma_coalesced(
    c: TCache,
    a: Arena,
    b: Arena,
    left: PageId,
    right: PageId,
    detached: Set<PageId>,
    loose: Set<PageId>,
)
    requires
        c.inv_with(a, detached, loose),
        detached.contains(left),
        detached.contains(right),
        left.segment == right.segment,
        left.page + page_at(a, left).slice_count == right.page,
        one_segment(a, b, left.segment as int),
        ({
            let g = a.segments@[left.segment as int];
            let h = b.segments@[left.segment as int];
            let l = left.page as int;
            let r = right.page as int;
            &&& h.tiled()
            &&& h.heads@ == g.heads@.remove(r)
            &&& h.count(l) == g.count(l) + g.count(r)
            &&& forall|p: int| 0 <= p < PAGES_PER_SEGMENT ==> {
                &&& segment::same_but_shape(g.pages@[p], #[trigger] h.pages@[p])
                &&& p != l ==> h.count(p) == g.count(p)
                &&& !(l <= p < r + g.count(r)) ==> h.pages@[p] == g.pages@[p]
            }
            &&& h.allocated == g.allocated
            &&& h.num_slices == g.num_slices
            &&& h.in_use == g.in_use
        }),
    ensures
        c.inv_with(b, detached.remove(right), loose),
        same_live(a, b),
        others_kept(a, b, c.thread_id),
        used_pages_kept(a, b, c.thread_id),
        forall|x: PageId| #[trigger] used_head(b, c.thread_id, x) ==> used_head(a, c.thread_id, x),
{
    let t = c.thread_id;
    let s = left.segment as int;
    let g = a.segments@[s];
    let h = b.segments@[s];
    let l = left.page as int;
    let r = right.page as int;
    assert(free_head(a, t, left));
    assert(free_head(a, t, right));
    lemma_head(a, t, left);
    lemma_head(a, t, right);
    assert(b.wf());
    assert(forall|k: int| #[trigger] owned(b, t, k) == owned(a, t, k));
    assert(seg_books(h, b.base(s))) by {
        assert forall|p: int| h.is_head(p) implies #[trigger] h.use_ok(p) by {
            assert(g.use_ok(p));
            assert(g.head_ok(p));
            assert(g.use_ok(r));
        }
        assert forall|p: int| 0 <= p < PAGES_PER_SEGMENT implies #[trigger] page_books(h, p) by {
            assert(page_books(g, p));
            assert(h.pages@[p].returned() == g.pages@[p].returned());
        }
        assert(h.placed(b.base(s))) by {
            assert forall|p: int| 0 <= p < PAGES_PER_SEGMENT implies #[trigger] h.pages@[p].page_start == b.base(s)
                + FIRST_PAGE_OFFSET + p * PAGE_SIZE by {
                assert(g.pages@[p].page_start == b.base(s) + FIRST_PAGE_OFFSET + p * PAGE_SIZE);
            }
        }
    }
    assert(books(b, t)) by {
        assert forall|k: int| #[trigger] owned(b, t, k) implies seg_books(b.segments@[k], b.base(k)) by {
            assert(owned(a, t, k));
        }
    }
    // Heads are the old ones without the right slice; their pages keep all but the shape.
    assert forall|x: PageId| #[trigger] head_at(b, t, x) == (head_at(a, t, x) && x != right) by {
        assert(owned(b, t, x.segment as int) == owned(a, t, x.segment as int));
    }
    assert forall|x: PageId| in_arena(a, x) implies ({
        &&& (#[trigger] page_at(b, x)).block_size == page_at(a, x).block_size
        &&& page_at(b, x).next_page == page_at(a, x).next_page
        &&& page_at(b, x).previous_page == page_at(a, x).previous_page
        &&& x != left ==> page_at(b, x).slice_count == page_at(a, x).slice_count
    }) by {
        if x.segment == s {
            assert(h.pages@[x.page as int] == page_at(b, x));
        }
    }
    assert forall|x: PageId| #[trigger] free_head(b, t, x) == (free_head(a, t, x) && x != right) by {
        assert(head_at(b, t, x) == (head_at(a, t, x) && x != right));
        if head_at(a, t, x) {
            lemma_head(a, t, x);
            assert(page_at(b, x).block_size == page_at(a, x).block_size);
        }
    }
    assert forall|x: PageId| #[trigger] used_head(b, t, x) == used_head(a, t, x) by {
        assert(head_at(b, t, x) == (head_at(a, t, x) && x != right));
        if head_at(a, t, x) {
            lemma_head(a, t, x);
            assert(page_at(b, x).block_size == page_at(a, x).block_size);
        }
    }
    assert forall|x: PageId| #[trigger] used_head(a, t, x) implies used_head(b, t, x) && page_at(b, x) == page_at(a, x) by {
        assert(used_head(b, t, x) == used_head(a, t, x));
        lemma_head(a, t, x);
        if x.segment == s {
            assert(g.head_ok(x.page as int));
            assert(!(l <= x.page < r + g.count(r)));
            assert(h.pages@[x.page as int] == page_at(b, x));
        }
    }
    assert(c.spans_ok(b, detached.remove(right))) by {
        assert forall|k: int| 0 <= k < SEGMENT_BINS implies #[trigger] c.list_ok(b, k) by {
            assert(c.list_ok(a, k));
            assert forall|i: int| 0 <= i < c.lists@[k].len() implies #[trigger] c.node_ok(b, k, i) by {
                assert(c.node_ok(a, k, i));
                let x = c.lists@[k][i];
                lemma_head(a, t, x);
                assert(c.lists@[k].contains(x));
                assert(c.listed(a, x));
                assert(x != left && x != right);
                assert(free_head(b, t, x));
                assert(page_at(b, x).slice_count == page_at(a, x).slice_count);
            }
        }
        assert forall|x: PageId| #[trigger] free_head(b, t, x) implies detached.remove(right).contains(x) || c.listed(b, x) by {
            assert(free_head(a, t, x));
            lemma_head(a, t, x);
            if x != left {
                assert(page_at(b, x).slice_count == page_at(a, x).slice_count);
            }
        }
        lemma_head(b, t, left);
        assert(!c.listed(b, left)) by {
            if c.listed(b, left) {
                let k = bin_of(b, left);
                let i = choose|i: int| 0 <= i < c.lists@[k].len() && c.lists@[k][i] == left;
                assert(c.list_ok(a, k));
                assert(c.node_ok(a, k, i));
                assert(c.lists@[k].contains(left));
            }
        }
        assert forall|x: PageId| #[trigger] detached.remove(right).contains(x) implies free_head(b, t, x) && !c.listed(b, x) by {
            assert(detached.contains(x));
            assert(free_head(b, t, x));
            lemma_head(a, t, x);
            if x != left {
                assert(page_at(b, x).slice_count == page_at(a, x).slice_count);
            }
        }
        assert forall|x: PageId|
            owned(b, t, x.segment as int) && x.page < PAGES_PER_SEGMENT && !(free_head(b, t, x)
                && !detached.remove(right).contains(x)) implies (#[trigger] page_at(b, x)).unlinked() by {
            assert(owned(a, t, x.segment as int));
            assert(in_arena(a, x));
            assert(page_at(a, x).unlinked());
        }
    }
    assert(all_calm(b, t, detached.remove(right))) by {
        assert forall|x: PageId| head_at(b, t, x) implies #[trigger] calm(b, detached.remove(right), x) by {
            assert(head_at(a, t, x));
            lemma_head(a, t, x);
            assert(calm(a, detached, x));
            if x != left {
                assert(page_at(b, x).slice_count == page_at(a, x).slice_count);
                let y = PageId { segment: x.segment, page: (x.page + page_at(a, x).slice_count) as usize };
                if x.page + page_at(a, x).slice_count < PAGES_PER_SEGMENT {
                    assert(in_arena(a, y));
                    assert(page_at(b, y).block_size == page_at(a, y).block_size);
                    if y == right {
                        assert(g.head_ok(x.page as int));
                        assert(g.head_ok(l));
                        assert(false);
                    }
                }
            }
        }
    }
    assert(c.queues_ok(b, loose)) by {
        assert forall|k: int| 0 <= k < NUM_SIZE_CLASSES implies #[trigger] c.current_ok(b, loose, k) by {
            assert(c.current_ok(a, loose, k));
        }
        assert forall|k: int| 0 <= k <= NUM_SIZE_CLASSES implies #[trigger] c.queue_ok(b, loose, k) by {
            assert(c.queue_ok(a, loose, k));
        }
        assert forall|x: PageId| #[trigger] used_head(b, t, x) implies loose.contains(x) || c.queued(b, x) by {
            assert(used_head(a, t, x));
        }
    }
    lemma_used_kept_is_live_kept(a, b, t, s);
}

/// Where the pages that are cut into blocks stay as they are in the one segment that changed, the
/// blocks in somebody's hands stay the same.
proof fn lemma_used_kept_is_live_kept(a: Arena, b: Arena, t: usize, s: int)
    requires
        one_segment(a, b, s),
        owned(a, t, s),
        used_pages_kept(a, b, t),
        forall|x: PageId| #[trigger] used_head(b, t, x) ==> used_head(a, t, x),
    ensures
        same_live(a, b),
        others_kept(a, b, t),
{
    assert forall|id: PageId, block: int| #[trigger] live_block(b, id, block) <==> live_block(a, id, block) by {
        if id.segment == s {
            assert(owned(b, t, s));
            if live_block(b, id, block) {
                assert(used_head(b, t, id));
                assert(used_head(a, t, id));
            }
            if live_block(a, id, block) {
                assert(used_head(a, t, id));
            }
        }
    }
    assert forall|id: PageId, block: int| #[trigger] live_block(b, id, block) implies page_at(b, id).block_size == page_at(
        a,
        id,
    ).block_size by {
        if id.segment == s {
            assert(owned(b, t, s));
            if live_block(b, id, block) {
                assert(used_head(b, t, id));
                assert(used_head(a, t, id));
            }
            if live_block(a, id, block) {
                assert(used_head(a, t, id));
            }
        }
    }
}

/// The counters play no part in the invariant.
proof fn lemma_stats_apart(c: TCache, d: TCache, a: Arena, detached: Set<PageId>, loose: Set<PageId>)
    requires
        c.inv_with(a, detached, loose),
        d == (TCache { stats: d.stats, ..c }),
    ensures
        d.inv_with(a, detached, loose),
{
    assert forall|k: int| 0 <= k < SEGMENT_BINS implies #[trigger] d.list_ok(a, k) by {
        assert(c.list_ok(a, k));
        assert forall|i: int| 0 <= i < d.lists@[k].len() implies #[trigger] d.node_ok(a, k, i) by {
            assert(c.node_ok(a, k, i));
        }
    }
    assert forall|k: int| 0 <= k < NUM_SIZE_CLASSES implies #[trigger] d.current_ok(a, loose, k) by {
        assert(c.current_ok(a, loose, k));
    }
    assert forall|k: int| 0 <= k <= NUM_SIZE_CLASSES implies #[trigger] d.queue_ok(a, loose, k) by {
        assert(c.queue_ok(a, loose, k));
    }
}

/// A change of links keeps the pages that are cut into blocks: they have none.
proof fn lemma_links_keep_used(c: TCache, d: TCache, a: Arena, b: Arena, before: Set<PageId>, after: Set<PageId>)
    requires
        a.wf(),
        books(a, c.thread_id),
        same_but_links(a, b),
        c.spans_ok(a, before),
        d.spans_ok(b, after),
        d.thread_id == c.thread_id,
    ensures
        used_pages_kept(a, b, c.thread_id),
        forall|x: PageId| #[trigger] used_head(b, c.thread_id, x) ==> used_head(a, c.thread_id, x),
{
    let t = c.thread_id;
    lemma_links_keep_books(a, b, t, Set::empty());
    assert forall|x: PageId| #[trigger] used_head(a, t, x) implies used_head(b, t, x) && page_at(b, x) == page_at(a, x) by {
        lemma_head(a, t, x);
        assert(used_head(b, t, x));
        assert(page_at(a, x).unlinked());
        assert(page_at(b, x).unlinked());
        assert(same_but_links_seg(a.segments@[x.segment as int], b.segments@[x.segment as int]));
    }
}

/// The free slices of segment `s` that start before page `end`.
spec fn free_before(a: Arena, t: usize, s: int, end: int) -> Set<PageId> {
    Set::new(|x: PageId| free_head(a, t, x) && x.segment == s && x.page < end)
}

/// Once all free slices of a segment are detached, and its one used page is in no queue, the cache
/// can do without the segment.
#[verifier::rlimit(50)]
proof fn lemma_segment_retired(c: TCache, a: Arena, b: Arena, page: PageId)
    requires
        c.inv_with(
            a,
            free_before(a, c.thread_id, page.segment as int, PAGES_PER_SEGMENT as int),
            Set::empty().insert(page),
        ),
        page_at(a, page).used == 0,
        a.segments@[page.segment as int].allocated == page_at(a, page).slice_count,
        b.wf(),
        b.same_memory(a),
        b.segments == a.segments,
        b.used_bitmap@ == a.used_bitmap@.update(page.segment as int, 0u8),
    ensures
        c.inv(b),
        same_live(a, b),
        others_kept(a, b, c.thread_id),
        forall|x: PageId| #[trigger] used_head(b, c.thread_id, x) <==> used_head(a, c.thread_id, x) && x != page,
{
    let t = c.thread_id;
    let s = page.segment as int;
    let det = free_before(a, t, s, PAGES_PER_SEGMENT as int);
    let loose = Set::<PageId>::empty().insert(page);
    assert(loose.contains(page));
    assert(used_head(a, t, page));
    lemma_head(a, t, page);
    let g = a.segments@[s];
    assert forall|k: int| #[trigger] owned(b, t, k) == (owned(a, t, k) && k != s) by {}
    assert forall|x: PageId| #[trigger] head_at(b, t, x) == (head_at(a, t, x) && x.segment != s) by {
        assert(owned(b, t, x.segment as int) == (owned(a, t, x.segment as int) && x.segment != s));
    }
    assert forall|x: PageId| #[trigger] used_head(a, t, x) && x.segment == s implies x == page by {
        lemma_head(a, t, x);
        lemma_sole_used(g, page.page as int, x.page as int);
    }
    assert(forall|x: PageId| #[trigger] used_head(b, t, x) == (used_head(a, t, x) && x != page)) by {
        assert forall|x: PageId| #[trigger] used_head(b, t, x) == (used_head(a, t, x) && x != page) by {
            assert(head_at(b, t, x) == (head_at(a, t, x) && x.segment != s));
        }
    }
    assert forall|x: PageId| #[trigger] free_head(b, t, x) == (free_head(a, t, x) && !det.contains(x)) by {
        assert(head_at(b, t, x) == (head_at(a, t, x) && x.segment != s));
        if free_head(a, t, x) {
            lemma_head(a, t, x);
        }
    }
    assert(books(b, t)) by {
        assert forall|k: int| #[trigger] owned(b, t, k) implies seg_books(b.segments@[k], b.base(k)) by {
            assert(owned(a, t, k));
        }
    }
    assert(c.spans_ok(b, Set::empty())) by {
        assert forall|k: int| 0 <= k < SEGMENT_BINS implies #[trigger] c.list_ok(b, k) by {
            assert(c.list_ok(a, k));
            assert forall|i: int| 0 <= i < c.lists@[k].len() implies #[trigger] c.node_ok(b, k, i) by {
                assert(c.node_ok(a, k, i));
                let x = c.lists@[k][i];
                assert(c.lists@[k].contains(x));
                assert(c.listed(a, x));
                assert(!det.contains(x));
                assert(free_head(b, t, x));
            }
        }
        assert forall|x: PageId| #[trigger] free_head(b, t, x) implies c.listed(b, x) by {
            assert(free_head(a, t, x));
        }
        assert forall|x: PageId|
            owned(b, t, x.segment as int) && x.page < PAGES_PER_SEGMENT && !free_head(b, t, x) implies (
        #[trigger] page_at(b, x)).unlinked() by {
            assert(owned(a, t, x.segment as int));
            assert(page_at(a, x).unlinked());
        }
    }
    assert(all_calm(b, t, Set::empty())) by {
        assert forall|x: PageId| head_at(b, t, x) implies #[trigger] calm(b, Set::empty(), x) by {
            assert(head_at(a, t, x));
            assert(calm(a, det, x));
        }
    }
    assert(c.queues_ok(b, Set::empty())) by {
        assert forall|k: int| 0 <= k < NUM_SIZE_CLASSES implies #[trigger] c.current_ok(b, Set::empty(), k) by {
            assert(c.current_ok(a, loose, k));
        }
        assert forall|k: int| 0 <= k <= NUM_SIZE_CLASSES implies #[trigger] c.queue_ok(b, Set::empty(), k) by {
            assert(c.queue_ok(a, loose, k));
        }
        assert forall|x: PageId| #[trigger] used_head(b, t, x) implies c.queued(b, x) by {
            assert(used_head(a, t, x));
        }
    }
    assert forall|id: PageId, block: int| #[trigger] live_block(b, id, block) <==> live_block(a, id, block) by {
        if live_block(a, id, block) && id.segment == s {
            assert(used_head(a, t, id));
            page_at(a, id).lemma_unused_has_no_live();
        }
    }
    assert forall|id: PageId, block: int| #[trigger] live_block(b, id, block) implies page_at(b, id).block_size == page_at(
        a,
        id,
    ).block_size by {
        if live_block(a, id, block) && id.segment == s {
            assert(used_head(a, t, id));
            page_at(a, id).lemma_unused_has_no_live();
        }
    }
}

impl TCache {
    /// Gives a segment back to the arena: its free slices leave their spans. Only `page` was cut into
    /// blocks there, and it is unused.
    #[verifier::rlimit(50)]
    fn retire_segment(&mut self, arena: &mut Arena, segment: usize, Ghost(page): Ghost<PageId>)
        requires
            old(self).inv_with(*old(arena), Set::empty(), Set::empty().insert(page)),
            page.segment == segment,
            page_at(*old(arena), page).used == 0,
            old(arena).segments@[segment as int].allocated == page_at(*old(arena), page).slice_count,
        ensures
            final(self).inv(*final(arena)),
            same_live(*old(arena), *final(arena)),
            others_kept(*old(arena), *final(arena), old(self).thread_id),
            final(arena).used_bitmap@ == old(arena).used_bitmap@.update(segment as int, 0u8),
            forall|x: PageId| #[trigger] used_head(*final(arena), old(self).thread_id, x) <==> used_head(
                *old(arena),
                old(self).thread_id,
                x,
            ) && x != page,
            forall|x: PageId| #[trigger] used_head(*final(arena), old(self).thread_id, x) ==> page_at(*final(arena), x)
                == page_at(*old(arena), x),
            *final(self) == (TCache {
                spans: final(self).spans,
                lists: final(self).lists,
                stats: TCacheStats {
                    segments_retired: old(self).stats.segments_retired.wrapping_add(1),
                    ..old(self).stats
                },
                ..*old(self)
            }),
            final(self).lists@ == Seq::new(
                old(self).lists@.len(),
                |b: int| outside(old(self).lists@[b], segment as int),
            ),
    {
        self.stats.segments_retired = self.stats.segments_retired.wrapping_add(1);
        let ghost t = self.thread_id;
        let ghost a0 = *arena;
        let ghost s = segment as int;
        let ghost loose = Set::<PageId>::empty().insert(page);
        proof {
            assert(old(self).inv_with(a0, Set::empty(), loose));
            assert(loose.contains(page));
            assert(used_head(a0, t, page));
            lemma_head(a0, t, page);
            assert(free_before(a0, t, s, 0) =~= Set::empty());
            lemma_stats_apart(*old(self), *self, a0, Set::empty(), loose);
        }
        let mut slice_idx: usize = 0;
        while slice_idx < PAGES_PER_SEGMENT
            invariant
                t == self.thread_id,
                s == segment,
                page.segment == segment,
                a0.wf(),
                owned(a0, t, s),
                books(a0, t),
                same_but_links(a0, *arena),
                same_live(a0, *arena),
                others_kept(a0, *arena, t),
                used_pages_kept(a0, *arena, t),
                slice_idx <= PAGES_PER_SEGMENT,
                slice_idx < PAGES_PER_SEGMENT ==> a0.segments@[s].is_head(slice_idx as int),
                loose == Set::<PageId>::empty().insert(page),
                self.inv_with(*arena, free_before(a0, t, s, slice_idx as int), loose),
                self.lists@.len() == old(self).lists@.len(),
                forall|b: int| 0 <= b < SEGMENT_BINS ==> outside(#[trigger] self.lists@[b], s) == outside(
                    old(self).lists@[b],
                    s,
                ),
                *self == (TCache {
                    spans: self.spans,
                    lists: self.lists,
                    stats: TCacheStats {
                        segments_retired: old(self).stats.segments_retired.wrapping_add(1),
                        ..old(self).stats
                    },
                    ..*old(self)
                }),
            decreases PAGES_PER_SEGMENT - slice_idx,
        {
            let ghost det = free_before(a0, t, s, slice_idx as int);
            let ghost before = *arena;
            let id = PageId { segment, page: slice_idx };
            proof {
                lemma_links_keep_books(a0, before, t, Set::empty());
                assert(head_at(a0, t, id));
                assert(head_at(before, t, id) == head_at(a0, t, id));
                assert(free_head(before, t, id) == free_head(a0, t, id));
                lemma_head(a0, t, id);
                lemma_head(before, t, id);
                assert(page_at(before, id).block_size == page_at(a0, id).block_size);
            }
            if arena.segments[segment].pages[slice_idx].block_size == 0 {
                let ghost prior = *self;
                self.remove_slice_from_span(arena, id, Ghost(det), Ghost(loose));
                proof {
                    assert forall|b: int| 0 <= b < SEGMENT_BINS implies outside(#[trigger] self.lists@[b], s) == outside(
                        old(self).lists@[b],
                        s,
                    ) by {
                        let l = prior.lists@[b];
                        if l.contains(id) {
                            lemma_outside_dropped(l, s, l.index_of(id));
                        }
                        assert(outside(l, s) == outside(old(self).lists@[b], s));
                    }
                    lemma_links_keep_used(prior, *self, before, *arena, det, det.insert(id));
                    assert forall|x: PageId| #[trigger] used_head(a0, t, x) implies used_head(*arena, t, x) && page_at(
                        *arena,
                        x,
                    ) == page_at(a0, x) by {
                        assert(used_head(before, t, x));
                    }
                }
            }
            let count: usize = arena.segments[segment].pages[slice_idx].slice_count;
            proof {
                assert(same_but_links_seg(before.segments@[s], arena.segments@[s]));
                assert(same_but_links_seg(a0.segments@[s], before.segments@[s]));
                assert(page_at(*arena, id).slice_count == page_at(a0, id).slice_count);
                let after = free_before(a0, t, s, slice_idx + count);
                assert(after =~= if free_head(a0, t, id) { det.insert(id) } else { det }) by {
                    assert forall|x: PageId| #[trigger] after.contains(x) implies x == id || det.contains(x) by {
                        lemma_head(a0, t, x);
                    }
                }
            }
            slice_idx = slice_idx + count;
        }
        let ghost mid = *arena;
        proof {
            lemma_links_keep_books(a0, mid, t, Set::empty());
            assert(free_before(mid, t, s, PAGES_PER_SEGMENT as int) =~= free_before(a0, t, s, PAGES_PER_SEGMENT as int)) by {
                assert forall|x: PageId| free_head(mid, t, x) == free_head(a0, t, x) by {}
            }
            assert(same_but_links_seg(a0.segments@[s], mid.segments@[s]));
            arena.lemma_base_bounds(s);
        }
        let base: usize = arena.slices[segment].ptr;
        arena.retire_segment(base);
        proof {
            assert(base == mid.base(s));
            lemma_segment_retired(*self, mid, *arena, page);
            assert forall|b: int| 0 <= b < SEGMENT_BINS implies #[trigger] self.lists@[b] == outside(
                old(self).lists@[b],
                s,
            ) by {
                let l = self.lists@[b];
                assert(self.list_ok(*arena, b));
                assert forall|i: int| 0 <= i < l.len() implies (#[trigger] l[i]).segment != s by {
                    assert(self.node_ok(*arena, b, i));
                    assert(owned(*arena, t, l[i].segment as int));
                }
                lemma_all_outside(l, s);
            }
            assert(self.lists@ =~= Seq::new(old(self).lists@.len(), |b: int| outside(old(self).lists@[b], s)));
        }
    }
}

/// The spans without slice `id`.
pub open spec fn unlisted(lists: Seq<Seq<PageId>>, id: PageId) -> Seq<Seq<PageId>> {
    Seq::new(lists.len(), |b: int| dropped(lists[b], id))
}

/// The spans with slice `id`, of `n` pages, at the end of its own.
pub open spec fn enlisted(lists: Seq<Seq<PageId>>, id: PageId, n: int) -> Seq<Seq<PageId>> {
    let b = floor_log2(n as nat) as int;
    lists.update(b, lists[b].push(id))
}

/// A slice is in no span but its own.
proof fn lemma_unlisted(c: TCache, a: Arena, detached: Set<PageId>, id: PageId)
    requires
        c.spans_ok(a, detached),
        c.listed(a, id),
        0 <= bin_of(a, id) < SEGMENT_BINS,
    ensures
        unlisted(c.lists@, id) == c.lists@.update(
            bin_of(a, id),
            c.lists@[bin_of(a, id)].remove(c.lists@[bin_of(a, id)].index_of(id)),
        ),
{
    assert forall|b: int| 0 <= b < SEGMENT_BINS && b != bin_of(a, id) implies #[trigger] unlisted(c.lists@, id)[b]
        == c.lists@[b] by {
        let l = c.lists@[b];
        if l.contains(id) {
            let i = choose|i: int| 0 <= i < l.len() && l[i] == id;
            assert(c.list_ok(a, b));
            assert(c.node_ok(a, b, i));
        }
    }
    assert(unlisted(c.lists@, id) =~= c.lists@.update(
        bin_of(a, id),
        c.lists@[bin_of(a, id)].remove(c.lists@[bin_of(a, id)].index_of(id)),
    ));
}

/// The slices in `l` that do not lie in segment `s`, in order.
pub open spec fn outside(l: Seq<PageId>, s: int) -> Seq<PageId>
    decreases l.len(),
{
    if l.len() == 0 {
        l
    } else if l.last().segment == s {
        outside(l.drop_last(), s)
    } else {
        outside(l.drop_last(), s).push(l.last())
    }
}

/// Taking a slice of the segment out changes nothing for the others.
proof fn lemma_outside_dropped(l: Seq<PageId>, s: int, i: int)
    requires
        0 <= i < l.len(),
        l[i].segment == s,
    ensures
        outside(l.remove(i), s) == outside(l, s),
    decreases l.len(),
{
    if i < l.len() - 1 {
        lemma_outside_dropped(l.drop_last(), s, i);
        assert(l.remove(i).drop_last() =~= l.drop_last().remove(i));
        assert(l.remove(i).last() == l.last());
    } else {
        assert(l.remove(i) =~= l.drop_last());
    }
}

proof fn lemma_all_outside(l: Seq<PageId>, s: int)
    requires
        forall|i: int| 0 <= i < l.len() ==> (#[trigger] l[i]).segment != s,
    ensures
        outside(l, s) == l,
    decreases l.len(),
{
    if l.len() > 0 {
        assert forall|i: int| 0 <= i < l.drop_last().len() implies (#[trigger] l.drop_last()[i]).segment != s by {
            assert(l[i].segment != s);
        }
        lemma_all_outside(l.drop_last(), s);
        assert(l[l.len() - 1].segment != s);
        assert(outside(l, s) =~= l);
    }
}

/// A queue without `id`.
pub open spec fn dropped(q: Seq<PageId>, id: PageId) -> Seq<PageId> {
    if q.contains(id) {
        q.remove(q.index_of(id))
    } else {
        q
    }
}

proof fn lemma_dropped(q: Seq<PageId>, id: PageId)
    requires
        q.no_duplicates(),
    ensures
        dropped(q, id).no_duplicates(),
        forall|x: PageId| #[trigger] dropped(q, id).contains(x) <==> q.contains(x) && x != id,
{
    if q.contains(id) {
        let k = q.index_of(id);
        assert(q[k] == id);
        let r = q.remove(k);
        assert forall|i: int, j: int| 0 <= i < r.len() && 0 <= j < r.len() && i != j implies r[i] != r[j] by {
            let oi = if i >= k { i + 1 } else { i };
            let oj = if j >= k { j + 1 } else { j };
            assert(q[oi] != q[oj]);
        }
        assert forall|x: PageId| #[trigger] r.contains(x) <==> q.contains(x) && x != id by {
            if r.contains(x) {
                let i = choose|i: int| 0 <= i < r.len() && r[i] == x;
                let oi = if i >= k { i + 1 } else { i };
                assert(q[oi] == x);
            }
            if q.contains(x) && x != id {
                let i = choose|i: int| 0 <= i < q.len() && q[i] == x;
                let ri = if i > k { i - 1 } else { i };
                assert(r[ri] == x);
            }
        }
    }
}

/// Cache `d` is `c` with page `id` taken out of its queue.
pub open spec fn dequeued(c: TCache, d: TCache, a: Arena, id: PageId) -> bool {
    let k = queue_of(page_at(a, id).block_size as int);
    &&& d.used_pages@.len() == c.used_pages@.len()
    &&& forall|i: int| 0 <= i <= NUM_SIZE_CLASSES ==> (#[trigger] d.used_pages@[i])@ == (if i == k {
        dropped(c.used_pages@[i]@, id)
    } else {
        c.used_pages@[i]@
    })
    &&& forall|i: int| 0 <= i < NUM_SIZE_CLASSES ==> #[trigger] d.free_pages@[i] == (if c.free_pages@[i] == Some(id) {
        None
    } else {
        c.free_pages@[i]
    })
}

/// A page that leaves its queue is loose.
#[verifier::rlimit(50)]
proof fn lemma_dequeued(c: TCache, d: TCache, a: Arena, id: PageId, detached: Set<PageId>, loose: Set<PageId>)
    requires
        c.inv_with(a, detached, loose),
        used_head(a, c.thread_id, id),
        dequeued(c, d, a, id),
        d.spans == c.spans,
        d.lists == c.lists,
        d.thread_id == c.thread_id,
    ensures
        d.inv_with(a, detached, loose.insert(id)),
{
    let t = c.thread_id;
    let k = queue_of(page_at(a, id).block_size as int);
    lemma_queue_in_range(page_at(a, id).block_size as int);
    assert forall|i: int| 0 <= i < SEGMENT_BINS implies #[trigger] d.list_ok(a, i) by {
        assert(c.list_ok(a, i));
        assert forall|j: int| 0 <= j < d.lists@[i].len() implies #[trigger] d.node_ok(a, i, j) by {
            assert(c.node_ok(a, i, j));
        }
    }
    assert(c.queue_ok(a, loose, k));
    lemma_dropped(c.used_pages@[k]@, id);
    assert forall|i: int| 0 <= i < NUM_SIZE_CLASSES implies #[trigger] d.current_ok(a, loose.insert(id), i) by {
        assert(c.current_ok(a, loose, i));
        assert(d.used_pages@[i]@ == if i == k { dropped(c.used_pages@[i]@, id) } else { c.used_pages@[i]@ });
    }
    assert forall|i: int| 0 <= i <= NUM_SIZE_CLASSES implies #[trigger] d.queue_ok(a, loose.insert(id), i) by {
        assert(c.queue_ok(a, loose, i));
        let q = d.used_pages@[i]@;
        assert forall|j: int| 0 <= j < q.len() implies used_head(a, t, #[trigger] q[j]) && queue_of(
            page_at(a, q[j]).block_size as int,
        ) == i && (i < NUM_SIZE_CLASSES ==> page_at(a, q[j]).block_size == class_size(i)) && !loose.insert(
            id,
        ).contains(q[j]) by {
            assert(q.contains(q[j]));
            assert(c.used_pages@[i]@.contains(q[j]));
            let m = choose|m: int| 0 <= m < c.used_pages@[i]@.len() && c.used_pages@[i]@[m] == q[j];
            assert(used_head(a, t, c.used_pages@[i]@[m]));
        }
    }
    assert forall|x: PageId| #[trigger] used_head(a, t, x) implies loose.insert(id).contains(x) || d.queued(a, x) by {
        if x != id && !loose.contains(x) {
            assert(c.queued(a, x));
            let i = queue_of(page_at(a, x).block_size as int);
            lemma_queue_in_range(page_at(a, x).block_size as int);
            assert(d.used_pages@[i]@ == if i == k { dropped(c.used_pages@[i]@, id) } else { c.used_pages@[i]@ });
        }
    }
    assert forall|x: PageId| #[trigger] loose.insert(id).contains(x) implies used_head(a, t, x) by {
        if x != id {
            assert(loose.contains(x));
        }
    }
}

proof fn lemma_queue_in_range(block_size: int)
    ensures
        0 <= queue_of(block_size) <= NUM_SIZE_CLASSES,
{
    lemma_size_class_nonneg(block_size);
}

/// Taking the blocks off an unused page keeps everything; the page is then a detached free slice.
#[verifier::rlimit(50)]
proof fn lemma_freed(c: TCache, a: Arena, b: Arena, id: PageId)
    requires
        c.inv_with(a, Set::empty(), Set::empty().insert(id)),
        page_at(a, id).used == 0,
        one_segment(a, b, id.segment as int),
        ({
            let g = a.segments@[id.segment as int];
            let h = b.segments@[id.segment as int];
            let n = page_at(a, id).slice_count;
            &&& h.allocated == g.allocated - n
            &&& h.num_slices == g.num_slices
            &&& h.heads == g.heads
            &&& h.in_use@ == g.in_use@.difference(vstd::set_lib::set_int_range(id.page as int, id.page + n))
            &&& h.pages@ == g.pages@.update(id.page as int, Page { block_size: 0, ..page_at(a, id) })
        }),
    ensures
        c.inv_with(b, Set::empty().insert(id), Set::empty()),
        same_live(a, b),
        others_kept(a, b, c.thread_id),
        forall|x: PageId| #[trigger] used_head(b, c.thread_id, x) <==> used_head(a, c.thread_id, x) && x != id,
        forall|x: PageId| #[trigger] used_head(b, c.thread_id, x) ==> page_at(b, x) == page_at(a, x),
{
    let t = c.thread_id;
    let s = id.segment as int;
    let p = id.page as int;
    let g = a.segments@[s];
    let h = b.segments@[s];
    let n = g.count(p);
    let det = Set::<PageId>::empty().insert(id);
    assert(det.contains(id));
    assert(used_head(a, t, id));
    lemma_head(a, t, id);
    page_at(a, id).lemma_unused_has_no_live();
    assert forall|k: int| #[trigger] owned(b, t, k) == owned(a, t, k) by {}
    assert(seg_books(h, b.base(s))) by {
        let range = vstd::set_lib::set_int_range(p, p + n);
        vstd::set_lib::lemma_int_range(p, p + n);
        assert(g.use_ok(p));
        assert(range.subset_of(g.in_use@));
        vstd::set_lib::lemma_set_difference_len(g.in_use@, range);
        assert(g.in_use@.intersect(range) =~= range);
        assert forall|q: int| h.is_head(q) implies #[trigger] h.head_ok(q) by {
            assert(g.head_ok(q));
        }
        assert forall|q: int| h.is_head(q) implies #[trigger] h.use_ok(q) by {
            assert(g.use_ok(q));
            assert(g.head_ok(q));
        }
        assert forall|q: int| 0 <= q < PAGES_PER_SEGMENT implies #[trigger] page_books(h, q) by {
            assert(page_books(g, q));
        }
        assert(h.placed(b.base(s))) by {
            assert forall|q: int| 0 <= q < PAGES_PER_SEGMENT implies #[trigger] h.pages@[q].page_start == b.base(s)
                + FIRST_PAGE_OFFSET + q * PAGE_SIZE by {
                assert(g.pages@[q].page_start == b.base(s) + FIRST_PAGE_OFFSET + q * PAGE_SIZE);
            }
        }
    }
    assert(books(b, t)) by {
        assert forall|k: int| #[trigger] owned(b, t, k) implies seg_books(b.segments@[k], b.base(k)) by {
            assert(owned(a, t, k));
        }
    }
    assert(b.wf());
    assert forall|x: PageId| #[trigger] head_at(b, t, x) == head_at(a, t, x) by {
        assert(owned(b, t, x.segment as int) == owned(a, t, x.segment as int));
    }
    assert forall|x: PageId| in_arena(a, x) implies #[trigger] page_at(b, x) == (if x == id {
        Page { block_size: 0, ..page_at(a, id) }
    } else {
        page_at(a, x)
    }) by {}
    assert forall|x: PageId| #[trigger] free_head(b, t, x) == (free_head(a, t, x) || x == id) by {
        assert(head_at(b, t, x) == head_at(a, t, x));
        if head_at(a, t, x) {
            lemma_head(a, t, x);
            assert(page_at(b, x).block_size == if x == id { 0 } else { page_at(a, x).block_size });
        }
    }
    assert forall|x: PageId| #[trigger] used_head(b, t, x) == (used_head(a, t, x) && x != id) by {
        assert(head_at(b, t, x) == head_at(a, t, x));
        if head_at(a, t, x) {
            lemma_head(a, t, x);
            assert(page_at(b, x).block_size == if x == id { 0 } else { page_at(a, x).block_size });
        }
    }
    assert forall|x: PageId| #[trigger] used_head(b, t, x) implies page_at(b, x) == page_at(a, x) by {
        assert(used_head(a, t, x));
        lemma_head(a, t, x);
    }
    assert(c.spans_ok(b, det)) by {
        assert forall|k: int| 0 <= k < SEGMENT_BINS implies #[trigger] c.list_ok(b, k) by {
            assert(c.list_ok(a, k));
            assert forall|i: int| 0 <= i < c.lists@[k].len() implies #[trigger] c.node_ok(b, k, i) by {
                assert(c.node_ok(a, k, i));
                lemma_head(a, t, c.lists@[k][i]);
            }
        }
        assert forall|x: PageId| #[trigger] free_head(b, t, x) implies det.contains(x) || c.listed(b, x) by {
            if x != id {
                assert(free_head(a, t, x));
                lemma_head(a, t, x);
            }
        }
        assert(!c.listed(b, id)) by {
            if c.listed(b, id) {
                let k = bin_of(b, id);
                let i = choose|i: int| 0 <= i < c.lists@[k].len() && c.lists@[k][i] == id;
                assert(c.list_ok(a, k));
                assert(c.node_ok(a, k, i));
            }
        }
        assert forall|x: PageId| #[trigger] det.contains(x) implies free_head(b, t, x) && !c.listed(b, x) by {}
        assert forall|x: PageId|
            owned(b, t, x.segment as int) && x.page < PAGES_PER_SEGMENT && !(free_head(b, t, x) && !det.contains(x))
            implies (#[trigger] page_at(b, x)).unlinked() by {
            assert(owned(a, t, x.segment as int));
            assert(in_arena(a, x));
            assert(page_at(a, x).unlinked());
        }
    }
    assert(all_calm(b, t, det)) by {
        assert forall|x: PageId| head_at(b, t, x) implies #[trigger] calm(b, det, x) by {
            assert(head_at(a, t, x));
            lemma_head(a, t, x);
            assert(calm(a, Set::empty(), x));
            if x.page + page_at(a, x).slice_count < PAGES_PER_SEGMENT {
                let y = PageId { segment: x.segment, page: (x.page + page_at(a, x).slice_count) as usize };
                assert(in_arena(a, y));
                assert(page_at(b, y).block_size == if y == id { 0 } else { page_at(a, y).block_size });
            }
        }
    }
    assert(c.queues_ok(b, Set::empty())) by {
        let loose = Set::<PageId>::empty().insert(id);
        assert forall|k: int| 0 <= k < NUM_SIZE_CLASSES implies #[trigger] c.current_ok(b, Set::empty(), k) by {
            assert(c.current_ok(a, loose, k));
        }
        assert forall|k: int| 0 <= k <= NUM_SIZE_CLASSES implies #[trigger] c.queue_ok(b, Set::empty(), k) by {
            assert(c.queue_ok(a, loose, k));
        }
        assert forall|x: PageId| #[trigger] used_head(b, t, x) implies c.queued(b, x) by {
            assert(used_head(a, t, x));
        }
    }
    assert forall|x: PageId, block: int| #[trigger] live_block(b, x, block) <==> live_block(a, x, block) by {
        if x.segment == s && g.is_head(x.page as int) {
            assert(head_at(a, t, x));
            lemma_head(a, t, x);
            assert(page_at(b, x) == if x == id { Page { block_size: 0, ..page_at(a, id) } } else { page_at(a, x) });
        }
    }
    assert forall|x: PageId, block: int| #[trigger] live_block(b, x, block) implies page_at(b, x).block_size == page_at(
        a,
        x,
    ).block_size by {
        if x.segment == s && g.is_head(x.page as int) {
            assert(head_at(a, t, x));
            lemma_head(a, t, x);
            assert(page_at(b, x) == if x == id { Page { block_size: 0, ..page_at(a, id) } } else { page_at(a, x) });
        }
    }
}

/// Slices were cut or joined, or moved between spans: nothing that is cut into blocks has changed.
pub open spec fn reshaped(a: Arena, b: Arena, t: usize) -> bool {
    &&& same_live(a, b)
    &&& others_kept(a, b, t)
    &&& b.used_bitmap == a.used_bitmap
    &&& forall|x: PageId| #[trigger] used_head(a, t, x) ==> used_head(b, t, x) && page_at(b, x) == page_at(a, x)
    &&& forall|x: PageId| #[trigger] used_head(b, t, x) ==> used_head(a, t, x)
    &&& forall|k: int| 0 <= k < a.segments@.len() ==> (#[trigger] b.segments@[k]).allocated == a.segments@[k].allocated
        && b.segments@[k].thread_id == a.segments@[k].thread_id
}

proof fn lemma_reshaped_trans(a: Arena, b: Arena, c: Arena, t: usize)
    requires
        reshaped(a, b, t),
        reshaped(b, c, t),
    ensures
        reshaped(a, c, t),
{
    assert forall|x: PageId| #[trigger] used_head(a, t, x) implies used_head(c, t, x) && page_at(c, x) == page_at(a, x) by {
        assert(used_head(b, t, x));
    }
    assert forall|x: PageId| #[trigger] used_head(c, t, x) implies used_head(a, t, x) by {
        assert(used_head(b, t, x));
    }
    lemma_same_live_trans(a, b, c);
    assert forall|k: int| 0 <= k < a.segments@.len() implies (#[trigger] c.segments@[k]).allocated == a.segments@[k].allocated
        && c.segments@[k].thread_id == a.segments@[k].thread_id by {
        assert(b.segments@[k].allocated == a.segments@[k].allocated);
    }
    lemma_others_kept_trans(a, b, c, t);
}

pub proof fn lemma_others_kept_trans(a: Arena, b: Arena, c: Arena, t: usize)
    requires
        others_kept(a, b, t),
        others_kept(b, c, t),
    ensures
        others_kept(a, c, t),
{
    assert forall|s: int| 0 <= s < a.segments@.len() && a.used_bitmap@[s] == 1 && a.segments@[s].thread_id != t
        implies #[trigger] c.segments@[s] == a.segments@[s] && c.used_bitmap@[s] == 1 by {
        assert(b.segments@[s] == a.segments@[s]);
        assert(b.used_bitmap@[s] == 1);
        assert(c.segments@[s] == b.segments@[s]);
    }
    assert forall|s: int|
        0 <= s < a.segments@.len() && #[trigger] c.used_bitmap@[s] == 1 && c.segments@[s].thread_id != t
        implies a.used_bitmap@[s] == 1 && a.segments@[s].thread_id == c.segments@[s].thread_id by {
        assert(b.used_bitmap@[s] == 1);
    }
}

/// A change of links leaves the blocks alone.
proof fn lemma_links_reshape(c: TCache, d: TCache, a: Arena, b: Arena, before: Set<PageId>, after: Set<PageId>)
    requires
        a.wf(),
        books(a, c.thread_id),
        same_but_links(a, b),
        same_live(a, b),
        others_kept(a, b, c.thread_id),
        c.spans_ok(a, before),
        d.spans_ok(b, after),
        d.thread_id == c.thread_id,
    ensures
        reshaped(a, b, c.thread_id),
{
    lemma_links_keep_used(c, d, a, b, before, after);
    assert forall|k: int| 0 <= k < a.segments@.len() implies (#[trigger] b.segments@[k]).allocated == a.segments@[k].allocated
        && b.segments@[k].thread_id == a.segments@[k].thread_id by {
        assert(same_but_links_seg(a.segments@[k], b.segments@[k]));
    }
}

/// The slices are of the same shape.
pub open spec fn same_shape(before: Page, after: Page) -> bool {
    &&& after.slice_count == before.slice_count
    &&& after.slice_offset == before.slice_offset
    &&& after.block_size == before.block_size
}

/// The slice on the right of `id`.
pub open spec fn right_neighbour(a: Arena, id: PageId) -> PageId {
    PageId { segment: id.segment, page: (id.page + page_at(a, id).slice_count) as usize }
}

/// The slice on the left of `id`.
pub open spec fn left_neighbour(a: Arena, id: PageId) -> PageId {
    PageId { segment: id.segment, page: a.segments@[id.segment as int].left_of(id.page as int) as usize }
}

/// The spans once `id` is joined with the slice on its right, if that is free.
pub open spec fn lists_joined_right(c: TCache, a: Arena, id: PageId) -> Seq<Seq<PageId>> {
    if free_head(a, c.thread_id, right_neighbour(a, id)) {
        unlisted(c.lists@, right_neighbour(a, id))
    } else {
        c.lists@
    }
}

/// How many pages `id` has once it is joined with the slice on its right, if that is free.
pub open spec fn count_joined_right(c: TCache, a: Arena, id: PageId) -> int {
    if free_head(a, c.thread_id, right_neighbour(a, id)) {
        page_at(a, id).slice_count + page_at(a, right_neighbour(a, id)).slice_count
    } else {
        page_at(a, id).slice_count as int
    }
}

/// The spans once `id`, of `n` pages, is joined with the slice on its left, if that is free, and at the
/// end of its span.
pub open spec fn lists_joined_left(a: Arena, t: usize, id: PageId, lists: Seq<Seq<PageId>>, n: int) -> Seq<
    Seq<PageId>,
> {
    let left = left_neighbour(a, id);
    if id.page > 0 && free_head(a, t, left) {
        enlisted(unlisted(lists, left), left, page_at(a, left).slice_count + n)
    } else {
        enlisted(lists, id, n)
    }
}

/// The spans once page `id` is retired: those of its segment leave with it where it was the last one of
/// that; else it is joined with its free neighbours, and the result is at the end of its span.
pub open spec fn lists_retired(c: TCache, a: Arena, id: PageId) -> Seq<Seq<PageId>> {
    if a.segments@[id.segment as int].allocated == page_at(a, id).slice_count {
        Seq::new(c.lists@.len(), |b: int| outside(c.lists@[b], id.segment as int))
    } else {
        lists_joined_left(a, c.thread_id, id, lists_joined_right(c, a, id), count_joined_right(c, a, id))
    }
}

/// What retiring page `id` does: the page is cut into blocks no more, and its segment goes back to
/// the arena where no other page of it is.
pub open spec fn page_retired(c: TCache, d: TCache, a: Arena, b: Arena, id: PageId) -> bool {
    let t = c.thread_id;
    let s = id.segment as int;
    let last = a.segments@[s].allocated == page_at(a, id).slice_count;
    &&& same_live(a, b)
    &&& others_kept(a, b, t)
    &&& forall|x: PageId| #[trigger] used_head(b, t, x) ==> used_head(a, t, x) && x != id && page_at(b, x) == page_at(a, x)
    &&& forall|x: PageId| #[trigger] used_head(a, t, x) && x != id ==> used_head(b, t, x)
    &&& last ==> b.used_bitmap@ == a.used_bitmap@.update(s, 0u8)
    &&& !last ==> b.used_bitmap == a.used_bitmap && b.segments@[s].allocated == a.segments@[s].allocated - page_at(
        a,
        id,
    ).slice_count
    &&& dequeued(c, d, a, id)
    &&& d.lists@ == lists_retired(c, a, id)
    &&& d.thread_id == c.thread_id
    &&& d.stats == (TCacheStats {
        pages_retired: c.stats.pages_retired.wrapping_add(1),
        segments_retired: if last {
            c.stats.segments_retired.wrapping_add(1)
        } else {
            c.stats.segments_retired
        },
        ..c.stats
    })
}

/// What a counter that wraps shows for `n`.
pub open spec fn wrapped(n: int) -> usize {
    (n % (usize::MAX + 1)) as usize
}

proof fn lemma_wrapped(n: int, m: int)
    ensures
        wrapped(wrapped(n) + m) == wrapped(n + m),
{
    vstd::arithmetic::div_mod::lemma_mod_bound(n, usize::MAX + 1);
    vstd::arithmetic::div_mod::lemma_add_mod_noop(n, m, usize::MAX + 1);
    vstd::arithmetic::div_mod::lemma_add_mod_noop(n % (usize::MAX + 1), m, usize::MAX + 1);
    vstd::arithmetic::div_mod::lemma_mod_twice(n, usize::MAX + 1);
}

proof fn lemma_wrapped_once(n: usize)
    ensures
        wrapped(n as int) == n,
        wrapped(n + 1) == n.wrapping_add(1),
{
    vstd::arithmetic::div_mod::lemma_small_mod(n as nat, (usize::MAX + 1) as nat);
    if n < usize::MAX {
        vstd::arithmetic::div_mod::lemma_small_mod((n + 1) as nat, (usize::MAX + 1) as nat);
    } else {
        vstd::arithmetic::div_mod::lemma_mod_self_0(usize::MAX + 1);
    }
}

/// How many segments are handed out.
pub open spec fn segments_out(bits: Seq<u8>) -> int
    decreases bits.len(),
{
    if bits.len() == 0 {
        0
    } else {
        segments_out(bits.drop_last()) + (if bits.last() == 1 {
            1int
        } else {
            0
        })
    }
}

proof fn lemma_segment_back(bits: Seq<u8>, s: int)
    requires
        0 <= s < bits.len(),
        bits[s] == 1,
    ensures
        segments_out(bits.update(s, 0)) == segments_out(bits) - 1,
    decreases bits.len(),
{
    let after = bits.update(s, 0);
    if s < bits.len() - 1 {
        lemma_segment_back(bits.drop_last(), s);
        assert(after.drop_last() =~= bits.drop_last().update(s, 0));
    } else {
        assert(after.drop_last() =~= bits.drop_last());
    }
}

/// How many of the first `n` classes have a current page.
pub open spec fn current_pages(c: TCache, n: int) -> int
    decreases n,
{
    if n <= 0 {
        0
    } else {
        current_pages(c, n - 1) + (if c.free_pages@[n - 1] is Some {
            1int
        } else {
            0
        })
    }
}

/// How many pages the first `n` queues hold.
pub open spec fn queued_pages(c: TCache, n: int) -> int
    decreases n,
{
    if n <= 0 {
        0
    } else {
        queued_pages(c, n - 1) + c.used_pages@[n - 1]@.len()
    }
}

/// How many pages of the cache are cut into blocks.
pub open spec fn pages_in(c: TCache) -> int {
    current_pages(c, NUM_SIZE_CLASSES as int) + queued_pages(c, NUM_SIZE_CLASSES + 1)
}

proof fn lemma_dequeued_count(c: TCache, d: TCache, a: Arena, id: PageId)
    requires
        c.inv(a),
        used_head(a, c.thread_id, id),
        dequeued(c, d, a, id),
    ensures
        pages_in(d) == pages_in(c) - 1,
{
    let k = queue_of(page_at(a, id).block_size as int);
    lemma_queue_in_range(page_at(a, id).block_size as int);
    assert(c.queued(a, id));
    reveal_with_fuel(current_pages, 6);
    reveal_with_fuel(queued_pages, 7);
    if k < NUM_SIZE_CLASSES && c.free_pages@[k] == Some(id) {
        lemma_current_alone(c, a, k, id);
        assert forall|i: int| 0 <= i <= NUM_SIZE_CLASSES implies (#[trigger] d.used_pages@[i])@ == c.used_pages@[i]@ by {
            assert(!c.used_pages@[i]@.contains(id));
        }
    } else {
        let q = c.used_pages@[k]@;
        assert(q.contains(id));
        let n = choose|n: int| 0 <= n < q.len() && q[n] == id;
        lemma_queued_alone(c, a, k, n);
        assert(c.queue_ok(a, Set::empty(), k));
        lemma_dropped(q, id);
        assert(d.used_pages@[k]@.len() == q.len() - 1);
    }
}

/// The slice on the right of `id` is not free.
spec fn settled_right(a: Arena, id: PageId) -> bool {
    let n = id.page + page_at(a, id).slice_count;
    n < PAGES_PER_SEGMENT ==> a.segments@[id.segment as int].pages@[n].block_size != 0
}

/// The slice on the left of `id` is not free.
spec fn settled_left(a: Arena, id: PageId) -> bool {
    let g = a.segments@[id.segment as int];
    id.page > 0 ==> g.pages@[g.left_of(id.page as int)].block_size != 0
}

/// A slice between used ones can go to its span.
proof fn lemma_settled(a: Arena, t: usize, id: PageId)
    requires
        a.wf(),
        books(a, t),
        free_head(a, t, id),
        all_calm(a, t, Set::empty().insert(id)),
        settled_right(a, id),
        settled_left(a, id),
    ensures
        all_calm(a, t, Set::empty().insert(id).remove(id)),
{
    let det = Set::<PageId>::empty().insert(id);
    lemma_head(a, t, id);
    assert forall|x: PageId| head_at(a, t, x) implies #[trigger] calm(a, det.remove(id), x) by {
        lemma_head(a, t, x);
        assert(calm(a, det, x));
    }
}

impl TCache {
    /// Takes a page out of the queue of its class.
    fn remove_page_from_used_queue(&mut self, arena: &Arena, id: PageId)
        requires
            old(self).used_pages@.len() == NUM_SIZE_CLASSES + 1,
            arena.wf(),
            in_arena(*arena, id),
            old(self).used_pages@[queue_of(page_at(*arena, id).block_size as int)]@.no_duplicates(),
        ensures
            *final(self) == (TCache { used_pages: final(self).used_pages, ..*old(self) }),
            final(self).used_pages@.len() == NUM_SIZE_CLASSES + 1,
            forall|i: int| 0 <= i <= NUM_SIZE_CLASSES ==> (#[trigger] final(self).used_pages@[i])@ == (if i == queue_of(
                page_at(*arena, id).block_size as int,
            ) {
                dropped(old(self).used_pages@[i]@, id)
            } else {
                old(self).used_pages@[i]@
            }),
    {
        let block_size: usize = arena.segments[id.segment].pages[id.page].block_size;
        let mut size_class: usize = Self::get_size_class(block_size);
        if size_class >= NUM_SIZE_CLASSES {
            size_class = NUM_SIZE_CLASSES;
        }
        let ghost q = self.used_pages@[size_class as int]@;
        let len: usize = self.used_pages[size_class].len();
        let mut i: usize = 0;
        while i < len
            invariant
                *self == *old(self),
                self.used_pages@.len() == NUM_SIZE_CLASSES + 1,
                size_class <= NUM_SIZE_CLASSES,
                size_class == queue_of(page_at(*arena, id).block_size as int),
                q == self.used_pages@[size_class as int]@,
                q.no_duplicates(),
                len == q.len(),
                i <= len,
                forall|j: int| 0 <= j < i ==> q[j] != id,
            decreases len - i,
        {
            if self.used_pages[size_class][i] == id {
                self.used_pages[size_class].remove(i);
                proof {
                    assert(q[i as int] == id);
                    assert(q.contains(id));
                    assert(q.index_of(id) == i) by {
                        assert(q[q.index_of(id)] == id);
                    }
                    assert(self.used_pages@[size_class as int]@ =~= dropped(q, id));
                }
                return;
            }
            i = i + 1;
        }
    }

    /// Makes a page no longer the current one of its class.
    fn remove_page_from_free_queue(&mut self, arena: &Arena, id: PageId)
        requires
            arena.wf(),
            in_arena(*arena, id),
            forall|i: int| 0 <= i < NUM_SIZE_CLASSES && #[trigger] old(self).free_pages@[i] == Some(id) ==> queue_of(
                page_at(*arena, id).block_size as int,
            ) == i,
        ensures
            *final(self) == (TCache { free_pages: final(self).free_pages, ..*old(self) }),
            forall|i: int| 0 <= i < NUM_SIZE_CLASSES ==> #[trigger] final(self).free_pages@[i] == (if old(
                self,
            ).free_pages@[i] == Some(id) {
                None
            } else {
                old(self).free_pages@[i]
            }),
    {
        let block_size: usize = arena.segments[id.segment].pages[id.page].block_size;
        let size_class: usize = Self::get_size_class(block_size);
        if size_class < NUM_SIZE_CLASSES {
            if let Some(current) = self.free_pages[size_class] {
                if current == id {
                    self.free_pages[size_class] = None;
                }
            }
        }
    }

    /// Joins a detached slice with the slice on its right, if that is free.
    #[verifier::rlimit(50)]
    fn join_next(&mut self, arena: &mut Arena, id: PageId)
        requires
            old(self).inv_with(*old(arena), Set::empty().insert(id), Set::empty()),
        ensures
            final(self).inv_with(*final(arena), Set::empty().insert(id), Set::empty()),
            settled_right(*final(arena), id),
            reshaped(*old(arena), *final(arena), old(self).thread_id),
            *final(self) == (TCache { spans: final(self).spans, lists: final(self).lists, ..*old(self) }),
            final(self).lists@ == lists_joined_right(*old(self), *old(arena), id),
            page_at(*final(arena), id).slice_count == count_joined_right(*old(self), *old(arena), id),
            forall|p: int| 0 <= p < id.page ==> same_shape(
                old(arena).segments@[id.segment as int].pages@[p],
                #[trigger] final(arena).segments@[id.segment as int].pages@[p],
            ),
            forall|p: int| 0 <= p < id.page ==> #[trigger] final(arena).segments@[id.segment as int].is_head(p) == old(
                arena,
            ).segments@[id.segment as int].is_head(p),
    {
        let ghost t = self.thread_id;
        let ghost det = Set::<PageId>::empty().insert(id);
        let ghost a0 = *arena;
        proof {
            assert(det.contains(id));
            assert(free_head(a0, t, id));
            lemma_head(a0, t, id);
        }
        let count: usize = arena.segments[id.segment].pages[id.page].slice_count;
        let index: usize = id.page + count;
        proof {
            let right = right_neighbour(a0, id);
            assert(right == PageId { segment: id.segment, page: index });
            if free_head(a0, t, right) {
                lemma_head(a0, t, right);
            }
        }
        if index < PAGES_PER_SEGMENT {
            let next = PageId { segment: id.segment, page: index };
            if arena.segments[id.segment].pages[index].block_size == 0 {
                proof {
                    assert(head_at(a0, t, next));
                    assert(free_head(a0, t, next));
                    lemma_head(a0, t, next);
                    assert(calm(a0, det, next));
                }
                self.remove_slice_from_span(arena, next, Ghost(det), Ghost(Set::empty()));
                let ghost c1 = *self;
                let ghost a1 = *arena;
                proof {
                    lemma_links_reshape(*old(self), c1, a0, a1, det, det.insert(next));
                    lemma_links_keep_books(a0, a1, t, det);
                    assert(same_but_links_seg(a0.segments@[id.segment as int], a1.segments@[id.segment as int]));
                    assert(head_at(a1, t, id));
                    assert(head_at(a1, t, next));
                    lemma_head(a1, t, id);
                    lemma_head(a1, t, next);
                    assert(page_at(a1, id).slice_count == page_at(a0, id).slice_count);
                    assert(page_at(a1, next).slice_count == page_at(a0, next).slice_count);
                }
                arena.segments[id.segment].coalesce_slices(id.page, index);
                proof {
                    assert(arena.segments@ =~= a1.segments@.update(
                        id.segment as int,
                        arena.segments@[id.segment as int],
                    ));
                    assert(one_segment(a1, *arena, id.segment as int));
                    lemma_coalesced(c1, a1, *arena, id, next, det.insert(next), Set::empty());
                    assert(det.insert(next).remove(next) =~= det);
                    assert(reshaped(a1, *arena, t));
                    lemma_reshaped_trans(a0, a1, *arena, t);
                    let n = index + page_at(a0, next).slice_count;
                    if n < PAGES_PER_SEGMENT {
                        let g0 = a0.segments@[id.segment as int];
                        let g1 = a1.segments@[id.segment as int];
                        let g2 = arena.segments@[id.segment as int];
                        assert(g1.pages@[n].block_size == g0.pages@[n].block_size);
                        assert(segment::same_but_shape(g1.pages@[n], g2.pages@[n]));
                        let y = PageId { segment: id.segment, page: n as usize };
                        assert(page_at(a0, y).block_size != 0);
                    }
                }
            }
        }
    }

    /// Joins a detached slice with the slice on its left, if that is free, and puts the result in its
    /// span.
    #[verifier::rlimit(50)]
    fn join_previous(&mut self, arena: &mut Arena, id: PageId)
        requires
            old(self).inv_with(*old(arena), Set::empty().insert(id), Set::empty()),
            settled_right(*old(arena), id),
        ensures
            final(self).inv(*final(arena)),
            reshaped(*old(arena), *final(arena), old(self).thread_id),
            *final(self) == (TCache { spans: final(self).spans, lists: final(self).lists, ..*old(self) }),
            final(self).lists@ == lists_joined_left(
                *old(arena),
                old(self).thread_id,
                id,
                old(self).lists@,
                page_at(*old(arena), id).slice_count as int,
            ),
    {
        let ghost t = self.thread_id;
        let ghost det = Set::<PageId>::empty().insert(id);
        let ghost a0 = *arena;
        let ghost s = id.segment as int;
        let ghost g0 = a0.segments@[s];
        proof {
            assert(det.contains(id));
            assert(free_head(a0, t, id));
            lemma_head(a0, t, id);
        }
        if id.page > 0 {
            let offset: usize = arena.segments[id.segment].pages[id.page - 1].slice_offset;
            assert(g0.left_of(id.page as int) >= 0);
            let previous = PageId { segment: id.segment, page: id.page - 1 - offset };
            if arena.segments[id.segment].pages[previous.page].block_size == 0 {
                proof {
                    assert(head_at(a0, t, previous));
                    assert(free_head(a0, t, previous));
                    lemma_head(a0, t, previous);
                    if previous.page > 0 {
                        let left = PageId {
                            segment: id.segment,
                            page: g0.left_of(previous.page as int) as usize,
                        };
                        assert(head_at(a0, t, left));
                        lemma_head(a0, t, left);
                        assert(calm(a0, det, left));
                        assert(page_at(a0, left).block_size != 0);
                    }
                }
                self.remove_slice_from_span(arena, previous, Ghost(det), Ghost(Set::empty()));
                let ghost c1 = *self;
                let ghost a1 = *arena;
                let ghost g1 = a1.segments@[s];
                proof {
                    lemma_links_reshape(*old(self), c1, a0, a1, det, det.insert(previous));
                    lemma_links_keep_books(a0, a1, t, det);
                    assert(same_but_links_seg(g0, g1));
                    assert(head_at(a1, t, id));
                    assert(head_at(a1, t, previous));
                    lemma_head(a1, t, id);
                    lemma_head(a1, t, previous);
                    assert(page_at(a1, id).slice_count == page_at(a0, id).slice_count);
                    assert(page_at(a1, previous).slice_count == page_at(a0, previous).slice_count);
                }
                arena.segments[id.segment].coalesce_slices(previous.page, id.page);
                let ghost a2 = *arena;
                let ghost g2 = a2.segments@[s];
                let ghost now = Set::<PageId>::empty().insert(previous);
                proof {
                    assert(a2.segments@ =~= a1.segments@.update(s, g2));
                    assert(one_segment(a1, a2, s));
                    lemma_coalesced(c1, a1, a2, previous, id, det.insert(previous), Set::empty());
                    assert(det.insert(previous).remove(id) =~= now);
                    assert(reshaped(a1, a2, t));
                    lemma_reshaped_trans(a0, a1, a2, t);
                    assert(now.contains(previous));
                    assert(free_head(a2, t, previous));
                    lemma_head(a2, t, previous);
                    assert(settled_right(a2, previous)) by {
                        let n = id.page + page_at(a0, id).slice_count;
                        if n < PAGES_PER_SEGMENT {
                            assert(g1.pages@[n].block_size == g0.pages@[n].block_size);
                            assert(segment::same_but_shape(g1.pages@[n], g2.pages@[n]));
                        }
                    }
                    assert(settled_left(a2, previous)) by {
                        if previous.page > 0 {
                            let m = previous.page - 1;
                            assert(g1.pages@[m].slice_offset == g0.pages@[m].slice_offset);
                            assert(g2.pages@[m] == g1.pages@[m]);
                            let n = g0.left_of(previous.page as int);
                            assert(g1.pages@[n].block_size == g0.pages@[n].block_size);
                            assert(g2.pages@[n] == g1.pages@[n]);
                        }
                    }
                    lemma_settled(a2, t, previous);
                }
                self.add_slice_to_span(arena, previous, Ghost(now), Ghost(Set::empty()));
                proof {
                    assert(now.remove(previous) =~= Set::empty());
                    lemma_links_reshape(c1, *self, a2, *arena, now, Set::empty());
                    lemma_reshaped_trans(a0, a2, *arena, t);
                }
                return;
            }
        }
        proof {
            lemma_settled(a0, t, id);
        }
        self.add_slice_to_span(arena, id, Ghost(det), Ghost(Set::empty()));
        proof {
            assert(det.remove(id) =~= Set::empty());
            lemma_links_reshape(*old(self), *self, a0, *arena, det, Set::empty());
        }
    }

    /// Makes a page that nobody uses any more a free slice. A segment without used pages goes back to
    /// the arena.
    #[verifier::rlimit(50)]
    pub fn retire_page(&mut self, arena: &mut Arena, id: PageId)
        requires
            old(self).inv(*old(arena)),
            used_head(*old(arena), old(self).thread_id, id),
            page_at(*old(arena), id).used == 0,
        ensures
            final(self).inv(*final(arena)),
            page_retired(*old(self), *final(self), *old(arena), *final(arena), id),
    {
        let ghost t = self.thread_id;
        let ghost a0 = *arena;
        let ghost s = id.segment as int;
        let ghost c0 = *self;
        self.stats.pages_retired = self.stats.pages_retired.wrapping_add(1);
        proof {
            lemma_head(a0, t, id);
            lemma_queue_in_range(page_at(a0, id).block_size as int);
            assert(c0.queue_ok(a0, Set::empty(), queue_of(page_at(a0, id).block_size as int)));
            assert forall|i: int| 0 <= i < NUM_SIZE_CLASSES && #[trigger] c0.free_pages@[i] == Some(id) implies queue_of(
                page_at(a0, id).block_size as int,
            ) == i by {
                assert(c0.current_ok(a0, Set::empty(), i));
                lemma_class_of_class_size(i);
            }
        }
        self.remove_page_from_used_queue(arena, id);
        self.remove_page_from_free_queue(arena, id);
        let ghost c1 = *self;
        let ghost loose = Set::<PageId>::empty().insert(id);
        proof {
            lemma_dequeued(c0, c1, a0, id, Set::empty(), Set::empty());
            let g = a0.segments@[s];
            assert(g.use_ok(id.page as int));
            let range = vstd::set_lib::set_int_range(id.page as int, id.page + page_at(a0, id).slice_count);
            vstd::set_lib::lemma_int_range(id.page as int, id.page + page_at(a0, id).slice_count);
            assert(range.subset_of(g.in_use@));
            vstd::set_lib::lemma_len_subset(range, g.in_use@);
        }
        let count: usize = arena.segments[id.segment].pages[id.page].slice_count;
        let allocated: usize = arena.segments[id.segment].allocated;
        if allocated == count {
            self.retire_segment(arena, id.segment, Ghost(id));
            return;
        }
        arena.segments[id.segment].allocated = allocated - count;
        arena.segments[id.segment].pages[id.page].block_size = 0;
        arena.segments[id.segment].in_use = Ghost(
            a0.segments@[s].in_use@.difference(vstd::set_lib::set_int_range(id.page as int, id.page + count)),
        );
        let ghost a1 = *arena;
        proof {
            assert(a1.segments@[s].pages@ =~= a0.segments@[s].pages@.update(
                id.page as int,
                Page { block_size: 0, ..page_at(a0, id) },
            ));
            assert(one_segment(a0, a1, s));
            lemma_freed(c1, a0, a1, id);
        }
        self.join_next(arena, id);
        let ghost a2 = *arena;
        self.join_previous(arena, id);
        proof {
            lemma_lists_retired(c0, c1, a0, a1, a2, id);
            lemma_reshaped_trans(a1, a2, *arena, t);
            lemma_others_kept_trans(a0, a1, *arena, t);
            lemma_same_live_trans(a0, a1, *arena);
            assert forall|x: PageId| #[trigger] used_head(*arena, t, x) implies used_head(a0, t, x) && x != id
                && page_at(*arena, x) == page_at(a0, x) by {
                assert(used_head(a1, t, x));
            }
            assert forall|x: PageId| #[trigger] used_head(a0, t, x) && x != id implies used_head(*arena, t, x) by {
                assert(used_head(a1, t, x));
            }
            assert(arena.segments@[s].allocated == a1.segments@[s].allocated);
        }
    }
}

/// What joins the slice of a page that was freed goes by the neighbours that the page had.
proof fn lemma_lists_retired(c: TCache, c1: TCache, a: Arena, a1: Arena, a2: Arena, id: PageId)
    requires
        c.inv(a),
        used_head(a, c.thread_id, id),
        c1.thread_id == c.thread_id,
        c1.lists == c.lists,
        one_segment(a, a1, id.segment as int),
        a1.segments@[id.segment as int].heads == a.segments@[id.segment as int].heads,
        a1.segments@[id.segment as int].pages@ == a.segments@[id.segment as int].pages@.update(
            id.page as int,
            Page { block_size: 0, ..page_at(a, id) },
        ),
        a2.segments@.len() == a1.segments@.len(),
        forall|x: int| #[trigger] owned(a2, c.thread_id, x) == owned(a1, c.thread_id, x),
        forall|p: int| 0 <= p < id.page ==> same_shape(
            a1.segments@[id.segment as int].pages@[p],
            #[trigger] a2.segments@[id.segment as int].pages@[p],
        ),
        forall|p: int| 0 <= p < id.page ==> #[trigger] a2.segments@[id.segment as int].is_head(p)
            == a1.segments@[id.segment as int].is_head(p),
    ensures
        lists_joined_right(c1, a1, id) == lists_joined_right(c, a, id),
        count_joined_right(c1, a1, id) == count_joined_right(c, a, id),
        forall|lists: Seq<Seq<PageId>>, n: int| #[trigger]
            lists_joined_left(a2, c.thread_id, id, lists, n) == lists_joined_left(a, c.thread_id, id, lists, n),
{
    let t = c.thread_id;
    let s = id.segment as int;
    lemma_head(a, t, id);
    assert(owned(a1, t, s) == owned(a, t, s));
    assert(owned(a2, t, s) == owned(a1, t, s));
    assert forall|x: PageId| x != id && x.segment == s && in_arena(a, x) implies #[trigger] page_at(a1, x) == page_at(
        a,
        x,
    ) by {}
    assert forall|x: PageId| x != id && x.segment == s implies #[trigger] free_head(a1, t, x) == free_head(a, t, x) by {
        assert(head_at(a1, t, x) == head_at(a, t, x));
        if head_at(a, t, x) {
            lemma_head(a, t, x);
            assert(page_at(a1, x) == page_at(a, x));
        }
    }
    let right = right_neighbour(a, id);
    assert(right_neighbour(a1, id) == right);
    assert(free_head(a1, t, right) == free_head(a, t, right));
    if free_head(a, t, right) {
        lemma_head(a, t, right);
    }
    if id.page > 0 {
        let g = a.segments@[s];
        assert(g.left_of(id.page as int) >= 0);
        let left = left_neighbour(a, id);
        assert(left.page < id.page);
        assert(same_shape(a1.segments@[s].pages@[id.page - 1], a2.segments@[s].pages@[id.page - 1]));
        assert(left_neighbour(a2, id) == left);
        assert(same_shape(a1.segments@[s].pages@[left.page as int], a2.segments@[s].pages@[left.page as int]));
        assert(free_head(a1, t, left) == free_head(a, t, left));
        assert(free_head(a2, t, left) == free_head(a1, t, left));
    }
}

/// Cache `d` has the same lists and queues as `c`.
pub open spec fn same_queues(c: TCache, d: TCache) -> bool {
    d == (TCache { stats: d.stats, ..c })
}

/// `after` is page `before` with other blocks in its lists.
pub open spec fn same_but_blocks(before: Page, after: Page) -> bool {
    &&& after == (Page {
        free_list: after.free_list,
        used: after.used,
        thread_free_list: after.thread_free_list,
        ..before
    })
    &&& after.num_blocks() == before.num_blocks()
}

/// Moving blocks between the lists of a page keeps the invariant.
#[verifier::rlimit(50)]
pub proof fn lemma_blocks_moved(
    c: TCache,
    a: Arena,
    b: Arena,
    id: PageId,
    detached: Set<PageId>,
    loose: Set<PageId>,
)
    requires
        c.inv_with(a, detached, loose),
        used_head(a, c.thread_id, id),
        one_segment(a, b, id.segment as int),
        b.segments@[id.segment as int] == (Segment {
            pages: b.segments@[id.segment as int].pages,
            ..a.segments@[id.segment as int]
        }),
        b.segments@[id.segment as int].pages@ == a.segments@[id.segment as int].pages@.update(
            id.page as int,
            page_at(b, id),
        ),
        same_but_blocks(page_at(a, id), page_at(b, id)),
        page_at(b, id).blocks_wf(),
    ensures
        c.inv_with(b, detached, loose),
        others_kept(a, b, c.thread_id),
        forall|x: PageId| #[trigger] used_head(b, c.thread_id, x) == used_head(a, c.thread_id, x),
        forall|x: PageId| #[trigger] free_head(b, c.thread_id, x) == free_head(a, c.thread_id, x),
        forall|x: PageId| in_arena(a, x) && x != id ==> #[trigger] page_at(b, x) == page_at(a, x),
        forall|x: PageId, block: int| x != id ==> (#[trigger] live_block(b, x, block) <==> live_block(a, x, block)),
        forall|x: PageId, block: int| #[trigger] live_block(b, x, block) ==> page_at(b, x).block_size == page_at(a, x).block_size,
        forall|block: int| #[trigger] live_block(b, id, block) <==> page_at(b, id).is_live(block),
        forall|block: int| #[trigger] live_block(a, id, block) <==> page_at(a, id).is_live(block),
        forall|k: int| 0 <= k < a.segments@.len() ==> (#[trigger] b.segments@[k]).allocated == a.segments@[k].allocated
            && b.segments@[k].thread_id == a.segments@[k].thread_id,
{
    let t = c.thread_id;
    let s = id.segment as int;
    let g = a.segments@[s];
    let h = b.segments@[s];
    lemma_head(a, t, id);
    assert forall|k: int| #[trigger] owned(b, t, k) == owned(a, t, k) by {}
    assert forall|x: PageId| in_arena(a, x) implies #[trigger] page_at(b, x) == (if x == id {
        page_at(b, id)
    } else {
        page_at(a, x)
    }) by {}
    assert(seg_books(h, b.base(s))) by {
        assert forall|q: int| h.is_head(q) implies #[trigger] h.head_ok(q) by {
            assert(g.head_ok(q));
        }
        assert forall|q: int| h.is_head(q) implies #[trigger] h.use_ok(q) by {
            assert(g.use_ok(q));
            assert(g.head_ok(q));
        }
        assert forall|q: int| 0 <= q < PAGES_PER_SEGMENT implies #[trigger] page_books(h, q) by {
            assert(page_books(g, q));
        }
        assert(h.placed(b.base(s))) by {
            assert forall|q: int| 0 <= q < PAGES_PER_SEGMENT implies #[trigger] h.pages@[q].page_start == b.base(s)
                + FIRST_PAGE_OFFSET + q * PAGE_SIZE by {
                assert(g.pages@[q].page_start == b.base(s) + FIRST_PAGE_OFFSET + q * PAGE_SIZE);
            }
        }
    }
    assert(books(b, t)) by {
        assert forall|k: int| #[trigger] owned(b, t, k) implies seg_books(b.segments@[k], b.base(k)) by {
            assert(owned(a, t, k));
        }
    }
    assert forall|x: PageId| #[trigger] head_at(b, t, x) == head_at(a, t, x) by {
        assert(owned(b, t, x.segment as int) == owned(a, t, x.segment as int));
    }
    assert forall|x: PageId| #[trigger] free_head(b, t, x) == free_head(a, t, x) by {
        assert(head_at(b, t, x) == head_at(a, t, x));
        if head_at(a, t, x) {
            lemma_head(a, t, x);
            assert(page_at(b, x).block_size == page_at(a, x).block_size);
        }
    }
    assert forall|x: PageId| #[trigger] used_head(b, t, x) == used_head(a, t, x) by {
        assert(head_at(b, t, x) == head_at(a, t, x));
        if head_at(a, t, x) {
            lemma_head(a, t, x);
            assert(page_at(b, x).block_size == page_at(a, x).block_size);
        }
    }
    assert(c.spans_ok(b, detached)) by {
        assert forall|k: int| 0 <= k < SEGMENT_BINS implies #[trigger] c.list_ok(b, k) by {
            assert(c.list_ok(a, k));
            assert forall|i: int| 0 <= i < c.lists@[k].len() implies #[trigger] c.node_ok(b, k, i) by {
                assert(c.node_ok(a, k, i));
                lemma_head(a, t, c.lists@[k][i]);
            }
        }
        assert forall|x: PageId| #[trigger] free_head(b, t, x) implies detached.contains(x) || c.listed(b, x) by {
            assert(free_head(a, t, x));
            lemma_head(a, t, x);
        }
        assert forall|x: PageId| #[trigger] detached.contains(x) implies free_head(b, t, x) && !c.listed(b, x) by {
            lemma_head(a, t, x);
        }
        assert forall|x: PageId|
            owned(b, t, x.segment as int) && x.page < PAGES_PER_SEGMENT && !(free_head(b, t, x) && !detached.contains(x))
            implies (#[trigger] page_at(b, x)).unlinked() by {
            assert(owned(a, t, x.segment as int));
            assert(in_arena(a, x));
            assert(page_at(a, x).unlinked());
        }
    }
    assert(all_calm(b, t, detached)) by {
        assert forall|x: PageId| head_at(b, t, x) implies #[trigger] calm(b, detached, x) by {
            assert(head_at(a, t, x));
            lemma_head(a, t, x);
            assert(calm(a, detached, x));
            if x.page + page_at(a, x).slice_count < PAGES_PER_SEGMENT {
                let y = PageId { segment: x.segment, page: (x.page + page_at(a, x).slice_count) as usize };
                assert(in_arena(a, y));
                assert(page_at(b, y).block_size == page_at(a, y).block_size);
            }
        }
    }
    assert(c.queues_ok(b, loose)) by {
        assert forall|k: int| 0 <= k < NUM_SIZE_CLASSES implies #[trigger] c.current_ok(b, loose, k) by {
            assert(c.current_ok(a, loose, k));
            if let Some(x) = c.free_pages@[k] {
                lemma_head(a, t, x);
            }
        }
        assert forall|k: int| 0 <= k <= NUM_SIZE_CLASSES implies #[trigger] c.queue_ok(b, loose, k) by {
            assert(c.queue_ok(a, loose, k));
            let q = c.used_pages@[k]@;
            assert forall|i: int| 0 <= i < q.len() implies used_head(b, t, #[trigger] q[i]) && queue_of(
                page_at(b, q[i]).block_size as int,
            ) == k && (k < NUM_SIZE_CLASSES ==> page_at(b, q[i]).block_size == class_size(k)) && !loose.contains(
                q[i],
            ) by {
                assert(used_head(a, t, q[i]));
                lemma_head(a, t, q[i]);
            }
        }
        assert forall|x: PageId| #[trigger] used_head(b, t, x) implies loose.contains(x) || c.queued(b, x) by {
            assert(used_head(a, t, x));
            lemma_head(a, t, x);
        }
    }
    assert forall|x: PageId, block: int| x != id implies (#[trigger] live_block(b, x, block) <==> live_block(a, x, block)) by {
        if x.segment == s && g.is_head(x.page as int) {
            assert(head_at(a, t, x));
            lemma_head(a, t, x);
        }
    }
    assert forall|x: PageId, block: int| #[trigger] live_block(b, x, block) implies page_at(b, x).block_size == page_at(
        a,
        x,
    ).block_size by {
        if x.segment == s {
            assert(head_at(a, t, x));
            lemma_head(a, t, x);
        }
    }
}

/// The blocks of a page that are in somebody's hands.
pub open spec fn outstanding(page: Page) -> int {
    page.used - page.thread_free_list@.len()
}

/// `after` is `before` once the blocks that others handed back are free again.
pub open spec fn is_collected(before: Page, after: Page) -> bool {
    &&& same_but_blocks(before, after)
    &&& after.free_list@ == before.free_list@ + before.thread_free_list@
    &&& after.thread_free_list@.len() == 0
    &&& after.used == outstanding(before)
}

/// The counters of retired pages and segments went up by as many as were retired, and no other did.
pub open spec fn retirements_counted(c: TCache, d: TCache, a: Arena, b: Arena) -> bool {
    d.stats == (TCacheStats {
        pages_retired: wrapped(c.stats.pages_retired + pages_in(c) - pages_in(d)),
        segments_retired: wrapped(
            c.stats.segments_retired + segments_out(a.used_bitmap@) - segments_out(b.used_bitmap@),
        ),
        ..c.stats
    })
}

proof fn lemma_retirements_add(c: TCache, d: TCache, e: TCache, x: Arena, y: Arena, z: Arena)
    requires
        retirements_counted(c, d, x, y),
        retirements_counted(d, e, y, z),
    ensures
        retirements_counted(c, e, x, z),
{
    lemma_wrapped(c.stats.pages_retired + pages_in(c) - pages_in(d), pages_in(d) - pages_in(e));
    lemma_wrapped(
        c.stats.segments_retired + segments_out(x.used_bitmap@) - segments_out(y.used_bitmap@),
        segments_out(y.used_bitmap@) - segments_out(z.used_bitmap@),
    );
}

/// The pages in `done` were looked through: those without outstanding blocks were retired, and the
/// others have collected what others handed back.
pub open spec fn swept(a: Arena, b: Arena, t: usize, done: Set<PageId>) -> bool {
    &&& same_live(a, b)
    &&& others_kept(a, b, t)
    &&& forall|s: int| 0 <= s < a.segments@.len() && a.used_bitmap@[s] != 1 ==> #[trigger] b.used_bitmap@[s] != 1
    &&& forall|x: PageId| #[trigger] used_head(b, t, x) ==> {
        &&& used_head(a, t, x)
        &&& if done.contains(x) {
            is_collected(page_at(a, x), page_at(b, x)) && outstanding(page_at(a, x)) > 0
        } else {
            page_at(b, x) == page_at(a, x)
        }
    }
    &&& forall|x: PageId| #[trigger] used_head(a, t, x) && !(done.contains(x) && outstanding(page_at(a, x)) == 0)
        ==> used_head(b, t, x)
}

impl TCache {
    /// Collects what others handed back to a page, and retires the page where that leaves no block
    /// outstanding.
    #[verifier::rlimit(50)]
    fn sweep_page(&mut self, arena: &mut Arena, id: PageId) -> (retired: bool)
        requires
            old(self).inv(*old(arena)),
            used_head(*old(arena), old(self).thread_id, id),
        ensures
            final(self).inv(*final(arena)),
            swept(*old(arena), *final(arena), old(self).thread_id, Set::empty().insert(id)),
            retired == (outstanding(page_at(*old(arena), id)) == 0),
            retired ==> dequeued(*old(self), *final(self), *old(arena), id),
            !retired ==> same_queues(*old(self), *final(self)),
            final(self).lists@ == (if retired {
                lists_retired(*old(self), *old(arena), id)
            } else {
                old(self).lists@
            }),
            final(self).thread_id == old(self).thread_id,
            retirements_counted(*old(self), *final(self), *old(arena), *final(arena)),
    {
        let ghost t = self.thread_id;
        let ghost a0 = *arena;
        let ghost c0 = *self;
        proof {
            lemma_head(a0, t, id);
            lemma_distinct_blocks(page_at(a0, id));
        }
        arena.segments[id.segment].pages[id.page].collect_foreign_frees();
        let ghost a1 = *arena;
        proof {
            assert(a1.segments@ =~= a0.segments@.update(id.segment as int, a1.segments@[id.segment as int]));
            assert(a1.segments@[id.segment as int].pages@ =~= a0.segments@[id.segment as int].pages@.update(
                id.page as int,
                page_at(a1, id),
            ));
            lemma_blocks_moved(*self, a0, a1, id, Set::empty(), Set::empty());
            assert(same_live(a0, a1)) by {
                assert forall|x: PageId, block: int| #[trigger] live_block(a1, x, block) <==> live_block(a0, x, block) by {
                    if x == id {
                        assert(page_at(a1, id).is_live(block) <==> page_at(a0, id).is_live(block));
                        assert(live_block(a0, id, block) <==> page_at(a0, id).is_live(block));
                    }
                }
                assert forall|x: PageId, block: int| #[trigger] live_block(a1, x, block) implies page_at(a1, x).block_size == page_at(
                    a0,
                    x,
                ).block_size by {
                    assert(live_block(a0, x, block));
                }
            }
            assert forall|x: PageId| #[trigger] used_head(a1, t, x) && x != id implies page_at(a1, x) == page_at(a0, x) by {
                assert(used_head(a0, t, x));
                lemma_head(a0, t, x);
            }
            lemma_collected_lists(c0, a0, a1, id);
        }
        if arena.segments[id.segment].pages[id.page].is_unused() {
            self.retire_page(arena, id);
            proof {
                lemma_others_kept_trans(a0, a1, *arena, t);
                lemma_same_live_trans(a0, a1, *arena);
                lemma_dequeued_count(c0, *self, a1, id);
                lemma_wrapped_once(c0.stats.pages_retired);
                lemma_wrapped_once(c0.stats.segments_retired);
                if a1.segments@[id.segment as int].allocated == page_at(a1, id).slice_count {
                    lemma_segment_back(a1.used_bitmap@, id.segment as int);
                }
                let one = Set::<PageId>::empty().insert(id);
                assert(one.contains(id));
                assert forall|x: PageId| #[trigger] used_head(*arena, t, x) implies used_head(a0, t, x) && !one.contains(x)
                    && page_at(*arena, x) == page_at(a0, x) by {
                    assert(used_head(a1, t, x));
                }
                assert forall|x: PageId| #[trigger] used_head(a0, t, x) && x != id implies used_head(*arena, t, x) by {
                    assert(used_head(a1, t, x));
                }
                assert(swept(a0, *arena, t, one));
            }
            true
        } else {
            proof {
                lemma_wrapped_once(c0.stats.pages_retired);
                lemma_wrapped_once(c0.stats.segments_retired);
                assert(swept(a0, *arena, t, Set::empty().insert(id)));
            }
            false
        }
    }
}

/// Collecting leaves the slices as they are.
proof fn lemma_collected_lists(c: TCache, a: Arena, b: Arena, id: PageId)
    requires
        c.inv(a),
        used_head(a, c.thread_id, id),
        b.used_bitmap == a.used_bitmap,
        b.segments@ == a.segments@.update(id.segment as int, b.segments@[id.segment as int]),
        b.segments@[id.segment as int].pages@ == a.segments@[id.segment as int].pages@.update(
            id.page as int,
            page_at(b, id),
        ),
        b.segments@[id.segment as int].thread_id == a.segments@[id.segment as int].thread_id,
        b.segments@[id.segment as int].heads == a.segments@[id.segment as int].heads,
        b.segments@[id.segment as int].allocated == a.segments@[id.segment as int].allocated,
        same_but_blocks(page_at(a, id), page_at(b, id)),
    ensures
        lists_retired(c, b, id) == lists_retired(c, a, id),
{
    let t = c.thread_id;
    lemma_head(a, t, id);
    assert forall|x: PageId| #[trigger] free_head(b, t, x) == free_head(a, t, x) by {
        assert(owned(b, t, x.segment as int) == owned(a, t, x.segment as int));
        assert(head_at(b, t, x) == head_at(a, t, x));
        if head_at(a, t, x) {
            lemma_head(a, t, x);
            if x != id {
                assert(page_at(b, x) == page_at(a, x));
            }
        }
    }
    let right = right_neighbour(a, id);
    assert(right_neighbour(b, id) == right);
    if free_head(a, t, right) {
        lemma_head(a, t, right);
        assert(right != id);
    }
    if id.page > 0 {
        assert(a.segments@[id.segment as int].left_of(id.page as int) >= 0);
        let left = left_neighbour(a, id);
        assert(left_neighbour(b, id) == left);
        assert(left != id);
    }
}

/// One page more was looked through.
proof fn lemma_swept_step(a: Arena, b: Arena, c: Arena, t: usize, done: Set<PageId>, id: PageId)
    requires
        swept(a, b, t, done),
        used_head(b, t, id),
        !done.contains(id),
        swept(b, c, t, Set::empty().insert(id)),
    ensures
        swept(a, c, t, done.insert(id)),
        page_at(b, id) == page_at(a, id),
{
    let one = Set::<PageId>::empty().insert(id);
    assert(one.contains(id));
    lemma_same_live_trans(a, b, c);
    lemma_others_kept_trans(a, b, c, t);
    assert forall|s: int| 0 <= s < a.segments@.len() && a.used_bitmap@[s] != 1 implies #[trigger] c.used_bitmap@[s] != 1 by {
        assert(b.used_bitmap@[s] != 1);
    }
    assert forall|x: PageId| #[trigger] used_head(c, t, x) implies {
        &&& used_head(a, t, x)
        &&& if done.insert(id).contains(x) {
            is_collected(page_at(a, x), page_at(c, x)) && outstanding(page_at(a, x)) > 0
        } else {
            page_at(c, x) == page_at(a, x)
        }
    } by {
        assert(used_head(b, t, x));
    }
    assert forall|x: PageId| #[trigger] used_head(a, t, x) && !(done.insert(id).contains(x) && outstanding(
        page_at(a, x),
    ) == 0) implies used_head(c, t, x) by {
        assert(used_head(b, t, x));
    }
}

proof fn lemma_distinct_blocks(page: Page)
    requires
        page.blocks_wf(),
    ensures
        outstanding(page) >= 0,
{
    page::lemma_distinct_blocks_bounded(page.returned(), page.num_blocks());
}

/// The pages of a queue that have outstanding blocks, in order.
pub open spec fn kept(a: Arena, q: Seq<PageId>) -> Seq<PageId>
    decreases q.len(),
{
    if q.len() == 0 {
        Seq::empty()
    } else if outstanding(page_at(a, q.last())) == 0 {
        kept(a, q.drop_last())
    } else {
        kept(a, q.drop_last()).push(q.last())
    }
}

/// The current page of a class, if it has outstanding blocks.
pub open spec fn kept_current(a: Arena, current: Option<PageId>) -> Option<PageId> {
    match current {
        Some(id) => if outstanding(page_at(a, id)) == 0 {
            None
        } else {
            Some(id)
        },
        None => None,
    }
}

/// The current pages of the first `n` classes.
pub open spec fn current_ids(c: TCache, n: int) -> Seq<PageId>
    decreases n,
{
    if n <= 0 {
        Seq::empty()
    } else {
        match c.free_pages@[n - 1] {
            Some(id) => current_ids(c, n - 1).push(id),
            None => current_ids(c, n - 1),
        }
    }
}

/// The pages in the first `n` queues.
pub open spec fn queued_ids(c: TCache, n: int) -> Seq<PageId>
    decreases n,
{
    if n <= 0 {
        Seq::empty()
    } else {
        queued_ids(c, n - 1) + c.used_pages@[n - 1]@
    }
}

/// The pages of a cache, in the order in which a clean-up looks through them.
pub open spec fn clean_up_order(c: TCache) -> Seq<PageId> {
    current_ids(c, NUM_SIZE_CLASSES as int) + queued_ids(c, NUM_SIZE_CLASSES + 1)
}

/// Page `id` was looked through: it was retired, or has collected what others handed back.
pub open spec fn looked_through(before: (TCache, Arena), after: (TCache, Arena), id: PageId) -> bool {
    &&& after.0.inv(after.1)
    &&& swept(before.1, after.1, before.0.thread_id, Set::empty().insert(id))
    &&& after.0.lists@ == (if outstanding(page_at(before.1, id)) == 0 {
        lists_retired(before.0, before.1, id)
    } else {
        before.0.lists@
    })
}

/// The states that a cache and its arena go through while `ids` are looked through, one after the
/// other.
pub open spec fn goes_through(states: Seq<(TCache, Arena)>, ids: Seq<PageId>) -> bool {
    &&& states.len() == ids.len() + 1
    &&& forall|i: int| 0 <= i < ids.len() ==> looked_through(states[i], states[i + 1], #[trigger] ids[i])
}

/// A clean-up has looked through the pages in order.
pub open spec fn cleaned_in_order(c: TCache, d: TCache, a: Arena, b: Arena) -> bool {
    exists|states: Seq<(TCache, Arena)>| #[trigger]
        goes_through(states, clean_up_order(c)) && states[0] == (c, a) && states.last() == (d, b)
}

proof fn lemma_goes_on(states: Seq<(TCache, Arena)>, ids: Seq<PageId>, after: (TCache, Arena), id: PageId)
    requires
        goes_through(states, ids),
        looked_through(states.last(), after, id),
    ensures
        goes_through(states.push(after), ids.push(id)),
        states.push(after)[0] == states[0],
{
    let more = states.push(after);
    assert forall|i: int| 0 <= i < ids.push(id).len() implies looked_through(
        more[i],
        more[i + 1],
        #[trigger] ids.push(id)[i],
    ) by {
        if i < ids.len() {
            assert(ids.push(id)[i] == ids[i]);
            assert(more[i] == states[i]);
            assert(more[i + 1] == states[i + 1]);
        } else {
            assert(more[i] == states.last());
        }
    }
}

/// What a clean-up does: pages without outstanding blocks are retired, and the others have collected
/// what others handed back.
pub open spec fn cleaned(c: TCache, d: TCache, a: Arena, b: Arena) -> bool {
    let t = c.thread_id;
    &&& swept(a, b, t, Set::new(|x: PageId| used_head(a, t, x)))
    &&& d.used_pages@.len() == c.used_pages@.len()
    &&& forall|k: int| 0 <= k <= NUM_SIZE_CLASSES ==> (#[trigger] d.used_pages@[k])@ == kept(a, c.used_pages@[k]@)
    &&& forall|k: int| 0 <= k < NUM_SIZE_CLASSES ==> #[trigger] d.free_pages@[k] == kept_current(a, c.free_pages@[k])
    &&& d.thread_id == t
    &&& retirements_counted(c, d, a, b)
    &&& cleaned_in_order(c, d, a, b)
}

/// A clean-up has come past page `x` after `i` current pages, `j` queues and `n` pages of the next.
spec fn passed(c: TCache, i: int, j: int, n: int, x: PageId) -> bool {
    ||| exists|k: int| 0 <= k < i && #[trigger] c.free_pages@[k] == Some(x)
    ||| exists|k: int| 0 <= k < j && (#[trigger] c.used_pages@[k])@.contains(x)
    ||| exists|m: int| 0 <= m < n && #[trigger] c.used_pages@[j]@[m] == x
}

proof fn lemma_kept_step(a: Arena, q: Seq<PageId>, n: int)
    requires
        0 <= n < q.len(),
    ensures
        kept(a, q.take(n + 1)) == (if outstanding(page_at(a, q[n])) == 0 {
            kept(a, q.take(n))
        } else {
            kept(a, q.take(n)).push(q[n])
        }),
{
    assert(q.take(n + 1).drop_last() =~= q.take(n));
}

/// The current page of a class is current in no other class, and in no queue.
proof fn lemma_current_alone(c: TCache, a: Arena, i: int, id: PageId)
    requires
        c.inv(a),
        0 <= i < NUM_SIZE_CLASSES,
        c.free_pages@[i] == Some(id),
    ensures
        used_head(a, c.thread_id, id),
        queue_of(page_at(a, id).block_size as int) == i,
        forall|k: int| 0 <= k < NUM_SIZE_CLASSES && #[trigger] c.free_pages@[k] == Some(id) ==> k == i,
        forall|k: int| 0 <= k <= NUM_SIZE_CLASSES ==> !(#[trigger] c.used_pages@[k])@.contains(id),
{
    assert(c.current_ok(a, Set::empty(), i));
    lemma_class_of_class_size(i);
    assert forall|k: int| 0 <= k < NUM_SIZE_CLASSES && #[trigger] c.free_pages@[k] == Some(id) implies k == i by {
        assert(c.current_ok(a, Set::empty(), k));
        lemma_class_of_class_size(k);
    }
    assert forall|k: int| 0 <= k <= NUM_SIZE_CLASSES implies !(#[trigger] c.used_pages@[k])@.contains(id) by {
        assert(c.queue_ok(a, Set::empty(), k));
        let q = c.used_pages@[k]@;
        if q.contains(id) {
            let m = choose|m: int| 0 <= m < q.len() && q[m] == id;
            assert(queue_of(page_at(a, q[m]).block_size as int) == k);
        }
    }
}

/// A page in a queue is in no other queue, and current in no class.
proof fn lemma_queued_alone(c: TCache, a: Arena, j: int, n: int)
    requires
        c.inv(a),
        0 <= j <= NUM_SIZE_CLASSES,
        0 <= n < c.used_pages@[j]@.len(),
    ensures
        ({
            let id = c.used_pages@[j]@[n];
            &&& used_head(a, c.thread_id, id)
            &&& queue_of(page_at(a, id).block_size as int) == j
            &&& forall|k: int| 0 <= k < NUM_SIZE_CLASSES ==> #[trigger] c.free_pages@[k] != Some(id)
            &&& forall|k: int| 0 <= k <= NUM_SIZE_CLASSES && k != j ==> !(#[trigger] c.used_pages@[k])@.contains(id)
            &&& forall|m: int| 0 <= m < c.used_pages@[j]@.len() && m != n ==> #[trigger] c.used_pages@[j]@[m] != id
            &&& c.used_pages@[j]@.contains(id)
        }),
{
    let id = c.used_pages@[j]@[n];
    assert(c.queue_ok(a, Set::empty(), j));
    assert(c.used_pages@[j]@.contains(id));
    assert forall|k: int| 0 <= k < NUM_SIZE_CLASSES implies #[trigger] c.free_pages@[k] != Some(id) by {
        if c.free_pages@[k] == Some(id) {
            lemma_current_alone(c, a, k, id);
        }
    }
    assert forall|k: int| 0 <= k <= NUM_SIZE_CLASSES && k != j implies !(#[trigger] c.used_pages@[k])@.contains(id) by {
        assert(c.queue_ok(a, Set::empty(), k));
        let q = c.used_pages@[k]@;
        if q.contains(id) {
            let m = choose|m: int| 0 <= m < q.len() && q[m] == id;
            assert(queue_of(page_at(a, q[m]).block_size as int) == k);
        }
    }
}

impl TCache {
    /// Retires the pages that nobody uses any more.
    #[verifier::rlimit(50)]
    pub fn cleanup_pages(&mut self, arena: &mut Arena)
        requires
            old(self).inv(*old(arena)),
        ensures
            final(self).inv(*final(arena)),
            cleaned(*old(self), *final(self), *old(arena), *final(arena)),
    {
        let ghost t = self.thread_id;
        let ghost a0 = *arena;
        let ghost c0 = *self;
        let ghost mut done: Set<PageId> = Set::empty();
        let ghost mut ids: Seq<PageId> = Seq::empty();
        let ghost mut states: Seq<(TCache, Arena)> = Seq::empty().push((c0, a0));
        let mut i: usize = 0;
        proof {
            lemma_wrapped_once(c0.stats.pages_retired);
            lemma_wrapped_once(c0.stats.segments_retired);
        }
        while i < NUM_SIZE_CLASSES
            invariant
                i <= NUM_SIZE_CLASSES,
                c0.inv(a0),
                c0.thread_id == t,
                self.inv(*arena),
                self.thread_id == t,
                self.used_pages@.len() == c0.used_pages@.len(),
                swept(a0, *arena, t, done),
                forall|x: PageId| #[trigger] done.contains(x) <==> passed(c0, i as int, 0, 0, x),
                forall|k: int| 0 <= k < NUM_SIZE_CLASSES ==> #[trigger] self.free_pages@[k] == (if k < i {
                    kept_current(a0, c0.free_pages@[k])
                } else {
                    c0.free_pages@[k]
                }),
                forall|k: int| 0 <= k <= NUM_SIZE_CLASSES ==> (#[trigger] self.used_pages@[k])@ == c0.used_pages@[k]@,
                retirements_counted(c0, *self, a0, *arena),
                goes_through(states, ids),
                ids == current_ids(c0, i as int),
                states[0] == (c0, a0),
                states.last() == (*self, *arena),
            decreases NUM_SIZE_CLASSES - i,
        {
            let ghost before = *self;
            let ghost a1 = *arena;
            assert(self.free_pages@[i as int] == c0.free_pages@[i as int]);
            if let Some(id) = self.free_pages[i] {
                proof {
                    lemma_current_alone(c0, a0, i as int, id);
                    lemma_current_alone(before, *arena, i as int, id);
                }
                let _retired = self.sweep_page(arena, id);
                proof {
                    lemma_swept_step(a0, a1, *arena, t, done, id);
                    lemma_retirements_add(c0, before, *self, a0, a1, *arena);
                    lemma_goes_on(states, ids, (*self, *arena), id);
                    states = states.push((*self, *arena));
                    ids = ids.push(id);
                    done = done.insert(id);
                    assert forall|k: int| 0 <= k <= NUM_SIZE_CLASSES implies (#[trigger] self.used_pages@[k])@
                        == c0.used_pages@[k]@ by {
                        assert(before.used_pages@[k]@ == c0.used_pages@[k]@);
                    }
                    assert forall|k: int| 0 <= k < NUM_SIZE_CLASSES implies #[trigger] self.free_pages@[k] == (if k <= i {
                        kept_current(a0, c0.free_pages@[k])
                    } else {
                        c0.free_pages@[k]
                    }) by {
                        assert(before.free_pages@[k] == (if k < i {
                            kept_current(a0, c0.free_pages@[k])
                        } else {
                            c0.free_pages@[k]
                        }));
                    }
                }
            }
            proof {
                assert forall|x: PageId| #[trigger] done.contains(x) <==> passed(c0, i + 1, 0, 0, x) by {
                    assert(passed(c0, i + 1, 0, 0, x) <==> passed(c0, i as int, 0, 0, x) || c0.free_pages@[i as int] == Some(x));
                }
            }
            i = i + 1;
        }
        let mut j: usize = 0;
        assert(ids =~= current_ids(c0, NUM_SIZE_CLASSES as int) + queued_ids(c0, 0));
        while j < NUM_SIZE_CLASSES + 1
            invariant
                j <= NUM_SIZE_CLASSES + 1,
                c0.inv(a0),
                c0.thread_id == t,
                self.inv(*arena),
                self.thread_id == t,
                self.used_pages@.len() == c0.used_pages@.len(),
                swept(a0, *arena, t, done),
                forall|x: PageId| #[trigger] done.contains(x) <==> passed(c0, NUM_SIZE_CLASSES as int, j as int, 0, x),
                forall|k: int| 0 <= k < NUM_SIZE_CLASSES ==> #[trigger] self.free_pages@[k] == kept_current(
                    a0,
                    c0.free_pages@[k],
                ),
                forall|k: int| 0 <= k <= NUM_SIZE_CLASSES ==> (#[trigger] self.used_pages@[k])@ == (if k < j {
                    kept(a0, c0.used_pages@[k]@)
                } else {
                    c0.used_pages@[k]@
                }),
                retirements_counted(c0, *self, a0, *arena),
                goes_through(states, ids),
                ids == current_ids(c0, NUM_SIZE_CLASSES as int) + queued_ids(c0, j as int),
                states[0] == (c0, a0),
                states.last() == (*self, *arena),
            decreases NUM_SIZE_CLASSES + 1 - j,
        {
            let ghost q = c0.used_pages@[j as int]@;
            let ghost mut n: int = 0;
            let mut page_idx: usize = 0;
            let ghost ids0 = ids;
            assert(kept(a0, q.take(0)) + q.skip(0) =~= q);
            assert(ids =~= ids0 + q.take(0));
            while page_idx < self.used_pages[j].len()
                invariant
                    j <= NUM_SIZE_CLASSES,
                    c0.inv(a0),
                    c0.thread_id == t,
                    self.inv(*arena),
                    self.thread_id == t,
                    self.used_pages@.len() == c0.used_pages@.len(),
                    swept(a0, *arena, t, done),
                    q == c0.used_pages@[j as int]@,
                    0 <= n <= q.len(),
                    page_idx == kept(a0, q.take(n)).len(),
                    self.used_pages@[j as int]@ == kept(a0, q.take(n)) + q.skip(n),
                    forall|x: PageId| #[trigger] done.contains(x) <==> passed(c0, NUM_SIZE_CLASSES as int, j as int, n, x),
                    forall|k: int| 0 <= k < NUM_SIZE_CLASSES ==> #[trigger] self.free_pages@[k] == kept_current(
                        a0,
                        c0.free_pages@[k],
                    ),
                    forall|k: int| 0 <= k <= NUM_SIZE_CLASSES && k != j ==> (#[trigger] self.used_pages@[k])@ == (if k
                        < j {
                        kept(a0, c0.used_pages@[k]@)
                    } else {
                        c0.used_pages@[k]@
                    }),
                    retirements_counted(c0, *self, a0, *arena),
                    goes_through(states, ids),
                    ids == ids0 + q.take(n),
                    states[0] == (c0, a0),
                    states.last() == (*self, *arena),
                decreases q.len() - n,
            {
                let ghost before = *self;
                let ghost a1 = *arena;
                let id: PageId = self.used_pages[j][page_idx];
                proof {
                    assert(n < q.len());
                    assert(id == q[n]);
                    lemma_queued_alone(c0, a0, j as int, n);
                    lemma_queued_alone(before, *arena, j as int, page_idx as int);
                    lemma_kept_step(a0, q, n);
                }
                let retired = self.sweep_page(arena, id);
                proof {
                    lemma_swept_step(a0, a1, *arena, t, done, id);
                    lemma_retirements_add(c0, before, *self, a0, a1, *arena);
                    lemma_goes_on(states, ids, (*self, *arena), id);
                    states = states.push((*self, *arena));
                    ids = ids.push(id);
                    assert(ids =~= ids0 + q.take(n + 1));
                    done = done.insert(id);
                    let old_q = before.used_pages@[j as int]@;
                    assert(old_q.index_of(id) == page_idx) by {
                        assert(old_q[old_q.index_of(id)] == id);
                    }
                    assert(retired ==> self.used_pages@[j as int]@ =~= kept(a0, q.take(n)) + q.skip(n + 1));
                    assert(!retired ==> self.used_pages@[j as int]@ =~= kept(a0, q.take(n)).push(q[n]) + q.skip(n + 1));
                    assert forall|k: int| 0 <= k <= NUM_SIZE_CLASSES && k != j implies (#[trigger] self.used_pages@[k])@
                        == (if k < j {
                        kept(a0, c0.used_pages@[k]@)
                    } else {
                        c0.used_pages@[k]@
                    }) by {
                        assert(before.used_pages@[k]@ == (if k < j {
                            kept(a0, c0.used_pages@[k]@)
                        } else {
                            c0.used_pages@[k]@
                        }));
                    }
                    assert forall|k: int| 0 <= k < NUM_SIZE_CLASSES implies #[trigger] self.free_pages@[k] == kept_current(
                        a0,
                        c0.free_pages@[k],
                    ) by {
                        assert(before.free_pages@[k] == kept_current(a0, c0.free_pages@[k]));
                    }
                    assert forall|x: PageId| #[trigger] done.contains(x) <==> passed(
                        c0,
                        NUM_SIZE_CLASSES as int,
                        j as int,
                        n + 1,
                        x,
                    ) by {
                        assert(passed(c0, NUM_SIZE_CLASSES as int, j as int, n + 1, x) <==> passed(
                            c0,
                            NUM_SIZE_CLASSES as int,
                            j as int,
                            n,
                            x,
                        ) || c0.used_pages@[j as int]@[n] == x);
                    }
                    n = n + 1;
                }
                if !retired {
                    page_idx = page_idx + 1;
                }
            }
            proof {
                assert(n == q.len());
                assert(q.take(n) =~= q);
                assert(ids =~= current_ids(c0, NUM_SIZE_CLASSES as int) + queued_ids(c0, j + 1));
                assert(self.used_pages@[j as int]@ =~= kept(a0, q));
                assert forall|x: PageId| #[trigger] done.contains(x) <==> passed(c0, NUM_SIZE_CLASSES as int, j + 1, 0, x) by {
                    assert(q.contains(x) <==> exists|m: int| 0 <= m < n && #[trigger] c0.used_pages@[j as int]@[m] == x);
                    assert(passed(c0, NUM_SIZE_CLASSES as int, j + 1, 0, x) <==> (exists|k: int|
                        0 <= k < NUM_SIZE_CLASSES && #[trigger] c0.free_pages@[k] == Some(x)) || (exists|k: int|
                        0 <= k < j && (#[trigger] c0.used_pages@[k])@.contains(x)) || c0.used_pages@[j as int]@.contains(x));
                }
            }
            j = j + 1;
        }
        proof {
            let all = Set::new(|x: PageId| used_head(a0, t, x));
            assert forall|x: PageId| #[trigger] used_head(a0, t, x) implies done.contains(x) by {
                let k = queue_of(page_at(a0, x).block_size as int);
                lemma_queue_in_range(page_at(a0, x).block_size as int);
                assert(c0.queued(a0, x));
                if k < NUM_SIZE_CLASSES && c0.free_pages@[k] == Some(x) {
                } else {
                    assert(c0.used_pages@[k]@.contains(x));
                }
                assert(passed(c0, NUM_SIZE_CLASSES as int, NUM_SIZE_CLASSES + 1, 0, x));
            }
            assert(swept(a0, *arena, t, all));
            assert(ids =~= clean_up_order(c0));
            assert(goes_through(states, clean_up_order(c0)));
            assert(cleaned_in_order(c0, *self, a0, *arena));
        }
    }
}

/// Cutting a detached slice in two keeps everything; both parts are detached, and the second can go
/// to its span where the slice had no free neighbour on the right.
#[verifier::rlimit(50)]
proof fn lemma_split(c: TCache, a: Arena, b: Arena, id: PageId, second: PageId)
    requires
        c.inv_with(a, Set::empty().insert(id), Set::empty()),
        settled_right(a, id),
        second.segment == id.segment,
        id.page < second.page < id.page + page_at(a, id).slice_count,
        one_segment(a, b, id.segment as int),
        ({
            let g = a.segments@[id.segment as int];
            let h = b.segments@[id.segment as int];
            let l = id.page as int;
            let r = second.page as int;
            &&& h.tiled()
            &&& h.heads@ == g.heads@.insert(r)
            &&& h.count(l) == r - l
            &&& h.count(r) == g.count(l) - (r - l)
            &&& forall|p: int| 0 <= p < PAGES_PER_SEGMENT ==> {
                &&& segment::same_but_shape(g.pages@[p], #[trigger] h.pages@[p])
                &&& p != l && p != r ==> h.count(p) == g.count(p)
                &&& !(l <= p < l + g.count(l)) ==> h.pages@[p] == g.pages@[p]
            }
            &&& h.allocated == g.allocated
            &&& h.num_slices == g.num_slices
            &&& h.in_use == g.in_use
        }),
    ensures
        c.inv_with(b, Set::empty().insert(id).insert(second), Set::empty()),
        all_calm(b, c.thread_id, Set::empty().insert(id).insert(second).remove(second)),
        reshaped(a, b, c.thread_id),
        page_at(b, id).slice_count == second.page - id.page,
{
    let t = c.thread_id;
    let s = id.segment as int;
    let g = a.segments@[s];
    let h = b.segments@[s];
    let l = id.page as int;
    let r = second.page as int;
    let one = Set::<PageId>::empty().insert(id);
    let two = one.insert(second);
    assert(one.contains(id));
    assert(free_head(a, t, id));
    lemma_head(a, t, id);
    assert(b.wf());
    assert(!g.is_head(r));
    assert(forall|k: int| #[trigger] owned(b, t, k) == owned(a, t, k));
    assert(page_books(g, r));
    assert(page_at(a, second).unlinked()) by {
        assert(owned(a, t, s));
        assert(!free_head(a, t, second));
    }
    assert(seg_books(h, b.base(s))) by {
        assert forall|p: int| h.is_head(p) implies #[trigger] h.use_ok(p) by {
            assert(g.use_ok(l));
            if p != r {
                assert(g.use_ok(p));
                assert(g.head_ok(p));
            }
        }
        assert forall|p: int| 0 <= p < PAGES_PER_SEGMENT implies #[trigger] page_books(h, p) by {
            assert(page_books(g, p));
            assert(h.pages@[p].returned() == g.pages@[p].returned());
        }
        assert(h.placed(b.base(s))) by {
            assert forall|p: int| 0 <= p < PAGES_PER_SEGMENT implies #[trigger] h.pages@[p].page_start == b.base(s)
                + FIRST_PAGE_OFFSET + p * PAGE_SIZE by {
                assert(g.pages@[p].page_start == b.base(s) + FIRST_PAGE_OFFSET + p * PAGE_SIZE);
            }
        }
    }
    assert(books(b, t)) by {
        assert forall|k: int| #[trigger] owned(b, t, k) implies seg_books(b.segments@[k], b.base(k)) by {
            assert(owned(a, t, k));
        }
    }
    assert forall|x: PageId| #[trigger] head_at(b, t, x) == (head_at(a, t, x) || x == second) by {
        assert(owned(b, t, x.segment as int) == owned(a, t, x.segment as int));
    }
    assert forall|x: PageId| in_arena(a, x) implies ({
        &&& (#[trigger] page_at(b, x)).block_size == page_at(a, x).block_size
        &&& page_at(b, x).next_page == page_at(a, x).next_page
        &&& page_at(b, x).previous_page == page_at(a, x).previous_page
        &&& x != id && x != second ==> page_at(b, x).slice_count == page_at(a, x).slice_count
    }) by {
        if x.segment == s {
            assert(h.pages@[x.page as int] == page_at(b, x));
        }
    }
    assert forall|x: PageId| #[trigger] free_head(b, t, x) == (free_head(a, t, x) || x == second) by {
        assert(head_at(b, t, x) == (head_at(a, t, x) || x == second));
        if head_at(a, t, x) {
            lemma_head(a, t, x);
            assert(page_at(b, x).block_size == page_at(a, x).block_size);
        }
        if x == second {
            assert(page_at(b, x).block_size == page_at(a, x).block_size);
        }
    }
    assert forall|x: PageId| #[trigger] used_head(b, t, x) == used_head(a, t, x) by {
        assert(head_at(b, t, x) == (head_at(a, t, x) || x == second));
        assert(free_head(b, t, x) == (free_head(a, t, x) || x == second));
    }
    assert forall|x: PageId| #[trigger] used_head(a, t, x) implies used_head(b, t, x) && page_at(b, x) == page_at(a, x) by {
        assert(used_head(b, t, x) == used_head(a, t, x));
        lemma_head(a, t, x);
        if x.segment == s {
            assert(g.head_ok(x.page as int));
            assert(!(l <= x.page < l + g.count(l)));
            assert(h.pages@[x.page as int] == page_at(b, x));
        }
    }
    assert(c.spans_ok(b, two)) by {
        assert forall|k: int| 0 <= k < SEGMENT_BINS implies #[trigger] c.list_ok(b, k) by {
            assert(c.list_ok(a, k));
            assert forall|i: int| 0 <= i < c.lists@[k].len() implies #[trigger] c.node_ok(b, k, i) by {
                assert(c.node_ok(a, k, i));
                let x = c.lists@[k][i];
                lemma_head(a, t, x);
                assert(c.lists@[k].contains(x));
                assert(c.listed(a, x));
                assert(x != id && x != second);
                assert(free_head(b, t, x));
                assert(page_at(b, x).slice_count == page_at(a, x).slice_count);
            }
        }
        assert forall|x: PageId| #[trigger] free_head(b, t, x) implies two.contains(x) || c.listed(b, x) by {
            if !two.contains(x) {
                assert(free_head(a, t, x));
                lemma_head(a, t, x);
                assert(page_at(b, x).slice_count == page_at(a, x).slice_count);
            }
        }
        assert forall|x: PageId| #[trigger] two.contains(x) implies free_head(b, t, x) && !c.listed(b, x) by {
            assert(free_head(b, t, x));
            lemma_head(b, t, x);
            if c.listed(b, x) {
                let k = bin_of(b, x);
                let i = choose|i: int| 0 <= i < c.lists@[k].len() && c.lists@[k][i] == x;
                assert(c.list_ok(a, k));
                assert(c.node_ok(a, k, i));
                assert(c.lists@[k].contains(x));
            }
        }
        assert forall|x: PageId|
            owned(b, t, x.segment as int) && x.page < PAGES_PER_SEGMENT && !(free_head(b, t, x) && !two.contains(x))
            implies (#[trigger] page_at(b, x)).unlinked() by {
            assert(owned(a, t, x.segment as int));
            assert(in_arena(a, x));
            assert(page_at(a, x).unlinked());
        }
    }
    assert forall|x: PageId| head_at(b, t, x) implies #[trigger] calm(b, two, x) && calm(b, two.remove(second), x) by {
        lemma_head(b, t, x);
        if x != second && x != id {
            assert(head_at(a, t, x));
            lemma_head(a, t, x);
            assert(calm(a, one, x));
            assert(page_at(b, x).slice_count == page_at(a, x).slice_count);
            let y = PageId { segment: x.segment, page: (x.page + page_at(a, x).slice_count) as usize };
            if x.page + page_at(a, x).slice_count < PAGES_PER_SEGMENT {
                assert(in_arena(a, y));
                assert(page_at(b, y).block_size == page_at(a, y).block_size);
                assert(head_at(a, t, y));
                assert(y != second);
            }
        } else if x == second {
            let n = l + g.count(l);
            if n < PAGES_PER_SEGMENT {
                assert(segment::same_but_shape(g.pages@[n], h.pages@[n]));
            }
        }
    }
    assert forall|x: PageId| head_at(b, t, x) implies #[trigger] calm(b, two.remove(second), x) by {
        assert(calm(b, two, x));
    }
    assert(c.queues_ok(b, Set::empty())) by {
        assert forall|k: int| 0 <= k < NUM_SIZE_CLASSES implies #[trigger] c.current_ok(b, Set::empty(), k) by {
            assert(c.current_ok(a, Set::empty(), k));
        }
        assert forall|k: int| 0 <= k <= NUM_SIZE_CLASSES implies #[trigger] c.queue_ok(b, Set::empty(), k) by {
            assert(c.queue_ok(a, Set::empty(), k));
        }
        assert forall|x: PageId| #[trigger] used_head(b, t, x) implies c.queued(b, x) by {
            assert(used_head(a, t, x));
        }
    }
    lemma_used_kept_is_live_kept(a, b, t, s);
    assert(h.pages@[l] == page_at(b, id));
}

/// All blocks of the page are free.
pub open spec fn fresh(page: Page) -> bool {
    &&& page.blocks_wf()
    &&& page.used == 0
    &&& page.free_list@ == Seq::new(page.num_blocks() as nat, |i: int| i as u8)
    &&& page.thread_free_list@.len() == 0
}

/// Cutting a detached slice into blocks keeps everything; its head is then a loose page.
#[verifier::rlimit(50)]
proof fn lemma_cut(c: TCache, a: Arena, b: Arena, id: PageId, block_size: usize)
    requires
        c.inv_with(a, Set::empty().insert(id), Set::empty()),
        one_segment(a, b, id.segment as int),
        block_size > 0,
        (page_at(a, id).slice_count * PAGE_SIZE) / (block_size as int) >= 1,
        page_at(a, id).slice_count == 1 || (page_at(a, id).slice_count * PAGE_SIZE) / (block_size as int) == 1,
        ({
            let g = a.segments@[id.segment as int];
            let h = b.segments@[id.segment as int];
            let n = page_at(a, id).slice_count;
            &&& h.allocated == g.allocated + n
            &&& h.num_slices == g.num_slices
            &&& h.heads == g.heads
            &&& h.in_use@ == g.in_use@.union(vstd::set_lib::set_int_range(id.page as int, id.page + n))
            &&& h.pages@ == g.pages@.update(id.page as int, page_at(b, id))
            &&& page_at(b, id) == (Page { block_size, free_list: page_at(b, id).free_list, ..page_at(a, id) })
            &&& page_at(b, id).num_blocks() == (n * PAGE_SIZE) / (block_size as int)
            &&& page_at(b, id).free_list.wf()
            &&& page_at(b, id).free_list@ == Seq::new(page_at(b, id).num_blocks() as nat, |i: int| i as u8)
        }),
    ensures
        c.inv_with(b, Set::empty(), Set::empty().insert(id)),
        same_live(a, b),
        others_kept(a, b, c.thread_id),
        fresh(page_at(b, id)),
        forall|x: PageId| #[trigger] used_head(b, c.thread_id, x) <==> used_head(a, c.thread_id, x) || x == id,
        forall|x: PageId| #[trigger] used_head(a, c.thread_id, x) ==> page_at(b, x) == page_at(a, x),
{
    let t = c.thread_id;
    let s = id.segment as int;
    let p = id.page as int;
    let g = a.segments@[s];
    let h = b.segments@[s];
    let n = g.count(p);
    let det = Set::<PageId>::empty().insert(id);
    assert(det.contains(id));
    assert(free_head(a, t, id));
    lemma_head(a, t, id);
    assert(page_books(g, p));
    assert forall|k: int| #[trigger] owned(b, t, k) == owned(a, t, k) by {}
    assert(fresh(page_at(b, id))) by {
        let page = page_at(b, id);
        a.lemma_base_bounds(s);
        assert(g.placed(a.base(s)));
        assert(g.pages@[p].page_start == a.base(s) + FIRST_PAGE_OFFSET + p * PAGE_SIZE);
        assert(page.num_blocks() * page.block_size <= page.slice_count * PAGE_SIZE) by (nonlinear_arith)
            requires
                page.num_blocks() == (page.slice_count * PAGE_SIZE) / (page.block_size as int),
                page.block_size > 0,
        ;
        assert(page.returned() =~= page.free_list@);
    }
    assert(seg_books(h, b.base(s))) by {
        let range = vstd::set_lib::set_int_range(p, p + n);
        vstd::set_lib::lemma_int_range(p, p + n);
        assert(g.use_ok(p));
        assert(range.disjoint(g.in_use@));
        vstd::set_lib::lemma_set_disjoint_lens(g.in_use@, range);
        assert(g.in_use@.union(range) =~= g.in_use@ + range);
        assert forall|q: int| h.is_head(q) implies #[trigger] h.head_ok(q) by {
            assert(g.head_ok(q));
        }
        assert forall|q: int| h.is_head(q) implies #[trigger] h.use_ok(q) by {
            assert(g.use_ok(q));
            assert(g.head_ok(q));
        }
        assert forall|q: int| 0 <= q < PAGES_PER_SEGMENT implies #[trigger] page_books(h, q) by {
            assert(page_books(g, q));
        }
        assert(h.placed(b.base(s))) by {
            assert forall|q: int| 0 <= q < PAGES_PER_SEGMENT implies #[trigger] h.pages@[q].page_start == b.base(s)
                + FIRST_PAGE_OFFSET + q * PAGE_SIZE by {
                assert(g.pages@[q].page_start == b.base(s) + FIRST_PAGE_OFFSET + q * PAGE_SIZE);
            }
        }
    }
    assert(books(b, t)) by {
        assert forall|k: int| #[trigger] owned(b, t, k) implies seg_books(b.segments@[k], b.base(k)) by {
            assert(owned(a, t, k));
        }
    }
    assert(b.wf());
    assert forall|x: PageId| #[trigger] head_at(b, t, x) == head_at(a, t, x) by {
        assert(owned(b, t, x.segment as int) == owned(a, t, x.segment as int));
    }
    assert forall|x: PageId| in_arena(a, x) && x != id implies #[trigger] page_at(b, x) == page_at(a, x) by {}
    assert forall|x: PageId| #[trigger] free_head(b, t, x) == (free_head(a, t, x) && x != id) by {
        assert(head_at(b, t, x) == head_at(a, t, x));
        if head_at(a, t, x) {
            lemma_head(a, t, x);
        }
    }
    assert forall|x: PageId| #[trigger] used_head(b, t, x) == (used_head(a, t, x) || x == id) by {
        assert(head_at(b, t, x) == head_at(a, t, x));
        if head_at(a, t, x) {
            lemma_head(a, t, x);
        }
    }
    assert forall|x: PageId| #[trigger] used_head(a, t, x) implies page_at(b, x) == page_at(a, x) by {
        lemma_head(a, t, x);
    }
    assert(c.spans_ok(b, Set::empty())) by {
        assert forall|k: int| 0 <= k < SEGMENT_BINS implies #[trigger] c.list_ok(b, k) by {
            assert(c.list_ok(a, k));
            assert forall|i: int| 0 <= i < c.lists@[k].len() implies #[trigger] c.node_ok(b, k, i) by {
                assert(c.node_ok(a, k, i));
                let x = c.lists@[k][i];
                lemma_head(a, t, x);
                assert(c.lists@[k].contains(x));
                assert(c.listed(a, x));
                assert(x != id);
            }
        }
        assert forall|x: PageId| #[trigger] free_head(b, t, x) implies c.listed(b, x) by {
            assert(free_head(a, t, x));
            lemma_head(a, t, x);
        }
        assert forall|x: PageId|
            owned(b, t, x.segment as int) && x.page < PAGES_PER_SEGMENT && !free_head(b, t, x) implies (
        #[trigger] page_at(b, x)).unlinked() by {
            assert(owned(a, t, x.segment as int));
            assert(in_arena(a, x));
            assert(page_at(a, x).unlinked());
        }
    }
    assert(all_calm(b, t, Set::empty())) by {
        assert forall|x: PageId| head_at(b, t, x) implies #[trigger] calm(b, Set::empty(), x) by {
            assert(head_at(a, t, x));
            lemma_head(a, t, x);
            assert(calm(a, det, x));
            if x.page + page_at(a, x).slice_count < PAGES_PER_SEGMENT {
                let y = PageId { segment: x.segment, page: (x.page + page_at(a, x).slice_count) as usize };
                assert(in_arena(a, y));
            }
        }
    }
    assert(c.queues_ok(b, det)) by {
        assert forall|k: int| 0 <= k < NUM_SIZE_CLASSES implies #[trigger] c.current_ok(b, det, k) by {
            assert(c.current_ok(a, Set::empty(), k));
        }
        assert forall|k: int| 0 <= k <= NUM_SIZE_CLASSES implies #[trigger] c.queue_ok(b, det, k) by {
            assert(c.queue_ok(a, Set::empty(), k));
        }
        assert forall|x: PageId| #[trigger] used_head(b, t, x) implies det.contains(x) || c.queued(b, x) by {
            if x != id {
                assert(used_head(a, t, x));
            }
        }
    }
    page_at(b, id).lemma_unused_has_no_live();
    assert forall|x: PageId, block: int| #[trigger] live_block(b, x, block) <==> live_block(a, x, block) by {
        if x.segment == s && g.is_head(x.page as int) {
            assert(head_at(a, t, x));
            lemma_head(a, t, x);
        }
    }
    assert forall|x: PageId, block: int| #[trigger] live_block(b, x, block) implies page_at(b, x).block_size == page_at(
        a,
        x,
    ).block_size by {
        if x.segment == s && g.is_head(x.page as int) {
            assert(head_at(a, t, x));
            lemma_head(a, t, x);
        }
    }
}

/// `n` pages can be cut into blocks of this size: into one block, or a single page into a few.
pub open spec fn cuttable(n: int, block_size: int) -> bool {
    let blocks = (n * PAGE_SIZE) / block_size;
    &&& n > 0
    &&& block_size > 0
    &&& 1 <= blocks <= MAX_BLOCKS_PER_PAGE
    &&& n == 1 || blocks == 1
}

/// All slices before place `k` of span `b` are shorter than `n` pages.
pub open spec fn misses(c: TCache, a: Arena, n: int, b: int, k: int) -> bool {
    forall|i: int, j: int|
        0 <= i <= b && i < SEGMENT_BINS && 0 <= j < c.lists@[i].len() && (i < b || j < k) ==> page_at(
            a,
            #[trigger] c.lists@[i][j],
        ).slice_count < n
}

/// Slice `id` is the first, span after span, that has `n` pages.
pub open spec fn first_fit(c: TCache, a: Arena, n: int, id: PageId) -> bool {
    exists|b: int, k: int|
        {
            &&& 0 <= b < SEGMENT_BINS
            &&& 0 <= k < c.lists@[b].len()
            &&& #[trigger] c.lists@[b][k] == id
            &&& page_at(a, id).slice_count >= n
            &&& misses(c, a, n, b, k)
        }
}

/// The spans once the first `n` pages of slice `id`, of `count` pages, are cut off: the rest is at the
/// end of its span.
pub open spec fn cut_lists(lists: Seq<Seq<PageId>>, id: PageId, count: int, n: int) -> Seq<Seq<PageId>> {
    if count > n {
        enlisted(unlisted(lists, id), PageId { segment: id.segment, page: (id.page + n) as usize }, count - n)
    } else {
        unlisted(lists, id)
    }
}

/// The first `n` pages of free slice `id` were cut into blocks.
pub open spec fn taken(a: Arena, b: Arena, t: usize, id: PageId, n: int, block_size: int) -> bool {
    &&& same_live(a, b)
    &&& others_kept(a, b, t)
    &&& b.used_bitmap == a.used_bitmap
    &&& free_head(a, t, id)
    &&& fresh(page_at(b, id))
    &&& page_at(b, id).block_size == block_size
    &&& page_at(b, id).slice_count == n
    &&& page_at(b, id).num_blocks() == (n * PAGE_SIZE) / block_size
    &&& forall|x: PageId| #[trigger] used_head(b, t, x) <==> used_head(a, t, x) || x == id
    &&& forall|x: PageId| #[trigger] used_head(a, t, x) ==> page_at(b, x) == page_at(a, x)
}

proof fn lemma_same_live_trans(a: Arena, b: Arena, c: Arena)
    requires
        same_live(a, b),
        same_live(b, c),
    ensures
        same_live(a, c),
{
    assert forall|x: PageId, block: int| #[trigger] live_block(c, x, block) <==> live_block(a, x, block) by {
        assert(live_block(b, x, block) <==> live_block(a, x, block));
    }
    assert forall|x: PageId, block: int| #[trigger] live_block(c, x, block) implies page_at(c, x).block_size == page_at(
        a,
        x,
    ).block_size by {
        assert(live_block(b, x, block) <==> live_block(a, x, block));
    }
}

impl TCache {
    /// Cuts the first pages of a free slice into blocks; the rest of the slice stays free.
    #[verifier::rlimit(50)]
    fn take_slice(&mut self, arena: &mut Arena, id: PageId, num_slices_required: usize, block_size: usize)
        requires
            old(self).inv(*old(arena)),
            free_head(*old(arena), old(self).thread_id, id),
            page_at(*old(arena), id).slice_count >= num_slices_required,
            cuttable(num_slices_required as int, block_size as int),
        ensures
            final(self).inv_with(*final(arena), Set::empty(), Set::empty().insert(id)),
            taken(
                *old(arena),
                *final(arena),
                old(self).thread_id,
                id,
                num_slices_required as int,
                block_size as int,
            ),
            *final(self) == (TCache { spans: final(self).spans, lists: final(self).lists, ..*old(self) }),
            final(self).lists@ == cut_lists(
                old(self).lists@,
                id,
                page_at(*old(arena), id).slice_count as int,
                num_slices_required as int,
            ),
    {
        let ghost t = self.thread_id;
        let ghost a0 = *arena;
        let ghost s = id.segment as int;
        let ghost one = Set::<PageId>::empty().insert(id);
        proof {
            lemma_head(a0, t, id);
            assert(calm(a0, Set::empty(), id));
        }
        let num_slices_original: usize = arena.segments[id.segment].pages[id.page].slice_count;
        self.remove_slice_from_span(arena, id, Ghost(Set::empty()), Ghost(Set::empty()));
        let ghost a1 = *arena;
        let ghost c1 = *self;
        proof {
            lemma_links_reshape(*old(self), c1, a0, a1, Set::empty(), one);
            lemma_links_keep_books(a0, a1, t, one);
            assert(same_but_links_seg(a0.segments@[s], a1.segments@[s]));
            assert(head_at(a1, t, id));
            assert(page_at(a1, id).slice_count == page_at(a0, id).slice_count);
            lemma_head(a1, t, id);
            assert(settled_right(a1, id)) by {
                let n = id.page + num_slices_original;
                if n < PAGES_PER_SEGMENT {
                    let y = PageId { segment: id.segment, page: n as usize };
                    assert(page_at(a0, y).block_size != 0);
                    assert(a1.segments@[s].pages@[n].block_size == a0.segments@[s].pages@[n].block_size);
                }
            }
        }
        if num_slices_original > num_slices_required {
            let second_page: usize = arena.segments[id.segment].split_page(id.page, num_slices_required);
            let second = PageId { segment: id.segment, page: second_page };
            let ghost a2 = *arena;
            proof {
                assert(a2.segments@ =~= a1.segments@.update(s, a2.segments@[s]));
                assert(one_segment(a1, a2, s));
                lemma_split(c1, a1, a2, id, second);
                lemma_reshaped_trans(a0, a1, a2, t);
                assert(one.insert(second).contains(second));
            }
            self.add_slice_to_span(arena, second, Ghost(one.insert(second)), Ghost(Set::empty()));
            proof {
                assert(one.insert(second).remove(second) =~= one);
                lemma_links_reshape(c1, *self, a2, *arena, one.insert(second), one);
                lemma_reshaped_trans(a0, a2, *arena, t);
                lemma_links_keep_books(a2, *arena, t, one);
                assert(one.contains(id));
                assert(free_head(*arena, t, id));
                assert(head_at(a2, t, id));
                assert(page_at(*arena, id).slice_count == num_slices_required);
            }
        }
        let ghost a3 = *arena;
        proof {
            assert(one.contains(id));
            assert(free_head(a3, t, id));
            lemma_head(a3, t, id);
            let g = a3.segments@[s];
            let range = vstd::set_lib::set_int_range(id.page as int, id.page + num_slices_required);
            let all = vstd::set_lib::set_int_range(0, PAGES_PER_SEGMENT as int);
            vstd::set_lib::lemma_int_range(0, PAGES_PER_SEGMENT as int);
            assert(g.in_use@.subset_of(all));
            vstd::set_lib::lemma_len_subset(g.in_use@, all);
        }
        let allocated: usize = arena.segments[id.segment].allocated;
        arena.segments[id.segment].allocated = allocated + num_slices_required;
        arena.segments[id.segment].pages[id.page].set_block_size(block_size);
        arena.segments[id.segment].in_use = Ghost(
            a3.segments@[s].in_use@.union(
                vstd::set_lib::set_int_range(id.page as int, id.page + num_slices_required),
            ),
        );
        proof {
            assert(arena.segments@ =~= a3.segments@.update(s, arena.segments@[s]));
            assert(arena.segments@[s].pages@ =~= a3.segments@[s].pages@.update(id.page as int, page_at(*arena, id)));
            assert(one_segment(a3, *arena, s));
            lemma_cut(*self, a3, *arena, id, block_size);
            lemma_same_live_trans(a0, a3, *arena);
            lemma_others_kept_trans(a0, a3, *arena, t);
            assert forall|x: PageId| #[trigger] used_head(*arena, t, x) <==> used_head(a0, t, x) || x == id by {
                assert(used_head(a3, t, x) <==> used_head(a0, t, x));
            }
            assert forall|x: PageId| #[trigger] used_head(a0, t, x) implies page_at(*arena, x) == page_at(a0, x) by {
                assert(used_head(a3, t, x));
            }
        }
    }

    /// Cuts the first free slice with enough pages into blocks, and returns its head. The page is in
    /// no queue yet.
    #[verifier::rlimit(50)]
    fn find_page_from_spans(
        &mut self,
        arena: &mut Arena,
        num_slices_required: usize,
        block_size: usize,
    ) -> (page: Option<PageId>)
        requires
            old(self).inv(*old(arena)),
            cuttable(num_slices_required as int, block_size as int),
        ensures
            *final(self) == (TCache { spans: final(self).spans, lists: final(self).lists, ..*old(self) }),
            match page {
                None => {
                    &&& *final(self) == *old(self)
                    &&& *final(arena) == *old(arena)
                    &&& forall|x: PageId| #[trigger] free_head(*old(arena), old(self).thread_id, x) ==> page_at(
                        *old(arena),
                        x,
                    ).slice_count < num_slices_required
                },
                Some(id) => {
                    &&& final(self).inv_with(*final(arena), Set::empty(), Set::empty().insert(id))
                    &&& taken(
                        *old(arena),
                        *final(arena),
                        old(self).thread_id,
                        id,
                        num_slices_required as int,
                        block_size as int,
                    )
                    &&& first_fit(*old(self), *old(arena), num_slices_required as int, id)
                    &&& final(self).lists@ == cut_lists(
                        old(self).lists@,
                        id,
                        page_at(*old(arena), id).slice_count as int,
                        num_slices_required as int,
                    )
                },
            },
    {
        let ghost t = self.thread_id;
        let ghost c0 = *self;
        let ghost a0 = *arena;
        let ghost n = num_slices_required as int;
        let min_bin: usize = Self::get_span_idx_from_slice_count(num_slices_required);
        let mut i: usize = min_bin;
        proof {
            assert(misses(c0, a0, n, min_bin as int, 0)) by {
                assert forall|b: int, k: int|
                    0 <= b <= min_bin && b < SEGMENT_BINS && 0 <= k < c0.lists@[b].len() && (b < min_bin || k < 0)
                    implies page_at(a0, #[trigger] c0.lists@[b][k]).slice_count < n by {
                    assert(c0.list_ok(a0, b));
                    assert(c0.node_ok(a0, b, k));
                    let count = page_at(a0, c0.lists@[b][k]).slice_count;
                    if count >= n {
                        lemma_floor_log2_monotone(n as nat, count as nat);
                    }
                }
            }
        }
        while i < SEGMENT_BINS
            invariant
                *self == c0,
                *arena == a0,
                c0.inv(a0),
                t == c0.thread_id,
                n == num_slices_required,
                cuttable(num_slices_required as int, block_size as int),
                min_bin == floor_log2(n as nat),
                misses(c0, a0, n, i as int, 0),
                *self == *old(self),
                *arena == *old(arena),
            decreases SEGMENT_BINS - i,
        {
            let mut slice: Option<PageId> = self.spans[i].first;
            let ghost mut k: int = 0;
            let ghost l = c0.lists@[i as int];
            proof {
                assert(c0.list_ok(a0, i as int));
            }
            loop
                invariant
                    *self == c0,
                    *arena == a0,
                    c0.inv(a0),
                    t == c0.thread_id,
                    n == num_slices_required,
                    cuttable(num_slices_required as int, block_size as int),
                    i < SEGMENT_BINS,
                    l == c0.lists@[i as int],
                    0 <= k <= l.len(),
                    slice == (if k < l.len() {
                        Some(l[k])
                    } else {
                        None
                    }),
                    misses(c0, a0, n, i as int, k),
                    *self == *old(self),
                    *arena == *old(arena),
                ensures
                    k == l.len(),
                decreases l.len() - k,
            {
                let id: PageId = match slice {
                    Some(id) => id,
                    None => {
                        break;
                    },
                };
                proof {
                    assert(c0.list_ok(a0, i as int));
                    assert(c0.node_ok(a0, i as int, k));
                    lemma_head(a0, t, id);
                }
                let num_slices_original: usize = arena.segments[id.segment].pages[id.page].slice_count;
                if num_slices_original < num_slices_required {
                    slice = arena.segments[id.segment].pages[id.page].next_page;
                    proof {
                        k = k + 1;
                    }
                    continue;
                }
                self.take_slice(arena, id, num_slices_required, block_size);
                proof {
                    assert(c0.lists@[i as int][k] == id);
                    assert(first_fit(c0, a0, n, id));
                }
                return Some(id);
            }
            proof {
                assert(misses(c0, a0, n, i + 1, 0));
            }
            i = i + 1;
        }
        proof {
            assert forall|x: PageId| #[trigger] free_head(a0, t, x) implies page_at(a0, x).slice_count < n by {
                lemma_head(a0, t, x);
                assert(c0.listed(a0, x));
                let b = bin_of(a0, x);
                let k = choose|k: int| 0 <= k < c0.lists@[b].len() && c0.lists@[b][k] == x;
                assert(page_at(a0, c0.lists@[b][k]).slice_count < n);
            }
        }
        None
    }
}

/// Segment `s` was unused and is now a single free slice of cache `t`.
spec fn segment_granted(a: Arena, b: Arena, t: usize, s: int) -> bool {
    let h = b.segments@[s];
    &&& b.wf()
    &&& b.same_memory(a)
    &&& 0 <= s < a.segments@.len()
    &&& b.segments@.len() == a.segments@.len()
    &&& a.used_bitmap@[s] == 0
    &&& b.used_bitmap@ == a.used_bitmap@.update(s, 1u8)
    &&& forall|k: int| 0 <= k < a.segments@.len() && k != s ==> #[trigger] b.segments@[k] == a.segments@[k]
    &&& h.thread_id == t
    &&& h.accounted()
    &&& h.placed(a.base(s))
    &&& h.allocated == 0
    &&& h.num_slices == PAGES_PER_SEGMENT
    &&& forall|p: int| 0 <= p < PAGES_PER_SEGMENT ==> (#[trigger] h.pages@[p]).idle() && h.pages@[p].unlinked()
}

/// A segment that is one free slice adds that slice to the cache.
#[verifier::rlimit(50)]
proof fn lemma_segment_added(c: TCache, a: Arena, b: Arena, id: PageId)
    requires
        c.inv(a),
        segment_granted(a, b, c.thread_id, id.segment as int),
        id.page == 0,
        b.segments@[id.segment as int].tiled(),
        b.segments@[id.segment as int].heads@ == Set::<int>::empty().insert(0),
        b.segments@[id.segment as int].count(0) == PAGES_PER_SEGMENT,
    ensures
        c.inv_with(b, Set::empty().insert(id), Set::empty()),
        all_calm(b, c.thread_id, Set::empty().insert(id).remove(id)),
        same_live(a, b),
        others_kept(a, b, c.thread_id),
        forall|x: PageId| #[trigger] used_head(b, c.thread_id, x) <==> used_head(a, c.thread_id, x),
        forall|x: PageId| #[trigger] used_head(a, c.thread_id, x) ==> page_at(b, x) == page_at(a, x),
        forall|x: PageId| #[trigger] free_head(b, c.thread_id, x) <==> free_head(a, c.thread_id, x) || x == id,
        forall|x: PageId| #[trigger] free_head(a, c.thread_id, x) ==> page_at(b, x) == page_at(a, x),
{
    let t = c.thread_id;
    let s = id.segment as int;
    let h = b.segments@[s];
    let det = Set::<PageId>::empty().insert(id);
    assert(det.contains(id));
    assert forall|k: int| #[trigger] owned(b, t, k) == (owned(a, t, k) || k == s) by {}
    assert forall|p: int| 0 <= p < PAGES_PER_SEGMENT implies #[trigger] page_books(h, p) by {
        assert(h.pages@[p].idle());
    }
    assert(h.pages@[0].idle());
    assert(books(b, t)) by {
        assert forall|k: int| #[trigger] owned(b, t, k) implies seg_books(b.segments@[k], b.base(k)) by {
            if k != s {
                assert(owned(a, t, k));
            }
        }
    }
    assert forall|x: PageId| #[trigger] head_at(b, t, x) == (head_at(a, t, x) || x == id) by {
        assert(owned(b, t, x.segment as int) == (owned(a, t, x.segment as int) || x.segment == s));
        assert(!owned(a, t, s));
    }
    assert forall|x: PageId| #[trigger] free_head(b, t, x) == (free_head(a, t, x) || x == id) by {
        assert(head_at(b, t, x) == (head_at(a, t, x) || x == id));
        assert(!owned(a, t, s));
    }
    assert forall|x: PageId| #[trigger] used_head(b, t, x) == used_head(a, t, x) by {
        assert(head_at(b, t, x) == (head_at(a, t, x) || x == id));
        assert(!owned(a, t, s));
    }
    assert forall|x: PageId| #[trigger] used_head(a, t, x) implies page_at(b, x) == page_at(a, x) by {
        assert(!owned(a, t, s));
    }
    assert forall|x: PageId| #[trigger] free_head(a, t, x) implies page_at(b, x) == page_at(a, x) by {
        assert(!owned(a, t, s));
    }
    assert(c.spans_ok(b, det)) by {
        assert forall|k: int| 0 <= k < SEGMENT_BINS implies #[trigger] c.list_ok(b, k) by {
            assert(c.list_ok(a, k));
            assert forall|i: int| 0 <= i < c.lists@[k].len() implies #[trigger] c.node_ok(b, k, i) by {
                assert(c.node_ok(a, k, i));
                assert(c.lists@[k][i].segment != s);
            }
        }
        assert forall|x: PageId| #[trigger] free_head(b, t, x) implies det.contains(x) || c.listed(b, x) by {
            if x != id {
                assert(free_head(a, t, x));
                assert(x.segment != s);
            }
        }
        assert(!c.listed(b, id)) by {
            lemma_head(b, t, id);
            if c.listed(b, id) {
                let k = bin_of(b, id);
                let i = choose|i: int| 0 <= i < c.lists@[k].len() && c.lists@[k][i] == id;
                assert(c.list_ok(a, k));
                assert(c.node_ok(a, k, i));
            }
        }
        assert forall|x: PageId| #[trigger] det.contains(x) implies free_head(b, t, x) && !c.listed(b, x) by {}
        assert forall|x: PageId|
            owned(b, t, x.segment as int) && x.page < PAGES_PER_SEGMENT && !(free_head(b, t, x) && !det.contains(x))
            implies (#[trigger] page_at(b, x)).unlinked() by {
            if x.segment == s {
                assert(h.pages@[x.page as int].idle());
            } else {
                assert(owned(a, t, x.segment as int));
                assert(page_at(a, x).unlinked());
            }
        }
    }
    assert forall|x: PageId| head_at(b, t, x) implies #[trigger] calm(b, det.remove(id), x) by {
        if x != id {
            assert(head_at(a, t, x));
            assert(x.segment != s);
            assert(calm(a, Set::empty(), x));
        }
    }
    assert forall|x: PageId| head_at(b, t, x) implies #[trigger] calm(b, det, x) by {
        assert(calm(b, det.remove(id), x));
    }
    assert(c.queues_ok(b, Set::empty())) by {
        assert forall|k: int| 0 <= k < NUM_SIZE_CLASSES implies #[trigger] c.current_ok(b, Set::empty(), k) by {
            assert(c.current_ok(a, Set::empty(), k));
        }
        assert forall|k: int| 0 <= k <= NUM_SIZE_CLASSES implies #[trigger] c.queue_ok(b, Set::empty(), k) by {
            assert(c.queue_ok(a, Set::empty(), k));
        }
        assert forall|x: PageId| #[trigger] used_head(b, t, x) implies c.queued(b, x) by {
            assert(used_head(a, t, x));
        }
    }
}

/// Every segment of the arena is handed out.
pub open spec fn all_used(a: Arena) -> bool {
    forall|s: int| 0 <= s < a.used_bitmap@.len() ==> #[trigger] a.used_bitmap@[s] == 1
}

/// `id` is the first page of the first segment that is not handed out.
pub open spec fn first_unused(a: Arena, id: PageId) -> bool {
    &&& id.page == 0
    &&& id.segment < a.segments@.len()
    &&& a.used_bitmap@[id.segment as int] == 0
    &&& forall|k: int| 0 <= k < id.segment ==> #[trigger] a.used_bitmap@[k] == 1
}

/// What taking a segment from the arena does: the first unused one becomes a free slice.
pub open spec fn segment_taken(a: Arena, b: Arena, t: usize) -> bool {
    &&& same_live(a, b)
    &&& others_kept(a, b, t)
    &&& forall|x: PageId| #[trigger] used_head(b, t, x) <==> used_head(a, t, x)
    &&& forall|x: PageId| #[trigger] used_head(a, t, x) ==> page_at(b, x) == page_at(a, x)
    &&& forall|x: PageId| #[trigger] free_head(a, t, x) ==> page_at(b, x).slice_count == page_at(a, x).slice_count
    &&& exists|id: PageId|
        {
            &&& #[trigger] first_unused(a, id)
            &&& b.used_bitmap@ == a.used_bitmap@.update(id.segment as int, 1u8)
            &&& page_at(b, id).slice_count == PAGES_PER_SEGMENT
            &&& forall|x: PageId| #[trigger] free_head(b, t, x) <==> free_head(a, t, x) || x == id
        }
}

/// A cache that has no pages and has done nothing yet.
pub open spec fn new_cache(c: TCache, t: usize) -> bool {
    &&& c.thread_id == t
    &&& c.free_pages@ == Seq::new(NUM_SIZE_CLASSES as nat, |i: int| None::<PageId>)
    &&& c.used_pages@.len() == NUM_SIZE_CLASSES + 1
    &&& forall|i: int| 0 <= i <= NUM_SIZE_CLASSES ==> (#[trigger] c.used_pages@[i])@.len() == 0
    &&& c.lists@ == Seq::new(SEGMENT_BINS as nat, |i: int| Seq::<PageId>::empty())
    &&& c.stats == no_stats()
}

impl TCache {
    pub fn new(thread_id: usize) -> (cache: TCache)
        ensures
            new_cache(cache, thread_id),
            forall|a: Arena| a.wf() && (forall|s: int| !owned(a, thread_id, s)) ==> #[trigger] cache.inv(a),
    {
        let mut used_pages: Vec<Vec<PageId>> = Vec::new();
        let mut i: usize = 0;
        while i < NUM_SIZE_CLASSES + 1
            invariant
                i <= NUM_SIZE_CLASSES + 1,
                used_pages@.len() == i,
                forall|k: int| 0 <= k < i ==> (#[trigger] used_pages@[k])@.len() == 0,
            decreases NUM_SIZE_CLASSES + 1 - i,
        {
            used_pages.push(Vec::new());
            i = i + 1;
        }
        let cache = TCache {
            free_pages: [None; NUM_SIZE_CLASSES],
            used_pages,
            spans: [Span { first: None, last: None }; SEGMENT_BINS],
            thread_id,
            stats: TCacheStats::new(),
            lists: Ghost(Seq::new(SEGMENT_BINS as nat, |i: int| Seq::<PageId>::empty())),
        };
        assert(cache.free_pages@ =~= Seq::new(NUM_SIZE_CLASSES as nat, |i: int| None::<PageId>));
        proof {
            assert forall|a: Arena| a.wf() && (forall|s: int| !owned(a, thread_id, s)) implies #[trigger] cache.inv(a) by {
                assert forall|x: PageId| !#[trigger] head_at(a, thread_id, x) by {
                    assert(!owned(a, thread_id, x.segment as int));
                }
                assert forall|k: int| 0 <= k < SEGMENT_BINS implies #[trigger] cache.list_ok(a, k) by {
                    assert(cache.lists@[k].len() == 0);
                }
                assert forall|k: int| 0 <= k <= NUM_SIZE_CLASSES implies #[trigger] cache.queue_ok(a, Set::empty(), k) by {
                    assert(cache.used_pages@[k]@.len() == 0);
                }
                assert forall|k: int| 0 <= k < NUM_SIZE_CLASSES implies #[trigger] cache.current_ok(a, Set::empty(), k) by {}
            }
        }
        cache
    }

    /// Makes the pages of a new segment one free slice, and puts that in its span.
    #[verifier::rlimit(50)]
    fn add_segment_to_spans(&mut self, arena: &mut Arena, segment: usize, Ghost(origin): Ghost<Arena>)
        requires
            old(self).inv(origin),
            segment_granted(origin, *old(arena), old(self).thread_id, segment as int),
        ensures
            final(self).inv(*final(arena)),
            same_live(origin, *final(arena)),
            others_kept(origin, *final(arena), old(self).thread_id),
            forall|x: PageId| #[trigger] used_head(*final(arena), old(self).thread_id, x) <==> used_head(
                origin,
                old(self).thread_id,
                x,
            ),
            forall|x: PageId| #[trigger] used_head(origin, old(self).thread_id, x) ==> page_at(*final(arena), x)
                == page_at(origin, x),
            final(arena).used_bitmap == old(arena).used_bitmap,
            forall|x: PageId| #[trigger] free_head(*final(arena), old(self).thread_id, x) <==> free_head(
                origin,
                old(self).thread_id,
                x,
            ) || x == (PageId { segment, page: 0 }),
            forall|x: PageId| #[trigger] free_head(origin, old(self).thread_id, x) ==> page_at(*final(arena), x).slice_count
                == page_at(origin, x).slice_count,
            page_at(*final(arena), PageId { segment, page: 0 }).slice_count == PAGES_PER_SEGMENT,
            *final(self) == (TCache { spans: final(self).spans, lists: final(self).lists, ..*old(self) }),
            final(self).lists@ == enlisted(
                old(self).lists@,
                PageId { segment, page: 0 },
                PAGES_PER_SEGMENT as int,
            ),
    {
        let ghost t = self.thread_id;
        let ghost s = segment as int;
        let ghost a0 = *arena;
        let id = PageId { segment, page: 0 };
        let ghost det = Set::<PageId>::empty().insert(id);
        let slice_count: usize = arena.segments[segment].num_slices;
        arena.segments[segment].pages[0].slice_count = slice_count;
        arena.segments[segment].pages[0].slice_offset = 0;
        arena.segments[segment].pages[PAGES_PER_SEGMENT - 1].slice_offset = PAGES_PER_SEGMENT - 1;
        arena.segments[segment].heads = Ghost(Set::empty().insert(0));
        let ghost a1 = *arena;
        proof {
            let g = a0.segments@[s];
            let h = a1.segments@[s];
            assert(a1.segments@ =~= a0.segments@.update(s, h));
            assert(h.pages@ =~= g.pages@.update(
                0,
                Page { slice_count: PAGES_PER_SEGMENT, slice_offset: 0, ..g.pages@[0] },
            ).update(
                PAGES_PER_SEGMENT - 1,
                Page { slice_offset: (PAGES_PER_SEGMENT - 1) as usize, ..g.pages@[PAGES_PER_SEGMENT - 1] },
            ));
            assert forall|p: int| 0 <= p < PAGES_PER_SEGMENT implies (#[trigger] h.pages@[p]).idle()
                && h.pages@[p].unlinked() && h.pages@[p].page_start == g.pages@[p].page_start by {
                assert(g.pages@[p].idle());
            }
            assert(h.placed(a0.base(s))) by {
                assert forall|p: int| 0 <= p < PAGES_PER_SEGMENT implies #[trigger] h.pages@[p].page_start == a0.base(s)
                    + FIRST_PAGE_OFFSET + p * PAGE_SIZE by {
                    assert(g.pages@[p].page_start == a0.base(s) + FIRST_PAGE_OFFSET + p
                        * PAGE_SIZE);
                }
            }
            assert forall|p: int| h.is_head(p) implies #[trigger] h.head_ok(p) by {}
            assert(h.in_use@.len() == 0);
            assert(h.in_use@ =~= Set::empty());
            assert forall|p: int| h.is_head(p) implies #[trigger] h.use_ok(p) by {
                assert(h.pages@[0].idle());
            }
            assert(segment_granted(origin, a1, t, s));
            lemma_segment_added(*self, origin, a1, id);
            assert(det.contains(id));
        }
        self.add_slice_to_span(arena, id, Ghost(det), Ghost(Set::empty()));
        proof {
            assert(det.remove(id) =~= Set::empty());
            lemma_links_reshape(*old(self), *self, a1, *arena, det, Set::empty());
            lemma_links_keep_books(a1, *arena, t, det);
            assert(free_head(a1, t, id));
            assert(free_head(*arena, t, id));
            lemma_same_live_trans(origin, a1, *arena);
            lemma_others_kept_trans(origin, a1, *arena, t);
            assert forall|x: PageId| #[trigger] used_head(*arena, t, x) <==> used_head(origin, t, x) by {
                assert(used_head(a1, t, x) <==> used_head(origin, t, x));
            }
            assert forall|x: PageId| #[trigger] used_head(origin, t, x) implies page_at(*arena, x) == page_at(origin, x) by {
                assert(used_head(a1, t, x));
            }
            assert forall|x: PageId| #[trigger] free_head(*arena, t, x) <==> free_head(origin, t, x) || x == id by {
                assert(free_head(a1, t, x) <==> free_head(origin, t, x) || x == id);
                assert(free_head(*arena, t, x) == free_head(a1, t, x));
            }
            assert forall|x: PageId| #[trigger] free_head(origin, t, x) implies page_at(*arena, x).slice_count == page_at(
                origin,
                x,
            ).slice_count by {
                assert(free_head(a1, t, x));
                lemma_head(a1, t, x);
            }
        }
    }

    /// Takes a segment from the arena, and says whether there was one.
    fn allocate_segment_from_arena(&mut self, arena: &mut Arena) -> (found: bool)
        requires
            old(self).inv(*old(arena)),
        ensures
            final(self).inv(*final(arena)),
            *final(self) == (TCache {
                spans: final(self).spans,
                lists: final(self).lists,
                stats: TCacheStats {
                    total_segments_allocated: old(self).stats.total_segments_allocated.wrapping_add(1),
                    ..old(self).stats
                },
                ..*old(self)
            }),
            found == !all_used(*old(arena)),
            segment_listed(*old(self), *final(self), *old(arena)),
            found ==> segment_taken(*old(arena), *final(arena), old(self).thread_id),
            !found ==> *final(arena) == *old(arena),
    {
        self.stats.total_segments_allocated = self.stats.total_segments_allocated.wrapping_add(1);
        let ghost t = self.thread_id;
        let ghost a0 = *arena;
        proof {
            lemma_stats_apart(*old(self), *self, a0, Set::empty(), Set::empty());
            assert(arena::segments_for(SEGMENT_SIZE as int) == 1);
        }
        match arena.allocate_segment(SEGMENT_SIZE) {
            None => {
                proof {
                    assert forall|s: int| 0 <= s < a0.used_bitmap@.len() implies #[trigger] a0.used_bitmap@[s] == 1 by {
                        assert(!arena::zero_run(a0.used_bitmap@, s, 1));
                    }
                }
                false
            },
            Some(segment) => {
                let thread_id: usize = self.thread_id;
                let ghost g = arena.segments@[segment as int];
                arena.segments[segment].thread_id = thread_id;
                proof {
                    let s = segment as int;
                    let a1 = *arena;
                    assert(a0.used_bitmap@[s] == 0);
                    assert(!all_used(a0));
                    assert(a1.used_bitmap@ =~= a0.used_bitmap@.update(s, 1u8));
                    assert forall|k: int| 0 <= k < a0.segments@.len() && k != s implies #[trigger] a1.segments@[k]
                        == a0.segments@[k] by {}
                    assert forall|k: int| 0 <= k < s implies #[trigger] a0.used_bitmap@[k] == 1 by {
                        if a0.used_bitmap@[k] == 0 {
                            assert(arena::zero_run(a0.used_bitmap@, k, 1));
                        }
                    }
                    let h = a1.segments@[s];
                    assert(h.placed(a0.base(s)));
                    assert forall|q: int| h.is_head(q) implies #[trigger] h.use_ok(q) by {
                        assert(g.use_ok(q));
                    }
                    assert(h.accounted());
                    assert(segment_granted(a0, a1, t, s));
                }
                self.add_segment_to_spans(arena, segment, Ghost(a0));
                proof {
                    assert(first_unused(a0, PageId { segment, page: 0 }));
                }
                true
            },
        }
    }
}

/// Block `block` of page `id`, at address `ptr`, was handed out, and nothing else changed hands.
pub open spec fn granted(a: Arena, b: Arena, id: PageId, block: int, ptr: usize) -> bool {
    &&& !live_block(a, id, block)
    &&& live_block(b, id, block)
    &&& ptr == page_at(b, id).block_address(block)
    &&& forall|x: PageId, k: int| #[trigger] live_block(b, x, k) <==> live_block(a, x, k) || (x == id && k == block)
    &&& forall|x: PageId, k: int| #[trigger] live_block(a, x, k) ==> page_at(b, x).block_size == page_at(a, x).block_size
}

proof fn lemma_live_then_granted(a: Arena, b: Arena, c: Arena, id: PageId, block: int, ptr: usize)
    requires
        same_live(a, b),
        granted(b, c, id, block, ptr),
    ensures
        granted(a, c, id, block, ptr),
{
    assert forall|x: PageId, k: int| #[trigger] live_block(c, x, k) <==> live_block(a, x, k) || (x == id && k
        == block) by {
        assert(live_block(b, x, k) <==> live_block(a, x, k));
    }
    assert forall|x: PageId, k: int| #[trigger] live_block(a, x, k) implies page_at(c, x).block_size == page_at(
        a,
        x,
    ).block_size by {
        assert(live_block(b, x, k) <==> live_block(a, x, k));
    }
    assert(live_block(b, id, block) <==> live_block(a, id, block));
}

/// The lists of a page are the same.
pub open spec fn same_blocks(before: Page, after: Page) -> bool {
    &&& same_but_blocks(before, after)
    &&& after.free_list@ == before.free_list@
    &&& after.thread_free_list@ == before.thread_free_list@
    &&& after.used == before.used
}

/// `after` is `before` without the first of its free blocks; where `collected`, what others handed back
/// was free by then.
pub open spec fn gave_block(before: Page, after: Page, collected: bool) -> bool {
    &&& same_but_blocks(before, after)
    &&& if collected {
        &&& after.free_list@ == before.returned().skip(1)
        &&& after.thread_free_list@ == Seq::<u8>::empty()
        &&& after.used == outstanding(before) + 1
    } else {
        &&& after.free_list@ == before.free_list@.skip(1)
        &&& after.thread_free_list@ == before.thread_free_list@
        &&& after.used == before.used + 1
    }
}

/// The page has `n` pages and was cut into blocks just now, of which the first was handed out.
pub open spec fn gave_first(page: Page, n: int) -> bool {
    &&& page.slice_count == n
    &&& page.num_blocks() == (n * PAGE_SIZE) / (page.block_size as int)
    &&& page.free_list@ == Seq::new(page.num_blocks() as nat, |i: int| i as u8).skip(1)
    &&& page.thread_free_list@ == Seq::<u8>::empty()
    &&& page.used == 1
}

/// The pages of cache `t` that are cut into blocks are the same and have the same lists, but for page
/// `touched`, where there is one, which is cut now.
pub open spec fn rested(a: Arena, b: Arena, t: usize, touched: Option<PageId>) -> bool {
    &&& forall|x: PageId| #[trigger] used_head(b, t, x) <==> used_head(a, t, x) || touched == Some(x)
    &&& forall|x: PageId| #[trigger] used_head(a, t, x) && touched != Some(x) ==> same_blocks(
        page_at(a, x),
        page_at(b, x),
    )
}

proof fn lemma_rested_trans(a: Arena, b: Arena, c: Arena, t: usize, touched: Option<PageId>)
    requires
        rested(a, b, t, None),
        rested(b, c, t, touched),
    ensures
        rested(a, c, t, touched),
{
    assert forall|x: PageId| #[trigger] used_head(c, t, x) <==> used_head(a, t, x) || touched == Some(x) by {
        assert(used_head(b, t, x) <==> used_head(a, t, x));
    }
    assert forall|x: PageId| #[trigger] used_head(a, t, x) && touched != Some(x) implies same_blocks(
        page_at(a, x),
        page_at(c, x),
    ) by {
        assert(used_head(b, t, x));
    }
}

/// Collecting from a page that is exhausted changes nothing.
proof fn lemma_collected_exhausted(before: Page, after: Page)
    requires
        is_collected(before, after),
        exhausted(before),
    ensures
        same_blocks(before, after),
{
    assert(before.returned() == before.free_list@ + before.thread_free_list@);
    assert(after.free_list@ =~= before.free_list@);
    assert(after.thread_free_list@ =~= before.thread_free_list@);
}

/// Hands out a block of a page that has free ones.
fn take_block(arena: &mut Arena, id: PageId, Ghost(c): Ghost<TCache>, Ghost(loose): Ghost<Set<PageId>>) -> (ptr: (
    usize,
    Ghost<int>,
))
    requires
        c.inv_with(*old(arena), Set::empty(), loose),
        used_head(*old(arena), c.thread_id, id),
        page_at(*old(arena), id).free_list@.len() > 0,
    ensures
        c.inv_with(*final(arena), Set::empty(), loose),
        others_kept(*old(arena), *final(arena), c.thread_id),
        granted(*old(arena), *final(arena), id, ptr.1@, ptr.0),
        ptr.1@ == page_at(*old(arena), id).returned()[0],
        gave_block(page_at(*old(arena), id), page_at(*final(arena), id), false),
        final(arena).used_bitmap == old(arena).used_bitmap,
        forall|x: PageId| #[trigger] used_head(*final(arena), c.thread_id, x) == used_head(*old(arena), c.thread_id, x),
        rested(*old(arena), *final(arena), c.thread_id, Some(id)),
{
    let ghost t = c.thread_id;
    let ghost a0 = *arena;
    proof {
        lemma_head(a0, t, id);
    }
    let ptr: Option<usize> = arena.segments[id.segment].pages[id.page].get_free_block();
    let ghost block = page_at(a0, id).free_list@[0] as int;
    proof {
        assert(arena.segments@ =~= a0.segments@.update(id.segment as int, arena.segments@[id.segment as int]));
        assert(arena.segments@[id.segment as int].pages@ =~= a0.segments@[id.segment as int].pages@.update(
            id.page as int,
            page_at(*arena, id),
        ));
        lemma_blocks_moved(c, a0, *arena, id, Set::empty(), loose);
        assert forall|x: PageId, k: int| #[trigger] live_block(*arena, x, k) <==> live_block(a0, x, k) || (x == id && k
            == block) by {
            if x == id {
                assert(page_at(*arena, id).is_live(k) <==> page_at(a0, id).is_live(k) || k == block);
                assert(live_block(a0, id, k) <==> page_at(a0, id).is_live(k));
            }
        }
        assert(live_block(a0, id, block) <==> page_at(a0, id).is_live(block));
        assert(live_block(*arena, id, block));
        assert forall|x: PageId, k: int| #[trigger] live_block(a0, x, k) implies page_at(*arena, x).block_size == page_at(
            a0,
            x,
        ).block_size by {
            assert(live_block(*arena, x, k));
        }
        assert forall|x: PageId| #[trigger] used_head(a0, t, x) && x != id implies same_blocks(
            page_at(a0, x),
            page_at(*arena, x),
        ) by {
            lemma_head(a0, t, x);
            if x.segment == id.segment {
                assert(x.page != id.page);
            }
        }
    }
    match ptr {
        Some(ptr) => (ptr, Ghost(block)),
        None => (0, Ghost(block)),
    }
}

/// A loose page becomes the current one of its class.
proof fn lemma_made_current(c: TCache, d: TCache, a: Arena, id: PageId, k: int)
    requires
        c.inv_with(a, Set::empty(), Set::empty().insert(id)),
        0 <= k < NUM_SIZE_CLASSES,
        c.free_pages@[k] is None,
        page_at(a, id).block_size == class_size(k),
        d.free_pages@ == c.free_pages@.update(k, Some(id)),
        d == (TCache { free_pages: d.free_pages, ..c }),
    ensures
        d.inv(a),
{
    let t = c.thread_id;
    let loose = Set::<PageId>::empty().insert(id);
    assert(loose.contains(id));
    lemma_class_of_class_size(k);
    lemma_lists_apart(c, d, a, Set::empty());
    assert(c.queue_ok(a, loose, k));
    assert(!c.used_pages@[k]@.contains(id)) by {
        let q = c.used_pages@[k]@;
        if q.contains(id) {
            let m = choose|m: int| 0 <= m < q.len() && q[m] == id;
            assert(!loose.contains(q[m]));
        }
    }
    assert forall|i: int| 0 <= i < NUM_SIZE_CLASSES implies #[trigger] d.current_ok(a, Set::empty(), i) by {
        assert(c.current_ok(a, loose, i));
    }
    assert forall|i: int| 0 <= i <= NUM_SIZE_CLASSES implies #[trigger] d.queue_ok(a, Set::empty(), i) by {
        assert(c.queue_ok(a, loose, i));
    }
    assert forall|x: PageId| #[trigger] used_head(a, t, x) implies d.queued(a, x) by {
        if x != id {
            assert(c.queued(a, x));
            lemma_queue_in_range(page_at(a, x).block_size as int);
        }
    }
}

/// A loose page goes to the end of its queue.
proof fn lemma_enqueued(c: TCache, d: TCache, a: Arena, id: PageId, k: int)
    requires
        c.inv_with(a, Set::empty(), Set::empty().insert(id)),
        0 <= k <= NUM_SIZE_CLASSES,
        queue_of(page_at(a, id).block_size as int) == k,
        k < NUM_SIZE_CLASSES ==> page_at(a, id).block_size == class_size(k),
        d.used_pages@.len() == c.used_pages@.len(),
        forall|i: int| 0 <= i <= NUM_SIZE_CLASSES ==> (#[trigger] d.used_pages@[i])@ == (if i == k {
            c.used_pages@[i]@.push(id)
        } else {
            c.used_pages@[i]@
        }),
        d == (TCache { used_pages: d.used_pages, ..c }),
    ensures
        d.inv(a),
{
    let t = c.thread_id;
    let loose = Set::<PageId>::empty().insert(id);
    assert(loose.contains(id));
    lemma_lists_apart(c, d, a, Set::empty());
    assert forall|i: int| 0 <= i < NUM_SIZE_CLASSES implies #[trigger] d.current_ok(a, Set::empty(), i) by {
        assert(c.current_ok(a, loose, i));
        assert(d.used_pages@[i]@ == (if i == k { c.used_pages@[i]@.push(id) } else { c.used_pages@[i]@ }));
        if let Some(x) = d.free_pages@[i] {
            let q = d.used_pages@[i]@;
            if q.contains(x) {
                let m = choose|m: int| 0 <= m < q.len() && q[m] == x;
                if m < c.used_pages@[i]@.len() {
                    assert(c.used_pages@[i]@[m] == x);
                }
            }
        }
    }
    assert forall|i: int| 0 <= i <= NUM_SIZE_CLASSES implies #[trigger] d.queue_ok(a, Set::empty(), i) by {
        assert(c.queue_ok(a, loose, i));
        assert(d.used_pages@[i]@ == (if i == k { c.used_pages@[i]@.push(id) } else { c.used_pages@[i]@ }));
        if i == k {
            let q = c.used_pages@[i]@;
            assert forall|m: int| 0 <= m < q.len() implies q[m] != id by {
                assert(!loose.contains(q[m]));
            }
        }
    }
    assert forall|x: PageId| #[trigger] used_head(a, t, x) implies d.queued(a, x) by {
        let i = queue_of(page_at(a, x).block_size as int);
        lemma_queue_in_range(page_at(a, x).block_size as int);
        assert(d.used_pages@[i]@ == (if i == k { c.used_pages@[i]@.push(id) } else { c.used_pages@[i]@ }));
        if x != id {
            assert(c.queued(a, x));
            if c.used_pages@[i]@.contains(x) {
                let m = choose|m: int| 0 <= m < c.used_pages@[i]@.len() && c.used_pages@[i]@[m] == x;
                assert(d.used_pages@[i]@[m] == x);
            }
        } else {
            assert(d.used_pages@[i]@[c.used_pages@[i]@.len() as int] == id);
        }
    }
}

/// The queues play no part in the spans.
proof fn lemma_lists_apart(c: TCache, d: TCache, a: Arena, detached: Set<PageId>)
    requires
        c.spans_ok(a, detached),
        d.spans == c.spans,
        d.lists == c.lists,
        d.thread_id == c.thread_id,
    ensures
        d.spans_ok(a, detached),
{
    assert forall|i: int| 0 <= i < SEGMENT_BINS implies #[trigger] d.list_ok(a, i) by {
        assert(c.list_ok(a, i));
        assert forall|j: int| 0 <= j < d.lists@[i].len() implies #[trigger] d.node_ok(a, i, j) by {
            assert(c.node_ok(a, i, j));
        }
    }
}

/// All blocks of the page are in somebody's hands.
pub open spec fn exhausted(page: Page) -> bool {
    page.returned().len() == 0
}

/// The pages of class `k` in the order in which they are tried once its current page has no block left:
/// that one comes last.
pub open spec fn parked(c: TCache, k: int) -> Seq<PageId> {
    match c.free_pages@[k] {
        Some(id) => c.used_pages@[k]@.push(id),
        None => c.used_pages@[k]@,
    }
}

/// The first of the pages with a block to hand out is that at place `m`.
pub open spec fn first_open(a: Arena, pages: Seq<PageId>, m: int) -> bool {
    &&& 0 <= m < pages.len()
    &&& !exhausted(page_at(a, pages[m]))
    &&& forall|i: int| 0 <= i < m ==> exhausted(page_at(a, #[trigger] pages[i]))
}

/// Queue `k` of cache `d` is `queue`; the other queues are those of `c`.
pub open spec fn queue_set(c: TCache, d: TCache, k: int, queue: Seq<PageId>) -> bool {
    &&& d.used_pages@.len() == c.used_pages@.len()
    &&& d.used_pages@[k]@ == queue
    &&& forall|i: int| 0 <= i <= NUM_SIZE_CLASSES && i != k ==> (#[trigger] d.used_pages@[i])@ == c.used_pages@[i]@
}

/// Page `id` was the first in the queue of class `k` with a block to hand out, and is the current page
/// now.
pub open spec fn unparked(c: TCache, d: TCache, a: Arena, k: int, id: PageId) -> bool {
    let q = c.used_pages@[k]@;
    exists|m: int| #[trigger]
        first_open(a, q, m) && id == q[m] && queue_set(c, d, k, q.remove(m)) && d.free_pages@ == c.free_pages@.update(
            k,
            Some(id),
        )
}

/// Some pages have collected what others handed back to them; nothing else changed.
pub open spec fn browsed(a: Arena, b: Arena, t: usize) -> bool {
    &&& same_live(a, b)
    &&& others_kept(a, b, t)
    &&& b.used_bitmap == a.used_bitmap
    &&& forall|x: PageId| #[trigger] used_head(b, t, x) == used_head(a, t, x)
    &&& forall|x: PageId| #[trigger] free_head(b, t, x) == free_head(a, t, x)
    &&& forall|x: PageId| #[trigger] free_head(a, t, x) ==> page_at(b, x) == page_at(a, x)
    &&& forall|x: PageId| #[trigger] used_head(a, t, x) ==> page_at(b, x) == page_at(a, x) || is_collected(
        page_at(a, x),
        page_at(b, x),
    )
}

impl TCache {
    /// Collects what others handed back to a page.
    fn collect_page(arena: &mut Arena, id: PageId, Ghost(c): Ghost<TCache>, Ghost(origin): Ghost<Arena>)
        requires
            c.inv(*old(arena)),
            used_head(*old(arena), c.thread_id, id),
            browsed(origin, *old(arena), c.thread_id),
            page_at(*old(arena), id) == page_at(origin, id),
        ensures
            c.inv(*final(arena)),
            browsed(origin, *final(arena), c.thread_id),
            is_collected(page_at(origin, id), page_at(*final(arena), id)),
            forall|x: PageId| in_arena(*old(arena), x) && x != id ==> #[trigger] page_at(*final(arena), x) == page_at(
                *old(arena),
                x,
            ),
    {
        let ghost t = c.thread_id;
        let ghost a0 = *arena;
        proof {
            lemma_head(a0, t, id);
        }
        arena.segments[id.segment].pages[id.page].collect_foreign_frees();
        proof {
            let a1 = *arena;
            assert(a1.segments@ =~= a0.segments@.update(id.segment as int, a1.segments@[id.segment as int]));
            assert(a1.segments@[id.segment as int].pages@ =~= a0.segments@[id.segment as int].pages@.update(
                id.page as int,
                page_at(a1, id),
            ));
            lemma_blocks_moved(c, a0, a1, id, Set::empty(), Set::empty());
            assert forall|x: PageId, block: int| #[trigger] live_block(a1, x, block) <==> live_block(a0, x, block) by {
                if x == id {
                    assert(page_at(a1, id).is_live(block) <==> page_at(a0, id).is_live(block));
                    assert(live_block(a0, id, block) <==> page_at(a0, id).is_live(block));
                }
            }
            assert(same_live(a0, a1));
            lemma_same_live_trans(origin, a0, a1);
            lemma_others_kept_trans(origin, a0, a1, t);
            assert forall|x: PageId| #[trigger] used_head(a1, t, x) == used_head(origin, t, x) by {
                assert(used_head(a0, t, x) == used_head(origin, t, x));
            }
            assert forall|x: PageId| #[trigger] free_head(a1, t, x) == free_head(origin, t, x) by {
                assert(free_head(a0, t, x) == free_head(origin, t, x));
            }
            assert forall|x: PageId| #[trigger] free_head(origin, t, x) implies page_at(a1, x) == page_at(origin, x) by {
                assert(free_head(a0, t, x));
                lemma_head(a0, t, x);
            }
            assert forall|x: PageId| #[trigger] used_head(origin, t, x) implies page_at(a1, x) == page_at(origin, x)
                || is_collected(page_at(origin, x), page_at(a1, x)) by {
                assert(used_head(a0, t, x));
                lemma_head(a0, t, x);
            }
        }
    }

    /// Takes a block from the first page in the queue of a class that has a free one, and makes that
    /// page the current one.
    #[verifier::rlimit(50)]
    fn find_page_from_used(&mut self, arena: &mut Arena, bin: usize) -> (ptr: Option<(usize, Ghost<(PageId, int)>)>)
        requires
            old(self).inv(*old(arena)),
            bin < NUM_SIZE_CLASSES,
            old(self).free_pages@[bin as int] is None,
        ensures
            final(self).inv(*final(arena)),
            others_kept(*old(arena), *final(arena), old(self).thread_id),
            final(arena).used_bitmap == old(arena).used_bitmap,
            final(self).thread_id == old(self).thread_id,
            final(self).stats == old(self).stats,
            match ptr {
                None => {
                    &&& *final(self) == *old(self)
                    &&& browsed(*old(arena), *final(arena), old(self).thread_id)
                    &&& rested(*old(arena), *final(arena), old(self).thread_id, None)
                    &&& forall|i: int| 0 <= i < old(self).used_pages@[bin as int]@.len() ==> exhausted(
                        page_at(*old(arena), #[trigger] old(self).used_pages@[bin as int]@[i]),
                    ) && exhausted(page_at(*final(arena), old(self).used_pages@[bin as int]@[i]))
                },
                Some((ptr, at)) => {
                    &&& granted(*old(arena), *final(arena), at@.0, at@.1, ptr)
                    &&& used_head(*final(arena), old(self).thread_id, at@.0)
                    &&& page_at(*final(arena), at@.0).block_size == class_size(bin as int)
                    &&& unparked(*old(self), *final(self), *old(arena), bin as int, at@.0)
                    &&& final(self).lists == old(self).lists
                    &&& at@.1 == page_at(*old(arena), at@.0).returned()[0]
                    &&& gave_block(page_at(*old(arena), at@.0), page_at(*final(arena), at@.0), true)
                    &&& rested(*old(arena), *final(arena), old(self).thread_id, Some(at@.0))
                },
            },
    {
        let ghost t = self.thread_id;
        let ghost c0 = *self;
        let ghost a0 = *arena;
        let ghost q = c0.used_pages@[bin as int]@;
        let len: usize = self.used_pages[bin].len();
        let mut i: usize = 0;
        while i < len
            invariant
                *self == c0,
                *self == *old(self),
                a0 == *old(arena),
                t == c0.thread_id,
                c0.inv(a0),
                c0.inv(*arena),
                bin < NUM_SIZE_CLASSES,
                c0.free_pages@[bin as int] is None,
                q == c0.used_pages@[bin as int]@,
                len == q.len(),
                i <= len,
                browsed(a0, *arena, t),
                rested(a0, *arena, t, None),
                forall|k: int| 0 <= k < i ==> exhausted(page_at(a0, #[trigger] q[k])) && exhausted(page_at(*arena, q[k])),
                forall|k: int| i <= k < len ==> page_at(*arena, #[trigger] q[k]) == page_at(a0, q[k]),
            decreases len - i,
        {
            let id: PageId = self.used_pages[bin][i];
            let ghost a1 = *arena;
            proof {
                assert(q[i as int] == id);
                lemma_queued_alone(c0, a1, bin as int, i as int);
                lemma_queued_alone(c0, a0, bin as int, i as int);
                assert(c0.queue_ok(a1, Set::empty(), bin as int));
                assert forall|k: int| 0 <= k < len implies in_arena(a1, #[trigger] q[k]) && (k != i ==> q[k] != id) by {
                    assert(used_head(a1, t, q[k]));
                    lemma_head(a1, t, q[k]);
                }
            }
            Self::collect_page(arena, id, Ghost(c0), Ghost(a0));
            let ghost a2 = *arena;
            proof {
                assert(used_head(a2, t, id));
                lemma_head(a2, t, id);
                assert forall|k: int| 0 <= k < len && k != i implies page_at(a2, #[trigger] q[k]) == page_at(a1, q[k]) by {}
            }
            if arena.segments[id.segment].pages[id.page].is_full() {
                proof {
                    let before = page_at(a0, id);
                    assert(before.returned() =~= before.free_list@ + before.thread_free_list@);
                    assert(exhausted(page_at(a0, q[i as int])));
                    assert(exhausted(page_at(a2, q[i as int])));
                    lemma_collected_exhausted(before, page_at(a2, id));
                    assert forall|x: PageId| #[trigger] used_head(a0, t, x) implies same_blocks(
                        page_at(a0, x),
                        page_at(a2, x),
                    ) by {
                        assert(used_head(a1, t, x));
                        lemma_head(a1, t, x);
                    }
                }
                i = i + 1;
                continue;
            }
            let _page: PageId = self.used_pages[bin].remove(i);
            let ghost loose = Set::<PageId>::empty().insert(id);
            proof {
                assert(q.index_of(id) == i) by {
                    assert(q[q.index_of(id)] == id);
                }
                assert(self.used_pages@[bin as int]@ =~= dropped(q, id));
                assert forall|k: int| 0 <= k < NUM_SIZE_CLASSES implies #[trigger] self.free_pages@[k] == (if c0.free_pages@[k]
                    == Some(id) {
                    None
                } else {
                    c0.free_pages@[k]
                }) by {}
                assert(dequeued(c0, *self, a2, id));
                lemma_dequeued(c0, *self, a2, id, Set::empty(), Set::empty());
                assert(c0.queue_ok(a2, Set::empty(), bin as int));
            }
            let ghost c1 = *self;
            let (ptr, block) = take_block(arena, id, Ghost(c1), Ghost(loose));
            self.free_pages[bin] = Some(id);
            proof {
                assert(self.free_pages@ =~= c1.free_pages@.update(bin as int, Some(id)));
                assert(page_at(a2, id).returned() =~= page_at(a0, id).returned());
                assert(first_open(a0, q, i as int));
                assert(queue_set(c0, *self, bin as int, q.remove(i as int)));
                lemma_made_current(c1, *self, *arena, id, bin as int);
                assert(page_at(*arena, id).thread_free_list@ =~= Seq::<u8>::empty());
                assert forall|x: PageId| #[trigger] used_head(*arena, t, x) <==> used_head(a0, t, x) by {
                    assert(used_head(a2, t, x) == used_head(a0, t, x));
                }
                assert forall|x: PageId| #[trigger] used_head(a0, t, x) && x != id implies same_blocks(
                    page_at(a0, x),
                    page_at(*arena, x),
                ) by {
                    assert(used_head(a1, t, x));
                    lemma_head(a1, t, x);
                    assert(used_head(a2, t, x));
                }
                lemma_live_then_granted(a0, a2, *arena, id, block@, ptr);
                lemma_others_kept_trans(a0, a2, *arena, t);
            }
            return Some((ptr, Ghost((id, block@))));
        }
        None
    }
}

/// How many pages `size` bytes take.
pub open spec fn pages_for(size: int) -> int {
    (size + PAGE_SIZE - 1) / (PAGE_SIZE as int)
}

/// The size of the block that is handed out for `size` bytes: that of its class, or whole pages.
pub open spec fn rounded(size: int) -> int {
    if size > PAGE_SIZE {
        pages_for(size) * PAGE_SIZE
    } else {
        class_size(size_class(size))
    }
}

/// Cache `t` has no room for `size` bytes, and the arena has none to give it.
pub open spec fn no_room(a: Arena, t: usize, size: int) -> bool {
    if size > PAGE_SIZE {
        &&& forall|x: PageId| #[trigger] free_head(a, t, x) ==> page_at(a, x).slice_count < pages_for(size)
        &&& all_used(a) || pages_for(size) > PAGES_PER_SEGMENT
    } else {
        &&& forall|x: PageId| !#[trigger] free_head(a, t, x)
        &&& all_used(a)
        &&& forall|x: PageId| #[trigger] used_head(a, t, x) && page_at(a, x).block_size == rounded(size) ==> exhausted(
            page_at(a, x),
        )
    }
}

/// A block is never smaller than what was asked for.
pub proof fn law_rounded_up(size: int)
    requires
        0 <= size,
    ensures
        size <= rounded(size),
        rounded(size) < 2 * size || rounded(size) == 4096 || rounded(size) < size + PAGE_SIZE,
{
    if size <= PAGE_SIZE {
        lemma_size_class_small(size);
    }
}

/// Cache `t` handed out a block for `size` bytes.
pub open spec fn served(a: Arena, b: Arena, t: usize, size: int, id: PageId, block: int, ptr: usize) -> bool {
    &&& granted(a, b, id, block, ptr)
    &&& used_head(b, t, id)
    &&& page_at(b, id).block_size == rounded(size)
}

/// Cache `t` handed out some block for `size` bytes, at address `ptr`.
pub open spec fn some_served(a: Arena, b: Arena, t: usize, size: int, ptr: usize) -> bool {
    exists|id: PageId, block: int| #[trigger] served(a, b, t, size, id, block, ptr)
}

/// What an allocation from cache `t` does.
pub open spec fn allocated(a: Arena, b: Arena, t: usize, size: int, ptr: Option<(usize, Ghost<(PageId, int)>)>) -> bool {
    &&& others_kept(a, b, t)
    &&& match ptr {
        Some((ptr, at)) => served(a, b, t, size, at@.0, at@.1, ptr),
        None => same_live(a, b) && no_room(b, t, size),
    }
}

/// Which page and block an allocation of class `k` picks: the current page of the class goes first,
/// then the first page in its queue with a block to hand out, then the first free slice, then the first
/// segment that is not handed out.
pub open spec fn small_choice(c: TCache, a: Arena, k: int, d: TCache, b: Arena, id: PageId, block: int) -> bool {
    let q = c.used_pages@[k]@;
    &&& rested(a, b, c.thread_id, Some(id))
    &&& if c.free_pages@[k] is Some && !exhausted(page_at(a, c.free_pages@[k]->0)) {
        &&& id == c.free_pages@[k]->0
        &&& block == page_at(a, id).returned()[0]
        &&& gave_block(page_at(a, id), page_at(b, id), page_at(a, id).free_list@.len() == 0)
        &&& d.used_pages == c.used_pages
        &&& d.free_pages == c.free_pages
        &&& d.lists == c.lists
        &&& d.stats == (TCacheStats {
            fast_allocations: if page_at(a, id).free_list@.len() > 0 {
                c.stats.fast_allocations.wrapping_add(1)
            } else {
                c.stats.fast_allocations
            },
            ..c.stats
        })
    } else {
        &&& d.free_pages@ == c.free_pages@.update(k, Some(id))
        &&& if exists|m: int| first_open(a, q, m) {
            &&& exists|m: int| #[trigger]
                first_open(a, q, m) && id == q[m] && queue_set(c, d, k, parked(c, k).remove(m))
            &&& block == page_at(a, id).returned()[0]
            &&& gave_block(page_at(a, id), page_at(b, id), true)
            &&& d.lists == c.lists
            &&& d.stats == (TCacheStats {
                allocations_from_pages: c.stats.allocations_from_pages.wrapping_add(1),
                ..c.stats
            })
        } else {
            &&& queue_set(c, d, k, parked(c, k))
            &&& block == 0
            &&& gave_first(page_at(b, id), 1)
            &&& slice_choice(c, a, 1, id, d)
        }
    }
}

/// Which slice is cut: the first free one with `n` pages, else the first segment that is not handed
/// out.
pub open spec fn slice_choice(c: TCache, a: Arena, n: int, id: PageId, d: TCache) -> bool {
    if has_slice(a, c.thread_id, n) {
        &&& first_fit(c, a, n, id)
        &&& d.lists@ == cut_lists(c.lists@, id, page_at(a, id).slice_count as int, n)
        &&& d.stats == (TCacheStats {
            allocations_from_segment: c.stats.allocations_from_segment.wrapping_add(1),
            ..c.stats
        })
    } else {
        &&& first_unused(a, id)
        &&& d.lists@ == cut_lists(
            enlisted(c.lists@, id, PAGES_PER_SEGMENT as int),
            id,
            PAGES_PER_SEGMENT as int,
            n,
        )
        &&& d.stats == (TCacheStats {
            total_segments_allocated: c.stats.total_segments_allocated.wrapping_add(1),
            allocations_from_arena: c.stats.allocations_from_arena.wrapping_add(1),
            ..c.stats
        })
    }
}

/// Cache `t` has a free slice with `n` pages.
pub open spec fn has_slice(a: Arena, t: usize, n: int) -> bool {
    exists|x: PageId| #[trigger] free_head(a, t, x) && page_at(a, x).slice_count >= n
}

/// Which slice a large allocation of `n` pages cuts: a free one, else one that there is after a
/// clean-up, else the first segment that is not handed out.
pub open spec fn large_choice(c: TCache, a: Arena, n: int, d: TCache, b: Arena, id: PageId) -> bool {
    &&& gave_first(page_at(b, id), n)
    &&& if has_slice(a, c.thread_id, n) {
        slice_choice(c, a, n, id, d) && queued_large(c, d, id) && rested(a, b, c.thread_id, Some(id))
    } else {
        exists|c1: TCache, a1: Arena| #[trigger]
            cleaned(c, c1, a, a1) && c1.inv(a1) && slice_choice(c1, a1, n, id, d) && queued_large(
                c1,
                d,
                id,
            ) && rested(a1, b, c.thread_id, Some(id))
    }
}

/// A new segment, where there is one, is at the end of its span.
pub open spec fn segment_listed(c: TCache, d: TCache, a: Arena) -> bool {
    if all_used(a) {
        d.lists == c.lists
    } else {
        exists|new: PageId| #[trigger]
            first_unused(a, new) && d.lists@ == enlisted(c.lists@, new, PAGES_PER_SEGMENT as int)
    }
}

/// What is left of a small allocation that found no room.
pub open spec fn small_failure(c: TCache, a: Arena, k: int, d: TCache, b: Arena) -> bool {
    &&& rested(a, b, c.thread_id, None)
    &&& d.free_pages@ == c.free_pages@.update(k, None)
    &&& queue_set(c, d, k, parked(c, k))
    &&& d.lists == c.lists
    &&& d.stats == (TCacheStats {
        total_segments_allocated: c.stats.total_segments_allocated.wrapping_add(1),
        unsuccessful_allocations: c.stats.unsuccessful_allocations.wrapping_add(1),
        ..c.stats
    })
}

/// What is left of a large allocation that found no room: a clean-up was made, and a segment was taken
/// where there was one.
pub open spec fn large_failure(c: TCache, a: Arena, d: TCache, b: Arena) -> bool {
    exists|c1: TCache, a1: Arena| #[trigger]
        cleaned(c, c1, a, a1) && c1.inv(a1) && d.free_pages == c1.free_pages && d.used_pages == c1.used_pages
            && segment_listed(c1, d, a1) && rested(a1, b, c.thread_id, None) && d.stats == (TCacheStats {
            total_segments_allocated: c1.stats.total_segments_allocated.wrapping_add(1),
            allocations_from_arena: if all_used(a1) {
                c1.stats.allocations_from_arena
            } else {
                c1.stats.allocations_from_arena.wrapping_add(1)
            },
            unsuccessful_allocations: c1.stats.unsuccessful_allocations.wrapping_add(1),
            ..c1.stats
        })
}

/// The cache and the arena that an allocation starts from: every 128th call makes a clean-up first.
pub open spec fn ready(c: TCache, a: Arena, c1: TCache, a1: Arena) -> bool {
    let counted = TCache {
        stats: TCacheStats { total_allocations: c.stats.total_allocations.wrapping_add(1), ..c.stats },
        ..c
    };
    if counted.stats.total_allocations & 0x7f == 0 {
        cleaned(counted, c1, a, a1) && c1.inv(a1)
    } else {
        c1 == counted && a1 == a
    }
}

/// Which page and block an allocation of `size` bytes picks, and what that leaves of the lists of blocks.
pub open spec fn picked(c: TCache, a: Arena, d: TCache, b: Arena, size: int, id: PageId, block: int) -> bool {
    exists|c1: TCache, a1: Arena| #[trigger]
        ready(c, a, c1, a1) && if size > PAGE_SIZE {
            large_choice(c1, a1, pages_for(size), d, b, id) && block == 0
        } else {
            small_choice(c1, a1, size_class(size), d, b, id, block)
        }
}

/// Cache `c` handed out the block at address `ptr` for `size` bytes, and it was the one to pick.
pub open spec fn some_picked(c: TCache, d: TCache, a: Arena, b: Arena, size: int, ptr: usize) -> bool {
    exists|id: PageId, block: int| #[trigger]
        served(a, b, c.thread_id, size, id, block, ptr) && picked(c, a, d, b, size, id, block)
}

/// What is left of an allocation of `size` bytes that found no room.
pub open spec fn gave_up(c: TCache, a: Arena, d: TCache, b: Arena, size: int) -> bool {
    exists|c1: TCache, a1: Arena| #[trigger]
        ready(c, a, c1, a1) && if size > PAGE_SIZE {
            large_failure(c1, a1, d, b)
        } else {
            small_failure(c1, a1, size_class(size), d, b)
        }
}

/// Page `id`, which is one large block, went to the end of its queue.
pub open spec fn queued_large(c: TCache, d: TCache, id: PageId) -> bool {
    &&& d.free_pages == c.free_pages
    &&& queue_set(c, d, NUM_SIZE_CLASSES as int, c.used_pages@[NUM_SIZE_CLASSES as int]@.push(id))
}

/// A slice that was found is there.
proof fn lemma_has_slice(c: TCache, a: Arena, n: int, id: PageId)
    requires
        first_fit(c, a, n, id),
        free_head(a, c.thread_id, id),
    ensures
        has_slice(a, c.thread_id, n),
{
    let (b, k) = choose|b: int, k: int|
        {
            &&& 0 <= b < SEGMENT_BINS
            &&& 0 <= k < c.lists@[b].len()
            &&& #[trigger] c.lists@[b][k] == id
            &&& page_at(a, id).slice_count >= n
            &&& misses(c, a, n, b, k)
        };
    assert(c.lists@[b][k] == id);
}

/// A segment that was taken is a free slice.
proof fn lemma_segment_there(a: Arena, b: Arena, t: usize) -> (new: PageId)
    requires
        segment_taken(a, b, t),
    ensures
        first_unused(a, new),
        free_head(b, t, new),
        page_at(b, new).slice_count == PAGES_PER_SEGMENT,
        forall|x: PageId| #[trigger] free_head(b, t, x) <==> free_head(a, t, x) || x == new,
{
    let new = choose|new: PageId|
        {
            &&& #[trigger] first_unused(a, new)
            &&& b.used_bitmap@ == a.used_bitmap@.update(new.segment as int, 1u8)
            &&& page_at(b, new).slice_count == PAGES_PER_SEGMENT
            &&& forall|x: PageId| #[trigger] free_head(b, t, x) <==> free_head(a, t, x) || x == new
        };
    assert(free_head(b, t, new));
    new
}

/// There is only one first segment that is not handed out.
proof fn lemma_segment_listed(c: TCache, d: TCache, a: Arena, id: PageId)
    requires
        segment_listed(c, d, a),
        a.wf(),
        first_unused(a, id),
    ensures
        d.lists@ == enlisted(c.lists@, id, PAGES_PER_SEGMENT as int),
{
    assert(a.used_bitmap@[id.segment as int] == 0);
    let new = choose|new: PageId| #[trigger]
        first_unused(a, new) && d.lists@ == enlisted(c.lists@, new, PAGES_PER_SEGMENT as int);
    if new.segment < id.segment {
        assert(a.used_bitmap@[new.segment as int] == 1);
    }
    if id.segment < new.segment {
        assert(a.used_bitmap@[id.segment as int] == 1);
    }
    assert(new == id);
}

/// Where no slice had `n` pages, one that has is the segment that was taken.
proof fn lemma_new_slice(c: TCache, a: Arena, b: Arena, n: int, id: PageId)
    requires
        segment_taken(a, b, c.thread_id),
        !has_slice(a, c.thread_id, n),
        first_fit(c, b, n, id),
        free_head(b, c.thread_id, id),
    ensures
        first_unused(a, id),
        page_at(b, id).slice_count == PAGES_PER_SEGMENT,
{
    let t = c.thread_id;
    lemma_has_slice(c, b, n, id);
    assert(page_at(b, id).slice_count >= n);
    let new = lemma_segment_there(a, b, t);
    if id != new {
        assert(free_head(a, t, id));
    }
}

impl TCache {
    /// Takes a block of whole pages from the first free slice that holds it.
    fn try_large(&mut self, arena: &mut Arena, num_pages: usize, block_size: usize) -> (ptr: Option<
        (usize, Ghost<(PageId, int)>),
    >)
        requires
            old(self).inv(*old(arena)),
            num_pages > 1,
            block_size == num_pages * PAGE_SIZE,
        ensures
            final(self).inv(*final(arena)),
            final(self).thread_id == old(self).thread_id,
            final(self).stats == old(self).stats,
            final(arena).used_bitmap == old(arena).used_bitmap,
            match ptr {
                Some((ptr, at)) => {
                    &&& others_kept(*old(arena), *final(arena), old(self).thread_id)
                    &&& granted(*old(arena), *final(arena), at@.0, at@.1, ptr)
                    &&& used_head(*final(arena), old(self).thread_id, at@.0)
                    &&& page_at(*final(arena), at@.0).block_size == block_size
                    &&& at@.1 == 0
                    &&& first_fit(*old(self), *old(arena), num_pages as int, at@.0)
                    &&& free_head(*old(arena), old(self).thread_id, at@.0)
                    &&& queued_large(*old(self), *final(self), at@.0)
                    &&& gave_first(page_at(*final(arena), at@.0), num_pages as int)
                    &&& rested(*old(arena), *final(arena), old(self).thread_id, Some(at@.0))
                    &&& final(self).lists@ == cut_lists(
                        old(self).lists@,
                        at@.0,
                        page_at(*old(arena), at@.0).slice_count as int,
                        num_pages as int,
                    )
                },
                None => {
                    &&& *final(self) == *old(self)
                    &&& *final(arena) == *old(arena)
                    &&& forall|x: PageId| #[trigger] free_head(*old(arena), old(self).thread_id, x) ==> page_at(
                        *old(arena),
                        x,
                    ).slice_count < num_pages
                },
            },
    {
        let ghost t = self.thread_id;
        let ghost a0 = *arena;
        assert((num_pages * PAGE_SIZE) / (block_size as int) == 1) by (nonlinear_arith)
            requires
                block_size == num_pages * PAGE_SIZE,
                block_size > 0,
        ;
        match self.find_page_from_spans(arena, num_pages, block_size) {
            None => None,
            Some(id) => {
                let ghost c1 = *self;
                let ghost a1 = *arena;
                let ghost loose = Set::<PageId>::empty().insert(id);
                proof {
                    assert(used_head(a1, t, id));
                    lemma_size_class_large(block_size as int);
                    assert(page_at(a1, id).free_list@.len() > 0);
                }
                let (ptr, block) = take_block(arena, id, Ghost(c1), Ghost(loose));
                self.used_pages[NUM_SIZE_CLASSES].push(id);
                proof {
                    lemma_enqueued(c1, *self, *arena, id, NUM_SIZE_CLASSES as int);
                    lemma_first_given(a0, a1, *arena, t, id);
                    lemma_live_then_granted(a0, a1, *arena, id, block@, ptr);
                    lemma_others_kept_trans(a0, a1, *arena, t);
                }
                Some((ptr, Ghost((id, block@))))
            },
        }
    }

    /// Allocates a block of whole pages: from a free slice, else after a clean-up, else from a new
    /// segment.
    #[verifier::rlimit(50)]
    fn allocate_large(&mut self, arena: &mut Arena, size: usize) -> (ptr: Option<(usize, Ghost<(PageId, int)>)>)
        requires
            old(self).inv(*old(arena)),
            size > PAGE_SIZE,
            size + PAGE_SIZE <= usize::MAX,
        ensures
            final(self).inv(*final(arena)),
            final(self).thread_id == old(self).thread_id,
            allocated(*old(arena), *final(arena), old(self).thread_id, size as int, ptr),
            match ptr {
                Some((_, at)) => at@.1 == 0 && large_choice(
                    *old(self),
                    *old(arena),
                    pages_for(size as int),
                    *final(self),
                    *final(arena),
                    at@.0,
                ),
                None => {
                    &&& no_room(*old(arena), old(self).thread_id, size as int)
                    &&& large_failure(*old(self), *old(arena), *final(self), *final(arena))
                },
            },
    {
        let ghost t = self.thread_id;
        let ghost a0 = *arena;
        let ghost c0 = *self;
        let num_pages: usize = (size + PAGE_SIZE - 1) / PAGE_SIZE;
        assert(num_pages * PAGE_SIZE <= size + PAGE_SIZE - 1 && num_pages > 1) by (nonlinear_arith)
            requires
                num_pages == (size + PAGE_SIZE - 1) / (PAGE_SIZE as int),
                size > PAGE_SIZE,
                PAGE_SIZE == 65536,
        ;
        let block_size: usize = num_pages * PAGE_SIZE;
        if let Some(found) = self.try_large(arena, num_pages, block_size) {
            let ghost c1 = *self;
            self.stats.allocations_from_segment = self.stats.allocations_from_segment.wrapping_add(1);
            proof {
                lemma_stats_apart(c1, *self, *arena, Set::empty(), Set::empty());
                lemma_has_slice(c0, a0, num_pages as int, found.1@.0);
                assert(queued_large(c0, *self, found.1@.0));
            }
            return Some(found);
        }
        self.cleanup_pages(arena);
        let ghost a1 = *arena;
        let ghost d1 = *self;
        assert(cleaned(c0, d1, a0, a1));
        if let Some(found) = self.try_large(arena, num_pages, block_size) {
            let ghost c1 = *self;
            self.stats.allocations_from_segment = self.stats.allocations_from_segment.wrapping_add(1);
            proof {
                lemma_stats_apart(c1, *self, *arena, Set::empty(), Set::empty());
                lemma_live_then_granted(a0, a1, *arena, found.1@.0, found.1@.1, found.0);
                lemma_others_kept_trans(a0, a1, *arena, t);
                lemma_has_slice(d1, a1, num_pages as int, found.1@.0);
                assert(queued_large(d1, *self, found.1@.0));
            }
            return Some(found);
        }
        let found: bool = self.allocate_segment_from_arena(arena);
        let ghost a2 = *arena;
        if !found {
            let ghost c1 = *self;
            self.stats.unsuccessful_allocations = self.stats.unsuccessful_allocations.wrapping_add(1);
            proof {
                lemma_stats_apart(c1, *self, *arena, Set::empty(), Set::empty());
                assert forall|s: int| 0 <= s < a0.used_bitmap@.len() implies #[trigger] a0.used_bitmap@[s] == 1 by {
                    assert(a1.used_bitmap@[s] == 1);
                }
            }
            return None;
        }
        let ghost c2 = *self;
        self.stats.allocations_from_arena = self.stats.allocations_from_arena.wrapping_add(1);
        let ghost d2 = *self;
        proof {
            lemma_stats_apart(c2, *self, *arena, Set::empty(), Set::empty());
            lemma_same_live_trans(a0, a1, a2);
            lemma_others_kept_trans(a0, a1, a2, t);
        }
        match self.try_large(arena, num_pages, block_size) {
            Some(found) => {
                proof {
                    lemma_live_then_granted(a0, a2, *arena, found.1@.0, found.1@.1, found.0);
                    lemma_others_kept_trans(a0, a2, *arena, t);
                    assert(!has_slice(a1, t, num_pages as int));
                    lemma_new_slice(d2, a1, a2, num_pages as int, found.1@.0);
                    lemma_segment_listed(d1, d2, a1, found.1@.0);
                    assert(slice_choice(d1, a1, num_pages as int, found.1@.0, *self));
                    assert(queued_large(d1, *self, found.1@.0));
                    assert(!has_slice(a0, t, num_pages as int));
                    lemma_rested_trans(a1, a2, *arena, t, Some(found.1@.0));
                    assert(large_choice(c0, a0, num_pages as int, *self, *arena, found.1@.0));
                }
                Some(found)
            },
            None => {
                let ghost c3 = *self;
                self.stats.unsuccessful_allocations = self.stats.unsuccessful_allocations.wrapping_add(1);
                proof {
                    lemma_stats_apart(c3, *self, *arena, Set::empty(), Set::empty());
                    let new = lemma_segment_there(a1, a2, t);
                    lemma_segment_listed(d1, d2, a1, new);
                    assert(segment_listed(d1, *self, a1));
                    assert(large_failure(c0, a0, *self, *arena));
                }
                None
            },
        }
    }
}

/// The first block of a slice that was cut was handed out.
proof fn lemma_first_given(a: Arena, b: Arena, c: Arena, t: usize, id: PageId)
    requires
        taken(a, b, t, id, page_at(b, id).slice_count as int, page_at(b, id).block_size as int),
        gave_block(page_at(b, id), page_at(c, id), false),
        rested(b, c, t, Some(id)),
    ensures
        gave_first(page_at(c, id), page_at(b, id).slice_count as int),
        rested(a, c, t, Some(id)),
{
    assert(page_at(c, id).thread_free_list@ =~= Seq::<u8>::empty());
    assert forall|x: PageId| #[trigger] used_head(c, t, x) <==> used_head(a, t, x) || x == id by {
        assert(used_head(b, t, x) <==> used_head(a, t, x) || x == id);
    }
    assert forall|x: PageId| #[trigger] used_head(a, t, x) && x != id implies same_blocks(
        page_at(a, x),
        page_at(c, x),
    ) by {
        assert(used_head(b, t, x));
    }
}

proof fn lemma_class_cuttable(k: int)
    requires
        0 <= k < NUM_SIZE_CLASSES,
    ensures
        cuttable(1, class_size(k)),
{
}

/// A page that is exhausted once it has collected everything was so before.
proof fn lemma_browsed_exhausted(a: Arena, b: Arena, t: usize, x: PageId)
    requires
        browsed(a, b, t),
        used_head(a, t, x),
        exhausted(page_at(b, x)),
    ensures
        exhausted(page_at(a, x)),
        page_at(a, x).block_size == page_at(b, x).block_size,
{
    let p = page_at(a, x);
    let q = page_at(b, x);
    assert(p.returned() =~= p.free_list@ + p.thread_free_list@);
    assert(q.returned() =~= q.free_list@ + q.thread_free_list@);
}

/// Collecting leaves the blocks that a page can hand out as they are.
proof fn lemma_browsed_returned(a: Arena, b: Arena, t: usize, x: PageId)
    requires
        browsed(a, b, t),
        used_head(a, t, x),
    ensures
        page_at(b, x).returned() == page_at(a, x).returned(),
{
    let p = page_at(a, x);
    let q = page_at(b, x);
    assert(q.returned() =~= p.returned());
}

/// The first page with a block among those that are tried after the current page.
proof fn lemma_unparked(c: TCache, c1: TCache, d: TCache, a: Arena, a1: Arena, k: int, id: PageId)
    requires
        c.inv(a),
        0 <= k < NUM_SIZE_CLASSES,
        browsed(a, a1, c.thread_id),
        queue_set(c, c1, k, parked(c, k)),
        c1.free_pages@ == c.free_pages@.update(k, None),
        c.free_pages@[k] matches Some(current) ==> exhausted(page_at(a, current)),
        unparked(c1, d, a1, k, id),
    ensures
        exists|m: int| #[trigger]
            first_open(a, c.used_pages@[k]@, m) && id == c.used_pages@[k]@[m] && queue_set(
                c,
                d,
                k,
                parked(c, k).remove(m),
            ),
        page_at(a1, id).returned() == page_at(a, id).returned(),
        used_head(a, c.thread_id, id),
{
    let t = c.thread_id;
    let q = c.used_pages@[k]@;
    let p = c1.used_pages@[k]@;
    let m = choose|m: int| #[trigger]
        first_open(a1, p, m) && id == p[m] && queue_set(c1, d, k, p.remove(m)) && d.free_pages@
            == c1.free_pages@.update(k, Some(id));
    assert(c.queue_ok(a, Set::empty(), k));
    assert(c.current_ok(a, Set::empty(), k));
    assert forall|i: int| 0 <= i < p.len() implies used_head(a, t, #[trigger] p[i]) && page_at(a1, p[i]).returned()
        == page_at(a, p[i]).returned() by {
        if i < q.len() {
            assert(p[i] == q[i]);
        }
        lemma_browsed_returned(a, a1, t, p[i]);
    }
    assert(m < q.len()) by {
        if m >= q.len() {
            assert(p[m] == c.free_pages@[k]->0);
        }
    }
    assert(p[m] == q[m]);
    assert forall|i: int| 0 <= i < m implies exhausted(page_at(a, #[trigger] q[i])) by {
        assert(p[i] == q[i]);
    }
    assert(first_open(a, q, m));
    assert forall|i: int| 0 <= i <= NUM_SIZE_CLASSES && i != k implies (#[trigger] d.used_pages@[i])@
        == c.used_pages@[i]@ by {
        assert(c1.used_pages@[i]@ == c.used_pages@[i]@);
    }
    assert(queue_set(c, d, k, parked(c, k).remove(m)));
}

/// Where no page that is tried has a block, none in the queue has.
proof fn lemma_none_open(c: TCache, c1: TCache, a: Arena, a1: Arena, k: int)
    requires
        c.inv(a),
        0 <= k < NUM_SIZE_CLASSES,
        browsed(a, a1, c.thread_id),
        queue_set(c, c1, k, parked(c, k)),
        forall|i: int| 0 <= i < c1.used_pages@[k]@.len() ==> exhausted(page_at(a1, #[trigger] c1.used_pages@[k]@[i])),
    ensures
        !exists|m: int| first_open(a, c.used_pages@[k]@, m),
{
    let t = c.thread_id;
    let q = c.used_pages@[k]@;
    let p = c1.used_pages@[k]@;
    assert(c.queue_ok(a, Set::empty(), k));
    assert forall|m: int| !first_open(a, q, m) by {
        if 0 <= m < q.len() {
            assert(used_head(a, t, q[m]));
            assert(p[m] == q[m]);
            lemma_browsed_returned(a, a1, t, q[m]);
        }
    }
}

/// Collecting leaves the free slices as they are.
proof fn lemma_fit_browsed(c: TCache, c1: TCache, a: Arena, a1: Arena, a2: Arena, id: PageId)
    requires
        c.inv(a),
        browsed(a, a1, c.thread_id),
        browsed(a1, a2, c.thread_id),
        c1.lists == c.lists,
        first_fit(c1, a2, 1, id),
        free_head(a2, c.thread_id, id),
    ensures
        first_fit(c, a, 1, id),
        has_slice(a, c.thread_id, 1),
{
    let t = c.thread_id;
    let (b, k) = choose|b: int, k: int|
        {
            &&& 0 <= b < SEGMENT_BINS
            &&& 0 <= k < c1.lists@[b].len()
            &&& #[trigger] c1.lists@[b][k] == id
            &&& page_at(a2, id).slice_count >= 1
            &&& misses(c1, a2, 1, b, k)
        };
    assert forall|x: PageId| #[trigger] free_head(a, t, x) implies page_at(a2, x) == page_at(a, x) by {
        assert(free_head(a1, t, x));
    }
    assert(free_head(a1, t, id) && free_head(a, t, id));
    assert forall|i: int, j: int|
        0 <= i <= b && i < SEGMENT_BINS && 0 <= j < c.lists@[i].len() && (i < b || j < k) implies page_at(
        a,
        #[trigger] c.lists@[i][j],
    ).slice_count < 1 by {
        assert(c.list_ok(a, i));
        assert(c.node_ok(a, i, j));
        assert(page_at(a2, c1.lists@[i][j]).slice_count < 1);
    }
    assert(misses(c, a, 1, b, k));
    assert(c.lists@[b][k] == id);
    lemma_has_slice(c, a, 1, id);
}

impl TCache {
    /// Takes a block from the current page of a class. Where that has none, also after collecting what
    /// others handed back, the page goes to the end of its queue.
    fn try_current(&mut self, arena: &mut Arena, size_class: usize) -> (ptr: Option<(usize, Ghost<(PageId, int)>)>)
        requires
            old(self).inv(*old(arena)),
            size_class < NUM_SIZE_CLASSES,
        ensures
            final(self).inv(*final(arena)),
            final(self).thread_id == old(self).thread_id,
            final(arena).used_bitmap == old(arena).used_bitmap,
            others_kept(*old(arena), *final(arena), old(self).thread_id),
            match ptr {
                Some((ptr, at)) => {
                    &&& granted(*old(arena), *final(arena), at@.0, at@.1, ptr)
                    &&& used_head(*final(arena), old(self).thread_id, at@.0)
                    &&& page_at(*final(arena), at@.0).block_size == class_size(size_class as int)
                    &&& old(self).free_pages@[size_class as int] == Some(at@.0)
                    &&& !exhausted(page_at(*old(arena), at@.0))
                    &&& at@.1 == page_at(*old(arena), at@.0).returned()[0]
                    &&& gave_block(
                        page_at(*old(arena), at@.0),
                        page_at(*final(arena), at@.0),
                        page_at(*old(arena), at@.0).free_list@.len() == 0,
                    )
                    &&& rested(*old(arena), *final(arena), old(self).thread_id, Some(at@.0))
                    &&& *final(self) == (TCache {
                        stats: TCacheStats {
                            fast_allocations: if page_at(*old(arena), at@.0).free_list@.len() > 0 {
                                old(self).stats.fast_allocations.wrapping_add(1)
                            } else {
                                old(self).stats.fast_allocations
                            },
                            ..old(self).stats
                        },
                        ..*old(self)
                    })
                },
                None => {
                    &&& browsed(*old(arena), *final(arena), old(self).thread_id)
                    &&& rested(*old(arena), *final(arena), old(self).thread_id, None)
                    &&& final(self).free_pages@ == old(self).free_pages@.update(size_class as int, None)
                    &&& queue_set(*old(self), *final(self), size_class as int, parked(*old(self), size_class as int))
                    &&& final(self).lists == old(self).lists
                    &&& old(self).free_pages@[size_class as int] matches Some(id) ==> exhausted(
                        page_at(*old(arena), id),
                    )
                    &&& final(self).stats == old(self).stats
                },
            },
    {
        let ghost t = self.thread_id;
        let ghost c0 = *self;
        let ghost a0 = *arena;
        let id: PageId = match self.free_pages[size_class] {
            Some(id) => id,
            None => {
                assert(self.free_pages@ =~= c0.free_pages@.update(size_class as int, None));
                return None;
            },
        };
        let ghost k = size_class as int;
        proof {
            assert(c0.current_ok(a0, Set::empty(), k));
            lemma_current_alone(c0, a0, k, id);
            lemma_head(a0, t, id);
        }
        if !arena.segments[id.segment].pages[id.page].is_full() {
            self.stats.fast_allocations = self.stats.fast_allocations.wrapping_add(1);
            let ghost c1 = *self;
            proof {
                lemma_stats_apart(c0, c1, a0, Set::empty(), Set::empty());
            }
            let (ptr, block) = take_block(arena, id, Ghost(c1), Ghost(Set::empty()));
            return Some((ptr, Ghost((id, block@))));
        }
        Self::collect_page(arena, id, Ghost(c0), Ghost(a0));
        let ghost a1 = *arena;
        proof {
            assert(used_head(a1, t, id));
            lemma_head(a1, t, id);
            assert(page_at(a1, id).returned() =~= page_at(a0, id).returned());
            assert(rested(a0, a1, t, Some(id))) by {
                assert forall|x: PageId| #[trigger] used_head(a0, t, x) && x != id implies same_blocks(
                    page_at(a0, x),
                    page_at(a1, x),
                ) by {
                    lemma_head(a0, t, x);
                }
            }
        }
        if !arena.segments[id.segment].pages[id.page].is_full() {
            let (ptr, block) = take_block(arena, id, Ghost(c0), Ghost(Set::empty()));
            proof {
                lemma_live_then_granted(a0, a1, *arena, id, block@, ptr);
                lemma_others_kept_trans(a0, a1, *arena, t);
                assert(page_at(*arena, id).thread_free_list@ =~= Seq::<u8>::empty());
                assert forall|x: PageId| #[trigger] used_head(*arena, t, x) <==> used_head(a0, t, x) by {
                    assert(used_head(a1, t, x) == used_head(a0, t, x));
                }
                assert forall|x: PageId| #[trigger] used_head(a0, t, x) && x != id implies same_blocks(
                    page_at(a0, x),
                    page_at(*arena, x),
                ) by {
                    assert(used_head(a1, t, x));
                }
            }
            return Some((ptr, Ghost((id, block@))));
        }
        self.free_pages[size_class] = None;
        let ghost c1 = *self;
        proof {
            lemma_current_alone(c0, a1, k, id);
            assert forall|i: int| 0 <= i <= NUM_SIZE_CLASSES implies (#[trigger] c1.used_pages@[i])@ == (if i == k {
                dropped(c0.used_pages@[i]@, id)
            } else {
                c0.used_pages@[i]@
            }) by {}
            assert(dequeued(c0, c1, a1, id));
            lemma_dequeued(c0, c1, a1, id, Set::empty(), Set::empty());
            assert(page_at(a1, id).block_size == class_size(k));
        }
        self.used_pages[size_class].push(id);
        proof {
            assert(self.free_pages@ =~= c0.free_pages@.update(k, None));
            lemma_enqueued(c1, *self, a1, id, k);
            let before = page_at(a0, id);
            assert(before.returned() =~= before.free_list@ + before.thread_free_list@);
            lemma_collected_exhausted(before, page_at(a1, id));
        }
        None
    }

    /// Cuts a page into blocks of a class, makes it the current one and takes a block from it.
    fn try_spans(&mut self, arena: &mut Arena, size_class: usize) -> (ptr: Option<(usize, Ghost<(PageId, int)>)>)
        requires
            old(self).inv(*old(arena)),
            size_class < NUM_SIZE_CLASSES,
            old(self).free_pages@[size_class as int] is None,
        ensures
            final(self).inv(*final(arena)),
            final(self).thread_id == old(self).thread_id,
            final(self).stats == old(self).stats,
            final(arena).used_bitmap == old(arena).used_bitmap,
            match ptr {
                Some((ptr, at)) => {
                    &&& others_kept(*old(arena), *final(arena), old(self).thread_id)
                    &&& granted(*old(arena), *final(arena), at@.0, at@.1, ptr)
                    &&& used_head(*final(arena), old(self).thread_id, at@.0)
                    &&& page_at(*final(arena), at@.0).block_size == class_size(size_class as int)
                    &&& at@.1 == 0
                    &&& first_fit(*old(self), *old(arena), 1, at@.0)
                    &&& free_head(*old(arena), old(self).thread_id, at@.0)
                    &&& final(self).free_pages@ == old(self).free_pages@.update(size_class as int, Some(at@.0))
                    &&& final(self).used_pages == old(self).used_pages
                    &&& gave_first(page_at(*final(arena), at@.0), 1)
                    &&& rested(*old(arena), *final(arena), old(self).thread_id, Some(at@.0))
                    &&& final(self).lists@ == cut_lists(
                        old(self).lists@,
                        at@.0,
                        page_at(*old(arena), at@.0).slice_count as int,
                        1,
                    )
                },
                None => {
                    &&& *final(self) == *old(self)
                    &&& *final(arena) == *old(arena)
                    &&& forall|x: PageId| !#[trigger] free_head(*old(arena), old(self).thread_id, x)
                },
            },
    {
        let ghost t = self.thread_id;
        let ghost a0 = *arena;
        let ghost k = size_class as int;
        proof {
            lemma_class_cuttable(k);
            lemma_class_of_class_size(k);
        }
        let block_size: usize = Self::size_of_class(size_class);
        match self.find_page_from_spans(arena, 1, block_size) {
            None => {
                proof {
                    assert forall|x: PageId| !#[trigger] free_head(a0, t, x) by {
                        if free_head(a0, t, x) {
                            lemma_head(a0, t, x);
                        }
                    }
                }
                None
            },
            Some(id) => {
                let ghost c1 = *self;
                let ghost a1 = *arena;
                let ghost loose = Set::<PageId>::empty().insert(id);
                proof {
                    assert(used_head(a1, t, id));
                    assert(page_at(a1, id).free_list@.len() > 0);
                }
                let (ptr, block) = take_block(arena, id, Ghost(c1), Ghost(loose));
                self.free_pages[size_class] = Some(id);
                proof {
                    assert(self.free_pages@ =~= c1.free_pages@.update(k, Some(id)));
                    lemma_made_current(c1, *self, *arena, id, k);
                    lemma_first_given(a0, a1, *arena, t, id);
                    lemma_live_then_granted(a0, a1, *arena, id, block@, ptr);
                    lemma_others_kept_trans(a0, a1, *arena, t);
                }
                Some((ptr, Ghost((id, block@))))
            },
        }
    }

    /// Allocates a block of a class: from the current page, else from another page of the class, else
    /// from a free slice, else from a new segment.
    #[verifier::rlimit(50)]
    fn allocate_small(&mut self, arena: &mut Arena, size: usize) -> (ptr: Option<(usize, Ghost<(PageId, int)>)>)
        requires
            old(self).inv(*old(arena)),
            size <= PAGE_SIZE,
        ensures
            final(self).inv(*final(arena)),
            final(self).thread_id == old(self).thread_id,
            allocated(*old(arena), *final(arena), old(self).thread_id, size as int, ptr),
            match ptr {
                Some((_, at)) => small_choice(
                    *old(self),
                    *old(arena),
                    size_class(size as int),
                    *final(self),
                    *final(arena),
                    at@.0,
                    at@.1,
                ),
                None => {
                    &&& no_room(*old(arena), old(self).thread_id, size as int)
                    &&& small_failure(*old(self), *old(arena), size_class(size as int), *final(self), *final(arena))
                },
            },
    {
        let ghost t = self.thread_id;
        let ghost c0 = *self;
        let ghost a0 = *arena;
        proof {
            lemma_size_class_small(size as int);
        }
        let size_class: usize = Self::get_size_class(size);
        let ghost k = size_class as int;
        proof {
            lemma_class_of_class_size(k);
        }
        if let Some(found) = self.try_current(arena, size_class) {
            return Some(found);
        }
        let ghost a1 = *arena;
        let ghost c1 = *self;
        if let Some(found) = self.find_page_from_used(arena, size_class) {
            let ghost c2 = *self;
            self.stats.allocations_from_pages = self.stats.allocations_from_pages.wrapping_add(1);
            proof {
                lemma_stats_apart(c2, *self, *arena, Set::empty(), Set::empty());
                lemma_live_then_granted(a0, a1, *arena, found.1@.0, found.1@.1, found.0);
                lemma_others_kept_trans(a0, a1, *arena, t);
                lemma_unparked(c0, c1, c2, a0, a1, k, found.1@.0);
                lemma_rested_trans(a0, a1, *arena, t, Some(found.1@.0));
                assert(self.free_pages@ =~= c0.free_pages@.update(k, Some(found.1@.0)));
                assert(small_choice(c0, a0, k, *self, *arena, found.1@.0, found.1@.1));
            }
            return Some(found);
        }
        let ghost a2 = *arena;
        proof {
            lemma_none_open(c0, c1, a0, a1, k);
            lemma_rested_trans(a0, a1, a2, t, None);
            lemma_same_live_trans(a0, a1, a2);
            lemma_others_kept_trans(a0, a1, a2, t);
            assert forall|x: PageId| #[trigger] used_head(a1, t, x) && page_at(a1, x).block_size == class_size(k)
                implies exhausted(page_at(a1, x)) && exhausted(page_at(a2, x)) by {
                assert(c1.queued(a1, x));
                let q = c1.used_pages@[k]@;
                assert(q.contains(x));
                let m = choose|m: int| 0 <= m < q.len() && q[m] == x;
                assert(exhausted(page_at(a1, q[m])));
            }
            assert forall|x: PageId| #[trigger] used_head(a0, t, x) && page_at(a0, x).block_size == class_size(k)
                implies exhausted(page_at(a0, x)) by {
                assert(used_head(a1, t, x));
                lemma_browsed_exhausted(a0, a1, t, x);
            }
        }
        if let Some(found) = self.try_spans(arena, size_class) {
            let ghost c2 = *self;
            self.stats.allocations_from_segment = self.stats.allocations_from_segment.wrapping_add(1);
            proof {
                lemma_stats_apart(c2, *self, *arena, Set::empty(), Set::empty());
                lemma_live_then_granted(a0, a2, *arena, found.1@.0, found.1@.1, found.0);
                lemma_others_kept_trans(a0, a2, *arena, t);
                lemma_fit_browsed(c0, c1, a0, a1, a2, found.1@.0);
                lemma_rested_trans(a0, a2, *arena, t, Some(found.1@.0));
                assert(self.free_pages@ =~= c0.free_pages@.update(k, Some(found.1@.0)));
                assert(small_choice(c0, a0, k, *self, *arena, found.1@.0, found.1@.1));
            }
            return Some(found);
        }
        proof {
            assert(!has_slice(a0, t, 1)) by {
                assert forall|x: PageId| !#[trigger] free_head(a0, t, x) by {
                    assert(free_head(a1, t, x) == free_head(a0, t, x));
                    assert(free_head(a2, t, x) == free_head(a1, t, x));
                }
            }
        }
        let found: bool = self.allocate_segment_from_arena(arena);
        let ghost a3 = *arena;
        let ghost c3 = *self;
        if !found {
            self.stats.unsuccessful_allocations = self.stats.unsuccessful_allocations.wrapping_add(1);
            proof {
                lemma_stats_apart(c3, *self, a3, Set::empty(), Set::empty());
                assert forall|x: PageId| !#[trigger] free_head(a0, t, x) by {
                    assert(free_head(a1, t, x) == free_head(a0, t, x));
                    assert(free_head(a2, t, x) == free_head(a1, t, x));
                }
                assert forall|x: PageId| #[trigger] used_head(a2, t, x) && page_at(a2, x).block_size == class_size(k)
                    implies exhausted(page_at(a2, x)) by {
                    assert(used_head(a1, t, x));
                }
            }
            return None;
        }
        self.stats.allocations_from_arena = self.stats.allocations_from_arena.wrapping_add(1);
        proof {
            lemma_stats_apart(c3, *self, a3, Set::empty(), Set::empty());
            lemma_same_live_trans(a0, a2, a3);
            lemma_others_kept_trans(a0, a2, a3, t);
        }
        let ghost c4 = *self;
        match self.try_spans(arena, size_class) {
            Some(found) => {
                proof {
                    lemma_live_then_granted(a0, a3, *arena, found.1@.0, found.1@.1, found.0);
                    lemma_others_kept_trans(a0, a3, *arena, t);
                    assert(!has_slice(a2, t, 1));
                    lemma_new_slice(c4, a2, a3, 1, found.1@.0);
                    lemma_rested_trans(a2, a3, *arena, t, Some(found.1@.0));
                    lemma_rested_trans(a0, a2, *arena, t, Some(found.1@.0));
                    lemma_segment_listed(c1, c3, a2, found.1@.0);
                    assert(first_unused(a0, found.1@.0));
                    assert(self.free_pages@ =~= c0.free_pages@.update(k, Some(found.1@.0)));
                    assert(small_choice(c0, a0, k, *self, *arena, found.1@.0, found.1@.1));
                }
                Some(found)
            },
            None => {
                proof {
                    let new = lemma_segment_there(a2, a3, t);
                    assert(false);
                }
                None
            },
        }
    }

    /// Allocates a block of at least `size` bytes and returns its address. Every 128th call first
    /// retires the pages that nobody uses any more.
    pub fn allocate(&mut self, arena: &mut Arena, size: usize) -> (ptr: Option<usize>)
        requires
            old(self).inv(*old(arena)),
            size + PAGE_SIZE <= usize::MAX,
        ensures
            final(self).inv(*final(arena)),
            final(self).thread_id == old(self).thread_id,
            others_kept(*old(arena), *final(arena), old(self).thread_id),
            ptr is Some ==> some_served(*old(arena), *final(arena), old(self).thread_id, size as int, ptr->0),
            ptr is Some ==> some_picked(*old(self), *final(self), *old(arena), *final(arena), size as int, ptr->0),
            ptr is None ==> {
                &&& gave_up(*old(self), *old(arena), *final(self), *final(arena), size as int)
                &&& same_live(*old(arena), *final(arena))
                &&& no_room(*final(arena), old(self).thread_id, size as int)
                &&& all_used(*old(arena)) || pages_for(size as int) > PAGES_PER_SEGMENT
                &&& final(self).stats.total_allocations & 0x7f != 0 ==> no_room(
                    *old(arena),
                    old(self).thread_id,
                    size as int,
                )
            },
            final(self).stats.total_allocations == old(self).stats.total_allocations.wrapping_add(1),
            final(self).stats.unsuccessful_allocations == (if ptr is None {
                old(self).stats.unsuccessful_allocations.wrapping_add(1)
            } else {
                old(self).stats.unsuccessful_allocations
            }),
    {
        let ghost t = self.thread_id;
        let ghost a0 = *arena;
        let ghost c0 = *self;
        self.stats.total_allocations = self.stats.total_allocations.wrapping_add(1);
        proof {
            lemma_stats_apart(*old(self), *self, a0, Set::empty(), Set::empty());
        }
        if self.stats.total_allocations & 0x7f == 0 {
            self.cleanup_pages(arena);
        }
        let ghost a1 = *arena;
        let ghost c1 = *self;
        assert(ready(c0, a0, c1, a1));
        let found = if size > PAGE_SIZE {
            self.allocate_large(arena, size)
        } else {
            self.allocate_small(arena, size)
        };
        proof {
            lemma_others_kept_trans(a0, a1, *arena, t);
        }
        match found {
            Some((ptr, at)) => {
                proof {
                    lemma_live_then_granted(a0, a1, *arena, at@.0, at@.1, ptr);
                    assert(served(a0, *arena, t, size as int, at@.0, at@.1, ptr));
                    assert(some_served(a0, *arena, t, size as int, ptr));
                    assert(picked(c0, a0, *self, *arena, size as int, at@.0, at@.1));
                }
                Some(ptr)
            },
            None => {
                proof {
                    lemma_same_live_trans(a0, a1, *arena);
                    if pages_for(size as int) <= PAGES_PER_SEGMENT {
                        assert forall|s: int| 0 <= s < a0.used_bitmap@.len() implies #[trigger] a0.used_bitmap@[s] == 1 by {
                            assert(a1.used_bitmap@[s] == 1);
                        }
                    }
                }
                None
            },
        }
    }

    pub fn get_stats(&self) -> (stats: TCacheStats)
        ensures
            stats == self.stats,
    {
        self.stats
    }
}

} // verus!
