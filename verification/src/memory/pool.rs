//! The pool of fixed buffers: one arena, and one cache for each processor.

use crate::memory::arena::{Arena, FIXED_BUFFER_SIZE_BYTES};
use crate::memory::page::{Page, PageId, Slice, PAGE_SIZE};
use crate::memory::segment::{Segment, FIRST_PAGE_OFFSET, PAGES_PER_SEGMENT, SEGMENT_SIZE};
use crate::memory::tcache;
use crate::memory::tcache::{TCache, TCacheStats};
use vstd::prelude::*;

verus! {

/// A part of an allocation that lies in one registered buffer.
#[derive(Clone, Copy, PartialEq, Eq, Structural, Debug)]
pub struct FixedBuffer {
    pub ptr: usize,
    pub buf_id: usize,
    pub bytes: usize,
}

/// A block of the pool, and how much of it is asked for.
#[derive(Clone, Copy, PartialEq, Eq, Structural, Debug)]
pub struct FixedBufferAllocation {
    pub ptr: usize,
    pub size: usize,
}

pub struct FixedBufferPool {
    /// One cache for each processor.
    pub local_caches: Vec<TCache>,
    pub arena: Arena,
    /// Where the registered buffers start.
    pub start_ptr: usize,
    pub capacity: usize,
    /// The ring took the buffers.
    pub registered: bool,
    /// How many blocks were handed back by another processor than their owner.
    pub foreign_free: u64,
}

/// `ptr` is the address of block `block` of page `id`, and that block is in somebody's hands.
pub open spec fn names(a: Arena, ptr: usize, id: PageId, block: int) -> bool {
    &&& tcache::live_block(a, id, block)
    &&& ptr == tcache::page_at(a, id).block_address(block)
}

/// Block `block` of page `id` was handed back, and nothing else changed hands.
pub open spec fn released(a: Arena, b: Arena, id: PageId, block: int) -> bool {
    &&& forall|x: PageId, k: int| #[trigger] tcache::live_block(b, x, k)
        <==> tcache::live_block(a, x, k) && !(x == id && k == block)
    &&& forall|x: PageId, k: int| #[trigger] tcache::live_block(b, x, k)
        ==> tcache::page_at(b, x).block_size == tcache::page_at(a, x).block_size
}

/// Processor `cpu` has put block `block` of page `id` back: the owner's is free at once, another's is left
/// for the owner to collect. No other page has changed.
pub open spec fn put_back(a: Arena, b: Arena, id: PageId, block: int, cpu: usize) -> bool {
    let s = id.segment as int;
    let g = a.segments@[s];
    let h = b.segments@[s];
    let before = tcache::page_at(a, id);
    let after = tcache::page_at(b, id);
    &&& b == (Arena { segments: b.segments, ..a })
    &&& b.segments@ == a.segments@.update(s, h)
    &&& h == (Segment { pages: h.pages, ..g })
    &&& h.pages@ == g.pages@.update(id.page as int, after)
    &&& if cpu == g.thread_id {
        &&& after == (Page { free_list: after.free_list, used: (before.used - 1) as usize, ..before })
        &&& after.num_blocks() == before.num_blocks()
        &&& after.free_list@ == before.free_list@.push(block as u8)
    } else {
        &&& after == (Page { thread_free_list: after.thread_free_list, ..before })
        &&& after.thread_free_list@ == before.thread_free_list@.push(block as u8)
    }
}

/// What handing back block `block` of page `id` on processor `cpu` does: the block is put back, and its
/// owner retires the page where it was the last one.
pub open spec fn handed_back(p: FixedBufferPool, q: FixedBufferPool, cpu: usize, id: PageId, block: int) -> bool {
    let owner = p.arena.segments@[id.segment as int].thread_id;
    exists|mid: Arena| #[trigger]
        put_back(p.arena, mid, id, block, cpu) && if cpu == owner && tcache::page_at(p.arena, id).used == 1 {
            &&& tcache::page_retired(
                p.local_caches@[owner as int],
                q.local_caches@[owner as int],
                mid,
                q.arena,
                id,
            )
            &&& forall|i: int| 0 <= i < p.local_caches@.len() && i != owner ==> #[trigger] q.local_caches@[i]
                == p.local_caches@[i]
        } else {
            q.arena == mid && q.local_caches == p.local_caches
        }
}

/// What handing back the block at address `ptr` on processor `cpu` does.
pub open spec fn freed(before: FixedBufferPool, after: FixedBufferPool, cpu: usize, ptr: usize) -> bool {
    forall|id: PageId, block: int| #[trigger] names(before.arena, ptr, id, block) ==> {
        let owner = before.arena.segments@[id.segment as int].thread_id;
        &&& released(before.arena, after.arena, id, block)
        &&& handed_back(before, after, cpu, id, block)
        &&& after.foreign_free == (if cpu == owner {
            before.foreign_free
        } else {
            before.foreign_free.wrapping_add(1)
        })
    }
}

/// A cache that owns none of the segments that changed keeps its invariant.
#[verifier::rlimit(50)]
proof fn lemma_bystander(c: TCache, a: Arena, b: Arena, t: usize)
    requires
        c.inv(a),
        b.wf(),
        tcache::others_kept(a, b, t),
        c.thread_id != t,
    ensures
        c.inv(b),
{
    let u = c.thread_id;
    assert forall|s: int| #[trigger] tcache::owned(b, u, s) == tcache::owned(a, u, s)
        && (tcache::owned(a, u, s) ==> b.segments@[s] == a.segments@[s]) by {
        if 0 <= s < a.segments@.len() {
            assert(a.used_bitmap@[s] == 1 && a.segments@[s].thread_id != t ==> b.segments@[s] == a.segments@[s]);
            assert(b.used_bitmap@[s] == 1 && b.segments@[s].thread_id != t ==> a.used_bitmap@[s] == 1);
        }
    }
    assert forall|s: int| #[trigger] tcache::owned(b, u, s) implies tcache::seg_books(
        b.segments@[s],
        b.base(s),
    ) by {
        assert(tcache::owned(a, u, s));
    }
    assert forall|x: PageId| #[trigger] tcache::head_at(b, u, x) == tcache::head_at(a, u, x) by {
        assert(tcache::owned(b, u, x.segment as int) == tcache::owned(a, u, x.segment as int));
    }
    assert forall|x: PageId| #[trigger] tcache::free_head(b, u, x) == tcache::free_head(a, u, x) by {
        assert(tcache::head_at(b, u, x) == tcache::head_at(a, u, x));
        assert(tcache::owned(b, u, x.segment as int) == tcache::owned(a, u, x.segment as int));
    }
    assert forall|x: PageId| #[trigger] tcache::used_head(b, u, x) == tcache::used_head(a, u, x) by {
        assert(tcache::head_at(b, u, x) == tcache::head_at(a, u, x));
        assert(tcache::owned(b, u, x.segment as int) == tcache::owned(a, u, x.segment as int));
    }
    let none = Set::<PageId>::empty();
    assert forall|k: int| 0 <= k < tcache::SEGMENT_BINS implies #[trigger] c.list_ok(b, k) by {
        assert(c.list_ok(a, k));
        assert forall|i: int| 0 <= i < c.lists@[k].len() implies #[trigger] c.node_ok(b, k, i) by {
            assert(c.node_ok(a, k, i));
            let x = c.lists@[k][i];
            assert(tcache::owned(b, u, x.segment as int));
        }
    }
    assert forall|x: PageId| #[trigger] tcache::free_head(b, u, x) implies c.listed(b, x) by {
        assert(tcache::free_head(a, u, x));
        assert(tcache::owned(b, u, x.segment as int));
    }
    assert forall|x: PageId|
        tcache::owned(b, u, x.segment as int) && x.page < PAGES_PER_SEGMENT
            && !tcache::free_head(b, u, x) implies (#[trigger] tcache::page_at(b, x)).unlinked() by {
        assert(tcache::owned(a, u, x.segment as int));
        assert(tcache::page_at(a, x).unlinked());
    }
    assert forall|x: PageId| tcache::head_at(b, u, x) implies #[trigger] tcache::calm(b, none, x) by {
        assert(tcache::owned(b, u, x.segment as int));
        assert(tcache::calm(a, none, x));
    }
    assert forall|k: int| 0 <= k < tcache::NUM_SIZE_CLASSES implies #[trigger] c.current_ok(b, none, k) by {
        assert(c.current_ok(a, none, k));
        if let Some(x) = c.free_pages@[k] {
            assert(tcache::owned(b, u, x.segment as int));
        }
    }
    assert forall|k: int| 0 <= k <= tcache::NUM_SIZE_CLASSES implies #[trigger] c.queue_ok(b, none, k) by {
        assert(c.queue_ok(a, none, k));
        let q = c.used_pages@[k]@;
        assert forall|i: int| 0 <= i < q.len() implies {
            &&& tcache::used_head(b, u, #[trigger] q[i])
            &&& tcache::page_at(b, q[i]) == tcache::page_at(a, q[i])
        } by {
            assert(tcache::used_head(a, u, q[i]));
            assert(tcache::owned(b, u, q[i].segment as int));
        }
    }
    assert forall|x: PageId| #[trigger] tcache::used_head(b, u, x) implies c.queued(b, x) by {
        assert(tcache::used_head(a, u, x));
        assert(tcache::owned(b, u, x.segment as int));
    }
}

/// A block lies inside its slice.
pub proof fn lemma_block_in_slice(a: Arena, t: usize, id: PageId, block: int)
    requires
        a.wf(),
        tcache::books(a, t),
        tcache::used_head(a, t, id),
        tcache::page_at(a, id).is_live(block),
    ensures
        ({
            let page = tcache::page_at(a, id);
            let start = a.base(id.segment as int) + FIRST_PAGE_OFFSET + id.page * PAGE_SIZE;
            &&& start <= page.block_address(block)
            &&& page.block_address(block) + page.block_size <= start + page.slice_count * PAGE_SIZE
            &&& id.page + page.slice_count <= PAGES_PER_SEGMENT
            &&& start + page.slice_count * PAGE_SIZE <= a.base(id.segment as int) + SEGMENT_SIZE
            &&& page.slice_count == 1 || block == 0
        }),
{
    tcache::lemma_head(a, t, id);
    let page = tcache::page_at(a, id);
    let g = a.segments@[id.segment as int];
    assert(g.pages@[id.page as int].page_start == a.base(id.segment as int) + FIRST_PAGE_OFFSET + id.page * PAGE_SIZE);
    assert(0 <= block * page.block_size && block * page.block_size + page.block_size <= page.num_blocks()
        * page.block_size) by (nonlinear_arith)
        requires
            0 <= block < page.num_blocks(),
            page.block_size > 0,
    ;
}

/// What an allocation of `size` bytes on processor `cpu` does: the cache of the processor hands out the
/// block that it picks, or gives up because neither it nor the arena has room.
pub open spec fn malloced(
    before: FixedBufferPool,
    after: FixedBufferPool,
    cpu: usize,
    size: int,
    ptr: Option<usize>,
) -> bool {
    let t = cpu % before.local_caches.len();
    let c = before.local_caches@[t as int];
    let d = after.local_caches@[t as int];
    &&& after.foreign_free == before.foreign_free
    &&& forall|i: int| 0 <= i < before.local_caches@.len() && i != t ==> #[trigger] after.local_caches@[i]
        == before.local_caches@[i]
    &&& match ptr {
        Some(ptr) => {
            &&& tcache::some_served(before.arena, after.arena, t, size, ptr)
            &&& tcache::some_picked(c, d, before.arena, after.arena, size, ptr)
        },
        None => {
            &&& tcache::gave_up(c, before.arena, d, after.arena, size)
            &&& tcache::same_live(before.arena, after.arena)
            &&& tcache::no_room(after.arena, t, size)
            &&& tcache::all_used(before.arena) || tcache::pages_for(size) > PAGES_PER_SEGMENT
        },
    }
}

impl FixedBufferPool {
    /// The caches keep their books over one arena, and every segment that is handed out belongs to one
    /// of them.
    pub open spec fn wf(self) -> bool {
        &&& self.arena.wf()
        &&& self.start_ptr == self.arena.aligned_start_ptr
        &&& self.capacity == self.arena.size
        &&& self.local_caches@.len() > 0
        &&& forall|i: int| 0 <= i < self.local_caches@.len() ==> (#[trigger] self.local_caches@[i]).thread_id == i
        &&& forall|i: int| 0 <= i < self.local_caches@.len() ==> (#[trigger] self.local_caches@[i]).inv(self.arena)
        &&& forall|s: int| 0 <= s < self.arena.segments@.len() && #[trigger] self.arena.used_bitmap@[s] == 1
            ==> self.arena.segments@[s].thread_id < self.local_caches@.len()
    }

    /// Everything but the arena and the caches is the same.
    pub open spec fn same_pool(self, other: FixedBufferPool) -> bool {
        &&& self.start_ptr == other.start_ptr
        &&& self.capacity == other.capacity
        &&& self.registered == other.registered
        &&& self.local_caches@.len() == other.local_caches@.len()
        &&& self.arena.same_memory(other.arena)
    }

    /// A block in somebody's hands belongs to a page of some cache.
    pub proof fn lemma_live_owner(self, id: PageId, block: int)
        requires
            self.wf(),
            tcache::live_block(self.arena, id, block),
        ensures
            ({
                let t = self.arena.segments@[id.segment as int].thread_id;
                &&& t < self.local_caches@.len()
                &&& self.local_caches@[t as int].thread_id == t
                &&& self.local_caches@[t as int].inv(self.arena)
                &&& tcache::books(self.arena, t)
                &&& tcache::used_head(self.arena, t, id)
                &&& tcache::page_at(self.arena, id).is_live(block)
                &&& tcache::page_at(self.arena, id).blocks_wf()
            }),
    {
        let t = self.arena.segments@[id.segment as int].thread_id;
        assert(self.arena.used_bitmap@[id.segment as int] == 1);
        assert(self.local_caches@[t as int].inv(self.arena));
        assert(tcache::used_head(self.arena, t, id));
        tcache::lemma_head(self.arena, t, id);
    }

    /// A block in somebody's hands lies inside the memory of the arena.
    pub proof fn law_live_inside(self, id: PageId, block: int)
        requires
            self.wf(),
            tcache::live_block(self.arena, id, block),
        ensures
            self.start_ptr <= tcache::page_at(self.arena, id).block_address(block),
            tcache::page_at(self.arena, id).block_address(block) + tcache::page_at(self.arena, id).block_size
                <= self.arena.actual_start_ptr + self.capacity,
    {
        self.lemma_live_owner(id, block);
        let t = self.arena.segments@[id.segment as int].thread_id;
        lemma_block_in_slice(self.arena, t, id, block);
        self.arena.lemma_base_bounds(id.segment as int);
    }

    /// Two blocks in somebody's hands never overlap.
    #[verifier::rlimit(50)]
    pub proof fn law_live_disjoint(self, x: PageId, i: int, y: PageId, j: int)
        requires
            self.wf(),
            tcache::live_block(self.arena, x, i),
            tcache::live_block(self.arena, y, j),
            x != y || i != j,
        ensures
            ({
                let p = tcache::page_at(self.arena, x);
                let q = tcache::page_at(self.arena, y);
                ||| p.block_address(i) + p.block_size <= q.block_address(j)
                ||| q.block_address(j) + q.block_size <= p.block_address(i)
            }),
    {
        let a = self.arena;
        self.lemma_live_owner(x, i);
        self.lemma_live_owner(y, j);
        let t = a.segments@[x.segment as int].thread_id;
        let u = a.segments@[y.segment as int].thread_id;
        lemma_block_in_slice(a, t, x, i);
        lemma_block_in_slice(a, u, y, j);
        tcache::lemma_head(a, t, x);
        tcache::lemma_head(a, u, y);
        let p = tcache::page_at(a, x);
        let q = tcache::page_at(a, y);
        if x.segment != y.segment {
            if x.segment < y.segment {
                assert(a.base(x.segment as int) + SEGMENT_SIZE <= a.base(y.segment as int)) by (nonlinear_arith)
                    requires
                        a.base(x.segment as int) == a.aligned_start_ptr + x.segment as int * SEGMENT_SIZE,
                        a.base(y.segment as int) == a.aligned_start_ptr + y.segment as int * SEGMENT_SIZE,
                        x.segment < y.segment,
                ;
            } else {
                assert(a.base(y.segment as int) + SEGMENT_SIZE <= a.base(x.segment as int)) by (nonlinear_arith)
                    requires
                        a.base(x.segment as int) == a.aligned_start_ptr + x.segment as int * SEGMENT_SIZE,
                        a.base(y.segment as int) == a.aligned_start_ptr + y.segment as int * SEGMENT_SIZE,
                        x.segment > y.segment,
                ;
            }
        } else if x.page != y.page {
            let g = a.segments@[x.segment as int];
            assert(g.head_ok(x.page as int));
            assert(g.head_ok(y.page as int));
            if x.page < y.page {
                assert(x.page + p.slice_count <= y.page);
            } else {
                assert(y.page + q.slice_count <= x.page);
            }
        } else {
            assert(x == y);
            let bs = p.block_size as int;
            if i < j {
                assert(i * bs + bs <= j * bs) by (nonlinear_arith)
                    requires
                        i < j,
                        bs > 0,
                ;
            } else {
                assert(j * bs + bs <= i * bs) by (nonlinear_arith)
                    requires
                        j < i,
                        bs > 0,
                ;
            }
        }
    }

    /// An address names at most one block in somebody's hands.
    pub proof fn law_names_one(self, ptr: usize, x: PageId, i: int, y: PageId, j: int)
        requires
            self.wf(),
            names(self.arena, ptr, x, i),
            names(self.arena, ptr, y, j),
        ensures
            x == y,
            i == j,
    {
        self.lemma_live_owner(x, i);
        self.lemma_live_owner(y, j);
        if x != y || i != j {
            self.law_live_disjoint(x, i, y, j);
        }
    }

    /// What was allocated for `size` bytes has room for them, inside the memory of the arena, and touches
    /// nothing that was in somebody's hands before.
    pub proof fn law_malloc_gives_room(
        self,
        after: FixedBufferPool,
        t: usize,
        size: int,
        id: PageId,
        block: int,
        ptr: usize,
    )
        requires
            after.wf(),
            0 <= size,
            tcache::served(self.arena, after.arena, t, size, id, block, ptr),
        ensures
            after.start_ptr <= ptr,
            ptr + size <= after.arena.actual_start_ptr + after.capacity,
            forall|x: PageId, k: int| #[trigger] tcache::live_block(self.arena, x, k) ==> {
                let page = tcache::page_at(after.arena, x);
                ptr + size <= page.block_address(k) || page.block_address(k) + page.block_size <= ptr
            },
    {
        tcache::law_rounded_up(size);
        after.law_live_inside(id, block);
        assert forall|x: PageId, k: int| #[trigger] tcache::live_block(self.arena, x, k) implies {
            let page = tcache::page_at(after.arena, x);
            ptr + size <= page.block_address(k) || page.block_address(k) + page.block_size <= ptr
        } by {
            assert(tcache::live_block(after.arena, x, k));
            after.law_live_disjoint(id, block, x, k);
        }
    }

    /// Handing back what was allocated undoes the allocation: the same blocks are in somebody's hands.
    pub proof fn law_free_undoes_malloc(
        self,
        between: FixedBufferPool,
        after: FixedBufferPool,
        id: PageId,
        block: int,
        ptr: usize,
    )
        requires
            tcache::granted(self.arena, between.arena, id, block, ptr),
            released(between.arena, after.arena, id, block),
        ensures
            tcache::same_live(self.arena, after.arena),
    {
        assert forall|x: PageId, k: int| #[trigger] tcache::live_block(after.arena, x, k) <==> tcache::live_block(
            self.arena,
            x,
            k,
        ) by {
            assert(tcache::live_block(between.arena, x, k) <==> tcache::live_block(self.arena, x, k) || (x == id && k
                == block));
        }
        assert forall|x: PageId, k: int| #[trigger] tcache::live_block(after.arena, x, k) implies tcache::page_at(
            after.arena,
            x,
        ).block_size == tcache::page_at(self.arena, x).block_size by {
            assert(tcache::live_block(between.arena, x, k));
            assert(tcache::live_block(self.arena, x, k));
        }
    }

    /// A block stays where it is as long as it is in somebody's hands.
    pub proof fn law_live_stays(self, after: FixedBufferPool, id: PageId, block: int)
        requires
            self.wf(),
            after.wf(),
            after.same_pool(self),
            tcache::live_block(self.arena, id, block),
            tcache::live_block(after.arena, id, block),
            tcache::page_at(after.arena, id).block_size == tcache::page_at(self.arena, id).block_size,
        ensures
            tcache::page_at(after.arena, id).block_address(block) == tcache::page_at(self.arena, id).block_address(block),
    {
        self.lemma_live_owner(id, block);
        after.lemma_live_owner(id, block);
        tcache::lemma_head(self.arena, self.arena.segments@[id.segment as int].thread_id, id);
        tcache::lemma_head(after.arena, after.arena.segments@[id.segment as int].thread_id, id);
    }

    /// The pool over the memory at `mem_start`, with a cache for each processor.
    pub fn new(mem_start: usize, capacity_mb: usize, num_cpus: usize) -> (pool: FixedBufferPool)
        requires
            mem_start != 0,
            mem_start + capacity_mb * 1048576 + 2 * SEGMENT_SIZE <= usize::MAX,
            num_cpus > 0,
        ensures
            pool.wf(),
            pool.capacity == capacity_mb * 1048576,
            pool.local_caches@.len() == num_cpus,
            forall|i: int| 0 <= i < num_cpus ==> tcache::new_cache(#[trigger] pool.local_caches@[i], i as usize),
            pool.arena.actual_start_ptr == mem_start,
            !pool.registered,
            pool.foreign_free == 0,
            forall|s: int| 0 <= s < pool.arena.used_bitmap@.len() ==> #[trigger] pool.arena.used_bitmap@[s] == 0,
            forall|id: PageId, block: int| !#[trigger] tcache::live_block(pool.arena, id, block),
    {
        let capacity: usize = capacity_mb * 1048576;
        let arena: Arena = Self::allocate_arena(mem_start, capacity);
        let start_ptr: usize = arena.start_ptr();
        let mut local_caches: Vec<TCache> = Vec::new();
        let mut i: usize = 0;
        while i < num_cpus
            invariant
                i <= num_cpus,
                arena.wf(),
                forall|s: int| 0 <= s < arena.used_bitmap@.len() ==> #[trigger] arena.used_bitmap@[s] == 0,
                local_caches@.len() == i,
                forall|k: int| 0 <= k < i ==> tcache::new_cache(#[trigger] local_caches@[k], k as usize),
                forall|k: int| 0 <= k < i ==> (#[trigger] local_caches@[k]).inv(arena),
            decreases num_cpus - i,
        {
            let cache: TCache = TCache::new(i);
            assert(cache.inv(arena)) by {
                assert(forall|s: int| !tcache::owned(arena, i, s));
            }
            local_caches.push(cache);
            i = i + 1;
        }
        FixedBufferPool { local_caches, arena, start_ptr, capacity, registered: false, foreign_free: 0 }
    }

    pub fn allocate_arena(mem_start: usize, capacity: usize) -> (arena: Arena)
        requires
            mem_start != 0,
            mem_start + capacity + 2 * SEGMENT_SIZE <= usize::MAX,
        ensures
            arena.wf(),
            arena.size == capacity,
            arena.actual_start_ptr == mem_start,
            !arena.buffers_registered,
            forall|i: int| 0 <= i < arena.used_bitmap@.len() ==> #[trigger] arena.used_bitmap@[i] == 0,
    {
        Arena::new(mem_start, capacity)
    }

    /// Which cache processor `cpu` uses.
    pub fn get_thread_local_cache(&self, cpu: usize) -> (idx: usize)
        requires
            self.local_caches@.len() > 0,
        ensures
            idx == cpu % self.local_caches.len(),
            idx < self.local_caches@.len(),
    {
        cpu % self.local_caches.len()
    }

    /// Allocates a block of at least `size` bytes on processor `cpu` and returns its address.
    pub fn malloc(&mut self, cpu: usize, size: usize) -> (ptr: Option<usize>)
        requires
            old(self).wf(),
            size + PAGE_SIZE <= usize::MAX,
        ensures
            final(self).wf(),
            final(self).same_pool(*old(self)),
            malloced(*old(self), *final(self), cpu, size as int, ptr),
    {
        let idx: usize = self.get_thread_local_cache(cpu);
        let ghost a0 = self.arena;
        let ghost caches = self.local_caches@;
        let ptr: Option<usize> = self.local_caches[idx].allocate(&mut self.arena, size);
        proof {
            let a1 = self.arena;
            assert forall|i: int| 0 <= i < caches.len() implies (#[trigger] self.local_caches@[i]).inv(a1) by {
                if i != idx {
                    assert(self.local_caches@[i] == caches[i]);
                    lemma_bystander(caches[i], a0, a1, idx);
                }
            }
            assert forall|s: int| 0 <= s < a1.segments@.len() && #[trigger] a1.used_bitmap@[s] == 1
                implies a1.segments@[s].thread_id < caches.len() by {
                if a1.segments@[s].thread_id != idx {
                    assert(a0.used_bitmap@[s] == 1);
                }
            }
        }
        ptr
    }

    /// The segment and the page that hold the block at an address.
    #[verifier::rlimit(50)]
    fn page_of(&self, ptr: usize, Ghost(id): Ghost<PageId>, Ghost(block): Ghost<int>) -> (found: PageId)
        requires
            self.wf(),
            names(self.arena, ptr, id, block),
        ensures
            found == id,
    {
        let ghost a = self.arena;
        let ghost t = a.segments@[id.segment as int].thread_id;
        let ghost page = tcache::page_at(a, id);
        proof {
            self.lemma_live_owner(id, block);
            lemma_block_in_slice(a, t, id, block);
            a.lemma_base_bounds(id.segment as int);
            a.lemma_base_bounds(0);
            assert(ptr - ptr % SEGMENT_SIZE == a.base(id.segment as int));
            let g = a.segments@[id.segment as int];
            assert(g.placed(a.base(id.segment as int))) by {
                assert(tcache::owned(a, t, id.segment as int));
            }
            assert(g.pages@[0].page_start == a.base(id.segment as int) + FIRST_PAGE_OFFSET + 0 * PAGE_SIZE);
        }
        let base: usize = Segment::get_segment_from_ptr(ptr);
        let first: usize = self.arena.slices[0].ptr;
        let segment: usize = (base - first) / SEGMENT_SIZE;
        assert(segment == id.segment);
        let index: usize = self.arena.segments[segment].get_page_from_ptr(ptr);
        proof {
            if block == 0 {
                assert(page.block_address(block) == page.page_start);
            }
        }
        PageId { segment, page: index }
    }

    /// Takes back the block at address `ptr`, on processor `cpu`. The owner of the block puts it back at
    /// once, and retires its page where it was the last block; another processor leaves it for the owner
    /// to collect.
    #[verifier::rlimit(50)]
    pub fn free(&mut self, cpu: usize, ptr: usize)
        requires
            old(self).wf(),
            exists|id: PageId, block: int| #[trigger] names(old(self).arena, ptr, id, block),
        ensures
            final(self).wf(),
            final(self).same_pool(*old(self)),
            freed(*old(self), *final(self), cpu, ptr),
    {
        let ghost (id, block) = choose|id: PageId, block: int| #[trigger] names(old(self).arena, ptr, id, block);
        let found: PageId = self.page_of(ptr, Ghost(id), Ghost(block));
        let ghost a0 = self.arena;
        let ghost caches = self.local_caches@;
        let owner: usize = self.arena.segments[found.segment].thread_id;
        let ghost page = tcache::page_at(a0, id);
        proof {
            self.lemma_live_owner(id, block);
            lemma_block_in_slice(a0, owner, id, block);
            tcache::lemma_head(a0, owner, id);
            assert(page.block_of(ptr as int) == block) by (nonlinear_arith)
                requires
                    page.block_of(ptr as int) == (ptr - page.page_start) / (page.block_size as int),
                    ptr == page.page_start + block * page.block_size,
                    page.block_size > 0,
            ;
        }
        if cpu == owner {
            self.arena.segments[found.segment].pages[found.page].free(ptr);
        } else {
            self.arena.segments[found.segment].pages[found.page].foreign_free(ptr);
            self.foreign_free = self.foreign_free.wrapping_add(1);
        }
        let ghost a1 = self.arena;
        let ghost c0 = caches[owner as int];
        proof {
            let s = id.segment as int;
            assert(a1.segments@ =~= a0.segments@.update(s, a1.segments@[s]));
            assert(a1.segments@[s].pages@ =~= a0.segments@[s].pages@.update(id.page as int, tcache::page_at(a1, id)));
            tcache::lemma_blocks_moved(c0, a0, a1, id, Set::empty(), Set::empty());
            assert forall|x: PageId, k: int| #[trigger] tcache::live_block(a1, x, k) <==> tcache::live_block(a0, x, k)
                && !(x == id && k == block) by {
                if x == id {
                    assert(tcache::page_at(a1, id).is_live(k) <==> page.is_live(k) && k != block);
                    assert(tcache::live_block(a0, id, k) <==> page.is_live(k));
                }
            }
            assert(released(a0, a1, id, block));
            assert(put_back(a0, a1, id, block, cpu));
            lemma_pool_kept(*old(self), caches, a1, owner);
            assert forall|x: PageId, k: int| #[trigger] names(a0, ptr, x, k) implies x == id && k == block by {
                old(self).law_names_one(ptr, x, k, id, block);
            }
        }
        if cpu == owner && self.arena.segments[found.segment].pages[found.page].is_unused() {
            self.local_caches[owner].retire_page(&mut self.arena, found);
            proof {
                let a2 = self.arena;
                tcache::lemma_others_kept_trans(a0, a1, a2, owner);
                lemma_pool_kept(*old(self), self.local_caches@, a2, owner);
                assert forall|x: PageId, k: int| #[trigger] tcache::live_block(a2, x, k) <==> tcache::live_block(a0, x, k)
                    && !(x == id && k == block) by {
                    assert(tcache::live_block(a1, x, k) <==> tcache::live_block(a0, x, k) && !(x == id && k == block));
                }
                assert forall|x: PageId, k: int| #[trigger] tcache::live_block(a2, x, k) implies tcache::page_at(
                    a2,
                    x,
                ).block_size == tcache::page_at(a0, x).block_size by {
                    assert(tcache::live_block(a1, x, k));
                }
                assert(released(a0, a2, id, block));
            }
        }
    }

    /// The parts of an allocation, one for each registered buffer that it touches.
    #[verifier::rlimit(50)]
    pub fn get_fixed_buffers(&self, alloc: &FixedBufferAllocation) -> (buffers: Vec<FixedBuffer>)
        requires
            self.wf(),
            self.start_ptr <= alloc.ptr < self.start_ptr + self.capacity,
            alloc.ptr + alloc.size + FIXED_BUFFER_SIZE_BYTES <= usize::MAX,
        ensures
            buffers@ == fixed_parts(self.start_ptr as int, alloc.ptr as int, alloc.size as int),
            covers(buffers@, alloc.ptr as int, alloc.size as int),
            forall|i: int| 0 <= i < buffers@.len() ==> in_buffer(#[trigger] buffers@[i], self.start_ptr as int),
            forall|i: int| 0 <= i < buffers@.len() ==> #[trigger] buffers@[i].buf_id == (alloc.ptr - self.start_ptr) / (
            FIXED_BUFFER_SIZE_BYTES as int) + i,
    {
        let mut remaining: usize = alloc.size;
        let mut buffers: Vec<FixedBuffer> = Vec::new();
        let mut current: usize = alloc.ptr;
        let mut buffer_id: usize = (current - self.start_ptr) / FIXED_BUFFER_SIZE_BYTES;
        let ghost first = buffer_id as int;
        assert(buffers@ + fixed_parts(self.start_ptr as int, current as int, remaining as int) =~= fixed_parts(
            self.start_ptr as int,
            current as int,
            remaining as int,
        ));
        while remaining > 0
            invariant
                self.start_ptr <= alloc.ptr,
                alloc.ptr + alloc.size + FIXED_BUFFER_SIZE_BYTES <= usize::MAX,
                first == (alloc.ptr - self.start_ptr) / (FIXED_BUFFER_SIZE_BYTES as int),
                buffer_id == first + buffers@.len(),
                remaining <= alloc.size,
                fixed_parts(self.start_ptr as int, alloc.ptr as int, alloc.size as int) == buffers@ + fixed_parts(
                    self.start_ptr as int,
                    current as int,
                    remaining as int,
                ),
                covers(buffers@, alloc.ptr as int, alloc.size - remaining),
                remaining > 0 ==> current == alloc.ptr + alloc.size - remaining,
                remaining > 0 ==> buffer_id * FIXED_BUFFER_SIZE_BYTES <= current - self.start_ptr < (buffer_id + 1)
                    * FIXED_BUFFER_SIZE_BYTES,
                forall|i: int| 0 <= i < buffers@.len() ==> in_buffer(#[trigger] buffers@[i], self.start_ptr as int),
                forall|i: int| 0 <= i < buffers@.len() ==> #[trigger] buffers@[i].buf_id == first + i,
            decreases remaining,
        {
            let next_buffer_start: usize = self.start_ptr + (buffer_id + 1) * FIXED_BUFFER_SIZE_BYTES;
            let room: usize = next_buffer_start - current;
            let bytes: usize = if remaining <= room {
                remaining
            } else {
                room
            };
            let ghost before = buffers@;
            let part = FixedBuffer { ptr: current, buf_id: buffer_id, bytes };
            buffers.push(part);
            proof {
                lemma_covers_push(before, alloc.ptr as int, alloc.size - remaining, part);
                let rest = fixed_parts(self.start_ptr as int, current + bytes, remaining - bytes);
                assert((current - self.start_ptr) / (FIXED_BUFFER_SIZE_BYTES as int) == buffer_id);
                assert(fixed_parts(self.start_ptr as int, current as int, remaining as int) == seq![part] + rest);
                assert(before + (seq![part] + rest) =~= buffers@ + rest);
                if bytes == remaining {
                    assert(fixed_parts(self.start_ptr as int, next_buffer_start as int, 0) =~= rest);
                }
            }
            current = next_buffer_start;
            remaining = remaining - bytes;
            buffer_id = buffer_id + 1;
        }
        assert(buffers@ + fixed_parts(self.start_ptr as int, current as int, 0) =~= buffers@);
        buffers
    }

    /// What the cache of processor `cpu` has done so far.
    pub fn get_stats(&self, cpu: usize) -> (stats: TCacheStats)
        requires
            self.local_caches@.len() > 0,
        ensures
            stats == self.local_caches@[(cpu % self.local_caches.len()) as int].stats,
    {
        let idx: usize = self.get_thread_local_cache(cpu);
        self.local_caches[idx].get_stats()
    }

    /// What the caches of the first `num_cpus` processors have done, added up.
    pub fn aggregated_stats(&self, num_cpus: usize) -> (stats: TCacheStats)
        requires
            self.local_caches@.len() > 0,
        ensures
            stats == summed(self.local_caches@, num_cpus as nat),
    {
        let mut total: TCacheStats = TCacheStats::new();
        let mut i: usize = 0;
        while i < num_cpus
            invariant
                i <= num_cpus,
                self.local_caches@.len() > 0,
                total == summed(self.local_caches@, i as nat),
            decreases num_cpus - i,
        {
            let stats: TCacheStats = self.get_stats(i);
            total = TCacheStats {
                total_allocations: total.total_allocations.wrapping_add(stats.total_allocations),
                unsuccessful_allocations: total.unsuccessful_allocations.wrapping_add(stats.unsuccessful_allocations),
                total_segments_allocated: total.total_segments_allocated.wrapping_add(stats.total_segments_allocated),
                fast_allocations: total.fast_allocations.wrapping_add(stats.fast_allocations),
                allocations_from_pages: total.allocations_from_pages.wrapping_add(stats.allocations_from_pages),
                allocations_from_segment: total.allocations_from_segment.wrapping_add(stats.allocations_from_segment),
                allocations_from_arena: total.allocations_from_arena.wrapping_add(stats.allocations_from_arena),
                pages_retired: total.pages_retired.wrapping_add(stats.pages_retired),
                segments_retired: total.segments_retired.wrapping_add(stats.segments_retired),
            };
            i = i + 1;
        }
        total
    }

    /// The buffers to register with a ring.
    pub fn buffers_to_register(&self) -> (buffers: Vec<Slice>)
        requires
            self.wf(),
        ensures
            buffers@.len() == self.arena.num_buffers(),
            forall|i: int| 0 <= i < buffers@.len() ==> #[trigger] buffers@[i] == (Slice {
                ptr: (self.start_ptr + i * FIXED_BUFFER_SIZE_BYTES) as usize,
                size: FIXED_BUFFER_SIZE_BYTES,
            }),
    {
        self.arena.buffers_to_register()
    }

    /// Records whether a ring took the buffers. Once one has, the pool counts as registered.
    pub fn registration_done(&mut self, taken: bool)
        requires
            old(self).wf(),
        ensures
            final(self).wf(),
            final(self).registered == (old(self).registered || taken),
            final(self).arena == (Arena { buffers_registered: taken, ..old(self).arena }),
            final(self).local_caches == old(self).local_caches,
            final(self).start_ptr == old(self).start_ptr,
            final(self).capacity == old(self).capacity,
            final(self).foreign_free == old(self).foreign_free,
    {
        let ghost a0 = self.arena;
        self.arena.set_buffers_registered(taken);
        if taken {
            self.registered = true;
        }
        proof {
            assert forall|i: int| 0 <= i < self.local_caches@.len() implies (#[trigger] self.local_caches@[i]).inv(
                self.arena,
            ) by {
                lemma_registration_apart(self.local_caches@[i], a0, self.arena);
            }
        }
    }

    pub fn buffers_registered(&self) -> (registered: bool)
        ensures
            registered == self.registered,
    {
        self.registered
    }

    /// Every part of a block in somebody's hands lies in a buffer that was offered to the ring.
    pub proof fn law_parts_registered(self, id: PageId, block: int, at: int)
        requires
            self.wf(),
            tcache::live_block(self.arena, id, block),
            tcache::page_at(self.arena, id).block_address(block) <= at < tcache::page_at(self.arena, id).block_address(
                block,
            ) + tcache::page_at(self.arena, id).block_size,
        ensures
            0 <= (at - self.start_ptr) / (FIXED_BUFFER_SIZE_BYTES as int) < self.arena.num_buffers(),
    {
        self.lemma_live_owner(id, block);
        let a = self.arena;
        let t = a.segments@[id.segment as int].thread_id;
        lemma_block_in_slice(a, t, id, block);
        a.lemma_base_bounds(id.segment as int);
        a.lemma_base_bounds(a.slices@.len() - 1);
    }
}

/// The counters of the first `n` processors' caches, added up.
pub open spec fn summed(caches: Seq<TCache>, n: nat) -> TCacheStats
    decreases n,
{
    if n == 0 {
        tcache::no_stats()
    } else {
        let rest = summed(caches, (n - 1) as nat);
        let one = caches[(n - 1) % (caches.len() as int)].stats;
        TCacheStats {
            total_allocations: rest.total_allocations.wrapping_add(one.total_allocations),
            unsuccessful_allocations: rest.unsuccessful_allocations.wrapping_add(one.unsuccessful_allocations),
            total_segments_allocated: rest.total_segments_allocated.wrapping_add(one.total_segments_allocated),
            fast_allocations: rest.fast_allocations.wrapping_add(one.fast_allocations),
            allocations_from_pages: rest.allocations_from_pages.wrapping_add(one.allocations_from_pages),
            allocations_from_segment: rest.allocations_from_segment.wrapping_add(one.allocations_from_segment),
            allocations_from_arena: rest.allocations_from_arena.wrapping_add(one.allocations_from_arena),
            pages_retired: rest.pages_retired.wrapping_add(one.pages_retired),
            segments_retired: rest.segments_retired.wrapping_add(one.segments_retired),
        }
    }
}

/// The parts of the `size` bytes at `ptr`, one for each of the buffers, from `start` on, that they touch.
pub open spec fn fixed_parts(start: int, ptr: int, size: int) -> Seq<FixedBuffer>
    decreases size,
{
    let buf_id = (ptr - start) / (FIXED_BUFFER_SIZE_BYTES as int);
    let room = start + (buf_id + 1) * FIXED_BUFFER_SIZE_BYTES - ptr;
    let bytes = if size <= room {
        size
    } else {
        room
    };
    if size <= 0 || bytes <= 0 {
        Seq::empty()
    } else {
        seq![FixedBuffer { ptr: ptr as usize, buf_id: buf_id as usize, bytes: bytes as usize }] + fixed_parts(
            start,
            ptr + bytes,
            size - bytes,
        )
    }
}

/// The parts follow each other without a gap, from `ptr` on, and have `size` bytes together.
pub open spec fn covers(parts: Seq<FixedBuffer>, ptr: int, size: int) -> bool
    decreases parts.len(),
{
    if parts.len() == 0 {
        size == 0
    } else {
        let last = parts.last();
        &&& last.bytes > 0
        &&& last.ptr == ptr + size - last.bytes
        &&& covers(parts.drop_last(), ptr, size - last.bytes)
    }
}

proof fn lemma_covers_push(parts: Seq<FixedBuffer>, ptr: int, size: int, part: FixedBuffer)
    requires
        covers(parts, ptr, size),
        part.bytes > 0,
        part.ptr == ptr + size,
    ensures
        covers(parts.push(part), ptr, size + part.bytes),
{
    assert(parts.push(part).drop_last() =~= parts);
}

/// A part lies inside its registered buffer.
pub open spec fn in_buffer(part: FixedBuffer, start: int) -> bool {
    &&& start + part.buf_id * FIXED_BUFFER_SIZE_BYTES <= part.ptr
    &&& part.ptr + part.bytes <= start + (part.buf_id + 1) * FIXED_BUFFER_SIZE_BYTES
}

/// Where cache `t` and its segments are in order, and the others were left alone, the pool is.
proof fn lemma_pool_kept(pool: FixedBufferPool, caches: Seq<TCache>, b: Arena, t: usize)
    requires
        pool.wf(),
        t < pool.local_caches@.len(),
        caches.len() == pool.local_caches@.len(),
        forall|i: int| 0 <= i < caches.len() && i != t ==> #[trigger] caches[i] == pool.local_caches@[i],
        caches[t as int].inv(b),
        caches[t as int].thread_id == t,
        tcache::others_kept(pool.arena, b, t),
    ensures
        forall|i: int| 0 <= i < caches.len() ==> (#[trigger] caches[i]).inv(b),
        forall|i: int| 0 <= i < caches.len() ==> (#[trigger] caches[i]).thread_id == i,
        forall|s: int| 0 <= s < b.segments@.len() && #[trigger] b.used_bitmap@[s] == 1 ==> b.segments@[s].thread_id
            < caches.len(),
{
    let a = pool.arena;
    assert forall|i: int| 0 <= i < caches.len() implies (#[trigger] caches[i]).inv(b) && caches[i].thread_id == i by {
        if i != t {
            assert(pool.local_caches@[i].inv(a));
            lemma_bystander(pool.local_caches@[i], a, b, t);
        }
    }
    assert forall|s: int| 0 <= s < b.segments@.len() && #[trigger] b.used_bitmap@[s] == 1 implies b.segments@[s].thread_id
        < caches.len() by {
        if b.segments@[s].thread_id != t {
            assert(a.used_bitmap@[s] == 1);
        }
    }
}

/// Whether a ring took the buffers plays no part in the books.
proof fn lemma_registration_apart(c: TCache, a: Arena, b: Arena)
    requires
        c.inv(a),
        b == (Arena { buffers_registered: b.buffers_registered, ..a }),
    ensures
        c.inv(b),
{
    let u = c.thread_id;
    let none = Set::<PageId>::empty();
    assert forall|s: int| #[trigger] tcache::owned(b, u, s) implies tcache::seg_books(b.segments@[s], b.base(s)) by {
        assert(tcache::owned(a, u, s));
    }
    assert forall|x: PageId| #[trigger] tcache::free_head(b, u, x) == tcache::free_head(a, u, x) by {}
    assert forall|x: PageId| #[trigger] tcache::used_head(b, u, x) == tcache::used_head(a, u, x) by {}
    assert forall|k: int| 0 <= k < tcache::SEGMENT_BINS implies #[trigger] c.list_ok(b, k) by {
        assert(c.list_ok(a, k));
        assert forall|i: int| 0 <= i < c.lists@[k].len() implies #[trigger] c.node_ok(b, k, i) by {
            assert(c.node_ok(a, k, i));
        }
    }
    assert forall|x: PageId|
        tcache::owned(b, u, x.segment as int) && x.page < PAGES_PER_SEGMENT && !tcache::free_head(b, u, x) implies (
    #[trigger] tcache::page_at(b, x)).unlinked() by {
        assert(tcache::owned(a, u, x.segment as int));
        assert(tcache::page_at(a, x).unlinked());
    }
    assert forall|x: PageId| tcache::head_at(b, u, x) implies #[trigger] tcache::calm(b, none, x) by {
        assert(tcache::head_at(a, u, x));
        assert(tcache::calm(a, none, x));
    }
    assert forall|k: int| 0 <= k < tcache::NUM_SIZE_CLASSES implies #[trigger] c.current_ok(b, none, k) by {
        assert(c.current_ok(a, none, k));
    }
    assert forall|k: int| 0 <= k <= tcache::NUM_SIZE_CLASSES implies #[trigger] c.queue_ok(b, none, k) by {
        assert(c.queue_ok(a, none, k));
    }
    assert forall|x: PageId| #[trigger] tcache::used_head(b, u, x) implies c.queued(b, x) by {
        assert(tcache::used_head(a, u, x));
    }
}

} // verus!
