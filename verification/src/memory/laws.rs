//! What a caller of the allocator may rely on, whatever it does inside.
//!
//! Each law is about the calls themselves: it holds of every outcome that the function may have. A block
//! is in somebody's hands from the call that handed it out to the one that hands it back.

use crate::buffer::{try_read_buf, ReadBuf};
use crate::error::{ArgumentFault, Error};
use crate::memory::arena;
use crate::memory::arena::Arena;
use crate::memory::page::{LocalFreeList, MPSCQueue, Page, PageId, Slice};
use crate::memory::pool;
use crate::memory::pool::{FixedBuffer, FixedBufferAllocation, FixedBufferPool};
use crate::memory::segment::Segment;
use crate::memory::tcache;
use crate::memory::tcache::{TCache, TCacheStats};
use vstd::prelude::*;

verus! {

/// The block that `ptr` names has at least `size` bytes, all inside the memory of the pool.
pub open spec fn has_room(p: FixedBufferPool, ptr: usize, size: int, id: PageId, block: int) -> bool {
    let page = tcache::page_at(p.arena, id);
    &&& tcache::live_block(p.arena, id, block)
    &&& ptr == page.block_address(block)
    &&& size <= page.block_size
    &&& p.arena.actual_start_ptr <= ptr
    &&& ptr + page.block_size <= p.arena.actual_start_ptr + p.arena.size
}

/// What is allocated is a block with room for what was asked, that was in nobody's hands. No block that
/// was in somebody's hands moves or shrinks, and none of them has a byte in common with the new one.
pub proof fn law_malloc_gives_a_block(
    pool: &mut FixedBufferPool,
    cpu: usize,
    size: usize,
    ptr: Option<usize>,
)
    requires
        old(pool).wf(),
        call_ensures(FixedBufferPool::malloc, (pool, cpu, size), ptr),
    ensures
        ptr matches Some(ptr) ==> exists|id: PageId, block: int|
            {
                &&& #[trigger] has_room(*final(pool), ptr, size as int, id, block)
                &&& !tcache::live_block(old(pool).arena, id, block)
                &&& forall|x: PageId, k: int| #[trigger] tcache::live_block(old(pool).arena, x, k) ==> {
                    let before = tcache::page_at(old(pool).arena, x);
                    let after = tcache::page_at(final(pool).arena, x);
                    &&& tcache::live_block(final(pool).arena, x, k)
                    &&& after.block_address(k) == before.block_address(k)
                    &&& after.block_size == before.block_size
                    &&& ptr + size <= before.block_address(k) || before.block_address(k) + before.block_size <= ptr
                }
            },
{
    if let Some(ptr) = ptr {
        let t = cpu % old(pool).local_caches.len();
        let (id, block) = choose|id: PageId, block: int| #[trigger]
            tcache::served(old(pool).arena, final(pool).arena, t, size as int, id, block, ptr);
        old(pool).law_malloc_gives_room(*final(pool), t, size as int, id, block, ptr);
        tcache::law_rounded_up(size as int);
        final(pool).law_live_inside(id, block);
        assert(has_room(*final(pool), ptr, size as int, id, block));
        assert forall|x: PageId, k: int| #[trigger] tcache::live_block(old(pool).arena, x, k) implies {
            let before = tcache::page_at(old(pool).arena, x);
            let after = tcache::page_at(final(pool).arena, x);
            &&& tcache::live_block(final(pool).arena, x, k)
            &&& after.block_address(k) == before.block_address(k)
            &&& after.block_size == before.block_size
            &&& ptr + size <= before.block_address(k) || before.block_address(k) + before.block_size <= ptr
        } by {
            assert(tcache::live_block(final(pool).arena, x, k));
            old(pool).law_live_stays(*final(pool), x, k);
        }
    }
}

/// An allocation fails only where every segment of the arena is handed out, or where it is larger than a
/// segment, and then nothing changes hands. The cache has no free slice for it, and no free block of its
/// size.
pub proof fn law_malloc_fails_only_without_room(
    pool: &mut FixedBufferPool,
    cpu: usize,
    size: usize,
    ptr: Option<usize>,
    s: int,
    x: PageId,
)
    requires
        old(pool).wf(),
        call_ensures(FixedBufferPool::malloc, (pool, cpu, size), ptr),
        ptr is None,
        0 <= s < old(pool).arena.used_bitmap@.len(),
    ensures
        old(pool).arena.used_bitmap@[s] == 1 || size > 509 * 65536,
        tcache::same_live(old(pool).arena, final(pool).arena),
        ({
            let t = cpu % old(pool).local_caches.len();
            let page = tcache::page_at(final(pool).arena, x);
            &&& tcache::free_head(final(pool).arena, t, x) ==> size > 65536 && page.slice_count * 65536 < size
            &&& tcache::used_head(final(pool).arena, t, x) && size <= 65536 && size <= page.block_size < 2 * size
                && page.block_size <= 65536 ==> page.free_list@.len() == 0 && page.thread_free_list@.len() == 0
        }),
{
    let t = cpu % old(pool).local_caches.len();
    let a = final(pool).arena;
    let page = tcache::page_at(a, x);
    let n = tcache::pages_for(size as int);
    assert(65536 * (n - 1) < size <= 65536 * n || size == 0);
    if tcache::used_head(a, t, x) && size <= 65536 && size <= page.block_size < 2 * size && page.block_size <= 65536 {
        assert(final(pool).local_caches@[t as int].inv(a));
        assert(final(pool).local_caches@[t as int].thread_id == t);
        tcache::lemma_head(a, t, x);
        lemma_only_class(final(pool).local_caches@[t as int], a, x, size as int);
        assert(tcache::exhausted(page));
        assert(page.returned().len() == page.free_list@.len() + page.thread_free_list@.len());
    }
}

/// A page with blocks of less than twice the size is of the class of the size.
proof fn lemma_only_class(c: TCache, a: Arena, x: PageId, size: int)
    requires
        c.inv(a),
        tcache::used_head(a, c.thread_id, x),
        0 < size <= 65536,
        size <= tcache::page_at(a, x).block_size < 2 * size,
        tcache::page_at(a, x).block_size <= 65536,
    ensures
        tcache::page_at(a, x).block_size == tcache::rounded(size),
{
    let page = tcache::page_at(a, x);
    let bs = page.block_size as int;
    assert(c.queued(a, x));
    let k = tcache::queue_of(bs);
    tcache::lemma_size_class_small(size);
    tcache::lemma_size_class_small(bs);
    assert(c.queue_ok(a, Set::empty(), k));
    if k < tcache::NUM_SIZE_CLASSES {
        assert(c.current_ok(a, Set::empty(), k));
    }
    assert(bs == tcache::class_size(k));
}

/// A new pool has nothing to hand back, and, where it has a segment at all, serves any allocation that
/// fits a segment.
pub proof fn law_new_pool_serves(
    start: usize,
    mb: usize,
    cpus: usize,
    pool: &mut FixedBufferPool,
    cpu: usize,
    size: usize,
    ptr: Option<usize>,
    id: PageId,
    block: int,
)
    requires
        call_ensures(FixedBufferPool::new, (start, mb, cpus), *old(pool)),
        call_ensures(FixedBufferPool::malloc, (pool, cpu, size), ptr),
    ensures
        old(pool).capacity == mb * 1048576,
        old(pool).local_caches@.len() == cpus,
        !tcache::live_block(old(pool).arena, id, block),
        mb >= 64 && size <= 509 * 65536 ==> ptr is Some,
{
    if ptr is None && mb >= 64 && size <= 509 * 65536 {
        let a = old(pool).arena;
        assert(a.slices@.len() > 0);
        assert(a.used_bitmap@[0] == 0);
        assert(tcache::pages_for(size as int) <= 509);
    }
}

/// A block that is handed back is in nobody's hands, and no other block has changed hands, moved or
/// shrunk, whichever processor hands it back.
pub proof fn law_free_takes_one_block_back(
    pool: &mut FixedBufferPool,
    cpu: usize,
    ptr: usize,
    id: PageId,
    block: int,
    x: PageId,
    k: int,
)
    requires
        old(pool).wf(),
        tcache::live_block(old(pool).arena, id, block),
        ptr == tcache::page_at(old(pool).arena, id).block_address(block),
        call_ensures(FixedBufferPool::free, (pool, cpu, ptr), ()),
    ensures
        final(pool).wf(),
        !tcache::live_block(final(pool).arena, id, block),
        x != id || k != block ==> tcache::live_block(final(pool).arena, x, k) == tcache::live_block(
            old(pool).arena,
            x,
            k,
        ),
        tcache::live_block(final(pool).arena, x, k) ==> {
            let before = tcache::page_at(old(pool).arena, x);
            let after = tcache::page_at(final(pool).arena, x);
            after.block_address(k) == before.block_address(k) && after.block_size == before.block_size
        },
{
    assert(pool::names(old(pool).arena, ptr, id, block));
    if tcache::live_block(final(pool).arena, x, k) {
        old(pool).law_live_stays(*final(pool), x, k);
    }
}

/// Handing back what was just allocated, on whichever processor, leaves the same blocks in somebody's
/// hands as before.
pub proof fn law_free_undoes_malloc(
    pool: &mut FixedBufferPool,
    cpu: usize,
    size: usize,
    ptr: usize,
    later: &mut FixedBufferPool,
    other: usize,
    x: PageId,
    k: int,
)
    requires
        old(pool).wf(),
        call_ensures(FixedBufferPool::malloc, (pool, cpu, size), Some(ptr)),
        *old(later) == *final(pool),
        call_ensures(FixedBufferPool::free, (later, other, ptr), ()),
    ensures
        tcache::live_block(final(later).arena, x, k) == tcache::live_block(old(pool).arena, x, k),
{
    let t = cpu % old(pool).local_caches.len();
    let (id, block) = choose|id: PageId, block: int| #[trigger]
        tcache::served(old(pool).arena, final(pool).arena, t, size as int, id, block, ptr);
    assert(pool::names(old(later).arena, ptr, id, block));
    old(pool).law_free_undoes_malloc(*final(pool), *final(later), id, block, ptr);
}

/// The parts of a block follow each other from its start to its end, and each lies inside the one buffer
/// that it names.
pub proof fn law_parts_cover_the_block(
    pool: &FixedBufferPool,
    alloc: &FixedBufferAllocation,
    parts: Vec<FixedBuffer>,
    i: int,
)
    requires
        alloc.size > 0,
        call_ensures(FixedBufferPool::get_fixed_buffers, (pool, alloc), parts),
        0 <= i < parts@.len(),
    ensures
        parts@[0].ptr == alloc.ptr,
        parts@.last().ptr + parts@.last().bytes == alloc.ptr + alloc.size,
        parts@[i].bytes > 0,
        i + 1 < parts@.len() ==> parts@[i + 1].ptr == parts@[i].ptr + parts@[i].bytes,
        i + 1 < parts@.len() ==> parts@[i + 1].buf_id == parts@[i].buf_id + 1,
        pool.start_ptr + parts@[i].buf_id * 1048576 <= parts@[i].ptr,
        parts@[i].ptr + parts@[i].bytes <= pool.start_ptr + (parts@[i].buf_id + 1) * 1048576,
{
    lemma_covers(parts@, alloc.ptr as int, alloc.size as int);
    assert(pool::in_buffer(parts@[i], pool.start_ptr as int));
    assert(parts@[i].buf_id == (alloc.ptr - pool.start_ptr) / 1048576 + i);
    if i + 1 < parts@.len() {
        assert(parts@[i + 1].buf_id == (alloc.ptr - pool.start_ptr) / 1048576 + (i + 1));
    }
}

proof fn lemma_covers(parts: Seq<FixedBuffer>, ptr: int, size: int)
    requires
        pool::covers(parts, ptr, size),
    ensures
        parts.len() > 0 ==> parts[0].ptr == ptr && parts.last().ptr + parts.last().bytes == ptr + size,
        forall|i: int| 0 <= i < parts.len() ==> (#[trigger] parts[i]).bytes > 0,
        forall|i: int| 0 <= i && i + 1 < parts.len() ==> #[trigger] parts[i + 1].ptr == parts[i].ptr + parts[i].bytes,
    decreases parts.len(),
{
    reveal_with_fuel(pool::covers, 2);
    if parts.len() > 0 {
        let fewer = parts.drop_last();
        lemma_covers(fewer, ptr, size - parts.last().bytes);
        assert forall|i: int| 0 <= i < parts.len() implies (#[trigger] parts[i]).bytes > 0 by {
            if i < fewer.len() {
                assert(parts[i] == fewer[i]);
            }
        }
        assert forall|i: int| 0 <= i && i + 1 < parts.len() implies #[trigger] parts[i + 1].ptr == parts[i].ptr
            + parts[i].bytes by {
            assert(parts[i] == fewer[i]);
            if i + 1 < fewer.len() {
                assert(parts[i + 1] == fewer[i + 1]);
            } else {
                assert(fewer.last() == fewer[i]);
            }
        }
        if fewer.len() > 0 {
            assert(parts[0] == fewer[0]);
        } else {
            assert(parts[0] == parts.last());
        }
    }
}

/// The buffers to register lie side by side, from the first segment on, inside the memory of the pool.
pub proof fn law_registered_buffers_are_side_by_side(pool: &FixedBufferPool, buffers: Vec<Slice>, i: int)
    requires
        pool.wf(),
        call_ensures(FixedBufferPool::buffers_to_register, (pool,), buffers),
        0 <= i < buffers@.len(),
    ensures
        buffers@[0].ptr == pool.start_ptr,
        buffers@[i].size == 1048576,
        buffers@[i].ptr + 1048576 <= pool.arena.actual_start_ptr + pool.arena.size,
        i + 1 < buffers@.len() ==> buffers@[i + 1].ptr == buffers@[i].ptr + buffers@[i].size,
        pool.arena.actual_start_ptr + pool.arena.size < pool.start_ptr + (buffers@.len() + 1) * 1048576,
{
    let a = pool.arena;
    let n = buffers@.len() as int;
    assert(buffers@[0] == Slice { ptr: (pool.start_ptr + 0 * 1048576) as usize, size: 1048576 });
    assert(i * 1048576 + 1048576 <= n * 1048576);
    assert(pool.start_ptr + n * 1048576 <= a.actual_start_ptr + a.size);
}

/// A read buffer has the length that was asked for. It is a block of the pool where the pool has room, and
/// of the heap only where there is no pool or the pool has none.
pub proof fn law_read_buffers_prefer_the_pool(
    pool: &mut Option<FixedBufferPool>,
    cpu: usize,
    len: u32,
    buf: Result<ReadBuf, Error>,
    s: int,
)
    requires
        call_ensures(try_read_buf, (pool, cpu, len), buf),
        *old(pool) is Some ==> (*old(pool))->0.wf(),
    ensures
        match buf {
            Ok(buf) => {
                &&& buf@.len() == len
                &&& buf matches ReadBuf::Fixed(fixed) ==> {
                    &&& *old(pool) is Some
                    &&& fixed.alloc.size == len
                    &&& exists|id: PageId, block: int| #[trigger]
                        has_room((*final(pool))->0, fixed.alloc.ptr, len as int, id, block) && !tcache::live_block(
                            (*old(pool))->0.arena,
                            id,
                            block,
                        )
                }
            },
            Err(err) => len + 4095 > isize::MAX && err == Error::InvalidArgument(ArgumentFault::BufferLayout),
        },
        *old(pool) is Some && !(buf matches Ok(ReadBuf::Fixed(_))) && 0 <= s < (*old(pool))->0.arena.used_bitmap@.len()
            ==> (*old(pool))->0.arena.used_bitmap@[s] == 1 || len > 509 * 65536,
{
    if let Ok(ReadBuf::Fixed(fixed)) = buf {
        let before = (*old(pool))->0;
        let after = (*final(pool))->0;
        let ptr = fixed.alloc.ptr;
        let t = cpu % before.local_caches.len();
        let (id, block) = choose|id: PageId, block: int| #[trigger]
            tcache::served(before.arena, after.arena, t, len as int, id, block, ptr);
        tcache::law_rounded_up(len as int);
        after.law_live_inside(id, block);
        assert(has_room(after, ptr, len as int, id, block));
    }
}

/// Blocks leave a free list in the order in which they came.
pub proof fn law_free_list_is_first_in_first_out(
    list: &mut LocalFreeList,
    block: u8,
    popped: &mut LocalFreeList,
    first: Option<u8>,
)
    requires
        old(list).wf(),
        old(list)@.len() < old(list).num_blocks,
        call_ensures(LocalFreeList::push, (list, block), ()),
        *old(popped) == *final(list),
        call_ensures(LocalFreeList::pop, (popped,), first),
    ensures
        first == Some(if old(list)@.len() == 0 {
            block
        } else {
            old(list)@[0]
        }),
        final(popped)@ == (if old(list)@.len() == 0 {
            Seq::<u8>::empty()
        } else {
            old(list)@.skip(1).push(block)
        }),
{
    let all = old(list)@.push(block);
    if old(list)@.len() == 0 {
        assert(all.skip(1) =~= Seq::<u8>::empty());
    } else {
        assert(all.skip(1) =~= old(list)@.skip(1).push(block));
    }
}

/// Blocks leave a queue of foreign frees in the order in which their slots were taken.
pub proof fn law_queue_is_first_in_first_out(
    queue: &mut MPSCQueue,
    block: u8,
    popped: &mut MPSCQueue,
    first: Option<u8>,
)
    requires
        call_ensures(MPSCQueue::push, (queue, block), ()),
        *old(popped) == *final(queue),
        call_ensures(MPSCQueue::pop, (popped,), first),
    ensures
        first == Some(if old(queue)@.len() == 0 {
            block
        } else {
            old(queue)@[0]
        }),
        final(popped)@.len() == old(queue)@.len(),
{
}

/// A block of a page that was handed out and handed back, on the same processor, can be handed out again,
/// after those that were free before.
pub proof fn law_page_takes_its_block_back(
    page: &mut Page,
    ptr: usize,
    later: &mut Page,
)
    requires
        old(page).blocks_wf(),
        call_ensures(Page::get_free_block, (page,), Some(ptr)),
        *old(later) == *final(page),
        call_ensures(Page::free, (later, ptr), ()),
    ensures
        final(page).used == old(page).used + 1,
        final(later).used == old(page).used,
        final(later).free_list@ == old(page).free_list@.skip(1).push(old(page).free_list@[0]),
{
    let block = old(page).free_list@[0] as int;
    let size = old(page).block_size as int;
    assert(old(page).returned()[0] == old(page).free_list@[0]);
    let behind = ptr - old(page).page_start;
    assert(behind / size == block) by (nonlinear_arith)
        requires
            behind == block * size,
            size > 0,
    ;
}

/// A slice that was cut in two can be joined again.
pub proof fn law_join_undoes_split(
    segment: &mut Segment,
    index: usize,
    n: usize,
    second: usize,
    joined: &mut Segment,
)
    requires
        old(segment).tiled(),
        old(segment).is_head(index as int),
        0 < n < old(segment).count(index as int),
        call_ensures(Segment::split_page, (segment, index, n), second),
        *old(joined) == *final(segment),
        call_ensures(Segment::coalesce_slices, (joined, index, second), ()),
    ensures
        second == index + n,
        final(segment).count(index as int) == n,
        final(segment).count(second as int) == old(segment).count(index as int) - n,
        final(joined).count(index as int) == old(segment).count(index as int),
        final(joined).heads@ == old(segment).heads@,
{
    assert(old(segment).head_ok(index as int));
    assert(!old(segment).is_head(second as int));
    assert(final(joined).heads@ =~= old(segment).heads@);
}

/// The segment of an address is the one range of 32 MiB, at a multiple of that, that holds it.
pub proof fn law_segment_holds_its_addresses(ptr: usize, base: usize)
    requires
        call_ensures(Segment::get_segment_from_ptr, (ptr,), base),
    ensures
        base % 33554432 == 0,
        base <= ptr < base + 33554432,
{
}

/// The page of an address is the one that holds it.
pub proof fn law_page_holds_its_addresses(segment: &Segment, ptr: usize, page: usize)
    requires
        segment.pages@[0].page_start <= ptr,
        call_ensures(Segment::get_page_from_ptr, (segment, ptr), page),
    ensures
        segment.pages@[0].page_start + page * 65536 <= ptr < segment.pages@[0].page_start + (page + 1) * 65536,
{
}

/// A size up to a page has the smallest class that holds it, and each class has blocks of twice the size
/// of the one before.
pub proof fn law_size_classes_double(
    size: usize,
    class: usize,
    class_bytes: usize,
    next: usize,
)
    requires
        size <= 65536,
        call_ensures(TCache::get_size_class, (size,), class),
        call_ensures(TCache::size_of_class, (class,), class_bytes),
        class < 4 ==> call_ensures(TCache::size_of_class, ((class + 1) as usize,), next),
    ensures
        class <= 4,
        size <= class_bytes <= 65536,
        class == 0 <==> class_bytes == 4096,
        class > 0 ==> class_bytes < 2 * size,
        class < 4 ==> next == 2 * class_bytes,
{
    tcache::lemma_size_class_small(size as int);
}

/// A slice twice as large is one span further, and a larger slice is never in an earlier span.
pub proof fn law_spans_double(count: usize, more: usize, idx: usize, double: usize, later: usize)
    requires
        0 < count <= more,
        2 * count <= usize::MAX,
        call_ensures(TCache::get_span_idx_from_slice_count, (count,), idx),
        call_ensures(TCache::get_span_idx_from_slice_count, ((2 * count) as usize,), double),
        call_ensures(TCache::get_span_idx_from_slice_count, (more,), later),
    ensures
        count == 1 ==> idx == 0,
        double == idx + 1,
        idx <= later,
{
    tcache::lemma_floor_log2_monotone(count as nat, more as nat);
    assert((2 * count) as nat / 2 == count as nat);
}

/// A clean-up takes no block out of anybody's hands, and leaves no page that has none out.
pub proof fn law_cleanup_keeps_what_is_in_use(
    cache: &mut TCache,
    arena: &mut Arena,
    x: PageId,
    k: int,
)
    requires
        old(cache).inv(*old(arena)),
        call_ensures(TCache::cleanup_pages, (cache, arena), ()),
    ensures
        tcache::live_block(*final(arena), x, k) == tcache::live_block(*old(arena), x, k),
        tcache::used_head(*final(arena), old(cache).thread_id, x) ==> {
            let page = tcache::page_at(*final(arena), x);
            page.used > 0 && page.thread_free_list@.len() == 0
        },
{
}

/// A block comes from the current page of its class as long as that has free blocks, and the one that was
/// free for the longest time goes first. Every 128th allocation cleans up first, so that is left out.
pub proof fn law_current_page_goes_first(
    pool: &mut FixedBufferPool,
    cpu: usize,
    size: usize,
    ptr: Option<usize>,
    class: usize,
    id: PageId,
)
    requires
        old(pool).wf(),
        size <= 65536,
        call_ensures(FixedBufferPool::malloc, (pool, cpu, size), ptr),
        call_ensures(TCache::get_size_class, (size,), class),
        ({
            let cache = old(pool).local_caches@[(cpu % old(pool).local_caches.len()) as int];
            &&& cache.free_pages@[class as int] == Some(id)
            &&& cache.stats.total_allocations.wrapping_add(1) & 0x7f != 0
        }),
        tcache::page_at(old(pool).arena, id).free_list@.len() > 0,
    ensures
        ({
            let page = tcache::page_at(old(pool).arena, id);
            ptr matches Some(ptr) ==> ptr == page.block_address(page.free_list@[0] as int)
        }),
{
    if let Some(ptr) = ptr {
        let t = cpu % old(pool).local_caches.len();
        let a = old(pool).arena;
        let b = final(pool).arena;
        let c = old(pool).local_caches@[t as int];
        let d = final(pool).local_caches@[t as int];
        let page = tcache::page_at(a, id);
        assert(c.thread_id == t);
        assert(tcache::some_picked(c, d, a, b, size as int, ptr));
        let (x, block) = choose|x: PageId, block: int| #[trigger]
            tcache::served(a, b, t, size as int, x, block, ptr) && tcache::picked(c, a, d, b, size as int, x, block);
        assert(!tcache::exhausted(page)) by {
            assert(page.returned().len() == page.free_list@.len() + page.thread_free_list@.len());
        }
        assert(page.returned()[0] == page.free_list@[0]);
        assert(x == id);
        assert(tcache::gave_block(page, tcache::page_at(b, id), false));
    }
}

/// Every allocation is counted, and so is every one that fails.
pub proof fn law_allocations_are_counted(
    cache: &mut TCache,
    arena: &mut Arena,
    size: usize,
    ptr: Option<usize>,
    before: TCacheStats,
    after: TCacheStats,
)
    requires
        call_ensures(TCache::get_stats, (&*old(cache),), before),
        call_ensures(TCache::allocate, (cache, arena, size), ptr),
        call_ensures(TCache::get_stats, (final(cache),), after),
        before.total_allocations < usize::MAX,
        before.unsuccessful_allocations < usize::MAX,
    ensures
        after.total_allocations == before.total_allocations + 1,
        after.unsuccessful_allocations == before.unsuccessful_allocations + (if ptr is None {
            1int
        } else {
            0
        }),
{
}

/// The counters of all processors are those of each, added up.
pub proof fn law_stats_add_up(
    pool: &FixedBufferPool,
    n: usize,
    some: TCacheStats,
    one: TCacheStats,
    more: TCacheStats,
    none: TCacheStats,
)
    requires
        n < usize::MAX,
        call_ensures(FixedBufferPool::aggregated_stats, (pool, 0usize), none),
        call_ensures(FixedBufferPool::aggregated_stats, (pool, n), some),
        call_ensures(FixedBufferPool::get_stats, (pool, n), one),
        call_ensures(FixedBufferPool::aggregated_stats, (pool, (n + 1) as usize), more),
    ensures
        none.total_allocations == 0 && none.segments_retired == 0 && none.pages_retired == 0,
        more.total_allocations == some.total_allocations.wrapping_add(one.total_allocations),
        more.unsuccessful_allocations == some.unsuccessful_allocations.wrapping_add(one.unsuccessful_allocations),
        more.total_segments_allocated == some.total_segments_allocated.wrapping_add(one.total_segments_allocated),
        more.fast_allocations == some.fast_allocations.wrapping_add(one.fast_allocations),
        more.allocations_from_pages == some.allocations_from_pages.wrapping_add(one.allocations_from_pages),
        more.allocations_from_segment == some.allocations_from_segment.wrapping_add(one.allocations_from_segment),
        more.allocations_from_arena == some.allocations_from_arena.wrapping_add(one.allocations_from_arena),
        more.pages_retired == some.pages_retired.wrapping_add(one.pages_retired),
        more.segments_retired == some.segments_retired.wrapping_add(one.segments_retired),
{
}

/// The arena hands out the first segment that is not handed out, and fails only where all are.
pub proof fn law_first_unused_segment_is_handed_out(
    arena: &mut Arena,
    segment: Option<usize>,
    s: int,
)
    requires
        old(arena).wf(),
        call_ensures(Arena::allocate_segment, (arena, 33554432usize), segment),
        0 <= s < old(arena).used_bitmap@.len(),
    ensures
        segment is None ==> old(arena).used_bitmap@[s] != 0,
        segment matches Some(at) ==> old(arena).used_bitmap@[at as int] == 0,
        segment matches Some(at) ==> (s < at ==> old(arena).used_bitmap@[s] != 0),
        segment matches Some(at) ==> final(arena).used_bitmap@[s] == (if s == at {
            1
        } else {
            old(arena).used_bitmap@[s]
        }),
{
    let bits = old(arena).used_bitmap@;
    assert(arena::segments_for(33554432) == 1);
    let after = final(arena).used_bitmap@;
    if bits[s] == 0 {
        assert(arena::zero_run(bits, s, 1));
    }
    match segment {
        None => {
            assert(arena::no_zero_run(bits, 1));
        },
        Some(at) => {
            assert(arena::zero_run(bits, at as int, 1));
            assert(bits[at as int] == 0);
            assert(forall|k: int| #[trigger] arena::zero_run(bits, k, 1) ==> at <= k);
            assert(after[s] == if s == at {
                1
            } else {
                bits[s]
            });
        },
    }
}

/// A segment that is retired can be handed out again, and no other changes.
pub proof fn law_retired_segment_is_unused(arena: &mut Arena, base: usize, at: int, s: int)
    requires
        old(arena).wf(),
        0 <= at < old(arena).used_bitmap@.len(),
        base == old(arena).base(at),
        call_ensures(Arena::retire_segment, (arena, base), ()),
        0 <= s < old(arena).used_bitmap@.len(),
    ensures
        final(arena).used_bitmap@[s] == (if s == at {
            0
        } else {
            old(arena).used_bitmap@[s]
        }),
{
    assert(final(arena).used_bitmap@ == old(arena).used_bitmap@.update(at, 0u8));
}

/// A processor uses always the same cache, and there is such a cache.
pub proof fn law_processor_has_its_cache(pool: &FixedBufferPool, cpu: usize, idx: usize)
    requires
        pool.local_caches@.len() > 0,
        call_ensures(FixedBufferPool::get_thread_local_cache, (pool, cpu), idx),
    ensures
        idx < pool.local_caches@.len(),
        cpu < pool.local_caches@.len() ==> idx == cpu,
{
    if cpu < pool.local_caches@.len() {
        vstd::arithmetic::div_mod::lemma_small_mod(cpu as nat, pool.local_caches@.len());
    }
}

/// A pool counts as registered from the first time on that a ring took its buffers.
pub proof fn law_registration_is_remembered(
    pool: &mut FixedBufferPool,
    first: bool,
    later: &mut FixedBufferPool,
    second: bool,
    registered: bool,
)
    requires
        call_ensures(FixedBufferPool::registration_done, (pool, first), ()),
        *old(later) == *final(pool),
        call_ensures(FixedBufferPool::registration_done, (later, second), ()),
        call_ensures(FixedBufferPool::buffers_registered, (final(later),), registered),
    ensures
        registered <==> old(pool).registered || first || second,
{
}

/// A page that is cut into blocks has as many as fit, all of them free, in order.
pub proof fn law_page_is_cut_into_blocks(page: &mut Page, block_size: usize, full: bool)
    requires
        block_size > 0,
        call_ensures(Page::set_block_size, (page, block_size), ()),
        call_ensures(Page::is_full, (final(page),), full),
    ensures
        ({
            let n = final(page).free_list@.len();
            &&& n * block_size <= old(page).slice_count * 65536 < (n + 1) * block_size
            &&& forall|i: int| 0 <= i < n ==> #[trigger] final(page).free_list@[i] == i as u8
            &&& full <==> n == 0
        }),
{
    let n = final(page).free_list@.len() as int;
    let bytes = old(page).slice_count * 65536;
    let size = block_size as int;
    vstd::arithmetic::div_mod::lemma_fundamental_div_mod(bytes, size);
    vstd::arithmetic::div_mod::lemma_div_pos_is_pos(bytes, size);
    assert(n == bytes / size);
    assert(n * size <= bytes < (n + 1) * size) by (nonlinear_arith)
        requires
            bytes == size * n + bytes % size,
            0 <= bytes % size < size,
    ;
}

/// A block that another processor hands back is out of use at once, and can be handed out again after it
/// was collected, behind the blocks that were free already.
pub proof fn law_foreign_frees_are_collected(page: &mut Page, ptr: usize, later: &mut Page)
    requires
        call_ensures(Page::foreign_free, (page, ptr), ()),
        *old(later) == *final(page),
        call_ensures(Page::collect_foreign_frees, (later,), ()),
    ensures
        final(page).free_list@ == old(page).free_list@,
        final(later).free_list@ == (old(page).free_list@ + old(page).thread_free_list@).push(
            old(page).block_of(ptr as int) as u8,
        ),
        final(later).thread_free_list@.len() == 0,
        final(later).used == old(page).used - old(page).thread_free_list@.len() - 1,
{
    let block = old(page).block_of(ptr as int) as u8;
    assert(old(page).free_list@ + old(page).thread_free_list@.push(block) =~= (old(page).free_list@
        + old(page).thread_free_list@).push(block));
}

/// A segment that is reset is made of slices of one page each.
pub proof fn law_reset_segment_is_valid(segment: &mut Segment, valid: bool, p: int)
    requires
        old(segment).pages@.len() == 509,
        call_ensures(Segment::reset, (segment,), ()),
        call_ensures(Segment::check_valid_segment, (final(segment),), valid),
        0 <= p < 509,
    ensures
        valid,
        final(segment).pages@[p].slice_count == 1,
        final(segment).pages@[p].slice_offset == 0,
        final(segment).pages@[p].page_start == old(segment).pages@[p].page_start,
{
}

/// A segment is full when all its pages are in use.
pub proof fn law_full_segments(segment: &Segment, full: bool)
    requires
        call_ensures(Segment::full, (segment,), full),
    ensures
        full <==> segment.allocated == segment.num_slices,
{
}

/// A range is cut in two halves, one behind the other.
pub proof fn law_halves_are_side_by_side(slice: Slice, halves: (Slice, Slice))
    requires
        call_ensures(Slice::split, (slice,), halves),
        slice.ptr + slice.size <= usize::MAX,
    ensures
        halves.0.ptr == slice.ptr,
        halves.1.ptr == halves.0.ptr + halves.0.size,
        halves.0.size == halves.1.size,
        slice.size - 1 <= halves.0.size + halves.1.size <= slice.size,
{
}

/// Slots of a queue of foreign frees keep the order in which they were taken, whenever they are filled.
pub proof fn law_slots_keep_their_order(
    queue: &mut MPSCQueue,
    ticket: u8,
    second: &mut MPSCQueue,
    other: u8,
    third: &mut MPSCQueue,
    late: u8,
    fourth: &mut MPSCQueue,
    early: u8,
)
    requires
        old(queue).wf(),
        old(queue)@.len() == 0,
        call_ensures(MPSCQueue::reserve, (queue,), ticket),
        *old(second) == *final(queue),
        call_ensures(MPSCQueue::reserve, (second,), other),
        *old(third) == *final(second),
        call_ensures(MPSCQueue::publish, (third, other, late), ()),
        *old(fourth) == *final(third),
        call_ensures(MPSCQueue::publish, (fourth, ticket, early), ()),
        old(fourth).place_of(ticket) == 0,
    ensures
        final(fourth)@.len() == 2,
        final(fourth)@[0] == early,
        old(third).place_of(other) == 1 ==> final(fourth)@[1] == late,
{
}

/// When its owner hands the last block of a page back, the page is free for blocks of any size, and where
/// it was the last page of its segment, so is the segment, for any processor.
pub proof fn law_last_block_frees_the_page(
    pool: &mut FixedBufferPool,
    cpu: usize,
    ptr: usize,
    id: PageId,
    block: int,
)
    requires
        old(pool).wf(),
        tcache::live_block(old(pool).arena, id, block),
        ptr == tcache::page_at(old(pool).arena, id).block_address(block),
        cpu == old(pool).arena.segments@[id.segment as int].thread_id,
        tcache::page_at(old(pool).arena, id).used == 1,
        call_ensures(FixedBufferPool::free, (pool, cpu, ptr), ()),
    ensures
        !tcache::used_head(final(pool).arena, cpu, id),
        old(pool).arena.segments@[id.segment as int].allocated == tcache::page_at(old(pool).arena, id).slice_count
            ==> final(pool).arena.used_bitmap@[id.segment as int] == 0,
{
    let a = old(pool).arena;
    let c = old(pool).local_caches@[cpu as int];
    let d = final(pool).local_caches@[cpu as int];
    old(pool).lemma_live_owner(id, block);
    assert(pool::names(a, ptr, id, block));
    assert(pool::handed_back(*old(pool), *final(pool), cpu, id, block));
    let mid = choose|mid: Arena| #[trigger]
        pool::put_back(a, mid, id, block, cpu) && tcache::page_retired(c, d, mid, final(pool).arena, id);
    assert(tcache::page_retired(c, d, mid, final(pool).arena, id));
    assert(mid.used_bitmap == a.used_bitmap);
    let s = id.segment as int;
    assert(mid.segments@[s] == (Segment { pages: mid.segments@[s].pages, ..a.segments@[s] }));
    assert(mid.segments@[s].pages@[id.page as int] == tcache::page_at(mid, id));
}

/// Where the current page of a class has no block left, the first page in the queue of the class that has
/// one gives its first. Every 128th allocation cleans up first, so that is left out.
pub proof fn law_queue_goes_next(
    pool: &mut FixedBufferPool,
    cpu: usize,
    size: usize,
    ptr: usize,
    class: usize,
    m: int,
)
    requires
        old(pool).wf(),
        size <= 65536,
        call_ensures(FixedBufferPool::malloc, (pool, cpu, size), Some(ptr)),
        call_ensures(TCache::get_size_class, (size,), class),
        ({
            let cache = old(pool).local_caches@[(cpu % old(pool).local_caches.len()) as int];
            let queue = cache.used_pages@[class as int]@;
            let a = old(pool).arena;
            &&& cache.stats.total_allocations.wrapping_add(1) & 0x7f != 0
            &&& cache.free_pages@[class as int] matches Some(current) ==> tcache::page_at(a, current).returned().len() == 0
            &&& 0 <= m < queue.len()
            &&& tcache::page_at(a, queue[m]).returned().len() > 0
            &&& forall|i: int| 0 <= i < m ==> tcache::page_at(a, #[trigger] queue[i]).returned().len() == 0
        }),
    ensures
        ({
            let cache = old(pool).local_caches@[(cpu % old(pool).local_caches.len()) as int];
            let page = tcache::page_at(old(pool).arena, cache.used_pages@[class as int]@[m]);
            ptr == page.block_address(page.returned()[0] as int)
        }),
{
    let t = cpu % old(pool).local_caches.len();
    let a = old(pool).arena;
    let b = final(pool).arena;
    let c = old(pool).local_caches@[t as int];
    let d = final(pool).local_caches@[t as int];
    let k = class as int;
    let q = c.used_pages@[k]@;
    assert(c.thread_id == t);
    assert(tcache::some_picked(c, d, a, b, size as int, ptr));
    let (x, block) = choose|x: PageId, block: int| #[trigger]
        tcache::served(a, b, t, size as int, x, block, ptr) && tcache::picked(c, a, d, b, size as int, x, block);
    let counted = TCache {
        stats: TCacheStats { total_allocations: c.stats.total_allocations.wrapping_add(1), ..c.stats },
        ..c
    };
    assert(tcache::small_choice(counted, a, k, d, b, x, block));
    assert(tcache::first_open(a, q, m));
    let n = choose|n: int| #[trigger]
        tcache::first_open(a, q, n) && x == q[n] && tcache::queue_set(
            counted,
            d,
            k,
            tcache::parked(counted, k).remove(n),
        );
    assert(n == m) by {
        if n < m {
            assert(tcache::page_at(a, q[n]).returned().len() == 0);
        }
        if m < n {
            assert(tcache::exhausted(tcache::page_at(a, q[m])));
        }
    }
    assert(tcache::gave_block(tcache::page_at(a, x), tcache::page_at(b, x), true));
}

/// A block of whole pages comes from the first free slice that is large enough, from its start on, as
/// long as there is one. Every 128th allocation cleans up first, so that is left out.
pub proof fn law_first_slice_that_fits_is_cut(
    pool: &mut FixedBufferPool,
    cpu: usize,
    size: usize,
    ptr: usize,
    y: PageId,
)
    requires
        old(pool).wf(),
        size > 65536,
        call_ensures(FixedBufferPool::malloc, (pool, cpu, size), Some(ptr)),
        ({
            let t = cpu % old(pool).local_caches.len();
            let cache = old(pool).local_caches@[t as int];
            &&& cache.stats.total_allocations.wrapping_add(1) & 0x7f != 0
            &&& tcache::free_head(old(pool).arena, t, y)
            &&& tcache::page_at(old(pool).arena, y).slice_count * 65536 >= size
        }),
    ensures
        ({
            let cache = old(pool).local_caches@[(cpu % old(pool).local_caches.len()) as int];
            let a = old(pool).arena;
            exists|b: int, k: int|
                {
                    &&& 0 <= b < cache.lists@.len()
                    &&& 0 <= k < cache.lists@[b].len()
                    &&& tcache::page_at(a, #[trigger] cache.lists@[b][k]).slice_count * 65536 >= size
                    &&& ptr == tcache::page_at(final(pool).arena, cache.lists@[b][k]).page_start
                    &&& forall|i: int, j: int|
                        0 <= i <= b && 0 <= j < cache.lists@[i].len() && (i < b || j < k) ==> tcache::page_at(
                            a,
                            #[trigger] cache.lists@[i][j],
                        ).slice_count * 65536 < size
                }
        }),
{
    let t = cpu % old(pool).local_caches.len();
    let a = old(pool).arena;
    let b = final(pool).arena;
    let c = old(pool).local_caches@[t as int];
    let d = final(pool).local_caches@[t as int];
    let n = tcache::pages_for(size as int);
    assert(65536 * (n - 1) < size <= 65536 * n);
    assert(c.thread_id == t);
    assert(tcache::some_picked(c, d, a, b, size as int, ptr));
    let (x, block) = choose|x: PageId, block: int| #[trigger]
        tcache::served(a, b, t, size as int, x, block, ptr) && tcache::picked(c, a, d, b, size as int, x, block);
    let counted = TCache {
        stats: TCacheStats { total_allocations: c.stats.total_allocations.wrapping_add(1), ..c.stats },
        ..c
    };
    assert(tcache::large_choice(counted, a, n, d, b, x) && block == 0);
    assert(tcache::has_slice(a, t, n)) by {
        assert(tcache::free_head(a, t, y) && tcache::page_at(a, y).slice_count >= n);
    }
    assert(tcache::first_fit(counted, a, n, x));
    let (i, k) = choose|i: int, k: int|
        {
            &&& 0 <= i < tcache::SEGMENT_BINS
            &&& 0 <= k < counted.lists@[i].len()
            &&& #[trigger] counted.lists@[i][k] == x
            &&& tcache::page_at(a, x).slice_count >= n
            &&& tcache::misses(counted, a, n, i, k)
        };
    assert(c.lists@[i][k] == x);
    assert(tcache::page_at(b, x).block_address(0) == tcache::page_at(b, x).page_start);
}

/// A page that is retired is no longer cut into blocks; no block and no other page that is cut changes.
pub proof fn law_retired_page_is_free(
    cache: &mut TCache,
    arena: &mut Arena,
    id: PageId,
    x: PageId,
    k: int,
)
    requires
        call_ensures(TCache::retire_page, (cache, arena, id), ()),
    ensures
        !tcache::used_head(*final(arena), old(cache).thread_id, id),
        tcache::live_block(*final(arena), x, k) == tcache::live_block(*old(arena), x, k),
        x != id && tcache::used_head(*old(arena), old(cache).thread_id, x) ==> tcache::used_head(
            *final(arena),
            old(cache).thread_id,
            x,
        ) && tcache::page_at(*final(arena), x) == tcache::page_at(*old(arena), x),
{
}

/// The memory is cut into segments at multiples of their size, all of them unused, none of them outside.
pub proof fn law_new_arena_is_unused(start: usize, capacity: usize, arena: Arena, ptr: usize, i: int)
    requires
        call_ensures(Arena::new, (start, capacity), arena),
        call_ensures(Arena::start_ptr, (&arena,), ptr),
        0 <= i < arena.used_bitmap@.len(),
    ensures
        arena.used_bitmap@[i] == 0,
        arena.slices@[i].ptr % 33554432 == 0,
        arena.slices@[0].ptr == ptr,
        start <= arena.slices@[i].ptr,
        arena.slices@[i].ptr + 33554432 <= start + capacity,
        i + 1 < arena.slices@.len() ==> arena.slices@[i + 1].ptr == arena.slices@[i].ptr + 33554432,
{
    arena.lemma_base_bounds(i);
    arena.lemma_base_bounds(0);
    if i + 1 < arena.slices@.len() {
        arena.lemma_base_bounds(i + 1);
    }
}

/// A new list has all blocks, the first one first; an empty one has none.
pub proof fn law_new_list_has_all_blocks(
    n: usize,
    list: LocalFreeList,
    empty: bool,
    none: LocalFreeList,
    none_empty: bool,
    i: int,
)
    requires
        call_ensures(LocalFreeList::new, (n,), list),
        call_ensures(LocalFreeList::is_empty, (&list,), empty),
        call_ensures(LocalFreeList::empty, (), none),
        call_ensures(LocalFreeList::is_empty, (&none,), none_empty),
    ensures
        list@.len() == n,
        0 <= i < n ==> list@[i] == i as u8,
        empty <==> n == 0,
        none_empty,
{
}

/// A page is unused if and only if none of its blocks is out.
pub proof fn law_unused_page_has_no_block_out(page: &Page, unused: bool, b: int)
    requires
        page.blocks_wf(),
        call_ensures(Page::is_unused, (page,), unused),
    ensures
        unused <==> page.used == 0,
        unused ==> !page.is_live(b),
{
    if unused {
        page.lemma_unused_has_no_live();
    }
}

} // verus!
