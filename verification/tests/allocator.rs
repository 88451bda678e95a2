use t4::memory::arena::Arena;
use t4::memory::page::{LocalFreeList, MPSCQueue, Page, PageId, Slice, HAZARD, PAGE_SIZE};
use t4::memory::pool::{FixedBuffer, FixedBufferAllocation, FixedBufferPool};
use t4::memory::segment::{Segment, FIRST_PAGE_OFFSET, PAGES_PER_SEGMENT, SEGMENT_SIZE};
use t4::memory::tcache::{TCache, TCacheStats, NUM_SIZE_CLASSES};

const START: usize = 1 << 30;

#[test]
fn slices_split_in_halves() {
    let (a, b) = Slice { ptr: 1000, size: 11 }.split();
    assert_eq!(a, Slice { ptr: 1000, size: 5 });
    assert_eq!(b, Slice { ptr: 1005, size: 5 });
}

#[test]
fn local_free_list_is_first_in_first_out() {
    let mut list = LocalFreeList::new(4);
    assert_eq!(list.pop(), Some(0));
    assert_eq!(list.pop(), Some(1));
    list.push(0);
    assert_eq!(list.pop(), Some(2));
    assert_eq!(list.pop(), Some(3));
    assert_eq!(list.pop(), Some(0));
    assert!(list.is_empty());
    assert_eq!(list.pop(), None);
    assert!(LocalFreeList::empty().is_empty());
}

#[test]
fn reserved_slots_keep_their_order_whenever_they_are_published() {
    let mut queue = MPSCQueue::new(16);
    let first = queue.reserve();
    let second = queue.reserve();
    queue.publish(second, 5);
    queue.publish(first, 3);
    assert_eq!(queue.pop(), Some(3));
    assert_eq!(queue.pop(), Some(5));
    assert_eq!(queue.pop(), None);
    queue.push(7);
    assert_eq!(queue.pop(), Some(7));
    assert_eq!(HAZARD, 255);
}

#[test]
fn pages_hand_out_their_blocks_in_order() {
    let mut page = Page::from_slice(Slice { ptr: START, size: PAGE_SIZE });
    page.set_block_size(16384);
    let blocks: Vec<usize> = (0..4).map(|_| page.get_free_block().unwrap()).collect();
    assert_eq!(blocks, vec![START, START + 16384, START + 32768, START + 49152]);
    assert!(page.is_full());
    assert_eq!(page.get_free_block(), None);
    page.free(blocks[2]);
    page.foreign_free(blocks[1]);
    assert_eq!(page.get_free_block(), Some(blocks[2]));
    assert_eq!(page.get_free_block(), None);
    page.collect_foreign_frees();
    assert_eq!(page.get_free_block(), Some(blocks[1]));
    for block in blocks {
        assert!(!page.is_unused());
        page.free(block);
    }
    assert!(page.is_unused());
}

#[test]
fn segments_split_and_join() {
    let mut segment = Segment::new_from_slice(Slice { ptr: START, size: SEGMENT_SIZE });
    assert_eq!(segment.pages.len(), PAGES_PER_SEGMENT);
    assert_eq!(segment.pages[0].page_start, START + FIRST_PAGE_OFFSET);
    assert_eq!(segment.pages[PAGES_PER_SEGMENT - 1].page_start + PAGE_SIZE, START + SEGMENT_SIZE);
    assert!(segment.check_valid_segment());
    assert!(!segment.full());
    segment.coalesce_slices(0, 1);
    segment.coalesce_slices(0, 2);
    assert_eq!(segment.pages[0].slice_count, 3);
    assert_eq!(segment.pages[2].slice_offset, 2);
    assert_eq!((segment.pages[1].slice_count, segment.pages[1].slice_offset), (1, 1));
    assert!(segment.check_valid_segment());
    assert_eq!(segment.split_page(0, 1), 1);
    assert_eq!(segment.pages[1].slice_count, 2);
    assert_eq!(segment.pages[2].slice_offset, 1);
    assert!(segment.check_valid_segment());
    segment.pages[1].slice_count = 3;
    assert!(!segment.check_valid_segment());
    segment.reset();
    assert!(segment.check_valid_segment());
    assert_eq!(Segment::get_segment_from_ptr(START + 12345), START);
    assert_eq!(segment.get_page_from_ptr(START + FIRST_PAGE_OFFSET + 3 * PAGE_SIZE + 17), 3);
}

#[test]
fn arenas_hand_out_the_first_unused_segments() {
    let mut arena = Arena::new(START + 4096, 5 * SEGMENT_SIZE);
    assert_eq!(arena.start_ptr(), START + SEGMENT_SIZE);
    assert_eq!(arena.slices.len(), 4);
    assert_eq!(arena.allocate_segment(SEGMENT_SIZE), Some(0));
    assert_eq!(arena.allocate_segment(1), Some(1));
    assert_eq!(arena.allocate_segment(SEGMENT_SIZE), Some(2));
    arena.retire_segment(START + 2 * SEGMENT_SIZE);
    assert_eq!(arena.allocate_segment(SEGMENT_SIZE + 1), None);
    assert_eq!(arena.allocate_segment(SEGMENT_SIZE), Some(1));
    assert_eq!(arena.allocate_segment(SEGMENT_SIZE), Some(3));
    assert_eq!(arena.allocate_segment(SEGMENT_SIZE), None);
    assert_eq!(arena.allocate_segment(0), None);
    let buffers = arena.buffers_to_register();
    assert_eq!(buffers.len(), (4 * SEGMENT_SIZE + 4096) >> 20);
    assert_eq!(buffers[1], Slice { ptr: START + SEGMENT_SIZE + (1 << 20), size: 1 << 20 });
}

#[test]
fn size_classes_and_spans() {
    assert_eq!(TCache::get_size_class(0), 0);
    assert_eq!(TCache::get_size_class(4096), 0);
    assert_eq!(TCache::get_size_class(4097), 1);
    assert_eq!(TCache::get_size_class(65536), 4);
    assert_eq!(TCache::get_size_class(65537), 5);
    assert_eq!(TCache::get_size_class(1 << 20), 8);
    let sizes: Vec<usize> = (0..NUM_SIZE_CLASSES).map(TCache::size_of_class).collect();
    assert_eq!(sizes, vec![4096, 8192, 16384, 32768, 65536]);
    assert_eq!(TCache::get_span_idx_from_slice_count(1), 0);
    assert_eq!(TCache::get_span_idx_from_slice_count(2), 1);
    assert_eq!(TCache::get_span_idx_from_slice_count(3), 1);
    assert_eq!(TCache::get_span_idx_from_slice_count(509), 8);
}

fn overlap(a: (usize, usize), b: (usize, usize)) -> bool {
    a.0 < b.0 + b.1 && b.0 < a.0 + a.1
}

#[test]
fn blocks_in_use_never_overlap() {
    let mut pool = FixedBufferPool::new(START, 3 * 32, 2);
    let end = START + 3 * SEGMENT_SIZE;
    let mut held: Vec<(usize, usize)> = Vec::new();
    let mut seed = 99u64;
    let mut failures = 0;
    for _ in 0..3000 {
        seed = seed.wrapping_mul(6364136223846793005).wrapping_add(1442695040888963407);
        let cpu = (seed >> 60) as usize % 2;
        if (seed >> 40) % 3 > 0 || held.is_empty() {
            let size = 1 + (seed >> 30) as usize % if (seed >> 20) % 8 == 0 { 3 << 20 } else { 70000 };
            match pool.malloc(cpu, size) {
                Some(ptr) => {
                    assert!(ptr >= START && ptr + size <= end);
                    assert!(held.iter().all(|other| !overlap(*other, (ptr, size))));
                    held.push((ptr, size));
                }
                None => failures += 1,
            }
        } else {
            let (ptr, _) = held.swap_remove((seed >> 12) as usize % held.len());
            pool.free(cpu, ptr);
        }
        assert!(pool.arena.segments.iter().zip(&pool.arena.used_bitmap).all(|(s, u)| *u == 0 || s.check_valid_segment()));
    }
    let stats = pool.aggregated_stats(2);
    assert_eq!(stats.unsuccessful_allocations, failures);
    assert!(pool.foreign_free > 0);
    for (ptr, _) in held {
        let owner = pool.arena.segments[(ptr - START) / SEGMENT_SIZE].thread_id;
        pool.free(owner, ptr);
    }
    // What others handed back is collected by a large allocation that finds no room.
    for cpu in 0..2 {
        let _ = pool.malloc(cpu, 64 << 20);
    }
    for cpu in 0..2 {
        let ptr = pool.malloc(cpu, PAGES_PER_SEGMENT * PAGE_SIZE);
        assert!(ptr.is_some());
        pool.free(cpu, ptr.unwrap());
    }
}

#[test]
fn free_neighbours_are_joined() {
    let mut pool = FixedBufferPool::new(START, 32, 1);
    let keep = pool.malloc(0, 65536).unwrap();
    let blocks: Vec<usize> = (0..6).map(|_| pool.malloc(0, 3 * PAGE_SIZE).unwrap()).collect();
    assert_eq!(keep, START + FIRST_PAGE_OFFSET);
    assert_eq!(blocks[0], keep + PAGE_SIZE);
    assert_eq!(blocks[1], keep + 4 * PAGE_SIZE);
    pool.free(0, blocks[1]);
    assert_eq!(pool.arena.segments[0].pages[4].slice_count, 3);
    pool.free(0, blocks[3]);
    pool.free(0, blocks[2]);
    assert_eq!(pool.arena.segments[0].pages[4].slice_count, 9);
    assert_eq!(pool.arena.segments[0].allocated, 10);
    pool.free(0, blocks[0]);
    assert_eq!(pool.arena.segments[0].pages[1].slice_count, 12);
    pool.free(0, blocks[4]);
    pool.free(0, blocks[5]);
    assert_eq!(pool.arena.segments[0].pages[1].slice_count, 508);
    pool.free(0, keep);
    assert_eq!(pool.arena.used_bitmap, vec![0]);
    assert_eq!(pool.get_stats(0).segments_retired, 1);
    assert_eq!(pool.get_stats(0).pages_retired, 7);
}

#[test]
fn exhausted_pools_say_so() {
    let mut pool = FixedBufferPool::new(START, 32, 1);
    assert_eq!(pool.malloc(0, PAGES_PER_SEGMENT * PAGE_SIZE + 1), None);
    let all = pool.malloc(0, PAGES_PER_SEGMENT * PAGE_SIZE).unwrap();
    assert_eq!(pool.malloc(0, 1), None);
    assert_eq!(pool.get_stats(0).unsuccessful_allocations, 2);
    pool.free(0, all);
    assert!(pool.malloc(0, 1).is_some());
}

#[test]
fn foreign_frees_are_collected_by_the_owner() {
    let mut pool = FixedBufferPool::new(START, 64, 2);
    let blocks: Vec<usize> = (0..16).map(|_| pool.malloc(0, 4096).unwrap()).collect();
    assert_eq!(pool.foreign_free, 0);
    pool.free(1, blocks[3]);
    pool.free(7, blocks[4]);
    assert_eq!(pool.foreign_free, 2);
    // The current page is full until it collects what was handed back.
    assert_eq!(pool.malloc(0, 100), Some(blocks[3]));
    assert_eq!(pool.malloc(0, 100), Some(blocks[4]));
    assert_eq!(pool.get_stats(0).fast_allocations, 16);
    assert_eq!(pool.get_stats(1), TCacheStats::new());
    assert_eq!(pool.get_thread_local_cache(5), 1);
}

#[test]
fn every_128th_allocation_retires_unused_pages() {
    let mut pool = FixedBufferPool::new(START, 64, 2);
    let block = pool.malloc(0, 8192).unwrap();
    pool.free(1, block);
    assert_eq!(pool.arena.segments[0].pages[0].block_size, 8192);
    let mut held = Vec::new();
    for _ in 0..126 {
        held.push(pool.malloc(0, 4096).unwrap());
    }
    assert_eq!(pool.get_stats(0).pages_retired, 0);
    held.push(pool.malloc(0, 4096).unwrap());
    assert_eq!(pool.get_stats(0).pages_retired, 1);
    assert_eq!(pool.arena.segments[0].pages[0].block_size, 0);
}

#[test]
fn parts_of_an_allocation_lie_in_registered_buffers() {
    let mut pool = FixedBufferPool::new(START, 64, 1);
    assert!(!pool.buffers_registered());
    pool.registration_done(true);
    assert!(pool.buffers_registered());
    assert_eq!(pool.buffers_to_register().len(), 64);
    let ptr = pool.malloc(0, 3 << 20).unwrap();
    assert_eq!(ptr, START + FIRST_PAGE_OFFSET);
    let parts = pool.get_fixed_buffers(&FixedBufferAllocation { ptr, size: (2 << 20) + 5 });
    let head = (1 << 20) - FIRST_PAGE_OFFSET;
    assert_eq!(
        parts,
        vec![
            FixedBuffer { ptr, buf_id: 0, bytes: head },
            FixedBuffer { ptr: START + (1 << 20), buf_id: 1, bytes: 1 << 20 },
            FixedBuffer { ptr: START + (2 << 20), buf_id: 2, bytes: (1 << 20) + 5 - head },
        ]
    );
    assert_eq!(pool.get_fixed_buffers(&FixedBufferAllocation { ptr, size: 0 }), vec![]);
    let page = PageId { segment: 0, page: 0 };
    assert_eq!(page, PageId { segment: 0, page: 0 });
}

#[test]
fn the_first_slice_that_fits_is_cut() {
    let mut pool = FixedBufferPool::new(START, 32, 1);
    let page = |p: usize| START + FIRST_PAGE_OFFSET + p * PAGE_SIZE;
    let a = pool.malloc(0, 2 * PAGE_SIZE).unwrap();
    let b = pool.malloc(0, 2 * PAGE_SIZE).unwrap();
    let c = pool.malloc(0, 3 * PAGE_SIZE).unwrap();
    let d = pool.malloc(0, PAGE_SIZE).unwrap();
    assert_eq!((a, b, c, d), (page(0), page(2), page(4), page(7)));
    pool.free(0, a);
    pool.free(0, c);
    assert_eq!(pool.malloc(0, 2 * PAGE_SIZE), Some(page(0)));
    assert_eq!(pool.malloc(0, 2 * PAGE_SIZE), Some(page(4)));
    // The page that was cut off there is the only slice of one page.
    assert_eq!(pool.malloc(0, PAGE_SIZE), Some(page(6)));
    assert_eq!(pool.malloc(0, 2 * PAGE_SIZE), Some(page(8)));
    let stats = pool.get_stats(0);
    assert_eq!(stats.total_allocations, 8);
    assert_eq!(stats.allocations_from_arena, 1);
    assert_eq!(stats.allocations_from_segment, 7);
    assert_eq!(stats.total_segments_allocated, 1);
}

#[test]
fn small_blocks_come_from_the_current_page_first() {
    let mut pool = FixedBufferPool::new(START, 32, 1);
    let first: Vec<usize> = (0..4).map(|_| pool.malloc(0, 16384).unwrap()).collect();
    let second: Vec<usize> = (0..4).map(|_| pool.malloc(0, 16384).unwrap()).collect();
    assert_eq!(second[0], first[0] + PAGE_SIZE);
    let third = pool.malloc(0, 16384).unwrap();
    assert_eq!(third, second[0] + PAGE_SIZE);
    pool.free(0, second[1]);
    pool.free(0, first[2]);
    // The current page has blocks left; the full ones wait in the order in which they filled up.
    assert_eq!(pool.malloc(0, 16384), Some(third + 16384));
    pool.malloc(0, 16384).unwrap();
    pool.malloc(0, 16384).unwrap();
    assert_eq!(pool.malloc(0, 16384), Some(first[2]));
    assert_eq!(pool.get_stats(0).allocations_from_pages, 1);
    assert_eq!(pool.malloc(0, 16384), Some(second[1]));
}

#[test]
fn blocks_come_back_in_the_order_in_which_they_were_freed() {
    let mut pool = FixedBufferPool::new(START, 32, 2);
    let blocks: Vec<usize> = (0..4).map(|_| pool.malloc(0, 16384).unwrap()).collect();
    pool.free(0, blocks[2]);
    pool.free(1, blocks[0]);
    pool.free(0, blocks[1]);
    assert_eq!(pool.malloc(0, 16384), Some(blocks[2]));
    assert_eq!(pool.malloc(0, 16384), Some(blocks[1]));
    assert_eq!(pool.get_stats(0).fast_allocations, 5);
    // The block that another processor freed comes once the others are gone.
    assert_eq!(pool.malloc(0, 16384), Some(blocks[0]));
    assert_eq!(pool.get_stats(0).fast_allocations, 5);
}
