//! Pages: the unit in which a segment is handed out, and the block lists inside a page.
//!
//! Memory is named by address (`usize`); the bytes themselves are never touched here.

use vstd::prelude::*;

verus! {

/// Bytes in one page of a segment.
pub const PAGE_SIZE: usize = 65536;

/// The smallest block a page is cut into.
pub const MIN_SIZE_FROM_PAGES: usize = 4096;

/// The largest number of blocks in one page.
pub const MAX_BLOCKS_PER_PAGE: usize = 16;

/// A page, named by the segment it lies in and its position there.
#[derive(Clone, Copy, PartialEq, Eq, Structural, Debug)]
pub struct PageId {
    pub segment: usize,
    pub page: usize,
}

/// A range of memory.
#[derive(Clone, Copy, PartialEq, Eq, Structural, Debug)]
pub struct Slice {
    pub ptr: usize,
    pub size: usize,
}

impl Slice {
    /// Cuts the range into two halves; an odd last byte belongs to neither.
    ///
    /// The address of the second half wraps where the range runs past the end of memory.
    pub fn split(self) -> (halves: (Slice, Slice))
        ensures
            halves.0 == (Slice { ptr: self.ptr, size: self.size / 2 }),
            halves.1.ptr == if self.ptr + self.size / 2 <= usize::MAX {
                self.ptr + self.size / 2
            } else {
                self.ptr + self.size / 2 - usize::MAX - 1
            },
            halves.1.size == self.size / 2,
    {
        let new_size: usize = self.size / 2;
        (
            Slice { ptr: self.ptr, size: new_size },
            Slice { ptr: self.ptr.wrapping_add(new_size), size: new_size },
        )
    }
}

/// How many slots a ring whose counters stand at `head` and `tail` holds.
pub open spec fn ring_len(head: u8, tail: u8) -> nat {
    if tail >= head {
        (tail - head) as nat
    } else {
        (tail + 256 - head) as nat
    }
}

/// The slots of a ring, from the oldest to the newest.
pub open spec fn ring_view(head: u8, tail: u8, slots: Seq<u8>) -> Seq<u8> {
    Seq::new(ring_len(head, tail), |i: int| slots[(head + i) % 16])
}

proof fn lemma_mask_is_mod(x: usize)
    ensures
        x & 15 == x % 16,
{
    assert(x & 15 == x % 16) by (bit_vector);
}

/// Where the slots are once a counter that wraps has moved on by one.
proof fn lemma_next_slot(head: u8, i: int)
    requires
        0 <= i,
    ensures
        (head.wrapping_add(1) + i) % 16 == (head + (i + 1)) % 16,
{
    if head == 255 {
        assert((256 + i) % 16 == i % 16);
    }
}

/// A slot less is in use once the head has moved on by one.
proof fn lemma_shorter(head: u8, tail: u8)
    requires
        head != tail,
    ensures
        ring_len(head.wrapping_add(1), tail) == ring_len(head, tail) - 1,
{
}

/// Sixteen slots are all different.
proof fn lemma_other_slot(head: int, i: int, k: int)
    requires
        0 <= i < 16,
        0 <= k < 16,
        i != k,
    ensures
        (head + i) % 16 != (head + k) % 16,
{
}

/// A queue of free blocks, which only the owner of the page uses.
///
/// The counters run freely and wrap; a slot is found by a counter modulo the number of slots.
pub struct LocalFreeList {
    pub head: u8,
    pub tail: u8,
    pub num_blocks: u8,
    pub blocks: [u8; MAX_BLOCKS_PER_PAGE],
}

impl View for LocalFreeList {
    type V = Seq<u8>;

    open spec fn view(&self) -> Seq<u8> {
        ring_view(self.head, self.tail, self.blocks@)
    }
}

impl LocalFreeList {
    pub open spec fn wf(self) -> bool {
        &&& self.num_blocks <= MAX_BLOCKS_PER_PAGE
        &&& ring_len(self.head, self.tail) <= self.num_blocks
    }

    /// A list for no blocks at all.
    pub fn empty() -> (list: LocalFreeList)
        ensures
            list.wf(),
            list@ == Seq::<u8>::empty(),
            list.num_blocks == 0,
    {
        LocalFreeList { head: 0, tail: 0, num_blocks: 0, blocks: [0; MAX_BLOCKS_PER_PAGE] }
    }

    /// A list that holds the blocks `0..num_blocks`, in that order.
    pub fn new(num_blocks: usize) -> (list: LocalFreeList)
        requires
            num_blocks <= MAX_BLOCKS_PER_PAGE,
        ensures
            list.wf(),
            list.num_blocks == num_blocks,
            list@ == Seq::new(num_blocks as nat, |i: int| i as u8),
    {
        let mut blocks: [u8; MAX_BLOCKS_PER_PAGE] = [0; MAX_BLOCKS_PER_PAGE];
        let mut i: usize = 0;
        while i < num_blocks
            invariant
                i <= num_blocks <= MAX_BLOCKS_PER_PAGE,
                forall|j: int| 0 <= j < i ==> blocks@[j] == j as u8,
            decreases num_blocks - i,
        {
            blocks[i] = i as u8;
            i = i + 1;
        }
        let list = LocalFreeList { head: 0, tail: num_blocks as u8, num_blocks: num_blocks as u8, blocks };
        assert(list@ =~= Seq::new(num_blocks as nat, |i: int| i as u8));
        list
    }

    /// Appends a block.
    pub fn push(&mut self, block: u8)
        requires
            old(self).wf(),
            old(self)@.len() < old(self).num_blocks,
        ensures
            final(self).wf(),
            final(self)@ == old(self)@.push(block),
            final(self).num_blocks == old(self).num_blocks,
    {
        let slot: usize = self.tail as usize & (MAX_BLOCKS_PER_PAGE - 1);
        proof {
            lemma_mask_is_mod(self.tail as usize);
        }
        self.blocks[slot] = block;
        self.tail = self.tail.wrapping_add(1);
        assert(self@ =~= old(self)@.push(block));
    }

    pub fn is_empty(&self) -> (empty: bool)
        requires
            self.wf(),
        ensures
            empty == (self@.len() == 0),
    {
        self.head == self.tail
    }

    /// Takes the oldest block, if there is one.
    pub fn pop(&mut self) -> (block: Option<u8>)
        requires
            old(self).wf(),
        ensures
            final(self).wf(),
            final(self).num_blocks == old(self).num_blocks,
            old(self)@.len() == 0 ==> block is None && *final(self) == *old(self),
            old(self)@.len() > 0 ==> block == Some(old(self)@[0]) && final(self)@ == old(self)@.skip(1),
    {
        if self.head == self.tail {
            return None;
        }
        let slot: usize = self.head as usize & (MAX_BLOCKS_PER_PAGE - 1);
        proof {
            lemma_mask_is_mod(self.head as usize);
        }
        let block: u8 = self.blocks[slot];
        self.head = self.head.wrapping_add(1);
        proof {
            lemma_shorter(old(self).head, old(self).tail);
            assert forall|i: int| 0 <= i < self@.len() implies #[trigger] self@[i] == old(self)@.skip(1)[i] by {
                lemma_next_slot(old(self).head, i);
            }
            assert(self@ =~= old(self)@.skip(1));
        }
        Some(block)
    }
}

/// What a slot of an [`MPSCQueue`] holds while no block is published in it.
pub const HAZARD: u8 = 255;

/// A queue of blocks that other processors hand back to the owner of the page.
///
/// A producer first reserves a slot by moving the tail, then publishes the block in it. In between
/// the slot reads as [`HAZARD`], so the consumer can tell a reserved slot from a published one.
pub struct MPSCQueue {
    pub head: u8,
    pub tail: u8,
    pub num_blocks: u8,
    pub blocks: [u8; MAX_BLOCKS_PER_PAGE],
}

impl View for MPSCQueue {
    type V = Seq<u8>;

    /// The reserved slots, oldest first; a slot that is not published yet reads as [`HAZARD`].
    open spec fn view(&self) -> Seq<u8> {
        ring_view(self.head, self.tail, self.blocks@)
    }
}

impl MPSCQueue {
    pub open spec fn wf(self) -> bool {
        &&& self.num_blocks <= MAX_BLOCKS_PER_PAGE
        &&& ring_len(self.head, self.tail) <= self.num_blocks
        &&& forall|i: int| ring_len(self.head, self.tail) <= i < 16
            ==> #[trigger] self.blocks@[(self.head + i) % 16] == HAZARD
    }

    /// How far the slot that was reserved as `ticket` stands behind the head.
    pub open spec fn place_of(self, ticket: u8) -> int {
        ring_len(self.head, ticket) as int
    }

    pub fn new(num_blocks: usize) -> (queue: MPSCQueue)
        requires
            num_blocks <= MAX_BLOCKS_PER_PAGE,
        ensures
            queue.wf(),
            queue@ == Seq::<u8>::empty(),
            queue.num_blocks == num_blocks,
    {
        MPSCQueue { head: 0, tail: 0, num_blocks: num_blocks as u8, blocks: [HAZARD; MAX_BLOCKS_PER_PAGE] }
    }

    /// Reserves the next slot, and returns the ticket to publish it with.
    pub fn reserve(&mut self) -> (ticket: u8)
        requires
            old(self).wf(),
            old(self)@.len() < old(self).num_blocks,
        ensures
            final(self).wf(),
            final(self)@ == old(self)@.push(HAZARD),
            final(self).num_blocks == old(self).num_blocks,
            ticket == old(self).tail,
            final(self).place_of(ticket) == old(self)@.len(),
    {
        let ticket: u8 = self.tail;
        self.tail = self.tail.wrapping_add(1);
        proof {
            let n: int = old(self)@.len() as int;
            assert(old(self).blocks@[(old(self).head + n) % 16] == HAZARD);
            assert forall|i: int| ring_len(self.head, self.tail) <= i < 16
                implies #[trigger] self.blocks@[(self.head + i) % 16] == HAZARD by {
                assert(old(self).blocks@[(old(self).head + i) % 16] == HAZARD);
            }
            assert(self@ =~= old(self)@.push(HAZARD));
        }
        ticket
    }

    /// Publishes a block in the slot that was reserved as `ticket`.
    pub fn publish(&mut self, ticket: u8, block: u8)
        requires
            old(self).wf(),
            old(self).place_of(ticket) < old(self)@.len(),
            old(self)@[old(self).place_of(ticket)] == HAZARD,
        ensures
            final(self).wf(),
            final(self)@ == old(self)@.update(old(self).place_of(ticket), block),
            final(self).num_blocks == old(self).num_blocks,
    {
        let slot: usize = ticket as usize & (MAX_BLOCKS_PER_PAGE - 1);
        proof {
            lemma_mask_is_mod(ticket as usize);
        }
        self.blocks[slot] = block;
        proof {
            let k: int = old(self).place_of(ticket);
            assert(slot == (self.head + k) % 16);
            assert forall|i: int| ring_len(self.head, self.tail) <= i < 16
                implies #[trigger] self.blocks@[(self.head + i) % 16] == HAZARD by {
                assert(old(self).blocks@[(old(self).head + i) % 16] == HAZARD);
                assert((self.head + i) % 16 != (self.head + k) % 16);
            }
            assert(self@ =~= old(self)@.update(k, block));
        }
    }

    /// Appends a block: reserves a slot and publishes the block in it.
    pub fn push(&mut self, block: u8)
        requires
            old(self).wf(),
            old(self)@.len() < old(self).num_blocks,
        ensures
            final(self).wf(),
            final(self)@ == old(self)@.push(block),
            final(self).num_blocks == old(self).num_blocks,
    {
        let ticket: u8 = self.reserve();
        self.publish(ticket, block);
        assert(self@ =~= old(self)@.push(block));
    }

    /// Takes the oldest block, if there is one. The oldest slot is published.
    pub fn pop(&mut self) -> (block: Option<u8>)
        requires
            old(self).wf(),
            old(self)@.len() > 0 ==> old(self)@[0] != HAZARD,
        ensures
            final(self).wf(),
            final(self).num_blocks == old(self).num_blocks,
            old(self)@.len() == 0 ==> block is None && *final(self) == *old(self),
            old(self)@.len() > 0 ==> block == Some(old(self)@[0]) && final(self)@ == old(self)@.skip(1),
    {
        if self.head == self.tail {
            return None;
        }
        let slot: usize = self.head as usize & (MAX_BLOCKS_PER_PAGE - 1);
        proof {
            lemma_mask_is_mod(self.head as usize);
        }
        let block: u8 = self.blocks[slot];
        self.blocks[slot] = HAZARD;
        self.head = self.head.wrapping_add(1);
        proof {
            let before = old(self).blocks@;
            let head = old(self).head as int;
            let n = ring_len(old(self).head, old(self).tail) as int;
            lemma_shorter(old(self).head, old(self).tail);
            assert(slot == head % 16);
            assert forall|i: int| ring_len(self.head, self.tail) <= i < 16
                implies #[trigger] self.blocks@[(self.head + i) % 16] == HAZARD by {
                lemma_next_slot(old(self).head, i);
                if i < 15 {
                    assert(before[(head + (i + 1)) % 16] == HAZARD);
                } else {
                    assert((head + 16) % 16 == slot);
                }
            }
            assert forall|i: int| 0 <= i < self@.len() implies #[trigger] self@[i] == old(self)@.skip(1)[i] by {
                lemma_next_slot(old(self).head, i);
                lemma_other_slot(head, i + 1, 0);
            }
            assert(self@ =~= old(self)@.skip(1));
        }
        Some(block)
    }
}

/// Distinct block numbers below `n` number at most `n`.
pub proof fn lemma_distinct_blocks_bounded(blocks: Seq<u8>, n: int)
    requires
        0 <= n,
        blocks.no_duplicates(),
        forall|i: int| 0 <= i < blocks.len() ==> #[trigger] blocks[i] < n,
    ensures
        blocks.len() <= n,
{
    let as_ints: Seq<int> = blocks.map_values(|b: u8| b as int);
    assert(as_ints.no_duplicates()) by {
        assert forall|i: int, j: int| 0 <= i < as_ints.len() && 0 <= j < as_ints.len() && i != j
            implies as_ints[i] != as_ints[j] by {
            assert(blocks[i] != blocks[j]);
        }
    }
    as_ints.unique_seq_to_set();
    vstd::set_lib::lemma_int_range(0, n);
    assert(as_ints.to_set().subset_of(vstd::set_lib::set_int_range(0, n)));
    vstd::set_lib::lemma_len_subset(as_ints.to_set(), vstd::set_lib::set_int_range(0, n));
}

/// The header of a page.
///
/// A run of neighbouring pages that is handed out or kept free as one piece is called a slice of
/// its segment; the first page of the run, its head, stands for the whole of it.
pub struct Page {
    /// Size of the blocks that the slice is cut into; 0 while the slice is free.
    pub block_size: usize,
    pub free_list: LocalFreeList,
    /// Number of blocks that are handed out, or handed back by others and not collected yet.
    pub used: usize,
    pub thread_free_list: MPSCQueue,
    /// Number of pages in the slice.
    pub slice_count: usize,
    /// Distance from the head of the slice.
    pub slice_offset: usize,
    pub page_start: usize,
    /// The neighbours in the span that lists this free slice.
    pub next_page: Option<PageId>,
    pub previous_page: Option<PageId>,
}

impl Page {
    /// The number of blocks the slice is cut into.
    pub open spec fn num_blocks(self) -> int {
        self.free_list.num_blocks as int
    }

    /// All blocks that are not in somebody's hands: free ones, and handed back ones.
    pub open spec fn returned(self) -> Seq<u8> {
        self.free_list@ + self.thread_free_list@
    }

    /// Block `block` is in somebody's hands.
    pub open spec fn is_live(self, block: int) -> bool {
        &&& 0 <= block < self.num_blocks()
        &&& forall|i: int| 0 <= i < self.returned().len() ==> #[trigger] self.returned()[i] != block
    }

    /// The book-keeping of a page that is cut into blocks.
    pub open spec fn blocks_wf(self) -> bool {
        &&& self.block_size > 0
        &&& self.free_list.wf()
        &&& self.thread_free_list.wf()
        &&& self.thread_free_list.num_blocks == MAX_BLOCKS_PER_PAGE
        &&& self.num_blocks() >= 1
        &&& self.used == self.num_blocks() - self.free_list@.len()
        &&& self.returned().no_duplicates()
        &&& forall|i: int| 0 <= i < self.returned().len() ==> #[trigger] self.returned()[i] < self.num_blocks()
        &&& self.num_blocks() * self.block_size <= self.slice_count * PAGE_SIZE
        &&& self.page_start + self.slice_count * PAGE_SIZE <= usize::MAX
    }

    /// The page is cut into nothing and no block of it is outstanding.
    pub open spec fn idle(self) -> bool {
        &&& self.block_size == 0
        &&& self.used == 0
        &&& self.thread_free_list.wf()
        &&& self.thread_free_list.num_blocks == MAX_BLOCKS_PER_PAGE
        &&& self.thread_free_list@.len() == 0
    }

    pub open spec fn unlinked(self) -> bool {
        self.next_page is None && self.previous_page is None
    }

    /// The address of a block.
    pub open spec fn block_address(self, block: int) -> int {
        self.page_start + block * self.block_size
    }

    /// The block that holds an address.
    pub open spec fn block_of(self, ptr: int) -> int {
        (ptr - self.page_start) / (self.block_size as int)
    }

    /// A page on its own, that starts where the given range starts.
    pub fn from_slice(slice: Slice) -> (page: Page)
        ensures
            page.idle(),
            page.unlinked(),
            page.free_list.wf(),
            page.free_list@.len() == 0,
            page.num_blocks() == 0,
            page.slice_count == 1,
            page.slice_offset == 0,
            page.page_start == slice.ptr,
    {
        Page {
            block_size: 0,
            free_list: LocalFreeList::empty(),
            used: 0,
            thread_free_list: MPSCQueue::new(PAGE_SIZE / MIN_SIZE_FROM_PAGES),
            slice_count: 1,
            slice_offset: 0,
            page_start: slice.ptr,
            next_page: None,
            previous_page: None,
        }
    }

    /// Cuts the slice into blocks of `block_size` bytes, all of them free.
    pub fn set_block_size(&mut self, block_size: usize)
        requires
            0 < block_size,
            old(self).slice_count * PAGE_SIZE <= usize::MAX,
            (old(self).slice_count * PAGE_SIZE) / (block_size as int) <= MAX_BLOCKS_PER_PAGE,
        ensures
            final(self).block_size == block_size,
            final(self).num_blocks() == (old(self).slice_count * PAGE_SIZE) / (block_size as int),
            final(self).free_list.wf(),
            final(self).free_list@ == Seq::new(final(self).num_blocks() as nat, |i: int| i as u8),
            *final(self) == (Page {
                block_size,
                free_list: final(self).free_list,
                ..*old(self)
            }),
            old(self).idle() && block_size <= old(self).slice_count * PAGE_SIZE
                && old(self).page_start + old(self).slice_count * PAGE_SIZE <= usize::MAX
                ==> final(self).blocks_wf(),
    {
        self.block_size = block_size;
        let bytes: usize = self.slice_count * PAGE_SIZE;
        let num_blocks: usize = bytes / block_size;
        self.free_list = LocalFreeList::new(num_blocks);
        proof {
            if old(self).idle() && block_size <= bytes
                && old(self).page_start + old(self).slice_count * PAGE_SIZE <= usize::MAX {
                assert(self.returned() =~= self.free_list@);
                assert(num_blocks >= 1 && num_blocks * block_size <= bytes) by (nonlinear_arith)
                    requires
                        num_blocks == bytes / block_size,
                        0 < block_size <= bytes,
                ;
            }
        }
    }

    /// Hands out a free block: its address, or nothing where no block is free.
    pub fn get_free_block(&mut self) -> (ptr: Option<usize>)
        requires
            old(self).blocks_wf(),
        ensures
            final(self).blocks_wf(),
            *final(self) == (Page {
                free_list: final(self).free_list,
                used: final(self).used,
                ..*old(self)
            }),
            final(self).num_blocks() == old(self).num_blocks(),
            old(self).free_list@.len() == 0 ==> ptr is None && *final(self) == *old(self),
            old(self).free_list@.len() > 0 ==> {
                let block = old(self).free_list@[0] as int;
                &&& ptr is Some
                &&& ptr->0 == old(self).block_address(block)
                &&& !old(self).is_live(block)
                &&& final(self).free_list@ == old(self).free_list@.skip(1)
                &&& final(self).used == old(self).used + 1
                &&& 0 <= block < old(self).num_blocks()
                &&& forall|b: int| #[trigger] final(self).is_live(b) <==> old(self).is_live(b) || b == block
            },
    {
        let block: u8 = match self.free_list.pop() {
            Some(block) => block,
            None => {
                return None;
            },
        };
        self.used = self.used + 1;
        proof {
            let all = old(self).returned();
            assert(all[0] == block);
            assert(self.returned() =~= all.skip(1));
            assert(!old(self).is_live(block as int));
            assert forall|b: int| #[trigger] self.is_live(b) <==> old(self).is_live(b) || b == block by {
                if self.is_live(b) && b != block {
                    assert forall|i: int| 0 <= i < all.len() implies #[trigger] all[i] != b by {
                        if i > 0 {
                            assert(self.returned()[i - 1] == all[i]);
                        }
                    }
                }
                if old(self).is_live(b) {
                    assert forall|i: int| 0 <= i < self.returned().len()
                        implies #[trigger] self.returned()[i] != b by {
                        assert(all[i + 1] == self.returned()[i]);
                    }
                }
                if b == block {
                    assert forall|i: int| 0 <= i < self.returned().len()
                        implies #[trigger] self.returned()[i] != b by {
                        assert(all[i + 1] == self.returned()[i]);
                        assert(all[i + 1] != all[0]);
                    }
                }
            }
            assert(block as int * self.block_size as int <= self.num_blocks() * self.block_size
                && 0 <= block as int * self.block_size as int) by (nonlinear_arith)
                requires
                    0 <= block < self.num_blocks(),
                    0 < self.block_size,
            ;
        }
        Some(self.page_start + block as usize * self.block_size)
    }

    /// No block is free.
    pub fn is_full(&self) -> (full: bool)
        requires
            self.free_list.wf(),
        ensures
            full == (self.free_list@.len() == 0),
    {
        self.free_list.is_empty()
    }

    /// No block is handed out.
    pub fn is_unused(&self) -> (unused: bool)
        ensures
            unused == (self.used == 0),
    {
        self.used == 0
    }

    /// Where a block is live there is room for it in either list.
    pub proof fn lemma_live_leaves_room(self, block: int)
        requires
            self.blocks_wf(),
            self.is_live(block),
        ensures
            self.free_list@.len() + self.thread_free_list@.len() + 1 <= self.num_blocks(),
            self.used >= 1,
    {
        let all = self.returned().push(block as u8);
        assert(all.no_duplicates()) by {
            assert forall|i: int, j: int| 0 <= i < all.len() && 0 <= j < all.len() && i != j
                implies all[i] != all[j] by {
                if i < self.returned().len() && j < self.returned().len() {
                    assert(self.returned()[i] != self.returned()[j]);
                } else if i < self.returned().len() {
                    assert(self.returned()[i] != block);
                } else {
                    assert(self.returned()[j] != block);
                }
            }
        }
        assert forall|i: int| 0 <= i < all.len() implies #[trigger] all[i] < self.num_blocks() by {
            if i < self.returned().len() {
                assert(all[i] == self.returned()[i]);
            }
        }
        lemma_distinct_blocks_bounded(all, self.num_blocks());
    }

    /// A page without used blocks has nothing to collect and no live block.
    pub proof fn lemma_unused_has_no_live(self)
        requires
            self.blocks_wf(),
            self.used == 0,
        ensures
            self.thread_free_list@.len() == 0,
            forall|b: int| !#[trigger] self.is_live(b),
    {
        lemma_distinct_blocks_bounded(self.returned(), self.num_blocks());
        assert forall|b: int| !#[trigger] self.is_live(b) by {
            if self.is_live(b) {
                self.lemma_live_leaves_room(b);
            }
        }
    }

    /// Takes back a block that was handed out, on the processor that owns the page.
    pub fn free(&mut self, ptr: usize)
        requires
            old(self).blocks_wf(),
            old(self).page_start <= ptr,
            old(self).is_live(old(self).block_of(ptr as int)),
        ensures
            final(self).blocks_wf(),
            *final(self) == (Page {
                free_list: final(self).free_list,
                used: final(self).used,
                ..*old(self)
            }),
            final(self).num_blocks() == old(self).num_blocks(),
            final(self).free_list@ == old(self).free_list@.push(old(self).block_of(ptr as int) as u8),
            final(self).used == old(self).used - 1,
            forall|b: int| #[trigger] final(self).is_live(b) <==> old(self).is_live(b)
                && b != old(self).block_of(ptr as int),
    {
        let block: usize = (ptr - self.page_start) / self.block_size;
        proof {
            self.lemma_live_leaves_room(block as int);
        }
        self.free_list.push(block as u8);
        self.used = self.used - 1;
        proof {
            let at: int = old(self).free_list@.len() as int;
            assert(self.returned() =~= old(self).returned().insert(at, block as u8));
            lemma_returned_grows(*old(self), *self, block as u8, at);
        }
    }

    /// Takes back a block that was handed out, on another processor than the one that owns the page.
    pub fn foreign_free(&mut self, ptr: usize)
        requires
            old(self).blocks_wf(),
            old(self).page_start <= ptr,
            old(self).is_live(old(self).block_of(ptr as int)),
        ensures
            final(self).blocks_wf(),
            *final(self) == (Page { thread_free_list: final(self).thread_free_list, ..*old(self) }),
            final(self).thread_free_list@ == old(self).thread_free_list@.push(
                old(self).block_of(ptr as int) as u8,
            ),
            forall|b: int| #[trigger] final(self).is_live(b) <==> old(self).is_live(b)
                && b != old(self).block_of(ptr as int),
    {
        let block: usize = (ptr - self.page_start) / self.block_size;
        proof {
            self.lemma_live_leaves_room(block as int);
        }
        self.thread_free_list.push(block as u8);
        proof {
            let at: int = old(self).returned().len() as int;
            assert(self.returned() =~= old(self).returned().insert(at, block as u8));
            lemma_returned_grows(*old(self), *self, block as u8, at);
        }
    }

    /// Moves the blocks that others handed back to the free list.
    pub fn collect_foreign_frees(&mut self)
        requires
            old(self).blocks_wf(),
        ensures
            final(self).blocks_wf(),
            *final(self) == (Page {
                free_list: final(self).free_list,
                used: final(self).used,
                thread_free_list: final(self).thread_free_list,
                ..*old(self)
            }),
            final(self).num_blocks() == old(self).num_blocks(),
            final(self).free_list@ == old(self).free_list@ + old(self).thread_free_list@,
            final(self).thread_free_list@.len() == 0,
            final(self).used == old(self).used - old(self).thread_free_list@.len(),
            forall|b: int| #[trigger] final(self).is_live(b) <==> old(self).is_live(b),
    {
        let ghost all = self.returned();
        loop
            invariant_except_break
                self.blocks_wf(),
            invariant
                all == old(self).returned(),
                old(self).blocks_wf(),
                self.blocks_wf(),
                self.returned() == all,
                *self == (Page {
                    free_list: self.free_list,
                    used: self.used,
                    thread_free_list: self.thread_free_list,
                    ..*old(self)
                }),
                self.num_blocks() == old(self).num_blocks(),
            ensures
                self.thread_free_list@.len() == 0,
            decreases self.thread_free_list@.len(),
        {
            let ghost before = *self;
            proof {
                lemma_distinct_blocks_bounded(all, self.num_blocks());
                if self.thread_free_list@.len() > 0 {
                    assert(all[self.free_list@.len() as int] == self.thread_free_list@[0]);
                }
            }
            match self.thread_free_list.pop() {
                Some(block) => {
                    self.free_list.push(block);
                    self.used = self.used - 1;
                    assert(self.returned() =~= before.returned());
                },
                None => {
                    break;
                },
            }
        }
        proof {
            assert(self.free_list@ =~= self.returned());
            assert forall|b: int| #[trigger] self.is_live(b) <==> old(self).is_live(b) by {}
        }
    }
}

/// Handing back one live block shortens the set of live blocks by that block and keeps the books.
proof fn lemma_returned_grows(before: Page, after: Page, block: u8, at: int)
    requires
        before.blocks_wf(),
        before.is_live(block as int),
        0 <= at <= before.returned().len(),
        after.returned() == before.returned().insert(at, block),
        after.free_list.num_blocks == before.free_list.num_blocks,
    ensures
        after.returned().no_duplicates(),
        forall|i: int| 0 <= i < after.returned().len() ==> #[trigger] after.returned()[i] < after.num_blocks(),
        forall|b: int| #[trigger] after.is_live(b) <==> before.is_live(b) && b != block,
{
    let old_all = before.returned();
    let all = after.returned();
    assert forall|i: int| 0 <= i < all.len() implies #[trigger] all[i] == (if i < at {
        old_all[i]
    } else if i == at {
        block
    } else {
        old_all[i - 1]
    }) by {}
    assert(all.no_duplicates()) by {
        assert forall|i: int, j: int| 0 <= i < all.len() && 0 <= j < all.len() && i != j
            implies all[i] != all[j] by {
            let oi = if i < at { i } else { i - 1 };
            let oj = if j < at { j } else { j - 1 };
            if i != at {
                assert(old_all[oi] != block);
            }
            if j != at {
                assert(old_all[oj] != block);
            }
        }
    }
    assert forall|b: int| #[trigger] after.is_live(b) <==> before.is_live(b) && b != block by {
        if after.is_live(b) {
            assert(all[at] == block);
            assert forall|i: int| 0 <= i < old_all.len() implies #[trigger] old_all[i] != b by {
                let ni = if i < at { i } else { i + 1 };
                assert(all[ni] == old_all[i]);
            }
        }
    }
}

} // verus!
