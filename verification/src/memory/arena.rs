//! The arena: one range of memory from the operating system, cut into segments.

use crate::memory::page::Slice;
use crate::memory::segment::{Segment, PAGES_PER_SEGMENT, SEGMENT_SIZE};
use vstd::prelude::*;

verus! {

/// Bytes in one buffer that is registered with a ring.
pub const FIXED_BUFFER_SIZE_BYTES: usize = 1048576;

pub const FIXED_BUFFER_BITS: u32 = 20;

/// The first multiple of the segment size that is not below `address`.
pub open spec fn segment_align(address: int) -> int {
    if address % (SEGMENT_SIZE as int) == 0 {
        address
    } else {
        address - address % (SEGMENT_SIZE as int) + SEGMENT_SIZE
    }
}

/// How many whole segments fit in `capacity` bytes at `start`.
pub open spec fn segments_in(start: int, capacity: int) -> int {
    if segment_align(start) > start + capacity {
        0
    } else {
        (start + capacity - segment_align(start)) / (SEGMENT_SIZE as int)
    }
}

/// `n` neighbouring entries from `at` on are zero.
pub open spec fn zero_run(bits: Seq<u8>, at: int, n: int) -> bool {
    &&& 0 <= at
    &&& at + n <= bits.len()
    &&& forall|i: int| at <= i < at + n ==> #[trigger] bits[i] == 0
}

/// Nowhere are `n` neighbouring entries zero.
pub open spec fn no_zero_run(bits: Seq<u8>, n: int) -> bool {
    forall|at: int| !#[trigger] zero_run(bits, at, n)
}

/// How many segments `size` bytes take.
pub open spec fn segments_for(size: int) -> int {
    (size + SEGMENT_SIZE - 1) / (SEGMENT_SIZE as int)
}

pub struct Arena {
    pub size: usize,
    pub slices: Vec<Slice>,
    /// One entry for each slice: 1 while it is handed out, 0 otherwise.
    pub used_bitmap: Vec<u8>,
    /// Where the first segment starts: segments lie at multiples of their size, so this may be
    /// above the start of the memory.
    pub aligned_start_ptr: usize,
    pub actual_start_ptr: usize,
    pub buffers_registered: bool,
    /// The headers of the segments, one for each slice.
    pub segments: Vec<Segment>,
}

impl Arena {
    pub open spec fn wf(self) -> bool {
        &&& self.slices@.len() == self.used_bitmap@.len()
        &&& self.slices@.len() == self.segments@.len()
        &&& self.aligned_start_ptr == segment_align(self.actual_start_ptr as int)
        &&& self.slices@.len() == segments_in(self.actual_start_ptr as int, self.size as int)
        &&& self.actual_start_ptr + self.size + 2 * SEGMENT_SIZE <= usize::MAX
        &&& forall|i: int| 0 <= i < self.slices@.len() ==> #[trigger] self.slices@[i] == (Slice {
            ptr: self.base(i) as usize,
            size: SEGMENT_SIZE,
        })
        &&& forall|i: int| 0 <= i < self.used_bitmap@.len() ==> #[trigger] self.used_bitmap@[i] <= 1
        &&& forall|i: int| 0 <= i < self.segments@.len()
            ==> (#[trigger] self.segments@[i]).pages@.len() == PAGES_PER_SEGMENT
    }

    /// The address of segment `i`.
    pub open spec fn base(self, i: int) -> int {
        self.aligned_start_ptr + i * SEGMENT_SIZE
    }

    /// Everything but the segment headers and the bitmap is the same.
    pub open spec fn same_memory(self, other: Arena) -> bool {
        &&& self.size == other.size
        &&& self.slices == other.slices
        &&& self.aligned_start_ptr == other.aligned_start_ptr
        &&& self.actual_start_ptr == other.actual_start_ptr
        &&& self.buffers_registered == other.buffers_registered
    }

    /// Segments lie inside the memory, one after the other.
    pub proof fn lemma_base_bounds(self, i: int)
        requires
            self.wf(),
            0 <= i < self.slices@.len(),
        ensures
            self.actual_start_ptr <= self.base(i),
            self.base(i) + SEGMENT_SIZE <= self.actual_start_ptr + self.size,
            self.base(i) % (SEGMENT_SIZE as int) == 0,
            self.slices@[i].ptr == self.base(i),
    {
    }

    /// Cuts the memory at `mem_start` into segments, all of them unused.
    pub fn new(mem_start: usize, capacity: usize) -> (arena: Arena)
        requires
            mem_start != 0,
            mem_start + capacity + 2 * SEGMENT_SIZE <= usize::MAX,
        ensures
            arena.wf(),
            arena.size == capacity,
            arena.actual_start_ptr == mem_start,
            !arena.buffers_registered,
            forall|i: int| 0 <= i < arena.used_bitmap@.len() ==> #[trigger] arena.used_bitmap@[i] == 0,
    {
        let mem_end: usize = mem_start + capacity;
        let mut ptr_aligned: usize = Segment::get_segment_from_ptr(mem_start);
        if ptr_aligned != mem_start {
            ptr_aligned = ptr_aligned + SEGMENT_SIZE;
        }
        let mut slice_start: usize = ptr_aligned;
        let mut slices: Vec<Slice> = Vec::new();
        let mut used_bitmap: Vec<u8> = Vec::new();
        let mut segments: Vec<Segment> = Vec::new();
        while slice_start + SEGMENT_SIZE <= mem_end
            invariant
                mem_end == mem_start + capacity,
                mem_start + capacity + 2 * SEGMENT_SIZE <= usize::MAX,
                ptr_aligned == segment_align(mem_start as int),
                slices@.len() == used_bitmap@.len(),
                slices@.len() == segments@.len(),
                slice_start == ptr_aligned + slices@.len() * SEGMENT_SIZE,
                slices@.len() > 0 ==> slice_start <= mem_end,
                forall|i: int| 0 <= i < slices@.len() ==> #[trigger] slices@[i] == (Slice {
                    ptr: (ptr_aligned + i * SEGMENT_SIZE) as usize,
                    size: SEGMENT_SIZE,
                }),
                forall|i: int| 0 <= i < used_bitmap@.len() ==> #[trigger] used_bitmap@[i] == 0,
                forall|i: int| 0 <= i < segments@.len()
                    ==> (#[trigger] segments@[i]).pages@.len() == PAGES_PER_SEGMENT,
            decreases mem_end + SEGMENT_SIZE - slice_start,
        {
            let slice = Slice { ptr: slice_start, size: SEGMENT_SIZE };
            slices.push(slice);
            used_bitmap.push(0);
            segments.push(Segment::new_from_slice(slice));
            slice_start = slice_start + SEGMENT_SIZE;
        }
        Arena {
            size: capacity,
            slices,
            used_bitmap,
            aligned_start_ptr: ptr_aligned,
            actual_start_ptr: mem_start,
            buffers_registered: false,
            segments,
        }
    }

    /// Hands out the first run of unused slices that holds `size` bytes, as one segment.
    pub fn allocate_segment(&mut self, size: usize) -> (segment: Option<usize>)
        requires
            old(self).wf(),
            size + SEGMENT_SIZE <= usize::MAX,
        ensures
            final(self).wf(),
            final(self).same_memory(*old(self)),
            match segment {
                None => {
                    &&& *final(self) == *old(self)
                    &&& size == 0 || no_zero_run(old(self).used_bitmap@, segments_for(size as int))
                },
                Some(s) => {
                    let n = segments_for(size as int);
                    &&& size > 0
                    &&& zero_run(old(self).used_bitmap@, s as int, n)
                    &&& forall|at: int| #[trigger] zero_run(old(self).used_bitmap@, at, n) ==> s <= at
                    &&& final(self).used_bitmap@.len() == old(self).used_bitmap@.len()
                    &&& forall|i: int| 0 <= i < old(self).used_bitmap@.len()
                        ==> #[trigger] final(self).used_bitmap@[i] == (if s <= i < s + n {
                        1u8
                    } else {
                        old(self).used_bitmap@[i]
                    })
                    &&& final(self).segments@ == old(self).segments@.update(
                        s as int,
                        final(self).segments@[s as int],
                    )
                    &&& final(self).segments@[s as int].tiled()
                    &&& final(self).segments@[s as int].accounted()
                    &&& final(self).segments@[s as int].placed(old(self).base(s as int))
                    &&& final(self).segments@[s as int].allocated == 0
                    &&& final(self).segments@[s as int].num_slices == PAGES_PER_SEGMENT
                    &&& forall|p: int| 0 <= p < PAGES_PER_SEGMENT ==> {
                        &&& (#[trigger] final(self).segments@[s as int].pages@[p]).idle()
                        &&& final(self).segments@[s as int].pages@[p].unlinked()
                        &&& final(self).segments@[s as int].pages@[p].slice_count == 1
                        &&& final(self).segments@[s as int].pages@[p].slice_offset == 0
                    }
                },
            },
    {
        let num_slices: usize = (size + SEGMENT_SIZE - 1) / SEGMENT_SIZE;
        let mut contiguous: usize = 0;
        let mut result: Option<usize> = None;
        let mut index: usize = 0;
        let len: usize = self.used_bitmap.len();
        while index < len
            invariant_except_break
                result is None,
                forall|at: int| num_slices > 0 && #[trigger] zero_run(self.used_bitmap@, at, num_slices as int)
                    ==> at + num_slices > index,
            invariant
                *self == *old(self),
                index <= len,
                len == self.used_bitmap@.len(),
                num_slices > 0 ==> contiguous < num_slices,
                contiguous <= index,
                forall|i: int| index - contiguous <= i < index ==> #[trigger] self.used_bitmap@[i] == 0,
                contiguous == index || self.used_bitmap@[index - contiguous - 1] != 0,
            ensures
                match result {
                    None => num_slices > 0 ==> forall|at: int|
                        !#[trigger] zero_run(self.used_bitmap@, at, num_slices as int),
                    Some(s) => {
                        &&& num_slices > 0
                        &&& zero_run(self.used_bitmap@, s as int, num_slices as int)
                        &&& forall|at: int| #[trigger] zero_run(self.used_bitmap@, at, num_slices as int)
                            ==> s <= at
                    },
                },
            decreases len - index,
        {
            let bit: u8 = self.used_bitmap[index];
            if bit == 0 {
                if contiguous + 1 == num_slices {
                    result = Some(index + 1 - num_slices);
                    break;
                }
                contiguous = contiguous + 1;
            } else {
                contiguous = 0;
            }
            proof {
                assert forall|at: int| num_slices > 0 && #[trigger] zero_run(
                    self.used_bitmap@,
                    at,
                    num_slices as int,
                ) implies at + num_slices > index + 1 by {
                    if at + num_slices == index + 1 {
                        assert(self.used_bitmap@[index as int] == 0);
                        assert(self.used_bitmap@[index + 1 - contiguous - 1] != 0);
                    }
                }
            }
            index = index + 1;
        }
        let at: usize = match result {
            Some(at) => at,
            None => {
                return None;
            },
        };
        let mut i: usize = 0;
        while i < num_slices
            invariant
                i <= num_slices,
                at + num_slices <= len,
                len == old(self).used_bitmap@.len(),
                old(self).wf(),
                self.same_memory(*old(self)),
                self.segments == old(self).segments,
                self.used_bitmap@.len() == len,
                forall|j: int| 0 <= j < len ==> #[trigger] self.used_bitmap@[j] == (if at <= j < at + i {
                    1u8
                } else {
                    old(self).used_bitmap@[j]
                }),
            decreases num_slices - i,
        {
            self.used_bitmap[at + i] = 1;
            i = i + 1;
        }
        proof {
            old(self).lemma_base_bounds(at as int);
            old(self).lemma_base_bounds(at + num_slices - 1);
            assert(num_slices * SEGMENT_SIZE <= usize::MAX);
        }
        let combined_slice = Slice { ptr: self.slices[at].ptr, size: num_slices * SEGMENT_SIZE };
        let segment = Segment::new_from_slice(combined_slice);
        self.segments[at] = segment;
        Some(at)
    }

    /// Where the first segment starts.
    pub fn start_ptr(&self) -> (ptr: usize)
        ensures
            ptr == self.aligned_start_ptr,
    {
        self.aligned_start_ptr
    }

    /// Takes back the segment at address `segment`.
    pub fn retire_segment(&mut self, segment: usize)
        requires
            old(self).wf(),
            exists|s: int| 0 <= s < old(self).slices@.len() && segment == #[trigger] old(self).base(s),
        ensures
            final(self).wf(),
            final(self).same_memory(*old(self)),
            final(self).segments == old(self).segments,
            forall|s: int| segment == #[trigger] old(self).base(s) ==> final(self).used_bitmap@
                == old(self).used_bitmap@.update(s, 0u8),
    {
        let ghost s = choose|s: int| 0 <= s < old(self).slices@.len() && segment == #[trigger] old(self).base(s);
        proof {
            self.lemma_base_bounds(0);
            self.lemma_base_bounds(s);
        }
        let first: usize = self.slices[0].ptr;
        let segment_idx: usize = (segment - first) / SEGMENT_SIZE;
        assert(segment_idx == s);
        self.used_bitmap[segment_idx] = 0;
    }

    /// How many buffers the memory from the first segment on is registered as.
    pub open spec fn num_buffers(self) -> int {
        if self.aligned_start_ptr - self.actual_start_ptr > self.size {
            0
        } else {
            (self.size - (self.aligned_start_ptr - self.actual_start_ptr)) / (FIXED_BUFFER_SIZE_BYTES as int)
        }
    }

    /// The buffers to register with a ring: the memory from the first segment on, in equal parts.
    pub fn buffers_to_register(&self) -> (buffers: Vec<Slice>)
        requires
            self.wf(),
        ensures
            buffers@.len() == self.num_buffers(),
            forall|i: int| 0 <= i < buffers@.len() ==> #[trigger] buffers@[i] == (Slice {
                ptr: (self.aligned_start_ptr + i * FIXED_BUFFER_SIZE_BYTES) as usize,
                size: FIXED_BUFFER_SIZE_BYTES,
            }),
    {
        let usable_bytes: usize = self.size.saturating_sub(self.aligned_start_ptr - self.actual_start_ptr);
        assert(usable_bytes >> 20u32 == usable_bytes / 1048576) by (bit_vector);
        let num_buffers: usize = usable_bytes >> FIXED_BUFFER_BITS;
        let mut buffers: Vec<Slice> = Vec::new();
        let mut base_ptr: usize = self.aligned_start_ptr;
        let mut i: usize = 0;
        while i < num_buffers
            invariant
                i <= num_buffers,
                self.wf(),
                num_buffers > 0 ==> self.aligned_start_ptr + num_buffers * FIXED_BUFFER_SIZE_BYTES
                    <= self.actual_start_ptr + self.size,
                base_ptr == self.aligned_start_ptr + i * FIXED_BUFFER_SIZE_BYTES,
                buffers@.len() == i,
                forall|j: int| 0 <= j < i ==> #[trigger] buffers@[j] == (Slice {
                    ptr: (self.aligned_start_ptr + j * FIXED_BUFFER_SIZE_BYTES) as usize,
                    size: FIXED_BUFFER_SIZE_BYTES,
                }),
            decreases num_buffers - i,
        {
            buffers.push(Slice { ptr: base_ptr, size: FIXED_BUFFER_SIZE_BYTES });
            assert((i + 1) * FIXED_BUFFER_SIZE_BYTES <= num_buffers * FIXED_BUFFER_SIZE_BYTES);
            base_ptr = base_ptr + FIXED_BUFFER_SIZE_BYTES;
            i = i + 1;
        }
        buffers
    }

    /// Records whether the ring took the buffers.
    pub fn set_buffers_registered(&mut self, registered: bool)
        ensures
            *final(self) == (Arena { buffers_registered: registered, ..*old(self) }),
    {
        self.buffers_registered = registered;
    }
}

} // verus!
