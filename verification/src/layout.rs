//! Arithmetic on offsets in the store file.

use crate::PAGE_SIZE_U64;
use vstd::prelude::*;

verus! {

/// The last multiple of `alignment` that is not above `value`.
pub open spec fn aligned_down(value: int, alignment: int) -> int {
    value - value % alignment
}

/// The first multiple of `alignment` that is not below `value`.
pub open spec fn aligned_up(value: int, alignment: int) -> int {
    if value % alignment == 0 {
        value
    } else {
        value - value % alignment + alignment
    }
}

/// Aligning up gives the least multiple from `value` on.
pub proof fn lemma_aligned_up(value: int, alignment: int)
    requires
        alignment > 0,
    ensures
        aligned_up(value, alignment) % alignment == 0,
        value <= aligned_up(value, alignment) < value + alignment,
        aligned_down(value, alignment) % alignment == 0,
        value - alignment < aligned_down(value, alignment) <= value,
{
    let q = value / alignment;
    vstd::arithmetic::div_mod::lemma_fundamental_div_mod(value, alignment);
    vstd::arithmetic::div_mod::lemma_mod_multiples_basic(q, alignment);
    vstd::arithmetic::div_mod::lemma_mod_multiples_basic(q + 1, alignment);
    assert(alignment * q == q * alignment && (q + 1) * alignment == q * alignment + alignment) by (nonlinear_arith);
    vstd::arithmetic::div_mod::lemma_mod_bound(value, alignment);
}

pub fn align_down_u64(value: u64, alignment: u64) -> (aligned: u64)
    requires
        alignment > 0,
    ensures
        aligned == aligned_down(value as int, alignment as int),
{
    proof {
        lemma_aligned_up(value as int, alignment as int);
        vstd::arithmetic::div_mod::lemma_fundamental_div_mod(value as int, alignment as int);
        vstd::arithmetic::div_mod::lemma_mod_bound(value as int, alignment as int);
        vstd::arithmetic::div_mod::lemma_mod_decreases(value as nat, alignment as nat);
    }
    value - value % alignment
}

/// `None` where the result does not fit.
pub fn align_up_u64(value: u64, alignment: u64) -> (aligned: Option<u64>)
    requires
        alignment > 0,
    ensures
        aligned == (if aligned_up(value as int, alignment as int) <= u64::MAX {
            Some(aligned_up(value as int, alignment as int) as u64)
        } else {
            None
        }),
{
    let rest: u64 = value % alignment;
    proof {
        vstd::arithmetic::div_mod::lemma_mod_decreases(value as nat, alignment as nat);
        vstd::arithmetic::div_mod::lemma_mod_bound(value as int, alignment as int);
    }
    if rest == 0 {
        Some(value)
    } else {
        value.checked_add(alignment - rest)
    }
}

/// `None` where the result does not fit.
pub fn align_up_u32(value: u32, alignment: u32) -> (aligned: Option<u32>)
    requires
        alignment > 0,
    ensures
        aligned == (if aligned_up(value as int, alignment as int) <= u32::MAX {
            Some(aligned_up(value as int, alignment as int) as u32)
        } else {
            None
        }),
{
    let rest: u32 = value % alignment;
    proof {
        vstd::arithmetic::div_mod::lemma_mod_decreases(value as nat, alignment as nat);
        vstd::arithmetic::div_mod::lemma_mod_bound(value as int, alignment as int);
    }
    if rest == 0 {
        Some(value)
    } else {
        value.checked_add(alignment - rest)
    }
}

/// The sequence number after `lsn`, if there is one.
pub fn allocate_next_lsn(lsn: u64) -> (next: Option<u64>)
    ensures
        next == (if lsn < u64::MAX {
            Some((lsn + 1) as u64)
        } else {
            None
        }),
{
    lsn.checked_add(1)
}

/// A part of the file, and where the file ends once it is used.
#[derive(Clone, Copy, PartialEq, Eq, Structural, Debug)]
pub struct Reservation {
    pub offset: u64,
    pub next_tail: u64,
}

/// Reserves `len` bytes at the end of the file.
pub fn reserve_space(file_tail: u64, len: u32) -> (reservation: Option<Reservation>)
    ensures
        reservation == (if file_tail + len <= u64::MAX {
            Some(Reservation { offset: file_tail, next_tail: (file_tail + len) as u64 })
        } else {
            None
        }),
{
    match file_tail.checked_add(len as u64) {
        Some(next_tail) => Some(Reservation { offset: file_tail, next_tail }),
        None => None,
    }
}

/// A part of a value that was asked for.
#[derive(Clone, Copy, PartialEq, Eq, Structural, Debug)]
pub struct RangeRequestU32 {
    pub start: u32,
    pub len: u32,
}

/// A part of a value that lies inside the value.
#[derive(Clone, Copy, PartialEq, Eq, Structural, Debug)]
pub struct CheckedRangeU32 {
    start: u32,
    end: u32,
}

impl RangeRequestU32 {
    /// `None` where the start or the length is beyond any value.
    pub fn from_u64(start: u64, len: u64) -> (range: Option<RangeRequestU32>)
        ensures
            range == (if start <= u32::MAX && len <= u32::MAX {
                Some(RangeRequestU32 { start: start as u32, len: len as u32 })
            } else {
                None
            }),
    {
        if start > u32::MAX as u64 || len > u32::MAX as u64 {
            None
        } else {
            Some(RangeRequestU32 { start: start as u32, len: len as u32 })
        }
    }

    /// The range, if it lies inside a value of `value_len` bytes.
    pub fn checked_against(self, value_len: u32) -> (range: Option<CheckedRangeU32>)
        ensures
            range is Some <==> self.start + self.len <= value_len,
            range is Some ==> range->0.spec_start() == self.start && range->0.spec_end() == self.start + self.len
                && range->0.wf(),
    {
        match self.start.checked_add(self.len) {
            Some(end) => if end <= value_len {
                Some(CheckedRangeU32 { start: self.start, end })
            } else {
                None
            },
            None => None,
        }
    }
}

impl CheckedRangeU32 {
    pub closed spec fn spec_start(self) -> u32 {
        self.start
    }

    pub closed spec fn spec_end(self) -> u32 {
        self.end
    }

    pub open spec fn wf(self) -> bool {
        self.spec_start() <= self.spec_end()
    }

    pub fn start(&self) -> (start: u32)
        ensures
            start == self.spec_start(),
    {
        self.start
    }

    pub fn end(&self) -> (end: u32)
        ensures
            end == self.spec_end(),
    {
        self.end
    }

    pub fn len(&self) -> (len: u32)
        requires
            self.wf(),
        ensures
            len == self.spec_end() - self.spec_start(),
    {
        self.end - self.start
    }

    pub fn is_empty(&self) -> (empty: bool)
        ensures
            empty == (self.spec_start() == self.spec_end()),
    {
        self.start == self.end
    }
}

/// Multiples of the page size.
pub open spec fn page_aligned(offset: int) -> bool {
    offset % (PAGE_SIZE_U64 as int) == 0
}

} // verus!
