//! Buffers for reads and writes of whole pages.

use crate::error::{ArgumentFault, Error};
use crate::input_kv::copy_bytes;
use crate::layout;
use crate::layout::align_up_u32 as align_up;
use crate::memory::page::PAGE_SIZE as POOL_PAGE_SIZE;
use crate::memory::pool;
use crate::memory::pool::{FixedBufferAllocation, FixedBufferPool};
use crate::{PAGE_SIZE, PAGE_SIZE_U32};
use vstd::prelude::*;

verus! {

/// Aligns a length up; an error where the result does not fit.
pub fn align_up_u32(value: u32, alignment: u32) -> (aligned: Result<u32, Error>)
    requires
        value > 0,
        alignment > 0,
    ensures
        match aligned {
            Ok(aligned) => aligned == layout::aligned_up(value as int, alignment as int) && aligned > 0,
            Err(err) => layout::aligned_up(value as int, alignment as int) > u32::MAX && err == Error::InvalidArgument(
                ArgumentFault::AlignOverflow,
            ),
        },
{
    proof {
        layout::lemma_aligned_up(value as int, alignment as int);
    }
    match align_up(value, alignment) {
        Some(aligned) => Ok(aligned),
        None => Err(Error::InvalidArgument(ArgumentFault::AlignOverflow)),
    }
}

/// Zeroes, `len` of them.
fn zeroes(len: usize) -> (bytes: Vec<u8>)
    ensures
        bytes@ == Seq::new(len as nat, |i: int| 0u8),
{
    let mut bytes: Vec<u8> = Vec::with_capacity(len);
    let mut i: usize = 0;
    while i < len
        invariant
            i <= len,
            bytes@ == Seq::new(i as nat, |k: int| 0u8),
        decreases len - i,
    {
        bytes.push(0);
        assert(bytes@ =~= Seq::new((i + 1) as nat, |k: int| 0u8));
        i = i + 1;
    }
    bytes
}

/// A buffer whose length fits an entry of the ring.
#[derive(Debug)]
pub struct AlignedBuf {
    bytes: Vec<u8>,
}

impl View for AlignedBuf {
    type V = Seq<u8>;

    closed spec fn view(&self) -> Seq<u8> {
        self.bytes@
    }
}

/// `src`, and zeroes up to the next multiple of the page size.
pub open spec fn padded(src: Seq<u8>) -> Seq<u8> {
    src + Seq::new((layout::aligned_up(src.len() as int, PAGE_SIZE as int) - src.len()) as nat, |i: int| 0u8)
}

/// The machine can lay out a page-aligned buffer of `len` bytes.
pub open spec fn can_lay_out(len: int) -> bool {
    len <= isize::MAX - (PAGE_SIZE - 1)
}

/// Why bytes, `len` of them, cannot be padded to whole pages, if they cannot.
pub open spec fn padding_fault(len: nat) -> Option<ArgumentFault> {
    if len == 0 {
        Some(ArgumentFault::EmptySource)
    } else if len > u32::MAX {
        Some(ArgumentFault::SourceTooLong)
    } else if layout::aligned_up(len as int, PAGE_SIZE as int) > u32::MAX {
        Some(ArgumentFault::AlignOverflow)
    } else if !can_lay_out(layout::aligned_up(len as int, PAGE_SIZE as int)) {
        Some(ArgumentFault::BufferLayout)
    } else {
        None
    }
}

impl AlignedBuf {
    #[verifier::type_invariant]
    spec fn fits(self) -> bool {
        0 < self.bytes@.len() <= u32::MAX
    }

    pub fn new_zeroed(len_u32: u32) -> (buf: Result<AlignedBuf, Error>)
        requires
            len_u32 > 0,
        ensures
            match buf {
                Ok(buf) => can_lay_out(len_u32 as int) && buf@ == Seq::new(len_u32 as nat, |i: int| 0u8),
                Err(err) => !can_lay_out(len_u32 as int) && err == Error::InvalidArgument(
                    ArgumentFault::BufferLayout,
                ),
            },
    {
        let len: usize = len_u32 as usize;
        if len > isize::MAX as usize - (PAGE_SIZE - 1) {
            return Err(Error::InvalidArgument(ArgumentFault::BufferLayout));
        }
        Ok(AlignedBuf { bytes: zeroes(len) })
    }

    /// A buffer of whole pages that starts with the given bytes.
    pub fn from_padded_slice(src: &[u8]) -> (buf: Result<AlignedBuf, Error>)
        ensures
            match buf {
                Ok(buf) => padding_fault(src@.len()) is None && buf@ == padded(src@),
                Err(err) => padding_fault(src@.len()) matches Some(fault) && err == Error::InvalidArgument(fault),
            },
    {
        proof {
            layout::lemma_aligned_up(src@.len() as int, PAGE_SIZE as int);
        }
        let len: usize = src.len();
        if len == 0 {
            return Err(Error::InvalidArgument(ArgumentFault::EmptySource));
        }
        if len > u32::MAX as usize {
            return Err(Error::InvalidArgument(ArgumentFault::SourceTooLong));
        }
        let padded_len_u32: u32 = match align_up_u32(len as u32, PAGE_SIZE_U32) {
            Ok(padded_len_u32) => padded_len_u32,
            Err(err) => {
                return Err(err);
            },
        };
        let padded_len: usize = padded_len_u32 as usize;
        let mut bytes: Vec<u8> = match Self::new_zeroed(padded_len_u32) {
            Ok(buf) => buf.bytes,
            Err(err) => {
                return Err(err);
            },
        };
        let mut i: usize = 0;
        while i < len
            invariant
                i <= len == src@.len(),
                len <= padded_len,
                bytes@.len() == padded_len,
                forall|k: int| 0 <= k < i ==> bytes@[k] == src@[k],
                forall|k: int| i <= k < padded_len ==> bytes@[k] == 0,
            decreases len - i,
        {
            bytes[i] = src[i];
            i = i + 1;
        }
        assert(bytes@ =~= padded(src@));
        Ok(AlignedBuf { bytes })
    }

    pub fn len(&self) -> (len: usize)
        ensures
            len == self@.len(),
            0 < len <= u32::MAX,
    {
        proof {
            use_type_invariant(self);
        }
        self.bytes.len()
    }

    pub fn len_u32(&self) -> (len: u32)
        ensures
            len == self@.len(),
            0 < len,
    {
        proof {
            use_type_invariant(self);
        }
        self.bytes.len() as u32
    }

    pub fn as_slice(&self) -> (bytes: &[u8])
        ensures
            bytes@ == self@,
    {
        self.bytes.as_slice()
    }

    /// Replaces the bytes of the buffer.
    pub fn copy_from_slice(&mut self, src: &[u8])
        requires
            src@.len() == old(self)@.len(),
        ensures
            final(self)@ == src@,
    {
        proof {
            use_type_invariant(&*self);
        }
        self.bytes = copy_bytes(src);
    }

    /// The bytes of a buffer of one page.
    pub fn try_into_boxed_array(self) -> (page: Result<Box<[u8; PAGE_SIZE]>, Error>)
        ensures
            match page {
                Ok(page) => self@.len() == PAGE_SIZE && page@ == self@,
                Err(err) => self@.len() != PAGE_SIZE && err == Error::InvalidArgument(ArgumentFault::BufferLayout),
            },
    {
        if self.bytes.len() != PAGE_SIZE {
            return Err(Error::InvalidArgument(ArgumentFault::BufferLayout));
        }
        Ok(boxed_page(self.bytes.as_slice()))
    }
}

/// A page with the given bytes.
fn boxed_page(bytes: &[u8]) -> (page: Box<[u8; PAGE_SIZE]>)
    requires
        bytes@.len() == PAGE_SIZE,
    ensures
        page@ == bytes@,
{
    let mut page: Box<[u8; PAGE_SIZE]> = Box::new([0; PAGE_SIZE]);
    let mut i: usize = 0;
    while i < PAGE_SIZE
        invariant
            i <= PAGE_SIZE == bytes@.len(),
            page@.len() == PAGE_SIZE,
            forall|k: int| 0 <= k < i ==> page@[k] == bytes@[k],
        decreases PAGE_SIZE - i,
    {
        page[i] = bytes[i];
        i = i + 1;
    }
    assert(page@ =~= bytes@);
    page
}

/// A block of the pool, and the bytes that are in it.
#[derive(Debug)]
pub struct FixedBuf {
    pub alloc: FixedBufferAllocation,
    pub bytes: Vec<u8>,
}

/// A buffer for reads: on the heap, or a block of the pool.
#[derive(Debug)]
pub enum ReadBuf {
    Aligned(AlignedBuf),
    Fixed(FixedBuf),
}

impl View for ReadBuf {
    type V = Seq<u8>;

    open spec fn view(&self) -> Seq<u8> {
        match self {
            ReadBuf::Aligned(buf) => buf@,
            ReadBuf::Fixed(buf) => buf.bytes@,
        }
    }
}

impl ReadBuf {
    /// A block holds as many bytes as were asked for.
    pub open spec fn wf(self) -> bool {
        match self {
            ReadBuf::Aligned(_) => true,
            ReadBuf::Fixed(buf) => 0 < buf.alloc.size <= u32::MAX && buf.bytes@.len() == buf.alloc.size,
        }
    }

    pub fn len(&self) -> (len: usize)
        requires
            self.wf(),
        ensures
            len == self@.len(),
            0 < len <= u32::MAX,
    {
        match self {
            ReadBuf::Aligned(buf) => buf.len(),
            ReadBuf::Fixed(buf) => buf.alloc.size,
        }
    }

    pub fn len_u32(&self) -> (len: u32)
        requires
            self.wf(),
        ensures
            len == self@.len(),
            0 < len,
    {
        self.len() as u32
    }

    pub fn as_slice(&self) -> (bytes: &[u8])
        ensures
            bytes@ == self@,
    {
        match self {
            ReadBuf::Aligned(buf) => buf.as_slice(),
            ReadBuf::Fixed(buf) => buf.bytes.as_slice(),
        }
    }

    /// The bytes of a buffer of one page.
    pub fn try_into_boxed_page(self) -> (page: Result<Box<[u8; PAGE_SIZE]>, Error>)
        requires
            self.wf(),
        ensures
            match page {
                Ok(page) => self@.len() == PAGE_SIZE && page@ == self@,
                Err(err) => self@.len() != PAGE_SIZE && err == Error::InvalidArgument(
                    if self is Aligned {
                        ArgumentFault::BufferLayout
                    } else {
                        ArgumentFault::PageBufferSize
                    },
                ),
            },
    {
        match self {
            ReadBuf::Aligned(buf) => buf.try_into_boxed_array(),
            ReadBuf::Fixed(buf) => {
                if buf.alloc.size != PAGE_SIZE {
                    return Err(Error::InvalidArgument(ArgumentFault::PageBufferSize));
                }
                Ok(boxed_page(buf.bytes.as_slice()))
            },
        }
    }
}

/// A buffer for a read of `len` bytes: from the pool where there is one that has room, else from the
/// heap.
pub fn try_read_buf(pool: &mut Option<FixedBufferPool>, cpu: usize, len: u32) -> (buf: Result<ReadBuf, Error>)
    requires
        len > 0,
        *old(pool) is Some ==> (*old(pool))->0.wf(),
        len + POOL_PAGE_SIZE <= usize::MAX,
    ensures
        match buf {
            Ok(buf) => {
                &&& buf.wf()
                &&& buf@ == Seq::new(len as nat, |i: int| 0u8)
                &&& buf is Aligned ==> can_lay_out(len as int)
            },
            Err(err) => !can_lay_out(len as int) && err == Error::InvalidArgument(ArgumentFault::BufferLayout),
        },
        *final(pool) is Some <==> *old(pool) is Some,
        *old(pool) is None ==> !(buf matches Ok(ReadBuf::Fixed(_))),
        *old(pool) is Some ==> {
            let before = (*old(pool))->0;
            let after = (*final(pool))->0;
            &&& after.wf()
            &&& after.same_pool(before)
            &&& pool::malloced(
                before,
                after,
                cpu,
                len as int,
                match buf {
                    Ok(ReadBuf::Fixed(fixed)) => Some(fixed.alloc.ptr),
                    _ => None,
                },
            )
        },
{
    let n: usize = len as usize;
    if let Some(pool) = pool {
        if let Some(ptr) = pool.malloc(cpu, n) {
            return Ok(ReadBuf::Fixed(FixedBuf { alloc: FixedBufferAllocation { ptr, size: n }, bytes: zeroes(n) }));
        }
    }
    match AlignedBuf::new_zeroed(len) {
        Ok(buf) => Ok(ReadBuf::Aligned(buf)),
        Err(err) => Err(err),
    }
}

} // verus!
