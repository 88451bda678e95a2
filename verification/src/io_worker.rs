//! The worker: how requests become entries of a ring, and completions become results.
//!
//! A request takes one or more entries; all of them carry the number of the request. The worker keeps
//! a request until the last of its entries is completed, and then hands out its one result.

use crate::buffer::ReadBuf;
use crate::error::{Error, IoError, IoFault};
use crate::io_task::{
    FileFsyncTask, FileReadTask, FileTask, FileTaskState, FileWriteTask, PageWrite, PendingFsync, PendingRead, PendingWrite,
    WorkerRequest,
};
use crate::memory::arena::FIXED_BUFFER_SIZE_BYTES;
use crate::memory::pool;
use crate::memory::pool::{FixedBuffer, FixedBufferPool};
use std::collections::{HashMap, VecDeque};
use vstd::prelude::*;

verus! {

/// One completion of the ring.
#[derive(Clone, Copy, PartialEq, Eq, Structural, Debug)]
pub struct CompletionEvent {
    pub user_data: u64,
    pub result: i32,
}

/// The number of bytes that a completion reports, or its error.
pub open spec fn cqe_result(result: i32) -> Result<usize, Error> {
    if result < 0 {
        Err(Error::Io(IoError::Fault(IoFault::Os(0i32.wrapping_sub(result)))))
    } else {
        Ok(result as usize)
    }
}

pub fn decode_cqe_result(result: i32) -> (decoded: Result<usize, Error>)
    ensures
        decoded == cqe_result(result),
{
    if result < 0 {
        return Err(Error::Io(IoError::Fault(IoFault::Os(0i32.wrapping_sub(result)))));
    }
    Ok(result as usize)
}

/// What an entry of the ring does.
#[derive(Clone, Copy, PartialEq, Eq, Structural, Debug)]
pub enum Op {
    /// Read into the buffer of the request.
    Read { len: u32 },
    /// Read into a registered buffer.
    ReadFixed { ptr: usize, len: u32, buf_id: u16 },
    /// Write page `index` of the request.
    Write { index: usize, len: u32 },
    Fsync,
}

/// An entry of the submission queue.
#[derive(Clone, Copy, PartialEq, Eq, Structural, Debug)]
pub struct SubmissionEntry {
    pub op: Op,
    pub offset: u64,
    /// The next entry waits for this one.
    pub linked: bool,
    pub user_data: u64,
}

/// The number of a request and the place of an entry in it, in one word.
pub open spec fn user_data(request_id: u32, op_index: int) -> int {
    request_id * 0x1_0000_0000 + op_index % 0x1_0000_0000
}

pub fn encode_user_data(request_id: u32, op_index: usize) -> (encoded: u64)
    ensures
        encoded == user_data(request_id, op_index as int),
{
    let wide: u64 = op_index as u64;
    let low: u32 = #[verifier::truncate]
    (wide as u32);
    proof {
        assert(wide as u32 == wide % 0x1_0000_0000) by (bit_vector);
        let id = request_id as u64;
        let index = low as u64;
        assert(((id << 32u64) | index) == id * 0x1_0000_0000 + index) by (bit_vector)
            requires
                id <= 0xffff_ffff,
                index <= 0xffff_ffff,
        ;
    }
    ((request_id as u64) << 32u64) | (low as u64)
}

pub fn decode_user_data(encoded: u64) -> (decoded: (u32, usize))
    ensures
        decoded.0 == encoded / 0x1_0000_0000,
        decoded.1 == encoded % 0x1_0000_0000,
{
    proof {
        assert((encoded >> 32u64) == encoded / 0x1_0000_0000) by (bit_vector);
        assert((encoded as u32) == encoded % 0x1_0000_0000) by (bit_vector);
    }
    let id: u32 = (encoded >> 32u64) as u32;
    let index: u32 = #[verifier::truncate]
    (encoded as u32);
    (id, index as usize)
}

/// What is encoded is decoded again, for every place in a request.
pub proof fn law_user_data(request_id: u32, op_index: int)
    requires
        0 <= op_index <= u32::MAX,
    ensures
        user_data(request_id, op_index) / 0x1_0000_0000 == request_id,
        user_data(request_id, op_index) % 0x1_0000_0000 == op_index,
{
}

/// What a request has come to.
#[derive(Debug)]
pub enum Outcome {
    Read(Result<(ReadBuf, usize), Error>),
    Write(Result<(), Error>),
    Fsync(Result<(), Error>),
}

/// The result of a request, and the place where it goes.
#[derive(Debug)]
pub struct Completion {
    pub completion: u64,
    pub outcome: Outcome,
}

/// The submission queue.
#[derive(Debug)]
pub struct SubmissionRing {
    pub capacity: usize,
    /// Entries that were handed over to the kernel and still hold a slot.
    pub held: usize,
    /// Entries that were not handed over yet.
    pub entries: Vec<SubmissionEntry>,
}

impl SubmissionRing {
    pub open spec fn wf(self) -> bool {
        self.held + self.entries@.len() <= self.capacity
    }

    pub open spec fn available(self) -> int {
        self.capacity - self.held - self.entries@.len()
    }

    pub fn new(capacity: usize) -> (ring: SubmissionRing)
        ensures
            ring.wf(),
            ring.capacity == capacity,
            ring.held == 0,
            ring.entries@.len() == 0,
    {
        SubmissionRing { capacity, held: 0, entries: Vec::new() }
    }

    pub fn available_submission_slots(&self) -> (slots: usize)
        requires
            self.wf(),
        ensures
            slots == self.available(),
    {
        self.capacity - self.held - self.entries.len()
    }

    pub fn push(&mut self, entry: SubmissionEntry) -> (pushed: Result<(), Error>)
        requires
            old(self).wf(),
        ensures
            final(self).wf(),
            final(self).capacity == old(self).capacity,
            final(self).held == old(self).held,
            old(self).available() > 0 ==> pushed is Ok && final(self).entries@ == old(self).entries@.push(entry),
            old(self).available() == 0 ==> {
                &&& pushed == Err::<(), Error>(Error::Io(IoError::Fault(IoFault::QueueFull)))
                &&& final(self).entries@ == old(self).entries@
            },
    {
        if self.available_submission_slots() == 0 {
            return Err(Error::Io(IoError::Fault(IoFault::QueueFull)));
        }
        self.entries.push(entry);
        Ok(())
    }

    /// Hands the entries over to the kernel. They hold their slots until it has taken them up.
    pub fn submit(&mut self) -> (entries: Vec<SubmissionEntry>)
        requires
            old(self).wf(),
        ensures
            final(self).wf(),
            final(self).capacity == old(self).capacity,
            final(self).held == old(self).held + old(self).entries@.len(),
            final(self).entries@.len() == 0,
            entries@ == old(self).entries@,
    {
        let mut entries: Vec<SubmissionEntry> = Vec::new();
        core::mem::swap(&mut self.entries, &mut entries);
        self.held = self.held + entries.len();
        entries
    }

    /// The kernel has taken up entries that were handed over, all but the last `left`, whose slots are
    /// not free yet.
    pub fn on_submitted(&mut self, left: usize)
        requires
            old(self).wf(),
            left <= old(self).held,
        ensures
            final(self).wf(),
            *final(self) == (SubmissionRing { held: left, ..*old(self) }),
            final(self).available() == old(self).available() + (old(self).held - left),
    {
        self.held = left;
    }
}

#[derive(Debug)]
pub enum InflightRequestKind {
    Read { buf: ReadBuf, read_accum: usize, expected_total: usize },
    Write { pages: Vec<PageWrite> },
    Fsync,
}

/// A request that waits for completions.
#[derive(Debug)]
pub struct InflightRequest {
    pub remaining: usize,
    /// The first error that was reported.
    pub error: Option<Error>,
    pub kind: InflightRequestKind,
    pub completion: u64,
}

/// The result of a request, once all its entries are completed.
pub open spec fn outcome_of(request: InflightRequest) -> Outcome {
    match request.kind {
        InflightRequestKind::Read { buf, read_accum, expected_total } => Outcome::Read(
            match request.error {
                Some(err) => Err(err),
                None => if read_accum != expected_total {
                    Err(Error::Io(IoError::Fault(IoFault::ShortRead { expected: expected_total, got: read_accum })))
                } else {
                    Ok((buf, read_accum))
                },
            },
        ),
        InflightRequestKind::Write { .. } => Outcome::Write(
            match request.error {
                Some(err) => Err(err),
                None => Ok(()),
            },
        ),
        InflightRequestKind::Fsync => Outcome::Fsync(
            match request.error {
                Some(err) => Err(err),
                None => Ok(()),
            },
        ),
    }
}

/// The result of a request that failed as a whole.
pub open spec fn failed(kind: InflightRequestKind, err: Error) -> Outcome {
    match kind {
        InflightRequestKind::Read { .. } => Outcome::Read(Err(err)),
        InflightRequestKind::Write { .. } => Outcome::Write(Err(err)),
        InflightRequestKind::Fsync => Outcome::Fsync(Err(err)),
    }
}

/// The result of a request that was never taken up.
pub open spec fn refused(request: WorkerRequest, err: Error) -> Outcome {
    match request {
        WorkerRequest::Read { .. } => Outcome::Read(Err(err)),
        WorkerRequest::Write { .. } => Outcome::Write(Err(err)),
        WorkerRequest::Fsync { .. } => Outcome::Fsync(Err(err)),
    }
}

impl InflightRequest {
    pub fn complete(self) -> (done: Completion)
        ensures
            done == (Completion { completion: self.completion, outcome: outcome_of(self) }),
    {
        let outcome = match self.kind {
            InflightRequestKind::Read { buf, read_accum, expected_total } => match self.error {
                Some(err) => Outcome::Read(Err(err)),
                None => {
                    if read_accum != expected_total {
                        Outcome::Read(
                            Err(
                                Error::Io(
                                    IoError::Fault(
                                        IoFault::ShortRead { expected: expected_total, got: read_accum },
                                    ),
                                ),
                            ),
                        )
                    } else {
                        Outcome::Read(Ok((buf, read_accum)))
                    }
                },
            },
            InflightRequestKind::Write { .. } => match self.error {
                Some(err) => Outcome::Write(Err(err)),
                None => Outcome::Write(Ok(())),
            },
            InflightRequestKind::Fsync => match self.error {
                Some(err) => Outcome::Fsync(Err(err)),
                None => Outcome::Fsync(Ok(())),
            },
        };
        Completion { completion: self.completion, outcome }
    }

    pub fn complete_with_error(self, err: Error) -> (done: Completion)
        ensures
            done == (Completion { completion: self.completion, outcome: failed(self.kind, err) }),
    {
        let outcome = match self.kind {
            InflightRequestKind::Read { .. } => Outcome::Read(Err(err)),
            InflightRequestKind::Write { .. } => Outcome::Write(Err(err)),
            InflightRequestKind::Fsync => Outcome::Fsync(Err(err)),
        };
        Completion { completion: self.completion, outcome }
    }
}

pub fn complete_request_with_error(request: WorkerRequest, err: Error) -> (done: Completion)
    ensures
        done == (Completion { completion: request.spec_completion(), outcome: refused(request, err) }),
{
    match request {
        WorkerRequest::Read { completion, .. } => Completion { completion, outcome: Outcome::Read(Err(err)) },
        WorkerRequest::Write { completion, .. } => Completion { completion, outcome: Outcome::Write(Err(err)) },
        WorkerRequest::Fsync { completion } => Completion { completion, outcome: Outcome::Fsync(Err(err)) },
    }
}

/// The first of two errors.
pub open spec fn first_error(error: Option<Error>, result: Result<usize, Error>) -> Option<Error> {
    match error {
        Some(err) => Some(err),
        None => match result {
            Ok(_) => None,
            Err(err) => Some(err),
        },
    }
}

/// What the completion of a write of `expected` bytes reports.
pub open spec fn write_result(result: i32, expected: int) -> Result<usize, Error> {
    match cqe_result(result) {
        Ok(n) => if n == expected {
            Ok(n)
        } else {
            Err(Error::Io(IoError::Fault(IoFault::ShortWrite { expected: expected as usize, got: n })))
        },
        Err(err) => Err(err),
    }
}

/// The entry is one of the request.
pub open spec fn has_entry(request: InflightRequest, op_index: int) -> bool {
    match request.kind {
        InflightRequestKind::Write { pages } => op_index < pages@.len(),
        _ => true,
    }
}

/// A request after one more of its entries is completed.
pub open spec fn progressed(request: InflightRequest, op_index: int, result: i32) -> InflightRequest {
    let remaining = if request.remaining > 0 {
        (request.remaining - 1) as usize
    } else {
        0
    };
    match request.kind {
        InflightRequestKind::Read { buf, read_accum, expected_total } => InflightRequest {
            remaining,
            error: first_error(request.error, cqe_result(result)),
            kind: InflightRequestKind::Read {
                buf,
                read_accum: match cqe_result(result) {
                    Ok(n) => read_accum.saturating_add(n),
                    Err(_) => read_accum,
                },
                expected_total,
            },
            completion: request.completion,
        },
        InflightRequestKind::Write { pages } => InflightRequest {
            remaining,
            error: first_error(request.error, write_result(result, pages@[op_index].buf@.len() as int)),
            ..request
        },
        InflightRequestKind::Fsync => InflightRequest {
            remaining,
            error: first_error(request.error, cqe_result(result)),
            ..request
        },
    }
}

/// Takes in the completion of one entry of a request.
fn progress(request: InflightRequest, op_index: usize, result: i32) -> (next: InflightRequest)
    requires
        has_entry(request, op_index as int),
    ensures
        next == progressed(request, op_index as int, result),
{
    let remaining: usize = if request.remaining > 0 {
        request.remaining - 1
    } else {
        0
    };
    let mut error: Option<Error> = request.error;
    let completion: u64 = request.completion;
    let kind = match request.kind {
        InflightRequestKind::Read { buf, read_accum, expected_total } => {
            let mut accum: usize = read_accum;
            match decode_cqe_result(result) {
                Ok(n) => {
                    accum = read_accum.saturating_add(n);
                },
                Err(err) => {
                    if error.is_none() {
                        error = Some(err);
                    }
                },
            }
            InflightRequestKind::Read { buf, read_accum: accum, expected_total }
        },
        InflightRequestKind::Write { pages } => {
            let expected: usize = pages[op_index].buf.len();
            match decode_cqe_result(result) {
                Ok(n) => {
                    if n != expected && error.is_none() {
                        error = Some(Error::Io(IoError::Fault(IoFault::ShortWrite { expected, got: n })));
                    }
                },
                Err(err) => {
                    if error.is_none() {
                        error = Some(err);
                    }
                },
            }
            InflightRequestKind::Write { pages }
        },
        InflightRequestKind::Fsync => {
            match decode_cqe_result(result) {
                Ok(_) => {},
                Err(err) => {
                    if error.is_none() {
                        error = Some(err);
                    }
                },
            }
            InflightRequestKind::Fsync
        },
    };
    InflightRequest { remaining, error, kind, completion }
}

/// The pool is registered with the ring, and the buffer is a block of it.
pub open spec fn uses_fixed(pool: Option<FixedBufferPool>, buf: ReadBuf) -> bool {
    pool is Some && pool->0.registered && buf is Fixed
}

/// A block lies inside the pool that it is used with.
pub open spec fn fixed_ok(pool: Option<FixedBufferPool>, buf: ReadBuf) -> bool {
    uses_fixed(pool, buf) ==> {
        &&& pool->0.wf()
        &&& pool->0.start_ptr <= buf->Fixed_0.alloc.ptr < pool->0.start_ptr + pool->0.capacity
        &&& buf->Fixed_0.alloc.ptr + buf->Fixed_0.alloc.size + FIXED_BUFFER_SIZE_BYTES <= usize::MAX
    }
}

/// The parts of a block, one for each registered buffer that it touches.
pub open spec fn parts_of(pool: Option<FixedBufferPool>, buf: ReadBuf) -> Seq<FixedBuffer> {
    pool::fixed_parts(
        pool->0.start_ptr as int,
        buf->Fixed_0.alloc.ptr as int,
        buf->Fixed_0.alloc.size as int,
    )
}

/// Where part `i` of a read at `offset` lies in the file.
pub open spec fn part_offset(offset: u64, parts: Seq<FixedBuffer>, i: int) -> u64
    decreases i,
{
    if i <= 0 {
        offset
    } else {
        part_offset(offset, parts, i - 1).wrapping_add(parts[i - 1].bytes as u64)
    }
}

/// The entries of a read.
pub open spec fn read_entries(pool: Option<FixedBufferPool>, buf: ReadBuf, offset: u64, id: u32) -> Seq<SubmissionEntry> {
    if uses_fixed(pool, buf) {
        let parts = parts_of(pool, buf);
        Seq::new(
            parts.len(),
            |i: int|
                SubmissionEntry {
                    op: Op::ReadFixed {
                        ptr: parts[i].ptr,
                        len: parts[i].bytes as u32,
                        buf_id: parts[i].buf_id as u16,
                    },
                    offset: part_offset(offset, parts, i),
                    linked: i + 1 < parts.len(),
                    user_data: user_data(id, i) as u64,
                },
        )
    } else {
        seq![
            SubmissionEntry {
                op: Op::Read { len: buf@.len() as u32 },
                offset,
                linked: false,
                user_data: user_data(id, 0) as u64,
            },
        ]
    }
}

/// The entries of a write: one for each page, each but the last linked to the next.
pub open spec fn write_entries(writes: Seq<PageWrite>, id: u32) -> Seq<SubmissionEntry> {
    Seq::new(
        writes.len(),
        |i: int|
            SubmissionEntry {
                op: Op::Write { index: i as usize, len: writes[i].buf@.len() as u32 },
                offset: writes[i].offset,
                linked: i + 1 < writes.len(),
                user_data: user_data(id, i) as u64,
            },
    )
}

/// The entries of a request.
pub open spec fn entries_of(pool: Option<FixedBufferPool>, request: WorkerRequest, id: u32) -> Seq<SubmissionEntry> {
    match request {
        WorkerRequest::Read { buf, offset, .. } => read_entries(pool, buf, offset, id),
        WorkerRequest::Write { writes, .. } => write_entries(writes@, id),
        WorkerRequest::Fsync { .. } => seq![
            SubmissionEntry { op: Op::Fsync, offset: 0, linked: false, user_data: user_data(id, 0) as u64 },
        ],
    }
}

/// How many entries a request takes.
pub open spec fn op_count(pool: Option<FixedBufferPool>, request: WorkerRequest) -> int {
    entries_of(pool, request, 0).len() as int
}

/// A request that can be taken up.
pub open spec fn request_ok(pool: Option<FixedBufferPool>, request: WorkerRequest) -> bool {
    &&& request.wf()
    &&& request matches WorkerRequest::Read { buf, .. } ==> fixed_ok(pool, buf)
}

/// A request, just submitted.
pub open spec fn inflight_of(request: WorkerRequest, remaining: int) -> InflightRequest {
    match request {
        WorkerRequest::Read { buf, completion, .. } => InflightRequest {
            remaining: remaining as usize,
            error: None,
            kind: InflightRequestKind::Read { buf, read_accum: 0, expected_total: buf@.len() as usize },
            completion,
        },
        WorkerRequest::Write { writes, completion } => InflightRequest {
            remaining: remaining as usize,
            error: None,
            kind: InflightRequestKind::Write { pages: writes },
            completion,
        },
        WorkerRequest::Fsync { completion } => InflightRequest {
            remaining: remaining as usize,
            error: None,
            kind: InflightRequestKind::Fsync,
            completion,
        },
    }
}

/// How many entries the read of a buffer takes.
pub fn read_op_count(pool: &Option<FixedBufferPool>, buf: &ReadBuf) -> (count: usize)
    requires
        buf.wf(),
        fixed_ok(*pool, *buf),
    ensures
        count == read_entries(*pool, *buf, 0, 0).len(),
        forall|offset: u64, id: u32| (#[trigger] read_entries(*pool, *buf, offset, id)).len() == count,
{
    if let Some(pool) = pool {
        if pool.buffers_registered() {
            if let ReadBuf::Fixed(fixed) = buf {
                return pool.get_fixed_buffers(&fixed.alloc).len();
            }
        }
    }
    1
}

/// How many entries a request takes.
pub fn request_op_count(pool: &Option<FixedBufferPool>, request: &WorkerRequest) -> (count: usize)
    requires
        request_ok(*pool, *request),
    ensures
        count == op_count(*pool, *request),
        count > 0,
{
    match request {
        WorkerRequest::Read { buf, .. } => {
            proof {
                lemma_parts_nonempty(*pool, *buf);
            }
            read_op_count(pool, buf)
        },
        WorkerRequest::Fsync { .. } => 1,
        WorkerRequest::Write { writes, .. } => writes.len(),
    }
}

/// A read takes at least one entry.
proof fn lemma_parts_nonempty(pool: Option<FixedBufferPool>, buf: ReadBuf)
    requires
        buf.wf(),
        fixed_ok(pool, buf),
    ensures
        read_entries(pool, buf, 0, 0).len() > 0,
{
    if uses_fixed(pool, buf) {
        let start = pool->0.start_ptr as int;
        let ptr = buf->Fixed_0.alloc.ptr as int;
        let size = buf->Fixed_0.alloc.size as int;
        let buf_id = (ptr - start) / (FIXED_BUFFER_SIZE_BYTES as int);
        assert(start + (buf_id + 1) * FIXED_BUFFER_SIZE_BYTES - ptr > 0);
        assert(parts_of(pool, buf).len() > 0);
    }
}

/// The entries of a read.
pub fn read_sqes(pool: &Option<FixedBufferPool>, buf: &ReadBuf, offset: u64, request_id: u32) -> (entries: Vec<
    SubmissionEntry,
>)
    requires
        buf.wf(),
        fixed_ok(*pool, *buf),
    ensures
        entries@ == read_entries(*pool, *buf, offset, request_id),
{
    let ghost p = *pool;
    let mut entries: Vec<SubmissionEntry> = Vec::new();
    if let Some(pool) = pool {
        if pool.buffers_registered() {
            if let ReadBuf::Fixed(fixed) = buf {
                let parts: Vec<FixedBuffer> = pool.get_fixed_buffers(&fixed.alloc);
                let n: usize = parts.len();
                let mut file_off: u64 = offset;
                let mut i: usize = 0;
                while i < n
                    invariant
                        i <= n == parts@.len(),
                        p == Some(*pool),
                        uses_fixed(p, *buf),
                        parts@ == parts_of(p, *buf),
                        file_off == part_offset(offset, parts@, i as int),
                        entries@ == read_entries(p, *buf, offset, request_id).take(i as int),
                    decreases n - i,
                {
                    let part: FixedBuffer = parts[i];
                    entries.push(
                        SubmissionEntry {
                            op: Op::ReadFixed {
                                ptr: part.ptr,
                                len: #[verifier::truncate]
                                (part.bytes as u32),
                                buf_id: #[verifier::truncate]
                                (part.buf_id as u16),
                            },
                            offset: file_off,
                            linked: i + 1 < n,
                            user_data: encode_user_data(request_id, i),
                        },
                    );
                    file_off = file_off.wrapping_add(part.bytes as u64);
                    assert(entries@ =~= read_entries(p, *buf, offset, request_id).take(i + 1));
                    i = i + 1;
                }
                assert(entries@ =~= read_entries(p, *buf, offset, request_id));
                return entries;
            }
        }
    }
    entries.push(
        SubmissionEntry {
            op: Op::Read { len: buf.len_u32() },
            offset,
            linked: false,
            user_data: encode_user_data(request_id, 0),
        },
    );
    assert(entries@ =~= read_entries(p, *buf, offset, request_id));
    entries
}

/// The entries of a write.
pub fn write_sqes(writes: &Vec<PageWrite>, request_id: u32) -> (entries: Vec<SubmissionEntry>)
    ensures
        entries@ == write_entries(writes@, request_id),
{
    let mut entries: Vec<SubmissionEntry> = Vec::new();
    let page_count: usize = writes.len();
    let mut index: usize = 0;
    while index < page_count
        invariant
            index <= page_count == writes@.len(),
            entries@ == write_entries(writes@, request_id).take(index as int),
        decreases page_count - index,
    {
        entries.push(
            SubmissionEntry {
                op: Op::Write { index, len: writes[index].buf.len_u32() },
                offset: writes[index].offset,
                linked: index + 1 < page_count,
                user_data: encode_user_data(request_id, index),
            },
        );
        assert(entries@ =~= write_entries(writes@, request_id).take(index + 1));
        index = index + 1;
    }
    assert(entries@ =~= write_entries(writes@, request_id));
    entries
}

/// The entries of a request.
pub fn request_sqes(pool: &Option<FixedBufferPool>, request: &WorkerRequest, request_id: u32) -> (entries: Vec<
    SubmissionEntry,
>)
    requires
        request_ok(*pool, *request),
    ensures
        entries@ == entries_of(*pool, *request, request_id),
        entries@.len() == op_count(*pool, *request),
        entries@.len() > 0,
{
    match request {
        WorkerRequest::Read { buf, offset, .. } => {
            proof {
                lemma_parts_nonempty(*pool, *buf);
            }
            read_sqes(pool, buf, *offset, request_id)
        },
        WorkerRequest::Write { writes, .. } => write_sqes(writes, request_id),
        WorkerRequest::Fsync { .. } => {
            let mut entries: Vec<SubmissionEntry> = Vec::new();
            entries.push(
                SubmissionEntry { op: Op::Fsync, offset: 0, linked: false, user_data: encode_user_data(request_id, 0) },
            );
            assert(entries@ =~= entries_of(*pool, *request, request_id));
            entries
        },
    }
}

/// The state of the worker: its submission queue and the requests that wait for completions.
pub struct UringBackend {
    pub queue_depth: usize,
    pub ring: SubmissionRing,
    pub inflight_requests: HashMap<u32, InflightRequest>,
    pub next_request_id: u32,
}

/// The places that the worker owes a result.
pub open spec fn owed(inflight: Map<u32, InflightRequest>) -> Set<u64> {
    Set::new(|c: u64| exists|k: u32| inflight.dom().contains(k) && #[trigger] inflight[k].completion == c)
}

/// No place is owed two results.
pub open spec fn owed_once(inflight: Map<u32, InflightRequest>) -> bool {
    forall|j: u32, k: u32|
        inflight.dom().contains(j) && inflight.dom().contains(k) && (#[trigger] inflight[j]).completion == (
        #[trigger] inflight[k]).completion ==> j == k
}

/// Every request waits for some entry.
pub open spec fn all_waiting(inflight: Map<u32, InflightRequest>) -> bool {
    forall|k: u32| #[trigger] inflight.dom().contains(k) ==> inflight[k].remaining > 0
}

/// What one more request makes of what is owed.
proof fn lemma_owed_insert(inflight: Map<u32, InflightRequest>, id: u32, request: InflightRequest)
    requires
        owed_once(inflight),
        !inflight.dom().contains(id),
        !owed(inflight).contains(request.completion),
    ensures
        owed(inflight.insert(id, request)) == owed(inflight).insert(request.completion),
        owed_once(inflight.insert(id, request)),
{
    let more = inflight.insert(id, request);
    assert forall|c: u64| #[trigger] owed(more).contains(c) == owed(inflight).insert(request.completion).contains(c) by {
        if owed(more).contains(c) {
            let k = choose|k: u32| more.dom().contains(k) && #[trigger] more[k].completion == c;
            if k != id {
                assert(inflight[k].completion == c);
            }
        }
        if owed(inflight).contains(c) {
            let k = choose|k: u32| inflight.dom().contains(k) && #[trigger] inflight[k].completion == c;
            assert(more[k].completion == c);
        }
        assert(more[id].completion == request.completion);
    }
    assert(owed(more) =~= owed(inflight).insert(request.completion));
    assert forall|j: u32, k: u32|
        more.dom().contains(j) && more.dom().contains(k) && (#[trigger] more[j]).completion == (
        #[trigger] more[k]).completion implies j == k by {
        if j != k {
            if j == id {
                assert(inflight[k].completion == request.completion);
                assert(owed(inflight).contains(request.completion));
            } else if k == id {
                assert(inflight[j].completion == request.completion);
                assert(owed(inflight).contains(request.completion));
            } else {
                assert(inflight[j].completion == inflight[k].completion);
            }
        }
    }
}

/// What one request less makes of what is owed.
proof fn lemma_owed_remove(inflight: Map<u32, InflightRequest>, id: u32)
    requires
        owed_once(inflight),
        inflight.dom().contains(id),
    ensures
        owed(inflight.remove(id)) == owed(inflight).remove(inflight[id].completion),
        owed_once(inflight.remove(id)),
        owed(inflight).contains(inflight[id].completion),
{
    let less = inflight.remove(id);
    let place = inflight[id].completion;
    assert forall|c: u64| #[trigger] owed(less).contains(c) == owed(inflight).remove(place).contains(c) by {
        if owed(less).contains(c) {
            let k = choose|k: u32| less.dom().contains(k) && #[trigger] less[k].completion == c;
            assert(inflight[k].completion == c);
        }
        if owed(inflight).contains(c) && c != place {
            let k = choose|k: u32| inflight.dom().contains(k) && #[trigger] inflight[k].completion == c;
            assert(less[k].completion == c);
        }
    }
    assert(owed(less) =~= owed(inflight).remove(place));
    assert forall|j: u32, k: u32|
        less.dom().contains(j) && less.dom().contains(k) && (#[trigger] less[j]).completion == (
        #[trigger] less[k]).completion implies j == k by {
        assert(inflight[j].completion == inflight[k].completion);
    }
}

/// What changing a request, but for the place of its result, makes of what is owed.
proof fn lemma_owed_update(inflight: Map<u32, InflightRequest>, id: u32, request: InflightRequest)
    requires
        owed_once(inflight),
        inflight.dom().contains(id),
        request.completion == inflight[id].completion,
    ensures
        owed(inflight.insert(id, request)) == owed(inflight),
        owed_once(inflight.insert(id, request)),
{
    let next = inflight.insert(id, request);
    assert forall|c: u64| #[trigger] owed(next).contains(c) == owed(inflight).contains(c) by {
        if owed(next).contains(c) {
            let k = choose|k: u32| next.dom().contains(k) && #[trigger] next[k].completion == c;
            assert(inflight[k].completion == c);
        }
        if owed(inflight).contains(c) {
            let k = choose|k: u32| inflight.dom().contains(k) && #[trigger] inflight[k].completion == c;
            assert(next[k].completion == c);
        }
    }
    assert(owed(next) =~= owed(inflight));
    assert forall|j: u32, k: u32|
        next.dom().contains(j) && next.dom().contains(k) && (#[trigger] next[j]).completion == (
        #[trigger] next[k]).completion implies j == k by {
        assert(inflight[j].completion == inflight[k].completion);
    }
}

/// A set that has all 32-bit numbers has that many elements.
proof fn lemma_all_ids(ids: Set<u32>)
    requires
        ids.finite(),
        forall|x: u32| ids.contains(x),
    ensures
        ids.len() >= 0x1_0000_0000,
{
    let range = vstd::set_lib::set_int_range(0, 0x1_0000_0000);
    vstd::set_lib::lemma_int_range(0, 0x1_0000_0000);
    let f = |i: int| i as u32;
    let image = range.map(f);
    assert(vstd::relations::injective_on(f, range)) by {
        assert forall|x: int, y: int| range.contains(x) && range.contains(y) && #[trigger] f(x) == #[trigger] f(y)
            implies x == y by {}
    }
    vstd::set_lib::lemma_map_size(range, image, f);
    assert(image.subset_of(ids));
    vstd::set_lib::lemma_len_subset(image, ids);
}

impl UringBackend {
    pub open spec fn wf(self) -> bool {
        &&& self.ring.wf()
        &&& owed_once(self.inflight_requests@)
        &&& all_waiting(self.inflight_requests@)
        &&& self.inflight_requests@.dom().finite()
    }

    pub fn new(queue_depth: usize, capacity: usize) -> (backend: UringBackend)
        ensures
            backend.wf(),
            backend.queue_depth == queue_depth,
            backend.ring.capacity == capacity,
            backend.ring.held == 0,
            backend.ring.entries@.len() == 0,
            backend.inflight_requests@ == Map::<u32, InflightRequest>::empty(),
            backend.next_request_id == 0,
    {
        UringBackend {
            queue_depth,
            ring: SubmissionRing::new(capacity),
            inflight_requests: HashMap::new(),
            next_request_id: 0,
        }
    }

    /// The next number that no request in flight has.
    pub fn allocate_request_id(&mut self) -> (id: u32)
        requires
            old(self).wf(),
            old(self).inflight_requests@.dom().len() < 0x1_0000_0000,
        ensures
            *final(self) == (UringBackend { next_request_id: id, ..*old(self) }),
            next_free(old(self).inflight_requests@, old(self).next_request_id, id),
    {
        broadcast use vstd::std_specs::hash::group_hash_axioms;

        let ghost start = self.next_request_id as int;
        let ghost mut n: int = 0;
        loop
            invariant
                0 <= n < 0x1_0000_0000,
                start == old(self).next_request_id,
                old(self).wf(),
                old(self).inflight_requests@.dom().len() < 0x1_0000_0000,
                *self == (UringBackend { next_request_id: self.next_request_id, ..*old(self) }),
                self.next_request_id == (start + n) % 0x1_0000_0000,
                skipped(old(self).inflight_requests@, old(self).next_request_id, n),
            decreases 0x1_0000_0000 - n,
        {
            self.next_request_id = self.next_request_id.wrapping_add(1);
            assert(self.next_request_id == (start + n + 1) % 0x1_0000_0000);
            if !self.inflight_requests.contains_key(&self.next_request_id) {
                return self.next_request_id;
            }
            proof {
                assert(skipped(old(self).inflight_requests@, old(self).next_request_id, n + 1));
                if n + 1 == 0x1_0000_0000 {
                    let ids = old(self).inflight_requests@.dom();
                    assert forall|x: u32| ids.contains(x) by {
                        let i = (x - start - 1) % 0x1_0000_0000;
                        assert((start + i + 1) % 0x1_0000_0000 == x);
                        assert(ids.contains(((start + i + 1) % 0x1_0000_0000) as u32));
                    }
                    lemma_all_ids(ids);
                }
                n = n + 1;
            }
        }
    }
}

/// The `n` numbers after `last` are all in use.
pub open spec fn skipped(inflight: Map<u32, InflightRequest>, last: u32, n: int) -> bool {
    forall|i: int|
        0 <= i < n ==> inflight.dom().contains((#[trigger] ((last + i + 1) % 0x1_0000_0000)) as u32)
}

/// `id` is the first number after `last` that no request in flight has. The numbers wrap.
pub open spec fn next_free(inflight: Map<u32, InflightRequest>, last: u32, id: u32) -> bool {
    &&& !inflight.dom().contains(id)
    &&& exists|n: int| #[trigger]
        skipped(inflight, last, n) && 0 <= n < 0x1_0000_0000 && id == (last + n + 1) % 0x1_0000_0000
}

/// The submission queue is full.
pub open spec fn queue_full() -> Error {
    Error::Io(IoError::Fault(IoFault::QueueFull))
}

/// What submitting a request does. Where there are slots for all its entries, it waits for as many
/// completions. Where there are too few, a write waits for those entries that found a slot, and any
/// other request fails.
pub open spec fn submitted(
    before: UringBackend,
    after: UringBackend,
    pool: Option<FixedBufferPool>,
    request: WorkerRequest,
    done: Seq<Completion>,
) -> bool {
    let id = after.next_request_id;
    let entries = entries_of(pool, request, id);
    let n = entries.len() as int;
    let slots = before.ring.available();
    &&& next_free(before.inflight_requests@, before.next_request_id, id)
    &&& after.queue_depth == before.queue_depth
    &&& after.ring.capacity == before.ring.capacity
    &&& after.ring.held == before.ring.held
    &&& after.ring.entries@ == before.ring.entries@ + entries.take(if n <= slots {
        n
    } else {
        slots
    })
    &&& if n <= slots {
        &&& after.inflight_requests@ == before.inflight_requests@.insert(id, inflight_of(request, n))
        &&& done == Seq::<Completion>::empty()
    } else if request is Write && slots > 0 {
        &&& after.inflight_requests@ == before.inflight_requests@.insert(
            id,
            (InflightRequest { error: Some(queue_full()), ..inflight_of(request, slots) }),
        )
        &&& done == Seq::<Completion>::empty()
    } else {
        &&& after.inflight_requests@ == before.inflight_requests@
        &&& done == seq![
            Completion { completion: request.spec_completion(), outcome: refused(request, queue_full()) },
        ]
    }
}

/// Every place that was owed a result either still is, or has one of the results, and no other place
/// has one.
pub open spec fn settled(before: Set<u64>, after: Set<u64>, done: Seq<Completion>) -> bool {
    &&& forall|c: u64| #[trigger] before.contains(c) <==> after.contains(c) || exists|i: int|
        0 <= i < done.len() && #[trigger] done[i].completion == c
    &&& forall|i: int| 0 <= i < done.len() ==> !after.contains(#[trigger] done[i].completion)
    &&& forall|i: int, j: int|
        0 <= i < j < done.len() ==> #[trigger] done[i].completion != #[trigger] done[j].completion
}

/// One result more settles one place more.
proof fn lemma_settled_push(before: Set<u64>, mid: Set<u64>, done: Seq<Completion>, one: Completion)
    requires
        settled(before, mid, done),
        mid.contains(one.completion),
    ensures
        settled(before, mid.remove(one.completion), done.push(one)),
{
    let more = done.push(one);
    let after = mid.remove(one.completion);
    assert forall|c: u64| #[trigger] before.contains(c) <==> after.contains(c) || exists|i: int|
        0 <= i < more.len() && #[trigger] more[i].completion == c by {
        if exists|i: int| 0 <= i < done.len() && #[trigger] done[i].completion == c {
            let i = choose|i: int| 0 <= i < done.len() && #[trigger] done[i].completion == c;
            assert(more[i].completion == c);
        }
        if exists|i: int| 0 <= i < more.len() && #[trigger] more[i].completion == c {
            let i = choose|i: int| 0 <= i < more.len() && #[trigger] more[i].completion == c;
            if i < done.len() {
                assert(done[i].completion == c);
            } else {
                assert(mid.contains(c));
                assert(before.contains(one.completion));
            }
        }
        assert(more[done.len() as int].completion == one.completion);
    }
    assert forall|i: int| 0 <= i < more.len() implies !after.contains(#[trigger] more[i].completion) by {
        if i < done.len() {
            assert(!mid.contains(done[i].completion));
        }
    }
    assert forall|i: int, j: int| 0 <= i < j < more.len() implies #[trigger] more[i].completion
        != #[trigger] more[j].completion by {
        if j < done.len() {
            assert(done[i].completion != done[j].completion);
        } else {
            assert(!mid.contains(done[i].completion));
        }
    }
}

/// The request that an event is about, if there is one.
pub open spec fn concerned(inflight: Map<u32, InflightRequest>, event: CompletionEvent) -> bool {
    let id = (event.user_data / 0x1_0000_0000) as u32;
    inflight.dom().contains(id) && has_entry(inflight[id], (event.user_data % 0x1_0000_0000) as int)
}

/// The requests in flight after an event.
pub open spec fn inflight_after(inflight: Map<u32, InflightRequest>, event: CompletionEvent) -> Map<u32, InflightRequest> {
    let id = (event.user_data / 0x1_0000_0000) as u32;
    let next = progressed(inflight[id], (event.user_data % 0x1_0000_0000) as int, event.result);
    if !concerned(inflight, event) {
        inflight
    } else if next.remaining == 0 {
        inflight.remove(id)
    } else {
        inflight.insert(id, next)
    }
}

/// The results that an event brings: that of its request, where it was the last one for it.
pub open spec fn results_after(inflight: Map<u32, InflightRequest>, event: CompletionEvent) -> Seq<Completion> {
    let id = (event.user_data / 0x1_0000_0000) as u32;
    let next = progressed(inflight[id], (event.user_data % 0x1_0000_0000) as int, event.result);
    if concerned(inflight, event) && next.remaining == 0 {
        seq![Completion { completion: next.completion, outcome: outcome_of(next) }]
    } else {
        Seq::empty()
    }
}

/// The requests in flight after some events, in order.
pub open spec fn inflight_after_all(inflight: Map<u32, InflightRequest>, events: Seq<CompletionEvent>) -> Map<
    u32,
    InflightRequest,
>
    decreases events.len(),
{
    if events.len() == 0 {
        inflight
    } else {
        inflight_after(inflight_after_all(inflight, events.drop_last()), events.last())
    }
}

/// The results that some events bring, in order.
pub open spec fn results_after_all(inflight: Map<u32, InflightRequest>, events: Seq<CompletionEvent>) -> Seq<Completion>
    decreases events.len(),
{
    if events.len() == 0 {
        Seq::empty()
    } else {
        results_after_all(inflight, events.drop_last()) + results_after(
            inflight_after_all(inflight, events.drop_last()),
            events.last(),
        )
    }
}

impl UringBackend {
    /// Pushes entries until there is no slot left, and returns how many were pushed.
    fn push_entries(&mut self, entries: &Vec<SubmissionEntry>) -> (pushed: usize)
        requires
            old(self).ring.wf(),
        ensures
            final(self).ring.wf(),
            final(self).ring.capacity == old(self).ring.capacity,
            final(self).ring.held == old(self).ring.held,
            *final(self) == (UringBackend { ring: final(self).ring, ..*old(self) }),
            pushed == (if entries@.len() <= old(self).ring.available() {
                entries@.len() as int
            } else {
                old(self).ring.available()
            }),
            final(self).ring.entries@ == old(self).ring.entries@ + entries@.take(pushed as int),
    {
        let mut pushed: usize = 0;
        assert(self.ring.entries@ + entries@.take(0) =~= self.ring.entries@);
        while pushed < entries.len()
            invariant
                pushed <= entries@.len(),
                self.ring.wf(),
                self.ring.capacity == old(self).ring.capacity,
                self.ring.held == old(self).ring.held,
                *self == (UringBackend { ring: self.ring, ..*old(self) }),
                self.ring.available() == old(self).ring.available() - pushed,
                self.ring.entries@ == old(self).ring.entries@ + entries@.take(pushed as int),
            decreases entries@.len() - pushed,
        {
            let entry: SubmissionEntry = entries[pushed];
            if self.ring.push(entry).is_err() {
                return pushed;
            }
            assert(self.ring.entries@ =~= old(self).ring.entries@ + entries@.take(pushed + 1));
            pushed = pushed + 1;
        }
        pushed
    }

    /// Submits a request: gives it a number and pushes its entries. Says whether any entry of it waits to
    /// be handed to the kernel.
    #[verifier::rlimit(50)]
    pub fn submit_request(
        &mut self,
        pool: &Option<FixedBufferPool>,
        request: WorkerRequest,
        done: &mut Vec<Completion>,
    ) -> (submitted_any: bool)
        requires
            old(self).wf(),
            old(self).inflight_requests@.dom().len() < 0x1_0000_0000,
            request_ok(*pool, request),
            !owed(old(self).inflight_requests@).contains(request.spec_completion()),
        ensures
            final(self).wf(),
            ({
                let fresh = final(done)@.skip(old(done)@.len() as int);
                &&& final(done)@ == old(done)@ + fresh
                &&& submitted(*old(self), *final(self), *pool, request, fresh)
                &&& submitted_any == (fresh.len() == 0)
                &&& settled(
                    owed(old(self).inflight_requests@).insert(request.spec_completion()),
                    owed(final(self).inflight_requests@),
                    fresh,
                )
            }),
    {
        broadcast use vstd::std_specs::hash::group_hash_axioms;

        let ghost before = self.inflight_requests@;
        let ghost done0 = done@;
        let ghost place = request.spec_completion();
        let ghost r = request;
        let request_id: u32 = self.allocate_request_id();
        let entries: Vec<SubmissionEntry> = request_sqes(pool, &request, request_id);
        let op_count: usize = entries.len();
        let pushed: usize = self.push_entries(&entries);
        let remaining: usize = if pushed == op_count {
            op_count
        } else {
            pushed
        };
        let inflight = match request {
            WorkerRequest::Read { buf, completion, .. } => {
                let expected_total: usize = buf.len();
                InflightRequest {
                    remaining,
                    error: None,
                    kind: InflightRequestKind::Read { buf, read_accum: 0, expected_total },
                    completion,
                }
            },
            WorkerRequest::Fsync { completion } => InflightRequest {
                remaining,
                error: None,
                kind: InflightRequestKind::Fsync,
                completion,
            },
            WorkerRequest::Write { writes, completion } => InflightRequest {
                remaining,
                error: None,
                kind: InflightRequestKind::Write { pages: writes },
                completion,
            },
        };
        assert(inflight == inflight_of(r, remaining as int));
        let submitted_any: bool = self.finish_submit(request_id, inflight, pushed == op_count, done);
        proof {
            if submitted_any {
                lemma_owed_insert(before, request_id, self.inflight_requests@[request_id]);
            }
            assert(done@ =~= done0 + done@.skip(done0.len() as int));
            let fresh = done@.skip(done0.len() as int);
            if fresh.len() > 0 {
                assert(fresh =~= seq![Completion { completion: place, outcome: refused(r, queue_full()) }]);
                assert(fresh[0].completion == place);
            } else {
                assert(fresh =~= Seq::<Completion>::empty());
            }
        }
        submitted_any
    }

    /// Keeps a request whose entries were pushed. Where not all were, it fails, unless it is a write of
    /// which some were: that waits for those, and then fails.
    fn finish_submit(
        &mut self,
        request_id: u32,
        inflight: InflightRequest,
        all_pushed: bool,
        done: &mut Vec<Completion>,
    ) -> (kept: bool)
        requires
            inflight.error is None,
            all_pushed ==> inflight.remaining > 0,
        ensures
            final(self).ring == old(self).ring,
            final(self).queue_depth == old(self).queue_depth,
            final(self).next_request_id == old(self).next_request_id,
            kept == (all_pushed || (inflight.kind is Write && inflight.remaining > 0)),
            kept ==> {
                &&& final(done)@ == old(done)@
                &&& final(self).inflight_requests@ == old(self).inflight_requests@.insert(
                    request_id,
                    (InflightRequest {
                        error: if all_pushed {
                            None
                        } else {
                            Some(queue_full())
                        },
                        ..inflight
                    }),
                )
            },
            !kept ==> {
                &&& final(done)@ == old(done)@.push(
                    Completion { completion: inflight.completion, outcome: failed(inflight.kind, queue_full()) },
                )
                &&& final(self).inflight_requests@ == old(self).inflight_requests@
            },
    {
        broadcast use vstd::std_specs::hash::group_hash_axioms;

        if all_pushed {
            self.inflight_requests.insert(request_id, inflight);
            return true;
        }
        let err = Error::Io(IoError::Fault(IoFault::QueueFull));
        let partial_write: bool = match &inflight.kind {
            InflightRequestKind::Write { .. } => inflight.remaining > 0,
            _ => false,
        };
        if partial_write {
            let mut inflight = inflight;
            inflight.error = Some(err);
            self.inflight_requests.insert(request_id, inflight);
            return true;
        }
        done.push(inflight.complete_with_error(err));
        false
    }

    /// Takes in completions, and hands out the results of the requests that they complete.
    #[verifier::rlimit(50)]
    pub fn poll_completions(&mut self, events: &Vec<CompletionEvent>, done: &mut Vec<Completion>)
        requires
            old(self).wf(),
        ensures
            final(self).wf(),
            final(self).ring == old(self).ring,
            final(self).queue_depth == old(self).queue_depth,
            final(self).next_request_id == old(self).next_request_id,
            final(self).inflight_requests@ == inflight_after_all(old(self).inflight_requests@, events@),
            final(done)@ == old(done)@ + results_after_all(old(self).inflight_requests@, events@),
            settled(
                owed(old(self).inflight_requests@),
                owed(final(self).inflight_requests@),
                results_after_all(old(self).inflight_requests@, events@),
            ),
    {
        broadcast use vstd::std_specs::hash::group_hash_axioms;

        let ghost before = self.inflight_requests@;
        let ghost done0 = done@;
        let mut i: usize = 0;
        assert(events@.take(0) =~= Seq::empty());
        assert(done0 + results_after_all(before, events@.take(0)) =~= done0);
        while i < events.len()
            invariant
                i <= events@.len(),
                before == old(self).inflight_requests@,
                done0 == old(done)@,
                self.wf(),
                self.ring == old(self).ring,
                self.queue_depth == old(self).queue_depth,
                self.next_request_id == old(self).next_request_id,
                self.inflight_requests@ == inflight_after_all(before, events@.take(i as int)),
                done@ == done0 + results_after_all(before, events@.take(i as int)),
                settled(
                    owed(before),
                    owed(self.inflight_requests@),
                    results_after_all(before, events@.take(i as int)),
                ),
            decreases events@.len() - i,
        {
            let event: CompletionEvent = events[i];
            let ghost mid = self.inflight_requests@;
            let ghost so_far = results_after_all(before, events@.take(i as int));
            proof {
                assert(events@.take(i + 1).drop_last() =~= events@.take(i as int));
                assert(events@.take(i + 1).last() == event);
            }
            self.on_completion(event, done);
            proof {
                let fresh = results_after(mid, event);
                assert(results_after_all(before, events@.take(i + 1)) == so_far + fresh);
                assert(done0 + so_far + fresh =~= done0 + (so_far + fresh));
                if fresh.len() > 0 {
                    assert(so_far + fresh =~= so_far.push(fresh[0]));
                    lemma_settled_push(owed(before), owed(mid), so_far, fresh[0]);
                } else {
                    assert(so_far + fresh =~= so_far);
                }
            }
            i = i + 1;
        }
        assert(events@.take(i as int) =~= events@);
    }

    /// Takes in one completion. One that no request in flight waits for is left alone.
    fn on_completion(&mut self, event: CompletionEvent, done: &mut Vec<Completion>)
        requires
            old(self).wf(),
        ensures
            final(self).wf(),
            final(self).ring == old(self).ring,
            final(self).queue_depth == old(self).queue_depth,
            final(self).next_request_id == old(self).next_request_id,
            final(self).inflight_requests@ == inflight_after(old(self).inflight_requests@, event),
            final(done)@ == old(done)@ + results_after(old(self).inflight_requests@, event),
            ({
                let fresh = results_after(old(self).inflight_requests@, event);
                &&& fresh.len() == 0 ==> owed(final(self).inflight_requests@) == owed(old(self).inflight_requests@)
                &&& fresh.len() > 0 ==> fresh.len() == 1 && owed(old(self).inflight_requests@).contains(
                    fresh[0].completion,
                ) && owed(final(self).inflight_requests@) == owed(old(self).inflight_requests@).remove(
                    fresh[0].completion,
                )
            }),
    {
        broadcast use vstd::std_specs::hash::group_hash_axioms;

        let ghost before = self.inflight_requests@;
        let ghost done0 = done@;
        let (request_id, op_index): (u32, usize) = decode_user_data(event.user_data);
        let request: InflightRequest = match self.inflight_requests.remove(&request_id) {
            Some(request) => request,
            None => {
                assert(self.inflight_requests@ =~= before);
                assert(done0 + Seq::<Completion>::empty() =~= done0);
                return;
            },
        };
        let known: bool = match &request.kind {
            InflightRequestKind::Write { pages } => op_index < pages.len(),
            _ => true,
        };
        if !known {
            self.inflight_requests.insert(request_id, request);
            assert(self.inflight_requests@ =~= before);
            assert(done0 + Seq::<Completion>::empty() =~= done0);
            return;
        }
        let next: InflightRequest = progress(request, op_index, event.result);
        proof {
            lemma_owed_remove(before, request_id);
            lemma_owed_update(before, request_id, next);
        }
        if next.remaining == 0 {
            assert(self.inflight_requests@ =~= before.remove(request_id));
            let result = next.complete();
            done.push(result);
            assert(done@ =~= done0 + seq![result]);
        } else {
            self.inflight_requests.insert(request_id, next);
            assert(self.inflight_requests@ =~= before.insert(request_id, next));
            assert(done0 + Seq::<Completion>::empty() =~= done0);
        }
    }
}

/// What the worker does once it has looked at the requests.
#[derive(Debug)]
pub enum SubmitStep {
    /// There is nothing new for the kernel.
    Idle,
    /// Hand these entries to the kernel.
    Submit(Vec<SubmissionEntry>),
    /// Nobody can send requests any more: the worker ends.
    Disconnected,
}

/// The requests that were not taken up yet, in order.
pub open spec fn waiting(pending: Option<WorkerRequest>, incoming: Seq<WorkerRequest>) -> Seq<WorkerRequest> {
    match pending {
        Some(request) => seq![request] + incoming,
        None => incoming,
    }
}

/// The places of the results of some requests.
pub open spec fn places(requests: Seq<WorkerRequest>) -> Set<u64> {
    Set::new(|c: u64| exists|i: int| 0 <= i < requests.len() && #[trigger] requests[i].spec_completion() == c)
}

/// The requests can be taken up, and each has a place of its own.
pub open spec fn requests_ok(pool: Option<FixedBufferPool>, requests: Seq<WorkerRequest>, owed: Set<u64>) -> bool {
    &&& forall|i: int| 0 <= i < requests.len() ==> request_ok(pool, #[trigger] requests[i])
    &&& distinct_places(requests, owed)
}

/// The result of a request that can never fit the submission queue.
pub open spec fn too_large(pool: Option<FixedBufferPool>, request: WorkerRequest, queue_depth: usize) -> Completion {
    Completion {
        completion: request.spec_completion(),
        outcome: refused(
            request,
            Error::Io(
                IoError::Fault(IoFault::TooManyEntries { needed: op_count(pool, request) as usize, queue_depth }),
            ),
        ),
    }
}

/// What taking up requests comes to.
pub ghost struct Uptake {
    /// The requests in flight.
    pub inflight: Map<u32, InflightRequest>,
    /// The entries that were pushed, in order.
    pub entries: Seq<SubmissionEntry>,
    /// The results of the requests that can never fit the submission queue.
    pub refusals: Seq<Completion>,
    /// The last number that was given out.
    pub last_id: u32,
}

/// What taking up `requests` comes to, where those that fit the submission queue get the numbers `ids`.
pub open spec fn taken_up(
    pool: Option<FixedBufferPool>,
    queue_depth: usize,
    inflight: Map<u32, InflightRequest>,
    last_id: u32,
    requests: Seq<WorkerRequest>,
    ids: Seq<u32>,
) -> Uptake
    decreases requests.len(),
{
    if requests.len() == 0 {
        Uptake { inflight, entries: Seq::empty(), refusals: Seq::empty(), last_id }
    } else {
        let before = taken_up(pool, queue_depth, inflight, last_id, requests.drop_last(), ids.drop_last());
        let request = requests.last();
        let count = op_count(pool, request);
        if count > queue_depth {
            Uptake { refusals: before.refusals.push(too_large(pool, request, queue_depth)), ..before }
        } else {
            Uptake {
                inflight: before.inflight.insert(ids.last(), inflight_of(request, count)),
                entries: before.entries + entries_of(pool, request, ids.last()),
                last_id: ids.last(),
                ..before
            }
        }
    }
}

/// `id` is the number that the next request gets.
pub open spec fn follows(so_far: Uptake, id: u32) -> bool {
    next_free(so_far.inflight, so_far.last_id, id)
}

/// Every request that fits gets the first number after the last one that no request in flight has.
pub open spec fn assigned(
    pool: Option<FixedBufferPool>,
    queue_depth: usize,
    inflight: Map<u32, InflightRequest>,
    last_id: u32,
    requests: Seq<WorkerRequest>,
    ids: Seq<u32>,
) -> bool {
    &&& ids.len() == requests.len()
    &&& forall|i: int| 0 <= i < requests.len() && op_count(pool, requests[i]) <= queue_depth ==> follows(
        taken_up(pool, queue_depth, inflight, last_id, requests.take(i), ids.take(i)),
        #[trigger] ids[i],
    )
}

/// The requests were taken up, with the numbers that they get, and this came of it.
pub open spec fn took_up(
    pool: Option<FixedBufferPool>,
    queue_depth: usize,
    inflight: Map<u32, InflightRequest>,
    last_id: u32,
    requests: Seq<WorkerRequest>,
    uptake: Uptake,
) -> bool {
    exists|ids: Seq<u32>| #[trigger]
        assigned(pool, queue_depth, inflight, last_id, requests, ids) && uptake == taken_up(
            pool,
            queue_depth,
            inflight,
            last_id,
            requests,
            ids,
        )
}

/// What one request more makes of it.
proof fn lemma_taken_up_push(
    pool: Option<FixedBufferPool>,
    queue_depth: usize,
    inflight: Map<u32, InflightRequest>,
    last_id: u32,
    requests: Seq<WorkerRequest>,
    ids: Seq<u32>,
    request: WorkerRequest,
    id: u32,
)
    requires
        assigned(pool, queue_depth, inflight, last_id, requests, ids),
        op_count(pool, request) <= queue_depth ==> follows(
            taken_up(pool, queue_depth, inflight, last_id, requests, ids),
            id,
        ),
    ensures
        assigned(pool, queue_depth, inflight, last_id, requests.push(request), ids.push(id)),
        ({
            let before = taken_up(pool, queue_depth, inflight, last_id, requests, ids);
            let after = taken_up(pool, queue_depth, inflight, last_id, requests.push(request), ids.push(id));
            let count = op_count(pool, request);
            if count > queue_depth {
                after == (Uptake { refusals: before.refusals.push(too_large(pool, request, queue_depth)), ..before })
            } else {
                after == (Uptake {
                    inflight: before.inflight.insert(id, inflight_of(request, count)),
                    entries: before.entries + entries_of(pool, request, id),
                    last_id: id,
                    ..before
                })
            }
        }),
{
    let more = requests.push(request);
    let more_ids = ids.push(id);
    assert(more.drop_last() =~= requests);
    assert(more_ids.drop_last() =~= ids);
    assert forall|i: int| 0 <= i < more.len() && op_count(pool, more[i]) <= queue_depth implies follows(
        taken_up(pool, queue_depth, inflight, last_id, more.take(i), more_ids.take(i)),
        #[trigger] more_ids[i],
    ) by {
        assert(more.take(i) =~= requests.take(i));
        assert(more_ids.take(i) =~= ids.take(i));
        if i < requests.len() {
            assert(more[i] == requests[i]);
            assert(more_ids[i] == ids[i]);
        } else {
            assert(requests.take(i) =~= requests);
            assert(ids.take(i) =~= ids);
        }
    }
}

/// A place more that is owed, before and after, settles nothing.
proof fn lemma_settled_both(before: Set<u64>, after: Set<u64>, done: Seq<Completion>, place: u64)
    requires
        settled(before, after, done),
        !before.contains(place),
    ensures
        settled(before.insert(place), after.insert(place), done),
{
    assert forall|i: int| 0 <= i < done.len() implies !after.insert(place).contains(#[trigger] done[i].completion) by {
        assert(!after.contains(done[i].completion));
        assert(before.contains(done[i].completion));
    }
}

impl UringBackend {
    /// Takes up requests, one after the other, as long as the submission queue has slots for them. A
    /// request that finds too few slots waits in `pending`; one that can never find enough fails.
    #[verifier::rlimit(50)]
    pub fn submit_requests(
        &mut self,
        pool: &Option<FixedBufferPool>,
        pending: &mut Option<WorkerRequest>,
        incoming: &mut VecDeque<WorkerRequest>,
        disconnected: bool,
        done: &mut Vec<Completion>,
    ) -> (step: SubmitStep)
        requires
            old(self).wf(),
            requests_ok(
                *pool,
                waiting(*old(pending), old(incoming)@),
                owed(old(self).inflight_requests@),
            ),
            old(self).inflight_requests@.dom().len() + waiting(*old(pending), old(incoming)@).len() < 0x1_0000_0000,
        ensures
            final(self).wf(),
            final(self).queue_depth == old(self).queue_depth,
            final(self).ring.capacity == old(self).ring.capacity,
            ({
                let before = waiting(*old(pending), old(incoming)@);
                let after = waiting(*final(pending), final(incoming)@);
                let n = before.len() - after.len();
                let fresh = final(done)@.skip(old(done)@.len() as int);
                &&& n >= 0
                &&& before.skip(n) == after
                &&& final(done)@ == old(done)@ + fresh
                &&& settled(
                    owed(old(self).inflight_requests@).union(places(before.take(n))),
                    owed(final(self).inflight_requests@),
                    fresh,
                )
                &&& ({
                    let in_ring = old(self).ring.entries@;
                    let all = match step {
                        SubmitStep::Submit(entries) => entries@,
                        _ => final(self).ring.entries@,
                    };
                    let pushed = all.skip(in_ring.len() as int);
                    &&& all == in_ring + pushed
                    &&& old(self).ring.held + all.len() <= old(self).ring.capacity
                    &&& took_up(
                        *pool,
                        old(self).queue_depth,
                        old(self).inflight_requests@,
                        old(self).next_request_id,
                        before.take(n),
                        (Uptake {
                            inflight: final(self).inflight_requests@,
                            entries: pushed,
                            refusals: fresh,
                            last_id: final(self).next_request_id,
                        }),
                    )
                    &&& step is Idle ==> pushed.len() == 0
                    &&& step is Submit ==> pushed.len() > 0
                })
                &&& *final(pending) matches Some(request) ==> final(self).ring.available() < op_count(*pool, request)
                    <= old(self).queue_depth
                &&& match step {
                    SubmitStep::Disconnected => {
                        &&& disconnected && after.len() == 0
                        &&& final(self).ring.held == old(self).ring.held
                    },
                    SubmitStep::Idle => {
                        &&& *final(pending) is None ==> !disconnected && after.len() == 0
                        &&& final(self).ring.held == old(self).ring.held
                    },
                    SubmitStep::Submit(entries) => {
                        &&& *final(pending) is None ==> !disconnected && after.len() == 0
                        &&& final(self).ring.entries@.len() == 0
                        &&& final(self).ring.held == old(self).ring.held + entries@.len()
                    },
                }
            }),
    {
        broadcast use vstd::std_specs::hash::group_hash_axioms;

        let ghost queue = waiting(*old(pending), old(incoming)@);
        let ghost inflight0 = self.inflight_requests@;
        let ghost last0 = self.next_request_id;
        let ghost owed0 = owed(inflight0);
        let ghost done0 = done@;
        let ghost ring0 = self.ring.entries@;
        let ghost mut n: int = 0;
        let ghost mut ids: Seq<u32> = Seq::empty();
        let mut submitted_any: bool = false;
        proof {
            assert(self.ring.entries@.skip(ring0.len() as int) =~= Seq::<SubmissionEntry>::empty());
            assert(assigned(*pool, self.queue_depth, inflight0, last0, queue.take(0), ids));
            assert(queue.skip(0) =~= queue);
            assert(done@.skip(done0.len() as int) =~= Seq::<Completion>::empty());
            assert(owed0.union(places(queue.take(0))) =~= owed0);
        }
        loop
            invariant
                self.wf(),
                self.queue_depth == old(self).queue_depth,
                self.ring.capacity == old(self).ring.capacity,
                self.ring.held == old(self).ring.held,
                inflight0 == old(self).inflight_requests@,
                last0 == old(self).next_request_id,
                done0 == old(done)@,
                queue == waiting(*old(pending), old(incoming)@),
                owed0 == owed(inflight0),
                requests_ok(*pool, queue, owed0),
                inflight0.dom().len() + queue.len() < 0x1_0000_0000,
                self.inflight_requests@.dom().len() <= inflight0.dom().len() + n,
                0 <= n <= queue.len(),
                queue.skip(n) == waiting(*pending, incoming@),
                done@ == done0 + done@.skip(done0.len() as int),
                done@.len() >= done0.len(),
                ring0 == old(self).ring.entries@,
                self.ring.entries@ == ring0 + self.ring.entries@.skip(ring0.len() as int),
                self.ring.entries@.len() >= ring0.len(),
                submitted_any == (self.ring.entries@.len() > ring0.len()),
                assigned(*pool, self.queue_depth, inflight0, last0, queue.take(n), ids),
                taken_up(*pool, self.queue_depth, inflight0, last0, queue.take(n), ids) == (Uptake {
                    inflight: self.inflight_requests@,
                    entries: self.ring.entries@.skip(ring0.len() as int),
                    refusals: done@.skip(done0.len() as int),
                    last_id: self.next_request_id,
                }),
                settled(
                    owed0.union(places(queue.take(n))),
                    owed(self.inflight_requests@),
                    done@.skip(done0.len() as int),
                ),
            ensures
                !disconnected || *pending is Some,
                *pending is None ==> incoming@.len() == 0,
                *pending matches Some(request) ==> op_count(*pool, request) > self.ring.available(),
                *pending matches Some(request) ==> op_count(*pool, request) <= self.queue_depth,
            decreases queue.len() - n,
        {
            let ghost inflight1 = self.inflight_requests@;
            let ghost fresh1 = done@.skip(done0.len() as int);
            let ghost pushed1 = self.ring.entries@.skip(ring0.len() as int);
            let ghost left = waiting(*pending, incoming@);
            let request: WorkerRequest = match pending.take() {
                Some(request) => request,
                None => match incoming.pop_front() {
                    Some(request) => request,
                    None => {
                        if disconnected {
                            return SubmitStep::Disconnected;
                        }
                        break;
                    },
                },
            };
            let ghost place = request.spec_completion();
            proof {
                assert(left.len() > 0 && left[0] == request);
                assert(left.len() == queue.len() - n);
                assert(queue[n] == request);
                assert(left.skip(1) =~= waiting(*pending, incoming@));
                assert(queue.skip(n + 1) =~= queue.skip(n).skip(1));
                assert(queue.skip(n + 1) =~= waiting(*pending, incoming@));
                assert(owed0.union(places(queue.take(n))).insert(place) =~= owed0.union(places(queue.take(n + 1)))) by {
                    lemma_places_step(queue, n);
                }
                assert(!owed0.union(places(queue.take(n))).contains(place)) by {
                    if places(queue.take(n)).contains(place) {
                        let i = choose|i: int|
                            0 <= i < queue.take(n).len() && #[trigger] queue.take(n)[i].spec_completion() == place;
                        assert(queue[i].spec_completion() != queue[n].spec_completion());
                    }
                }
                lemma_settled_both(owed0.union(places(queue.take(n))), owed(inflight1), fresh1, place);
                assert(!owed(inflight1).contains(place)) by {
                    if owed(inflight1).contains(place) {
                        assert(owed0.union(places(queue.take(n))).contains(place));
                    }
                }
            }
            let count: usize = request_op_count(pool, &request);
            if count > self.queue_depth {
                let ghost r = request;
                let refusal = complete_request_with_error(
                    request,
                    Error::Io(
                        IoError::Fault(IoFault::TooManyEntries { needed: count, queue_depth: self.queue_depth }),
                    ),
                );
                done.push(refusal);
                proof {
                    let fresh = done@.skip(done0.len() as int);
                    assert(fresh =~= fresh1.push(refusal));
                    assert(refusal == too_large(*pool, r, self.queue_depth));
                    assert(fresh[fresh1.len() as int] == refusal);
                    lemma_settled_push(
                        owed0.union(places(queue.take(n + 1))),
                        owed(inflight1).insert(place),
                        fresh1,
                        refusal,
                    );
                    assert(owed(inflight1).insert(place).remove(place) =~= owed(inflight1));
                    assert(done@ =~= done0 + fresh);
                    assert(queue.take(n + 1) =~= queue.take(n).push(r));
                    lemma_taken_up_push(*pool, self.queue_depth, inflight0, last0, queue.take(n), ids, r, 0);
                    ids = ids.push(0);
                    n = n + 1;
                }
                continue;
            }
            if self.ring.available_submission_slots() < count {
                *pending = Some(request);
                assert(waiting(*pending, incoming@) =~= queue.skip(n));
                break;
            }
            let ghost r = request;
            if self.submit_request(pool, request, done) {
                submitted_any = true;
            }
            proof {
                let fresh = done@.skip(done0.len() as int);
                let id = self.next_request_id;
                assert(self.inflight_requests@ == inflight1.insert(id, inflight_of(r, count as int)));
                assert(self.inflight_requests@[id] == inflight_of(r, count as int));
                assert(fresh =~= fresh1);
                assert(done@ =~= done0 + fresh);
                lemma_owed_insert(inflight1, id, inflight_of(r, count as int));
                let pushed = self.ring.entries@.skip(ring0.len() as int);
                let entries = entries_of(*pool, r, id);
                assert(entries.take(count as int) =~= entries);
                assert(pushed =~= pushed1 + entries);
                assert(self.ring.entries@ =~= ring0 + pushed);
                assert(queue.take(n + 1) =~= queue.take(n).push(r));
                lemma_taken_up_push(*pool, self.queue_depth, inflight0, last0, queue.take(n), ids, r, id);
                ids = ids.push(id);
                n = n + 1;
            }
        }
        if submitted_any {
            let entries: Vec<SubmissionEntry> = self.ring.submit();
            return SubmitStep::Submit(entries);
        }
        SubmitStep::Idle
    }
}

impl UringBackend {
    /// What was submitted was taken up, all but the last `left` entries. Their slots are not free until
    /// they are taken up as well.
    pub fn on_submitted(&mut self, left: usize)
        requires
            old(self).wf(),
            left <= old(self).ring.held,
        ensures
            final(self).wf(),
            *final(self) == (UringBackend { ring: SubmissionRing { held: left, ..old(self).ring }, ..*old(self) }),
            final(self).ring.available() == old(self).ring.capacity - left - old(self).ring.entries@.len(),
    {
        self.ring.on_submitted(left);
    }
}

proof fn lemma_places_step(queue: Seq<WorkerRequest>, n: int)
    requires
        0 <= n < queue.len(),
    ensures
        places(queue.take(n + 1)) == places(queue.take(n)).insert(queue[n].spec_completion()),
{
    let a = queue.take(n);
    let b = queue.take(n + 1);
    assert forall|c: u64| #[trigger] places(b).contains(c) == places(a).insert(queue[n].spec_completion()).contains(c) by {
        if places(b).contains(c) {
            let i = choose|i: int| 0 <= i < b.len() && #[trigger] b[i].spec_completion() == c;
            if i < n {
                assert(a[i].spec_completion() == c);
            }
        }
        if places(a).contains(c) {
            let i = choose|i: int| 0 <= i < a.len() && #[trigger] a[i].spec_completion() == c;
            assert(b[i].spec_completion() == c);
        }
        assert(b[n].spec_completion() == queue[n].spec_completion());
    }
    assert(places(b) =~= places(a).insert(queue[n].spec_completion()));
}

pub fn worker_failed_error(fault: IoFault) -> (err: Error)
    ensures
        err == Error::Io(IoError::WorkerFailed(fault)),
{
    Error::Io(IoError::WorkerFailed(fault))
}

/// The result of a request in flight that failed as a whole.
pub open spec fn failure(request: InflightRequest, err: Error) -> Completion {
    Completion { completion: request.completion, outcome: failed(request.kind, err) }
}

/// The result of a request that was never taken up.
pub open spec fn refusal(request: WorkerRequest, err: Error) -> Completion {
    Completion { completion: request.spec_completion(), outcome: refused(request, err) }
}

/// The results of requests that were never taken up, in order.
pub open spec fn refusals(requests: Seq<WorkerRequest>, err: Error) -> Seq<Completion> {
    Seq::new(requests.len(), |i: int| refusal(requests[i], err))
}

/// `one` is among the results.
pub open spec fn handed_out(done: Seq<Completion>, one: Completion) -> bool {
    exists|i: int| 0 <= i < done.len() && #[trigger] done[i] == one
}

/// What was handed out stays so.
proof fn lemma_handed_out(done: Seq<Completion>, more: Completion)
    ensures
        handed_out(done.push(more), more),
        forall|one: Completion| handed_out(done, one) ==> #[trigger] handed_out(done.push(more), one),
{
    assert(done.push(more)[done.len() as int] == more);
    assert forall|one: Completion| handed_out(done, one) implies #[trigger] handed_out(done.push(more), one) by {
        let i = choose|i: int| 0 <= i < done.len() && #[trigger] done[i] == one;
        assert(done.push(more)[i] == one);
    }
}

impl UringBackend {
    /// The numbers of the requests in flight.
    fn request_ids(&self) -> (ids: Vec<u32>)
        ensures
            ids@.no_duplicates(),
            ids@.to_set() == self.inflight_requests@.dom(),
    {
        broadcast use vstd::std_specs::hash::group_hash_axioms;

        let mut ids: Vec<u32> = Vec::new();
        for id in iter: self.inflight_requests.keys()
            invariant
                ids@.len() == iter.index(),
                forall|i: int| 0 <= i < ids@.len() ==> ids@[i] == *iter.seq()[i],
                iter.index() == iter.seq().len() ==> ids@ == iter.seq().unref(),
                iter.seq().unref().to_set() == self.inflight_requests@.dom(),
                iter.seq().no_duplicates(),
        {
            ids.push(*id);
        }
        ids
    }

    /// Answers every request with an error: first the pending one, next those in flight, and last those
    /// that wait to be taken up.
    #[verifier::rlimit(50)]
    pub fn fail_all(
        &mut self,
        fault: IoFault,
        pending: Option<WorkerRequest>,
        incoming: &mut VecDeque<WorkerRequest>,
        done: &mut Vec<Completion>,
    )
        requires
            old(self).wf(),
            distinct_places(waiting(pending, old(incoming)@), owed(old(self).inflight_requests@)),
        ensures
            final(self).wf(),
            final(self).inflight_requests@ == Map::<u32, InflightRequest>::empty(),
            final(self).ring == old(self).ring,
            final(self).queue_depth == old(self).queue_depth,
            final(self).next_request_id == old(self).next_request_id,
            final(incoming)@.len() == 0,
            ({
                let fresh = final(done)@.skip(old(done)@.len() as int);
                &&& final(done)@ == old(done)@ + fresh
                &&& settled(
                    owed(old(self).inflight_requests@).union(places(waiting(pending, old(incoming)@))),
                    Set::empty(),
                    fresh,
                )
                &&& ({
                    let err = Error::Io(IoError::WorkerFailed(fault));
                    let first = refusals(waiting(pending, Seq::empty()), err);
                    let last = refusals(old(incoming)@, err);
                    let between = fresh.subrange(first.len() as int, fresh.len() - last.len());
                    &&& fresh == first + between + last
                    &&& between.len() == old(self).inflight_requests@.dom().len()
                    &&& forall|k: u32| #[trigger] old(self).inflight_requests@.dom().contains(k) ==> handed_out(
                        between,
                        failure(old(self).inflight_requests@[k], err),
                    )
                })
            }),
    {
        broadcast use vstd::std_specs::hash::group_hash_axioms;

        let ghost err = Error::Io(IoError::WorkerFailed(fault));
        let ghost queue = waiting(pending, incoming@);
        let ghost inflight0 = self.inflight_requests@;
        let ghost all = owed(inflight0).union(places(queue));
        let ghost done0 = done@;
        let ghost first = refusals(waiting(pending, Seq::empty()), err);
        let ghost mut between: Seq<Completion> = Seq::empty();
        let ghost mut n: int = 0;
        proof {
            assert(done@.skip(done0.len() as int) =~= Seq::<Completion>::empty());
            assert(queue.skip(0) =~= queue);
            assert(owed(inflight0).union(places(queue.skip(0))) =~= all);
        }
        match pending {
            Some(request) => {
                let ghost r = request;
                let refused_one = complete_request_with_error(request, worker_failed_error(fault));
                done.push(refused_one);
                proof {
                    lemma_refused(queue, 0, owed(inflight0), all, Seq::empty(), refused_one);
                    assert(queue[0] == r);
                    assert(done@.skip(done0.len() as int) =~= Seq::<Completion>::empty().push(refused_one));
                    assert(done@ =~= done0 + done@.skip(done0.len() as int));
                    assert(first =~= seq![refused_one]);
                    n = 1;
                    assert(queue.skip(1) =~= incoming@);
                }
            },
            None => {},
        }
        assert(queue.skip(n) =~= incoming@);
        let ghost p = n;
        assert(done@.skip(done0.len() as int) =~= first + between);
        let ids: Vec<u32> = self.request_ids();
        let mut i: usize = 0;
        proof {
            assert(ids@.skip(0) =~= ids@);
        }
        while i < ids.len()
            invariant
                i <= ids@.len(),
                0 <= n <= queue.len(),
                ids@.no_duplicates(),
                ids@.skip(i as int).to_set() == self.inflight_requests@.dom(),
                ids@.to_set() == inflight0.dom(),
                forall|k: u32| #[trigger] self.inflight_requests@.dom().contains(k) ==> inflight0.dom().contains(k)
                    && self.inflight_requests@[k] == inflight0[k],
                self.wf(),
                self.ring == old(self).ring,
                self.queue_depth == old(self).queue_depth,
                self.next_request_id == old(self).next_request_id,
                *incoming == *old(incoming),
                err == Error::Io(IoError::WorkerFailed(fault)),
                done0 == old(done)@,
                done@.len() >= done0.len(),
                done@ == done0 + done@.skip(done0.len() as int),
                distinct_places(queue, owed(inflight0)),
                forall|c: u64| #[trigger] owed(self.inflight_requests@).contains(c) ==> owed(inflight0).contains(c),
                settled(
                    all,
                    owed(self.inflight_requests@).union(places(queue.skip(n))),
                    done@.skip(done0.len() as int),
                ),
                done@.skip(done0.len() as int) == first + between,
                between.len() == i,
                forall|k: int| 0 <= k < i ==> handed_out(between, failure(inflight0[#[trigger] ids@[k]], err)),
            decreases ids@.len() - i,
        {
            let ghost before = self.inflight_requests@;
            let ghost fresh = done@.skip(done0.len() as int);
            proof {
                assert(ids@.skip(i as int)[0] == ids@[i as int]);
                assert(ids@.skip(i as int).contains(ids@[i as int]));
                assert(before.dom().contains(ids@[i as int]));
                lemma_owed_remove(before, ids@[i as int]);
            }
            match self.inflight_requests.remove(&ids[i]) {
                Some(request) => {
                    let failed_one = request.complete_with_error(worker_failed_error(fault));
                    done.push(failed_one);
                    proof {
                        let place = failed_one.completion;
                        assert(done@.skip(done0.len() as int) =~= fresh.push(failed_one));
                        lemma_handed_out(between, failed_one);
                        assert(fresh.push(failed_one) =~= first + between.push(failed_one));
                        between = between.push(failed_one);
                        assert(done@ =~= done0 + done@.skip(done0.len() as int));
                        lemma_settled_push(all, owed(before).union(places(queue.skip(n))), fresh, failed_one);
                        assert(!places(queue.skip(n)).contains(place)) by {
                            if places(queue.skip(n)).contains(place) {
                                let q = queue.skip(n);
                                let j = choose|j: int| 0 <= j < q.len() && #[trigger] q[j].spec_completion() == place;
                                assert(queue[n + j].spec_completion() == place);
                            }
                        }
                        assert(owed(before).union(places(queue.skip(n))).remove(place) =~= owed(
                            self.inflight_requests@,
                        ).union(places(queue.skip(n))));
                        assert(self.inflight_requests@ =~= before.remove(ids@[i as int]));
                    }
                },
                None => {},
            }
            proof {
                assert(ids@.skip(i + 1).to_set() =~= self.inflight_requests@.dom()) by {
                    lemma_skip_set(ids@, i as int);
                }
            }
            i = i + 1;
        }
        proof {
            assert forall|k: u32| #[trigger] inflight0.dom().contains(k) implies handed_out(
                between,
                failure(inflight0[k], err),
            ) by {
                assert(ids@.to_set().contains(k));
                let m = choose|m: int| 0 <= m < ids@.len() && ids@[m] == k;
                assert(ids@[m] == k);
            }
            assert(ids@.skip(i as int) =~= Seq::<u32>::empty());
            assert(self.inflight_requests@.dom() =~= Set::<u32>::empty());
            assert(self.inflight_requests@ =~= Map::<u32, InflightRequest>::empty());
            assert(owed(self.inflight_requests@) =~= Set::<u64>::empty());
            assert(owed(self.inflight_requests@).union(places(queue.skip(n))) =~= places(queue.skip(n)));
            ids@.unique_seq_to_set();
            assert(first + between + refusals(incoming@.take(0), err) =~= first + between);
        }
        while incoming.len() > 0
            invariant
                0 <= n <= queue.len(),
                queue.skip(n) == incoming@,
                self.inflight_requests@ == Map::<u32, InflightRequest>::empty(),
                err == Error::Io(IoError::WorkerFailed(fault)),
                done0 == old(done)@,
                done@.len() >= done0.len(),
                done@ == done0 + done@.skip(done0.len() as int),
                distinct_places(queue, owed(inflight0)),
                settled(all, places(queue.skip(n)), done@.skip(done0.len() as int)),
                0 <= p <= n,
                queue.skip(p) == old(incoming)@,
                done@.skip(done0.len() as int) == first + between + refusals(old(incoming)@.take(n - p), err),
            decreases queue.len() - n,
        {
            let ghost fresh = done@.skip(done0.len() as int);
            let ghost left = incoming@;
            match incoming.pop_front() {
                Some(request) => {
                    proof {
                        assert(left[0] == request);
                        assert(queue.skip(n)[0] == queue[n]);
                        assert(queue.skip(n + 1) =~= queue.skip(n).skip(1));
                    }
                    let refused_one = complete_request_with_error(request, worker_failed_error(fault));
                    done.push(refused_one);
                    proof {
                        assert(done@.skip(done0.len() as int) =~= fresh.push(refused_one));
                        assert(old(incoming)@[n - p] == queue[n]);
                        assert(refusals(old(incoming)@.take(n + 1 - p), err) =~= refusals(
                            old(incoming)@.take(n - p),
                            err,
                        ).push(refused_one));
                        assert(fresh.push(refused_one) =~= first + between + refusals(
                            old(incoming)@.take(n + 1 - p),
                            err,
                        ));
                        assert(done@ =~= done0 + done@.skip(done0.len() as int));
                        assert(Set::<u64>::empty().union(places(queue.skip(n))) =~= places(queue.skip(n)));
                        lemma_refused(queue, n, Set::empty(), all, fresh, refused_one);
                        assert(Set::<u64>::empty().union(places(queue.skip(n + 1))) =~= places(queue.skip(n + 1)));
                        n = n + 1;
                    }
                },
                None => {},
            }
        }
        proof {
            assert(places(queue.skip(n)) =~= Set::<u64>::empty());
            let fresh = done@.skip(done0.len() as int);
            let last = refusals(old(incoming)@, err);
            assert(old(incoming)@.take(n - p) =~= old(incoming)@);
            assert(fresh.subrange(first.len() as int, fresh.len() - last.len()) =~= between);
        }
    }
}

/// Each request has a place of its own.
pub open spec fn distinct_places(requests: Seq<WorkerRequest>, owed: Set<u64>) -> bool {
    &&& forall|i: int| 0 <= i < requests.len() ==> !owed.contains((#[trigger] requests[i]).spec_completion())
    &&& forall|i: int, j: int|
        0 <= i < j < requests.len() ==> (#[trigger] requests[i]).spec_completion() != (#[trigger] requests[j]).spec_completion()
}

proof fn lemma_skip_set(ids: Seq<u32>, i: int)
    requires
        0 <= i < ids.len(),
        ids.no_duplicates(),
    ensures
        ids.skip(i + 1).to_set() == ids.skip(i).to_set().remove(ids[i]),
{
    let a = ids.skip(i);
    let b = ids.skip(i + 1);
    assert forall|x: u32| #[trigger] b.to_set().contains(x) == a.to_set().remove(ids[i]).contains(x) by {
        if b.contains(x) {
            let k = choose|k: int| 0 <= k < b.len() && b[k] == x;
            assert(a[k + 1] == x);
            assert(ids[i + 1 + k] != ids[i]);
        }
        if a.contains(x) && x != ids[i] {
            let k = choose|k: int| 0 <= k < a.len() && a[k] == x;
            assert(b[k - 1] == x);
        }
    }
    assert(b.to_set() =~= a.to_set().remove(ids[i]));
}

/// Answering the next request that waits settles its place.
proof fn lemma_refused(
    queue: Seq<WorkerRequest>,
    n: int,
    owed: Set<u64>,
    all: Set<u64>,
    done: Seq<Completion>,
    refusal: Completion,
)
    requires
        0 <= n < queue.len(),
        distinct_places(queue, owed),
        settled(all, owed.union(places(queue.skip(n))), done),
        refusal.completion == queue[n].spec_completion(),
    ensures
        settled(all, owed.union(places(queue.skip(n + 1))), done.push(refusal)),
{
    let a = queue.skip(n);
    let b = queue.skip(n + 1);
    let place = refusal.completion;
    assert(a[0] == queue[n]);
    assert(places(a).contains(place)) by {
        assert(a[0].spec_completion() == place);
    }
    lemma_settled_push(all, owed.union(places(a)), done, refusal);
    assert forall|c: u64| #[trigger] owed.union(places(b)).contains(c) == owed.union(places(a)).remove(place).contains(c) by {
        if places(b).contains(c) {
            let i = choose|i: int| 0 <= i < b.len() && #[trigger] b[i].spec_completion() == c;
            assert(a[i + 1].spec_completion() == c);
            assert(queue[n].spec_completion() != queue[n + 1 + i].spec_completion());
        }
        if places(a).contains(c) && c != place {
            let i = choose|i: int| 0 <= i < a.len() && #[trigger] a[i].spec_completion() == c;
            assert(b[i - 1].spec_completion() == c);
        }
        if owed.contains(c) {
            assert(queue[n].spec_completion() != c);
        }
    }
    assert(owed.union(places(b)) =~= owed.union(places(a)).remove(place));
}

/// Handle to the worker: makes the tasks of requests.
#[derive(Clone, Copy, Debug)]
pub struct IoWorker {}

impl IoWorker {
    pub fn read_at(&self, buf: ReadBuf, offset: u64) -> (task: FileReadTask)
        ensures
            task.spec_state() == FileTaskState::Init(PendingRead { buf, offset }),
    {
        FileTask::new(PendingRead { buf, offset })
    }

    pub fn write(&self, writes: Vec<PageWrite>) -> (task: FileWriteTask)
        ensures
            task.spec_state() == FileTaskState::Init(PendingWrite { writes }),
    {
        FileTask::new(PendingWrite { writes })
    }

    pub fn fsync(&self) -> (task: FileFsyncTask)
        ensures
            task.spec_state() == FileTaskState::Init(PendingFsync {  }),
    {
        FileTask::new(PendingFsync {  })
    }
}

} // verus!
