//! What a caller of the I/O machinery may rely on, whatever it does inside.
//!
//! Each law is about the calls themselves: it holds of every outcome that the function may have.

use crate::buffer::ReadBuf;
use crate::error::{Error, IoError, IoFault};
use crate::io_backend::{ExactPoll, ReadExactAt, ReadPoll};
use crate::io_task::{
    fsync_request, read_request, write_request, FileTask, PageWrite, PendingFsync, PendingRead, PendingWrite,
    TaskCompletion, WorkerRequest,
};
use crate::io_worker;
use crate::io_worker::{
    complete_request_with_error, decode_cqe_result, decode_user_data, encode_user_data, read_op_count, read_sqes,
    request_op_count, request_sqes, write_sqes, Completion, CompletionEvent, InflightRequest, InflightRequestKind, IoWorker, Op, Outcome, SubmissionEntry,
    SubmissionRing, SubmitStep, UringBackend,
};
use crate::memory::arena::FIXED_BUFFER_SIZE_BYTES;
use crate::memory::pool;
use crate::memory::pool::{FixedBuffer, FixedBufferPool};
use std::collections::VecDeque;
use vstd::prelude::*;

verus! {

/// How many bytes an entry moves.
pub open spec fn moves(entry: SubmissionEntry) -> int {
    match entry.op {
        Op::Read { len } => len as int,
        Op::ReadFixed { len, .. } => len as int,
        Op::Write { len, .. } => len as int,
        Op::Fsync => 0,
    }
}

/// The entries read the `len` bytes of the file from `offset` on, from the first to the last, without a
/// gap and without an overlap.
pub open spec fn reads_through(entries: Seq<SubmissionEntry>, offset: int, len: int) -> bool {
    &&& entries.len() >= 1
    &&& entries[0].offset == offset
    &&& entries.last().offset + moves(entries.last()) == offset + len
    &&& forall|i: int| 0 <= i < entries.len() ==> ((#[trigger] entries[i]).op is Read || entries[i].op is ReadFixed) && 0
        < moves(entries[i])
    &&& forall|i: int|
        0 <= i && i + 1 < entries.len() ==> #[trigger] entries[i + 1].offset == entries[i].offset + moves(entries[i])
}

/// The parts of a block follow each other, each inside one of the buffers that lie side by side from
/// `start` on.
proof fn lemma_parts(start: int, ptr: int, size: int)
    requires
        0 <= start <= ptr,
        0 < size,
        ptr + size <= usize::MAX,
    ensures
        ({
            let parts = pool::fixed_parts(start, ptr, size);
            &&& parts.len() >= 1
            &&& parts[0].ptr == ptr
            &&& parts.last().ptr + parts.last().bytes == ptr + size
            &&& forall|i: int| 0 <= i < parts.len() ==> {
                &&& 0 < (#[trigger] parts[i]).bytes <= FIXED_BUFFER_SIZE_BYTES
                &&& ptr <= parts[i].ptr
                &&& parts[i].ptr + parts[i].bytes <= ptr + size
                &&& parts[i].buf_id == (parts[i].ptr - start) / (FIXED_BUFFER_SIZE_BYTES as int)
                &&& parts[i].ptr + parts[i].bytes <= start + (parts[i].buf_id + 1) * FIXED_BUFFER_SIZE_BYTES
            }
            &&& forall|i: int|
                0 <= i && i + 1 < parts.len() ==> #[trigger] parts[i + 1].ptr == parts[i].ptr + parts[i].bytes
        }),
    decreases size,
{
    let buf_id = (ptr - start) / (FIXED_BUFFER_SIZE_BYTES as int);
    let room = start + (buf_id + 1) * FIXED_BUFFER_SIZE_BYTES - ptr;
    assert(0 < room <= FIXED_BUFFER_SIZE_BYTES);
    assert(0 <= buf_id <= ptr);
    let bytes = if size <= room {
        size
    } else {
        room
    };
    let parts = pool::fixed_parts(start, ptr, size);
    let rest = pool::fixed_parts(start, ptr + bytes, size - bytes);
    let first = FixedBuffer { ptr: ptr as usize, buf_id: buf_id as usize, bytes: bytes as usize };
    assert(parts == seq![first] + rest);
    assert(parts[0] == first);
    if size > bytes {
        lemma_parts(start, ptr + bytes, size - bytes);
        assert(parts.last() == rest.last());
        assert forall|i: int| 0 <= i && i + 1 < parts.len() implies #[trigger] parts[i + 1].ptr == parts[i].ptr
            + parts[i].bytes by {
            if i > 0 {
                assert(parts[i + 1] == rest[i - 1 + 1]);
                assert(parts[i] == rest[i - 1]);
            } else {
                assert(parts[1] == rest[0]);
            }
        }
        assert forall|i: int| 0 <= i < parts.len() implies {
            &&& 0 < (#[trigger] parts[i]).bytes <= FIXED_BUFFER_SIZE_BYTES
            &&& ptr <= parts[i].ptr
            &&& parts[i].ptr + parts[i].bytes <= ptr + size
            &&& parts[i].buf_id == (parts[i].ptr - start) / (FIXED_BUFFER_SIZE_BYTES as int)
            &&& parts[i].ptr + parts[i].bytes <= start + (parts[i].buf_id + 1) * FIXED_BUFFER_SIZE_BYTES
        } by {
            if i > 0 {
                assert(parts[i] == rest[i - 1]);
            }
        }
    } else {
        assert(rest.len() == 0);
        assert(parts.last() == first);
    }
}

/// A part is as far behind the start of the read in the file as it is in memory.
proof fn lemma_part_offset(offset: u64, parts: Seq<FixedBuffer>, i: int)
    requires
        0 <= i < parts.len(),
        forall|k: int|
            0 <= k && k + 1 < parts.len() ==> #[trigger] parts[k + 1].ptr == parts[k].ptr + parts[k].bytes,
        forall|k: int| 0 <= k < parts.len() ==> offset + ((#[trigger] parts[k]).ptr - parts[0].ptr) <= u64::MAX,
    ensures
        io_worker::part_offset(offset, parts, i) == offset + (parts[i].ptr - parts[0].ptr),
    decreases i,
{
    if i > 0 {
        lemma_part_offset(offset, parts, i - 1);
        assert(parts[(i - 1) + 1].ptr == parts[i - 1].ptr + parts[i - 1].bytes);
    }
}

/// The entries of a read go through exactly the part of the file that was asked for, in order. A read
/// into a block of the pool fills the block from its start on, and each of its entries names the
/// registered buffer that it lies in.
pub proof fn law_read_goes_through_its_range(
    pool: &Option<FixedBufferPool>,
    request: &WorkerRequest,
    id: u32,
    entries: Vec<SubmissionEntry>,
)
    requires
        io_worker::request_ok(*pool, *request),
        call_ensures(request_sqes, (pool, request, id), entries),
        *request matches WorkerRequest::Read { buf, offset, .. } && 0 < buf@.len() <= u32::MAX && offset + buf@.len()
            <= u64::MAX,
    ensures
        *request matches WorkerRequest::Read { buf, offset, .. } && {
            &&& reads_through(entries@, offset as int, buf@.len() as int)
            &&& if *pool matches Some(p) && p.registered && buf is Fixed {
                let block = buf->Fixed_0.alloc;
                forall|i: int| 0 <= i < entries@.len() ==> {
                    &&& (#[trigger] entries@[i]).op matches Op::ReadFixed { ptr, len, buf_id } && {
                        let number = (ptr - pool->0.start_ptr) / 1048576;
                        &&& ptr - block.ptr == entries@[i].offset - offset
                        &&& number <= u16::MAX ==> buf_id == number
                        &&& ptr + len <= pool->0.start_ptr + (number + 1) * 1048576
                    }
                    &&& entries@[i].linked == (i + 1 < entries@.len())
                }
            } else {
                entries@.len() == 1 && entries@[0].op == (Op::Read { len: buf@.len() as u32 }) && !entries@[0].linked
            }
        },
{
    let buf = request->Read_buf;
    let offset = request->Read_offset;
    if io_worker::uses_fixed(*pool, buf) {
        let alloc = buf->Fixed_0.alloc;
        let start = pool->0.start_ptr as int;
        let parts = io_worker::parts_of(*pool, buf);
        lemma_parts(start, alloc.ptr as int, alloc.size as int);
        assert forall|i: int| 0 <= i < parts.len() implies #[trigger] entries@[i].offset == offset + (parts[i].ptr
            - alloc.ptr) by {
            lemma_part_offset(offset, parts, i);
        }
        assert forall|i: int| 0 <= i && i + 1 < entries@.len() implies #[trigger] entries@[i + 1].offset
            == entries@[i].offset + moves(entries@[i]) by {
            assert(parts[i + 1].ptr == parts[i].ptr + parts[i].bytes);
            assert(entries@[i].offset == offset + (parts[i].ptr - alloc.ptr));
        }
        assert(entries@.last() == entries@[parts.len() - 1]);
        assert(entries@[parts.len() - 1].offset == offset + (parts[parts.len() - 1].ptr - alloc.ptr));
    }
}

/// The entries of a write are the pages, in order, each whole and at its own offset, and each waits for
/// the one before.
pub proof fn law_write_covers_its_pages(
    pool: &Option<FixedBufferPool>,
    request: &WorkerRequest,
    id: u32,
    entries: Vec<SubmissionEntry>,
)
    requires
        io_worker::request_ok(*pool, *request),
        call_ensures(request_sqes, (pool, request, id), entries),
        request is Write,
    ensures
        *request matches WorkerRequest::Write { writes, .. } && {
            &&& entries@.len() == writes@.len()
            &&& forall|i: int| 0 <= i < entries@.len() ==> {
                &&& (#[trigger] entries@[i]).op matches Op::Write { index, len } && index == i && len
                    == writes@[i].buf@.len() as u32
                &&& entries@[i].offset == writes@[i].offset
                &&& entries@[i].linked == (i + 1 < entries@.len())
            }
        },
{
    assert(entries.len() == entries@.len());
}

/// A sync is one entry, and that is a sync.
pub proof fn law_sync_is_a_sync(
    pool: &Option<FixedBufferPool>,
    request: &WorkerRequest,
    id: u32,
    entries: Vec<SubmissionEntry>,
)
    requires
        io_worker::request_ok(*pool, *request),
        call_ensures(request_sqes, (pool, request, id), entries),
        request is Fsync,
    ensures
        entries@.len() == 1,
        entries@[0].op == Op::Fsync,
        !entries@[0].linked,
{
}

/// What the worker is asked for is of the kind of the task, with what the task was given, and its result
/// goes where the task waits for it.
pub proof fn law_tasks_ask_for_what_they_are(
    worker: &IoWorker,
    buf: ReadBuf,
    offset: u64,
    writes: Vec<PageWrite>,
    place: u64,
    read: &mut FileTask<PendingRead>,
    write: &mut FileTask<PendingWrite>,
    sync: &mut FileTask<PendingFsync>,
    pending_read: Option<PendingRead>,
    pending_write: Option<PendingWrite>,
    pending_sync: Option<PendingFsync>,
    requests: (WorkerRequest, WorkerRequest, WorkerRequest),
)
    requires
        call_ensures(IoWorker::read_at, (worker, buf, offset), *old(read)),
        call_ensures(IoWorker::write, (worker, writes), *old(write)),
        call_ensures(IoWorker::fsync, (worker,), *old(sync)),
        call_ensures(FileTask::<PendingRead>::start, (read, place), pending_read),
        call_ensures(FileTask::<PendingWrite>::start, (write, place), pending_write),
        call_ensures(FileTask::<PendingFsync>::start, (sync, place), pending_sync),
        pending_read matches Some(pending) ==> call_ensures(read_request, (pending, place), requests.0),
        pending_write matches Some(pending) ==> call_ensures(write_request, (pending, place), requests.1),
        pending_sync is Some ==> call_ensures(fsync_request, (place,), requests.2),
    ensures
        pending_read is Some && pending_write is Some && pending_sync is Some,
        requests.0 == (WorkerRequest::Read { buf, offset, completion: place }),
        requests.1 == (WorkerRequest::Write { writes, completion: place }),
        requests.2 == (WorkerRequest::Fsync { completion: place }),
{
}

/// A task asks once, waits at the place that it named, and is over when it is told so, or when there is
/// no worker to ask.
pub proof fn law_tasks_ask_once(
    first: &mut FileTask<PendingFsync>,
    second: &mut FileTask<PendingFsync>,
    place: u64,
    other: u64,
    pending: Option<PendingFsync>,
    again: Option<PendingFsync>,
    waits: Option<u64>,
    sent: &mut FileTask<PendingFsync>,
    delivered: bool,
    outcome: Result<(), Error>,
    waits_then: Option<u64>,
)
    requires
        call_ensures(FileTask::<PendingFsync>::start, (first, place), pending),
        pending is Some,
        *old(second) == *final(first),
        call_ensures(FileTask::<PendingFsync>::start, (second, other), again),
        call_ensures(FileTask::<PendingFsync>::waits_for, (final(second),), waits),
        *old(sent) == *final(second),
        call_ensures(FileTask::<PendingFsync>::sent, (sent, delivered), outcome),
        call_ensures(FileTask::<PendingFsync>::waits_for, (final(sent),), waits_then),
    ensures
        again is None,
        waits == Some(place),
        if delivered {
            outcome is Ok && waits_then == Some(place)
        } else {
            outcome == Err::<(), Error>(Error::Io(IoError::Fault(IoFault::WorkerGone))) && waits_then is None
        },
{
}

/// Every entry of a request says which request it belongs to, and which of its entries it is.
pub proof fn law_entries_name_their_request(
    pool: &Option<FixedBufferPool>,
    request: &WorkerRequest,
    id: u32,
    entries: Vec<SubmissionEntry>,
    i: int,
    named: (u32, usize),
)
    requires
        io_worker::request_ok(*pool, *request),
        call_ensures(request_sqes, (pool, request, id), entries),
        0 <= i < entries@.len() <= u32::MAX,
        call_ensures(decode_user_data, (entries@[i].user_data,), named),
    ensures
        named == (id, i as usize),
{
    io_worker::law_user_data(id, i);
}

/// What is encoded is decoded again.
pub proof fn law_user_data_is_decoded(id: u32, index: usize, encoded: u64, decoded: (u32, usize))
    requires
        index <= u32::MAX,
        call_ensures(encode_user_data, (id, index), encoded),
        call_ensures(decode_user_data, (encoded,), decoded),
    ensures
        decoded == (id, index),
{
    io_worker::law_user_data(id, index as int);
}

/// A request takes as many slots as it has entries.
pub proof fn law_entries_are_counted(
    pool: &Option<FixedBufferPool>,
    request: &WorkerRequest,
    id: u32,
    entries: Vec<SubmissionEntry>,
    count: usize,
)
    requires
        io_worker::request_ok(*pool, *request),
        call_ensures(request_sqes, (pool, request, id), entries),
        call_ensures(request_op_count, (pool, request), count),
    ensures
        count == entries@.len(),
        count >= 1,
{
}

/// A negative number is an error of the operating system, any other a number of bytes.
pub proof fn law_results_are_decoded(result: i32, decoded: Result<usize, Error>)
    requires
        call_ensures(decode_cqe_result, (result,), decoded),
    ensures
        match decoded {
            Ok(n) => n == result,
            Err(err) => result < 0 && (result > i32::MIN ==> err == Error::Io(
                IoError::Fault(IoFault::Os((-result) as i32)),
            )),
        },
{
}

/// The request waits for `count` completions, none of which has come.
pub open spec fn just_taken_up(inflight: InflightRequest, request: WorkerRequest, count: int) -> bool {
    &&& inflight.remaining == count
    &&& inflight.error is None
    &&& match request {
        WorkerRequest::Read { buf, completion, .. } => inflight.completion == completion && inflight.kind == (
        InflightRequestKind::Read { buf, read_accum: 0, expected_total: buf@.len() as usize }),
        WorkerRequest::Write { writes, completion } => inflight.completion == completion && inflight.kind == (
        InflightRequestKind::Write { pages: writes }),
        WorkerRequest::Fsync { completion } => inflight.completion == completion && inflight.kind
            == InflightRequestKind::Fsync,
    }
}

/// A request that finds slots for all its entries has them pushed, behind those that are there, under a
/// number that no other request has, and then waits for as many completions. Nothing is answered yet.
pub proof fn law_submitted_request_waits(
    backend: &mut UringBackend,
    pool: &Option<FixedBufferPool>,
    request: WorkerRequest,
    done: &mut Vec<Completion>,
    submitted_any: bool,
    entries: Vec<SubmissionEntry>,
)
    requires
        call_requires(UringBackend::submit_request, (backend, pool, request, done)),
        call_ensures(UringBackend::submit_request, (backend, pool, request, done), submitted_any),
        call_ensures(request_sqes, (pool, &request, final(backend).next_request_id), entries),
        entries@.len() <= old(backend).ring.available(),
    ensures
        submitted_any,
        final(done)@ == old(done)@,
        final(backend).ring.entries@ == old(backend).ring.entries@ + entries@,
        final(backend).queue_depth == old(backend).queue_depth,
        ({
            let id = final(backend).next_request_id;
            let before = old(backend).inflight_requests@;
            let after = final(backend).inflight_requests@;
            &&& !before.dom().contains(id)
            &&& after.dom() == before.dom().insert(id)
            &&& just_taken_up(after[id], request, entries@.len() as int)
            &&& forall|k: u32| #[trigger] before.dom().contains(k) ==> after[k] == before[k]
        }),
{
    let fresh = final(done)@.skip(old(done)@.len() as int);
    assert(old(done)@ + fresh =~= old(done)@);
    assert(entries@.take(entries@.len() as int) =~= entries@);
    let id = final(backend).next_request_id;
    assert(final(backend).inflight_requests@.dom() =~= old(backend).inflight_requests@.dom().insert(id));
}

/// A request that finds too few slots fails, unless it is a write of which some pages found one: that
/// fails once those are written.
pub proof fn law_request_without_slots_fails(
    backend: &mut UringBackend,
    pool: &Option<FixedBufferPool>,
    request: WorkerRequest,
    done: &mut Vec<Completion>,
    submitted_any: bool,
    entries: Vec<SubmissionEntry>,
)
    requires
        call_requires(UringBackend::submit_request, (backend, pool, request, done)),
        call_ensures(UringBackend::submit_request, (backend, pool, request, done), submitted_any),
        call_ensures(request_sqes, (pool, &request, final(backend).next_request_id), entries),
        entries@.len() > old(backend).ring.available(),
    ensures
        final(backend).ring.entries@ == old(backend).ring.entries@ + entries@.take(old(backend).ring.available()),
        ({
            let full = Error::Io(IoError::Fault(IoFault::QueueFull));
            let id = final(backend).next_request_id;
            if request is Write && old(backend).ring.available() > 0 {
                &&& submitted_any
                &&& final(done)@ == old(done)@
                &&& final(backend).inflight_requests@.dom().contains(id)
                &&& final(backend).inflight_requests@[id].remaining == old(backend).ring.available()
                &&& final(backend).inflight_requests@[id].error == Some(full)
                &&& final(backend).inflight_requests@[id].kind is Write
            } else {
                &&& !submitted_any
                &&& final(backend).inflight_requests@ == old(backend).inflight_requests@
                &&& final(done)@.len() == old(done)@.len() + 1
                &&& final(done)@.take(old(done)@.len() as int) == old(done)@
                &&& match request {
                    WorkerRequest::Read { completion, .. } => final(done)@.last() == (Completion {
                        completion,
                        outcome: Outcome::Read(Err(full)),
                    }),
                    WorkerRequest::Write { completion, .. } => final(done)@.last() == (Completion {
                        completion,
                        outcome: Outcome::Write(Err(full)),
                    }),
                    WorkerRequest::Fsync { completion } => final(done)@.last() == (Completion {
                        completion,
                        outcome: Outcome::Fsync(Err(full)),
                    }),
                }
            }
        }),
{
    let fresh = final(done)@.skip(old(done)@.len() as int);
    if fresh.len() == 0 {
        assert(old(done)@ + fresh =~= old(done)@);
    } else {
        assert(final(done)@.take(old(done)@.len() as int) =~= old(done)@);
        assert(final(done)@.last() == fresh[0]);
    }
}

/// What was read so far, where all went well.
pub open spec fn added_up(results: Seq<i32>) -> int
    decreases results.len(),
{
    if results.len() == 0 {
        0
    } else {
        added_up(results.drop_last()) + results.last()
    }
}

/// No result is an error.
pub open spec fn all_well(results: Seq<i32>) -> bool {
    forall|i: int| 0 <= i < results.len() ==> #[trigger] results[i] >= 0
}

/// The numbers of the events, in order.
pub open spec fn results_of(events: Seq<CompletionEvent>) -> Seq<i32> {
    events.map_values(|event: CompletionEvent| event.result)
}

/// All events are about request `id`.
pub open spec fn all_about(events: Seq<CompletionEvent>, id: u32) -> bool {
    forall|i: int| 0 <= i < events.len() ==> (#[trigger] events[i]).user_data / 0x1_0000_0000 == id
}

/// A read after some of its completions.
#[verifier::rlimit(50)]
proof fn lemma_read_so_far(inflight: Map<u32, InflightRequest>, id: u32, events: Seq<CompletionEvent>)
    requires
        inflight.dom().contains(id),
        inflight[id].kind matches InflightRequestKind::Read { read_accum, .. } && read_accum == 0,
        inflight[id].error is None,
        events.len() < inflight[id].remaining,
        all_about(events, id),
        forall|n: int| 0 <= n <= events.len() ==> #[trigger] added_up(results_of(events).take(n)) <= usize::MAX,
    ensures
        ({
            let after = io_worker::inflight_after_all(inflight, events);
            &&& io_worker::results_after_all(inflight, events).len() == 0
            &&& after.dom() == inflight.dom()
            &&& after[id].remaining == inflight[id].remaining - events.len()
            &&& after[id].completion == inflight[id].completion
            &&& after[id].kind matches InflightRequestKind::Read { buf, read_accum, expected_total } && buf
                == inflight[id].kind->Read_buf && expected_total == inflight[id].kind->expected_total && (all_well(
                results_of(events),
            ) ==> read_accum == added_up(results_of(events)))
            &&& after[id].error is None <==> all_well(results_of(events))
        }),
    decreases events.len(),
{
    let results = results_of(events);
    if events.len() > 0 {
        let fewer = events.drop_last();
        assert(results_of(fewer) =~= results.drop_last());
        assert forall|n: int| 0 <= n <= fewer.len() implies #[trigger] added_up(results_of(fewer).take(n))
            <= usize::MAX by {
            assert(results_of(fewer).take(n) =~= results.take(n));
        }
        lemma_read_so_far(inflight, id, fewer);
        let last = events.last();
        assert(last == events[events.len() - 1]);
        assert(last.user_data / 0x1_0000_0000 == id);
        let mid = io_worker::inflight_after_all(inflight, fewer);
        let after = io_worker::inflight_after_all(inflight, events);
        assert(after.dom() =~= inflight.dom());
        assert(results.last() == last.result);
        assert(all_well(results) <==> all_well(results.drop_last()) && last.result >= 0) by {
            if all_well(results) {
                assert(results[results.len() - 1] >= 0);
                assert forall|i: int| 0 <= i < results.drop_last().len() implies #[trigger] results.drop_last()[i]
                    >= 0 by {
                    assert(results[i] >= 0);
                }
            }
            if all_well(results.drop_last()) && last.result >= 0 {
                assert forall|i: int| 0 <= i < results.len() implies #[trigger] results[i] >= 0 by {
                    if i < results.len() - 1 {
                        assert(results.drop_last()[i] >= 0);
                    }
                }
            }
        }
        assert(results.take(results.len() as int) =~= results);
        if all_well(results.drop_last()) {
            lemma_added_up(results.drop_last());
        }
    } else {
        assert(results =~= Seq::<i32>::empty());
    }
}

proof fn lemma_added_up(results: Seq<i32>)
    requires
        all_well(results),
    ensures
        added_up(results) >= 0,
    decreases results.len(),
{
    if results.len() > 0 {
        assert forall|i: int| 0 <= i < results.drop_last().len() implies #[trigger] results.drop_last()[i] >= 0 by {
            assert(results[i] >= 0);
        }
        lemma_added_up(results.drop_last());
        assert(results[results.len() - 1] >= 0);
    }
}

/// A read whose entries are all completed is answered once, at its own place: with its buffer if no
/// entry failed and together they brought as many bytes as the buffer has, with an error otherwise.
#[verifier::rlimit(50)]
pub proof fn law_read_is_answered(
    backend: &mut UringBackend,
    events: &Vec<CompletionEvent>,
    done: &mut Vec<Completion>,
    id: u32,
)
    requires
        call_ensures(UringBackend::poll_completions, (backend, events, done), ()),
        old(backend).inflight_requests@.dom().contains(id),
        old(backend).inflight_requests@[id].kind matches InflightRequestKind::Read { read_accum, .. } && read_accum
            == 0,
        old(backend).inflight_requests@[id].error is None,
        events@.len() == old(backend).inflight_requests@[id].remaining,
        events@.len() > 0,
        all_about(events@, id),
        forall|n: int| 0 <= n <= events@.len() ==> #[trigger] added_up(results_of(events@).take(n)) <= usize::MAX,
    ensures
        !final(backend).inflight_requests@.dom().contains(id),
        final(done)@.len() == old(done)@.len() + 1,
        final(done)@.last().completion == old(backend).inflight_requests@[id].completion,
        ({
            let request = old(backend).inflight_requests@[id].kind;
            let results = results_of(events@);
            final(done)@.last().outcome matches Outcome::Read(outcome) && match outcome {
                Ok((buf, n)) => {
                    &&& buf == request->Read_buf
                    &&& n == request->expected_total
                    &&& all_well(results)
                    &&& added_up(results) == n
                },
                Err(err) => !all_well(results) || added_up(results) != request->expected_total,
            }
        }),
{
    let inflight = old(backend).inflight_requests@;
    let all = events@;
    let fewer = all.drop_last();
    let results = results_of(all);
    assert(results_of(fewer) =~= results.drop_last());
    assert forall|n: int| 0 <= n <= fewer.len() implies #[trigger] added_up(results_of(fewer).take(n))
        <= usize::MAX by {
        assert(results_of(fewer).take(n) =~= results.take(n));
    }
    lemma_read_so_far(inflight, id, fewer);
    let last = all.last();
    assert(last == all[all.len() - 1]);
    assert(last.user_data / 0x1_0000_0000 == id);
    assert(results.last() == last.result);
    assert(results.take(results.len() as int) =~= results);
    assert(all_well(results) <==> all_well(results.drop_last()) && last.result >= 0) by {
        if all_well(results) {
            assert(results[results.len() - 1] >= 0);
            assert forall|i: int| 0 <= i < results.drop_last().len() implies #[trigger] results.drop_last()[i] >= 0 by {
                assert(results[i] >= 0);
            }
        }
        if all_well(results.drop_last()) && last.result >= 0 {
            assert forall|i: int| 0 <= i < results.len() implies #[trigger] results[i] >= 0 by {
                if i < results.len() - 1 {
                    assert(results.drop_last()[i] >= 0);
                }
            }
        }
    }
    if all_well(results.drop_last()) {
        lemma_added_up(results.drop_last());
    }
    let brought = io_worker::results_after_all(inflight, all);
    assert(brought.len() == 1);
    assert(final(done)@.last() == brought[0]);
}

/// A sync is answered once, at its own place, when its entry is completed: with success if and only if
/// that went well.
pub proof fn law_sync_is_answered(
    backend: &mut UringBackend,
    events: &Vec<CompletionEvent>,
    done: &mut Vec<Completion>,
    id: u32,
)
    requires
        call_ensures(UringBackend::poll_completions, (backend, events, done), ()),
        old(backend).inflight_requests@.dom().contains(id),
        old(backend).inflight_requests@[id].kind is Fsync,
        old(backend).inflight_requests@[id].error is None,
        old(backend).inflight_requests@[id].remaining == 1,
        events@.len() == 1,
        events@[0].user_data / 0x1_0000_0000 == id,
    ensures
        !final(backend).inflight_requests@.dom().contains(id),
        final(done)@.len() == old(done)@.len() + 1,
        final(done)@.last().completion == old(backend).inflight_requests@[id].completion,
        final(done)@.last().outcome matches Outcome::Fsync(outcome) && (outcome is Ok <==> events@[0].result >= 0),
{
    let inflight = old(backend).inflight_requests@;
    let event = events@[0];
    assert(events@.drop_last() =~= Seq::<CompletionEvent>::empty());
    assert(events@.last() == event);
    assert(io_worker::inflight_after_all(inflight, events@.drop_last()) == inflight);
    let brought = io_worker::results_after_all(inflight, events@);
    assert(io_worker::results_after_all(inflight, events@.drop_last()).len() == 0);
    assert(brought =~= io_worker::results_after(inflight, event));
    assert(final(done)@.last() == brought[0]);
}

/// The page that an event of a write is about was written whole.
pub open spec fn page_written(pages: Seq<PageWrite>, event: CompletionEvent) -> bool {
    event.result == pages[(event.user_data % 0x1_0000_0000) as int].buf@.len()
}

/// All events are about pages of request `id`.
pub open spec fn about_pages(events: Seq<CompletionEvent>, id: u32, pages: Seq<PageWrite>) -> bool {
    forall|i: int| 0 <= i < events.len() ==> (#[trigger] events[i]).user_data / 0x1_0000_0000 == id
        && events[i].user_data % 0x1_0000_0000 < pages.len()
}

/// Every event says that its page was written whole.
pub open spec fn pages_written(events: Seq<CompletionEvent>, pages: Seq<PageWrite>) -> bool {
    forall|i: int| 0 <= i < events.len() ==> page_written(pages, #[trigger] events[i])
}

proof fn lemma_pages_written(events: Seq<CompletionEvent>, pages: Seq<PageWrite>)
    requires
        events.len() > 0,
    ensures
        pages_written(events, pages) <==> pages_written(events.drop_last(), pages) && page_written(
            pages,
            events.last(),
        ),
{
    if pages_written(events, pages) {
        assert(page_written(pages, events[events.len() - 1]));
        assert forall|i: int| 0 <= i < events.drop_last().len() implies page_written(
            pages,
            #[trigger] events.drop_last()[i],
        ) by {
            assert(page_written(pages, events[i]));
        }
    }
    if pages_written(events.drop_last(), pages) && page_written(pages, events.last()) {
        assert forall|i: int| 0 <= i < events.len() implies page_written(pages, #[trigger] events[i]) by {
            if i < events.len() - 1 {
                assert(page_written(pages, events.drop_last()[i]));
            }
        }
    }
}

/// A write after some of its completions.
#[verifier::rlimit(50)]
proof fn lemma_write_so_far(
    inflight: Map<u32, InflightRequest>,
    id: u32,
    events: Seq<CompletionEvent>,
    pages: Vec<PageWrite>,
)
    requires
        inflight.dom().contains(id),
        inflight[id].kind == (InflightRequestKind::Write { pages }),
        inflight[id].error is None,
        events.len() < inflight[id].remaining,
        about_pages(events, id, pages@),
    ensures
        ({
            let after = io_worker::inflight_after_all(inflight, events);
            &&& io_worker::results_after_all(inflight, events).len() == 0
            &&& after.dom() == inflight.dom()
            &&& after[id].remaining == inflight[id].remaining - events.len()
            &&& after[id].completion == inflight[id].completion
            &&& after[id].kind == inflight[id].kind
            &&& after[id].error is None <==> pages_written(events, pages@)
        }),
    decreases events.len(),
{
    if events.len() > 0 {
        let fewer = events.drop_last();
        assert forall|i: int| 0 <= i < fewer.len() implies (#[trigger] fewer[i]).user_data / 0x1_0000_0000 == id
            && fewer[i].user_data % 0x1_0000_0000 < pages@.len() by {
            assert(fewer[i] == events[i]);
        }
        lemma_write_so_far(inflight, id, fewer, pages);
        let last = events.last();
        assert(last == events[events.len() - 1]);
        assert(last.user_data / 0x1_0000_0000 == id);
        lemma_pages_written(events, pages@);
        let after = io_worker::inflight_after_all(inflight, events);
        assert(after.dom() =~= inflight.dom());
    }
}

/// A write whose entries are all completed is answered once, at its own place: with success if and only
/// if every page was written whole.
#[verifier::rlimit(50)]
pub proof fn law_write_is_answered(
    backend: &mut UringBackend,
    events: &Vec<CompletionEvent>,
    done: &mut Vec<Completion>,
    id: u32,
    pages: Vec<PageWrite>,
)
    requires
        call_ensures(UringBackend::poll_completions, (backend, events, done), ()),
        old(backend).inflight_requests@.dom().contains(id),
        old(backend).inflight_requests@[id].kind == (InflightRequestKind::Write { pages }),
        old(backend).inflight_requests@[id].error is None,
        events@.len() == old(backend).inflight_requests@[id].remaining,
        events@.len() > 0,
        about_pages(events@, id, pages@),
    ensures
        !final(backend).inflight_requests@.dom().contains(id),
        final(done)@.len() == old(done)@.len() + 1,
        final(done)@.last().completion == old(backend).inflight_requests@[id].completion,
        final(done)@.last().outcome matches Outcome::Write(outcome) && (outcome is Ok <==> pages_written(
            events@,
            pages@,
        )),
{
    let inflight = old(backend).inflight_requests@;
    let fewer = events@.drop_last();
    assert forall|i: int| 0 <= i < fewer.len() implies (#[trigger] fewer[i]).user_data / 0x1_0000_0000 == id
        && fewer[i].user_data % 0x1_0000_0000 < pages@.len() by {
        assert(fewer[i] == events@[i]);
    }
    lemma_write_so_far(inflight, id, fewer, pages);
    let last = events@.last();
    assert(last == events@[events@.len() - 1]);
    assert(last.user_data / 0x1_0000_0000 == id);
    lemma_pages_written(events@, pages@);
    let brought = io_worker::results_after_all(inflight, events@);
    assert(brought.len() == 1);
    assert(final(done)@.last() == brought[0]);
}

/// Completions that are taken in together come to the same as if they were taken in one after the other.
pub proof fn law_completions_add_up(
    whole: &mut UringBackend,
    events: &Vec<CompletionEvent>,
    done: &mut Vec<Completion>,
    first: &mut UringBackend,
    some: &Vec<CompletionEvent>,
    some_done: &mut Vec<Completion>,
    second: &mut UringBackend,
    rest: &Vec<CompletionEvent>,
    rest_done: &mut Vec<Completion>,
)
    requires
        *old(first) == *old(whole),
        *old(some_done) == *old(done),
        *old(second) == *final(first),
        *old(rest_done) == *final(some_done),
        events@ == some@ + rest@,
        call_ensures(UringBackend::poll_completions, (whole, events, done), ()),
        call_ensures(UringBackend::poll_completions, (first, some, some_done), ()),
        call_ensures(UringBackend::poll_completions, (second, rest, rest_done), ()),
    ensures
        final(whole).inflight_requests@ == final(second).inflight_requests@,
        final(done)@ == final(rest_done)@,
        final(whole).ring == final(second).ring,
{
    lemma_after_both(old(whole).inflight_requests@, some@, rest@);
    let inflight = old(whole).inflight_requests@;
    let mid = io_worker::inflight_after_all(inflight, some@);
    let a = io_worker::results_after_all(inflight, some@);
    let b = io_worker::results_after_all(mid, rest@);
    assert(old(done)@ + (a + b) =~= old(done)@ + a + b);
}

proof fn lemma_after_both(
    inflight: Map<u32, InflightRequest>,
    some: Seq<CompletionEvent>,
    rest: Seq<CompletionEvent>,
)
    ensures
        io_worker::inflight_after_all(inflight, some + rest) == io_worker::inflight_after_all(
            io_worker::inflight_after_all(inflight, some),
            rest,
        ),
        io_worker::results_after_all(inflight, some + rest) == io_worker::results_after_all(inflight, some)
            + io_worker::results_after_all(io_worker::inflight_after_all(inflight, some), rest),
    decreases rest.len(),
{
    let all = some + rest;
    let mid = io_worker::inflight_after_all(inflight, some);
    if rest.len() == 0 {
        assert(all =~= some);
        assert(io_worker::results_after_all(inflight, some) + io_worker::results_after_all(mid, rest)
            =~= io_worker::results_after_all(inflight, some));
    } else {
        assert(all.drop_last() =~= some + rest.drop_last());
        assert(all.last() == rest.last());
        lemma_after_both(inflight, some, rest.drop_last());
        assert(io_worker::results_after_all(inflight, all) =~= io_worker::results_after_all(inflight, some)
            + io_worker::results_after_all(mid, rest));
    }
}

/// Whatever completions come, in whatever order: a place that was owed a result is owed it still or has
/// got exactly one, and no other place gets any.
pub proof fn law_results_come_once(
    backend: &mut UringBackend,
    events: &Vec<CompletionEvent>,
    done: &mut Vec<Completion>,
    i: int,
    j: int,
)
    requires
        call_ensures(UringBackend::poll_completions, (backend, events, done), ()),
        old(done)@.len() <= i < j < final(done)@.len(),
    ensures
        final(done)@[i].completion != final(done)@[j].completion,
        io_worker::owed(old(backend).inflight_requests@).contains(final(done)@[i].completion),
        !io_worker::owed(final(backend).inflight_requests@).contains(final(done)@[i].completion),
        final(done)@.take(old(done)@.len() as int) == old(done)@,
{
    let fresh = io_worker::results_after_all(old(backend).inflight_requests@, events@);
    let n = old(done)@.len() as int;
    assert(final(done)@[i] == fresh[i - n]);
    assert(final(done)@[j] == fresh[j - n]);
    assert(fresh[i - n].completion == final(done)@[i].completion);
    assert(final(done)@.take(n) =~= old(done)@);
}

/// A completion is taken in by the one request that it names, and by no other: an error that came before
/// stays, a new one is kept, and the bytes that a read brought are added up. The last completion of a
/// request ends it with its result, any other brings none.
#[verifier::rlimit(50)]
pub proof fn law_completion_is_taken_in(
    backend: &mut UringBackend,
    events: &Vec<CompletionEvent>,
    done: &mut Vec<Completion>,
    named: (u32, usize),
    decoded: Result<usize, Error>,
)
    requires
        call_ensures(UringBackend::poll_completions, (backend, events, done), ()),
        old(backend).wf(),
        events@.len() == 1,
        call_ensures(decode_user_data, (events@[0].user_data,), named),
        call_ensures(decode_cqe_result, (events@[0].result,), decoded),
    ensures
        ({
            let (id, op) = named;
            let before = old(backend).inflight_requests@;
            let after = final(backend).inflight_requests@;
            let request = before[id];
            if !before.dom().contains(id) || (request.kind matches InflightRequestKind::Write { pages } && op
                >= pages@.len()) {
                after == before && final(done)@ == old(done)@
            } else {
                let error = match (request.error, decoded, request.kind) {
                    (Some(err), _, _) => Some(err),
                    (None, Err(err), _) => Some(err),
                    (None, Ok(n), InflightRequestKind::Write { pages }) => if n == pages@[op as int].buf@.len() {
                        None
                    } else {
                        Some(
                            Error::Io(
                                IoError::Fault(
                                    IoFault::ShortWrite { expected: pages@[op as int].buf@.len() as usize, got: n },
                                ),
                            ),
                        )
                    },
                    (None, Ok(_), _) => None,
                };
                let brought = match decoded {
                    Ok(n) => n as int,
                    Err(_) => 0,
                };
                &&& forall|k: u32| k != id ==> #[trigger] after.dom().contains(k) == before.dom().contains(k)
                &&& forall|k: u32| k != id && #[trigger] before.dom().contains(k) ==> after[k] == before[k]
                &&& if request.remaining > 1 {
                    &&& final(done)@ == old(done)@
                    &&& after.dom().contains(id)
                    &&& after[id].remaining == request.remaining - 1
                    &&& after[id].error == error
                    &&& after[id].completion == request.completion
                    &&& match request.kind {
                        InflightRequestKind::Read { buf, read_accum, expected_total } => read_accum + brought
                            <= usize::MAX ==> after[id].kind == (InflightRequestKind::Read {
                            buf,
                            read_accum: (read_accum + brought) as usize,
                            expected_total,
                        }),
                        _ => after[id].kind == request.kind,
                    }
                } else {
                    &&& !after.dom().contains(id)
                    &&& final(done)@.len() == old(done)@.len() + 1
                    &&& final(done)@.take(old(done)@.len() as int) == old(done)@
                    &&& final(done)@.last().completion == request.completion
                    &&& match (final(done)@.last().outcome, request.kind) {
                        (Outcome::Write(outcome), InflightRequestKind::Write { .. }) => outcome == (match error {
                            Some(err) => Err::<(), Error>(err),
                            None => Ok(()),
                        }),
                        (Outcome::Fsync(outcome), InflightRequestKind::Fsync) => outcome == (match error {
                            Some(err) => Err::<(), Error>(err),
                            None => Ok(()),
                        }),
                        (
                            Outcome::Read(outcome),
                            InflightRequestKind::Read { buf, read_accum, expected_total },
                        ) => match error {
                            Some(err) => outcome == Err::<(ReadBuf, usize), Error>(err),
                            None => read_accum + brought <= usize::MAX ==> outcome == (if read_accum + brought
                                == expected_total {
                                Ok::<(ReadBuf, usize), Error>((buf, expected_total))
                            } else {
                                Err(
                                    Error::Io(
                                        IoError::Fault(
                                            IoFault::ShortRead {
                                                expected: expected_total,
                                                got: (read_accum + brought) as usize,
                                            },
                                        ),
                                    ),
                                )
                            }),
                        },
                        _ => false,
                    }
                }
            }
        }),
{
    let inflight = old(backend).inflight_requests@;
    let event = events@[0];
    assert(events@.drop_last() =~= Seq::<CompletionEvent>::empty());
    assert(events@.last() == event);
    assert(io_worker::inflight_after_all(inflight, events@.drop_last()) == inflight);
    let brought = io_worker::results_after_all(inflight, events@);
    assert(io_worker::results_after_all(inflight, events@.drop_last()).len() == 0);
    assert(brought =~= io_worker::results_after(inflight, event));
    assert(named.0 == (event.user_data / 0x1_0000_0000) as u32);
    assert(named.1 == event.user_data % 0x1_0000_0000);
    if brought.len() == 0 {
        assert(old(done)@ + brought =~= old(done)@);
    } else {
        assert(final(done)@.last() == brought[0]);
        assert(final(done)@.take(old(done)@.len() as int) =~= old(done)@);
    }
}

/// Requests are taken up in the order in which they came, and the rest waits in the same order. One that
/// needs more entries than the queue ever has is refused, and no other; one that waits lacks slots now.
pub proof fn law_requests_are_taken_in_order(
    backend: &mut UringBackend,
    pool: &Option<FixedBufferPool>,
    pending: &mut Option<WorkerRequest>,
    incoming: &mut VecDeque<WorkerRequest>,
    disconnected: bool,
    done: &mut Vec<Completion>,
    step: SubmitStep,
)
    requires
        call_ensures(
            UringBackend::submit_requests,
            (backend, pool, pending, incoming, disconnected, done),
            step,
        ),
    ensures
        ({
            let before = io_worker::waiting(*old(pending), old(incoming)@);
            let after = io_worker::waiting(*final(pending), final(incoming)@);
            let taken = before.take(before.len() - after.len());
            let fresh = final(done)@.skip(old(done)@.len() as int);
            &&& after.len() <= before.len()
            &&& before == taken + after
            &&& final(done)@ == old(done)@ + fresh
            &&& forall|i: int| 0 <= i < fresh.len() ==> #[trigger] refuses_one(
                fresh[i],
                taken,
                *pool,
                old(backend).queue_depth,
            )
            &&& forall|k: int|
                0 <= k < taken.len() && io_worker::op_count(*pool, taken[k]) > old(backend).queue_depth
                    ==> #[trigger] was_refused(taken[k], fresh, *pool, old(backend).queue_depth)
            &&& *final(pending) matches Some(request) ==> io_worker::op_count(*pool, request)
                <= old(backend).queue_depth && io_worker::op_count(*pool, request) > final(backend).ring.available()
            &&& *final(pending) is None ==> after.len() == 0
            &&& match step {
                SubmitStep::Disconnected => disconnected && after.len() == 0,
                SubmitStep::Idle => {
                    &&& disconnected ==> after.len() > 0
                    &&& final(backend).ring.entries@ == old(backend).ring.entries@
                },
                SubmitStep::Submit(entries) => {
                    &&& disconnected ==> after.len() > 0
                    &&& entries@.len() > old(backend).ring.entries@.len()
                    &&& final(backend).ring.entries@.len() == 0
                },
            }
        }),
{
    let before = io_worker::waiting(*old(pending), old(incoming)@);
    let after = io_worker::waiting(*final(pending), final(incoming)@);
    let n = before.len() - after.len();
    let taken = before.take(n);
    assert(before =~= taken + after);
    let pushed = match step {
        SubmitStep::Submit(entries) => entries@,
        _ => final(backend).ring.entries@,
    }.skip(old(backend).ring.entries@.len() as int);
    let fresh = final(done)@.skip(old(done)@.len() as int);
    let uptake = io_worker::Uptake {
        inflight: final(backend).inflight_requests@,
        entries: pushed,
        refusals: fresh,
        last_id: final(backend).next_request_id,
    };
    let depth = old(backend).queue_depth;
    let inflight = old(backend).inflight_requests@;
    let last_id = old(backend).next_request_id;
    assert(io_worker::took_up(*pool, depth, inflight, last_id, taken, uptake));
    let ids = choose|ids: Seq<u32>| #[trigger]
        io_worker::assigned(*pool, depth, inflight, last_id, taken, ids) && uptake == io_worker::taken_up(
            *pool,
            depth,
            inflight,
            last_id,
            taken,
            ids,
        );
    lemma_refusals(*pool, depth, inflight, last_id, taken, ids);
    let refusals = io_worker::taken_up(*pool, depth, inflight, last_id, taken, ids).refusals;
    assert(refusals == uptake.refusals);
    assert forall|i: int| 0 <= i < fresh.len() implies #[trigger] refuses_one(fresh[i], taken, *pool, depth) by {
        assert(refuses_one(refusals[i], taken, *pool, depth));
    }
    assert forall|k: int| 0 <= k < taken.len() && io_worker::op_count(*pool, taken[k]) > depth implies #[trigger] was_refused(
        taken[k],
        fresh,
        *pool,
        depth,
    ) by {
        assert(was_refused(taken[k], refusals, *pool, depth));
    }
    if step is Idle {
        assert(final(backend).ring.entries@ =~= old(backend).ring.entries@);
    }
}

/// The request was answered that it needs more entries than the queue has.
pub open spec fn is_refusal(
    one: Completion,
    request: WorkerRequest,
    pool: Option<FixedBufferPool>,
    queue_depth: usize,
) -> bool {
    let needed = io_worker::op_count(pool, request) as usize;
    let err = Error::Io(IoError::Fault(IoFault::TooManyEntries { needed, queue_depth }));
    match request {
        WorkerRequest::Read { completion, .. } => one.completion == completion && one.outcome == Outcome::Read(Err(err)),
        WorkerRequest::Write { completion, .. } => one.completion == completion && one.outcome == Outcome::Write(
            Err(err),
        ),
        WorkerRequest::Fsync { completion } => one.completion == completion && one.outcome == Outcome::Fsync(Err(err)),
    }
}

/// The result refuses one of the requests, and that never fits.
pub open spec fn refuses_one(
    one: Completion,
    requests: Seq<WorkerRequest>,
    pool: Option<FixedBufferPool>,
    queue_depth: usize,
) -> bool {
    exists|k: int|
        0 <= k < requests.len() && io_worker::op_count(pool, requests[k]) > queue_depth && #[trigger] is_refusal(
            one,
            requests[k],
            pool,
            queue_depth,
        )
}

/// One of the results refuses the request.
pub open spec fn was_refused(
    request: WorkerRequest,
    results: Seq<Completion>,
    pool: Option<FixedBufferPool>,
    queue_depth: usize,
) -> bool {
    exists|i: int| 0 <= i < results.len() && #[trigger] is_refusal(results[i], request, pool, queue_depth)
}

/// What is refused is what never fits.
proof fn lemma_refusals(
    pool: Option<FixedBufferPool>,
    depth: usize,
    inflight: Map<u32, InflightRequest>,
    last_id: u32,
    requests: Seq<WorkerRequest>,
    ids: Seq<u32>,
)
    ensures
        ({
            let refusals = io_worker::taken_up(pool, depth, inflight, last_id, requests, ids).refusals;
            &&& forall|i: int| 0 <= i < refusals.len() ==> #[trigger] refuses_one(refusals[i], requests, pool, depth)
            &&& forall|k: int|
                0 <= k < requests.len() && io_worker::op_count(pool, requests[k]) > depth ==> #[trigger] was_refused(
                    requests[k],
                    refusals,
                    pool,
                    depth,
                )
        }),
    decreases requests.len(),
{
    if requests.len() > 0 {
        let fewer = requests.drop_last();
        lemma_refusals(pool, depth, inflight, last_id, fewer, ids.drop_last());
        let before = io_worker::taken_up(pool, depth, inflight, last_id, fewer, ids.drop_last()).refusals;
        let refusals = io_worker::taken_up(pool, depth, inflight, last_id, requests, ids).refusals;
        let n = requests.len() - 1;
        assert forall|i: int| 0 <= i < refusals.len() implies #[trigger] refuses_one(
            refusals[i],
            requests,
            pool,
            depth,
        ) by {
            if i < before.len() {
                assert(refusals[i] == before[i]);
                assert(refuses_one(before[i], fewer, pool, depth));
                let k = choose|k: int|
                    0 <= k < fewer.len() && io_worker::op_count(pool, fewer[k]) > depth && #[trigger] is_refusal(
                        before[i],
                        fewer[k],
                        pool,
                        depth,
                    );
                assert(requests[k] == fewer[k]);
                assert(is_refusal(refusals[i], requests[k], pool, depth));
            } else {
                assert(is_refusal(refusals[i], requests[n], pool, depth));
            }
        }
        assert forall|k: int|
            0 <= k < requests.len() && io_worker::op_count(pool, requests[k]) > depth implies #[trigger] was_refused(
            requests[k],
            refusals,
            pool,
            depth,
        ) by {
            if k < n {
                assert(fewer[k] == requests[k]);
                assert(was_refused(fewer[k], before, pool, depth));
                let i = choose|i: int| 0 <= i < before.len() && #[trigger] is_refusal(before[i], fewer[k], pool, depth);
                assert(refusals[i] == before[i]);
                assert(is_refusal(refusals[i], requests[k], pool, depth));
            } else {
                assert(is_refusal(refusals[before.len() as int], requests[k], pool, depth));
            }
        }
    }
}

/// The entries of a request are among those that were pushed, one behind the other, and the request waits
/// for them.
pub open spec fn is_on_its_way(
    pool: Option<FixedBufferPool>,
    request: WorkerRequest,
    pushed: Seq<SubmissionEntry>,
    inflight: Map<u32, InflightRequest>,
    id: u32,
    from: int,
) -> bool {
    let entries = io_worker::entries_of(pool, request, id);
    &&& 0 <= from
    &&& from + entries.len() <= pushed.len()
    &&& pushed.subrange(from, from + entries.len()) == entries
    &&& inflight.dom().contains(id)
    &&& just_taken_up(inflight[id], request, entries.len() as int)
}

proof fn lemma_on_its_way(
    pool: Option<FixedBufferPool>,
    depth: usize,
    inflight: Map<u32, InflightRequest>,
    last_id: u32,
    requests: Seq<WorkerRequest>,
    ids: Seq<u32>,
)
    requires
        io_worker::assigned(pool, depth, inflight, last_id, requests, ids),
    ensures
        ({
            let uptake = io_worker::taken_up(pool, depth, inflight, last_id, requests, ids);
            &&& forall|k: int| 0 <= k < requests.len() && io_worker::op_count(pool, #[trigger] requests[k]) <= depth
                ==> exists|id: u32, from: int| #[trigger]
                is_on_its_way(pool, requests[k], uptake.entries, uptake.inflight, id, from)
            &&& forall|id: u32| #[trigger] inflight.dom().contains(id) ==> uptake.inflight.dom().contains(id)
                && uptake.inflight[id] == inflight[id]
        }),
    decreases requests.len(),
{
    if requests.len() > 0 {
        let fewer = requests.drop_last();
        let fewer_ids = ids.drop_last();
        let n = requests.len() - 1;
        assert forall|i: int| 0 <= i < fewer.len() && io_worker::op_count(pool, fewer[i]) <= depth implies io_worker::follows(
            io_worker::taken_up(pool, depth, inflight, last_id, fewer.take(i), fewer_ids.take(i)),
            #[trigger] fewer_ids[i],
        ) by {
            assert(fewer.take(i) =~= requests.take(i));
            assert(fewer_ids.take(i) =~= ids.take(i));
            assert(fewer_ids[i] == ids[i]);
            assert(fewer[i] == requests[i]);
        }
        lemma_on_its_way(pool, depth, inflight, last_id, fewer, fewer_ids);
        assert(requests.take(n) =~= fewer);
        assert(ids.take(n) =~= fewer_ids);
        let before = io_worker::taken_up(pool, depth, inflight, last_id, fewer, fewer_ids);
        let after = io_worker::taken_up(pool, depth, inflight, last_id, requests, ids);
        let request = requests.last();
        let fits = io_worker::op_count(pool, request) <= depth;
        if fits {
            assert(requests[n] == request);
            assert(io_worker::follows(before, ids[n]));
        }
        assert forall|k: int| 0 <= k < requests.len() && io_worker::op_count(pool, #[trigger] requests[k]) <= depth
            implies exists|id: u32, from: int| #[trigger]
            is_on_its_way(pool, requests[k], after.entries, after.inflight, id, from) by {
            if k < n {
                assert(fewer[k] == requests[k]);
                let (id, from) = choose|id: u32, from: int| #[trigger]
                    is_on_its_way(pool, fewer[k], before.entries, before.inflight, id, from);
                let entries = io_worker::entries_of(pool, requests[k], id);
                assert(after.entries.subrange(from, from + entries.len()) =~= before.entries.subrange(
                    from,
                    from + entries.len(),
                ));
                assert(is_on_its_way(pool, requests[k], after.entries, after.inflight, id, from));
            } else {
                let id = ids.last();
                let from = before.entries.len() as int;
                let entries = io_worker::entries_of(pool, request, id);
                assert(entries.len() == io_worker::op_count(pool, request));
                assert(after.entries.subrange(from, from + entries.len()) =~= entries);
                assert(is_on_its_way(pool, requests[k], after.entries, after.inflight, id, from));
            }
        }
    }
}

/// The entries that go to the kernel, or wait to.
pub open spec fn in_the_ring(backend: UringBackend, step: SubmitStep) -> Seq<SubmissionEntry> {
    match step {
        SubmitStep::Submit(entries) => entries@,
        _ => backend.ring.entries@,
    }
}

/// How many entries the requests that fit need together.
pub open spec fn needed_together(pool: Option<FixedBufferPool>, depth: usize, requests: Seq<WorkerRequest>) -> int
    decreases requests.len(),
{
    if requests.len() == 0 {
        0
    } else {
        needed_together(pool, depth, requests.drop_last()) + (if io_worker::op_count(pool, requests.last()) > depth {
            0
        } else {
            io_worker::op_count(pool, requests.last())
        })
    }
}

proof fn lemma_needed_together(
    pool: Option<FixedBufferPool>,
    depth: usize,
    inflight: Map<u32, InflightRequest>,
    last_id: u32,
    requests: Seq<WorkerRequest>,
    ids: Seq<u32>,
)
    ensures
        io_worker::taken_up(pool, depth, inflight, last_id, requests, ids).entries.len() == needed_together(
            pool,
            depth,
            requests,
        ),
    decreases requests.len(),
{
    if requests.len() > 0 {
        lemma_needed_together(pool, depth, inflight, last_id, requests.drop_last(), ids.drop_last());
        assert(io_worker::entries_of(pool, requests.last(), ids.last()).len() == io_worker::op_count(
            pool,
            requests.last(),
        ));
    }
}

/// Nothing goes into the ring but the entries of the requests that were taken up.
pub proof fn law_nothing_else_is_pushed(
    backend: &mut UringBackend,
    pool: &Option<FixedBufferPool>,
    pending: &mut Option<WorkerRequest>,
    incoming: &mut VecDeque<WorkerRequest>,
    disconnected: bool,
    done: &mut Vec<Completion>,
    step: SubmitStep,
)
    requires
        call_ensures(
            UringBackend::submit_requests,
            (backend, pool, pending, incoming, disconnected, done),
            step,
        ),
    ensures
        ({
            let before = io_worker::waiting(*old(pending), old(incoming)@);
            let after = io_worker::waiting(*final(pending), final(incoming)@);
            let taken = before.take(before.len() - after.len());
            in_the_ring(*final(backend), step).len() == old(backend).ring.entries@.len() + needed_together(
                *pool,
                old(backend).queue_depth,
                taken,
            )
        }),
{
    let before = io_worker::waiting(*old(pending), old(incoming)@);
    let after = io_worker::waiting(*final(pending), final(incoming)@);
    let taken = before.take(before.len() - after.len());
    let in_ring = in_the_ring(*final(backend), step);
    let pushed = in_ring.skip(old(backend).ring.entries@.len() as int);
    let uptake = io_worker::Uptake {
        inflight: final(backend).inflight_requests@,
        entries: pushed,
        refusals: final(done)@.skip(old(done)@.len() as int),
        last_id: final(backend).next_request_id,
    };
    let depth = old(backend).queue_depth;
    let inflight = old(backend).inflight_requests@;
    let last_id = old(backend).next_request_id;
    assert(io_worker::took_up(*pool, depth, inflight, last_id, taken, uptake));
    let ids = choose|ids: Seq<u32>| #[trigger]
        io_worker::assigned(*pool, depth, inflight, last_id, taken, ids) && uptake == io_worker::taken_up(
            *pool,
            depth,
            inflight,
            last_id,
            taken,
            ids,
        );
    lemma_needed_together(*pool, depth, inflight, last_id, taken, ids);
}

/// Every request that was taken up and can fit has its entries in the ring, and waits for them.
pub proof fn law_taken_requests_are_on_their_way(
    backend: &mut UringBackend,
    pool: &Option<FixedBufferPool>,
    pending: &mut Option<WorkerRequest>,
    incoming: &mut VecDeque<WorkerRequest>,
    disconnected: bool,
    done: &mut Vec<Completion>,
    step: SubmitStep,
    k: int,
)
    requires
        call_ensures(
            UringBackend::submit_requests,
            (backend, pool, pending, incoming, disconnected, done),
            step,
        ),
        ({
            let before = io_worker::waiting(*old(pending), old(incoming)@);
            let after = io_worker::waiting(*final(pending), final(incoming)@);
            &&& 0 <= k < before.len() - after.len()
            &&& io_worker::op_count(*pool, before[k]) <= old(backend).queue_depth
        }),
    ensures
        ({
            let request = io_worker::waiting(*old(pending), old(incoming)@)[k];
            let in_ring = in_the_ring(*final(backend), step);
            &&& in_ring.take(old(backend).ring.entries@.len() as int) == old(backend).ring.entries@
            &&& exists|id: u32, from: int| #[trigger]
                is_on_its_way(
                    *pool,
                    request,
                    in_ring.skip(old(backend).ring.entries@.len() as int),
                    final(backend).inflight_requests@,
                    id,
                    from,
                )
        }),
{
    let before = io_worker::waiting(*old(pending), old(incoming)@);
    let after = io_worker::waiting(*final(pending), final(incoming)@);
    let taken = before.take(before.len() - after.len());
    let in_ring = in_the_ring(*final(backend), step);
    let pushed = in_ring.skip(old(backend).ring.entries@.len() as int);
    assert(in_ring.take(old(backend).ring.entries@.len() as int) =~= old(backend).ring.entries@);
    let fresh = final(done)@.skip(old(done)@.len() as int);
    let uptake = io_worker::Uptake {
        inflight: final(backend).inflight_requests@,
        entries: pushed,
        refusals: fresh,
        last_id: final(backend).next_request_id,
    };
    let depth = old(backend).queue_depth;
    let inflight = old(backend).inflight_requests@;
    let last_id = old(backend).next_request_id;
    assert(io_worker::took_up(*pool, depth, inflight, last_id, taken, uptake));
    let ids = choose|ids: Seq<u32>| #[trigger]
        io_worker::assigned(*pool, depth, inflight, last_id, taken, ids) && uptake == io_worker::taken_up(
            *pool,
            depth,
            inflight,
            last_id,
            taken,
            ids,
        );
    lemma_on_its_way(*pool, depth, inflight, last_id, taken, ids);
    assert(taken[k] == before[k]);
    let (id, from) = choose|id: u32, from: int| #[trigger]
        is_on_its_way(*pool, taken[k], pushed, final(backend).inflight_requests@, id, from);
    assert(is_on_its_way(*pool, before[k], pushed, final(backend).inflight_requests@, id, from));
}

/// No request is lost and none is answered twice: each that was waiting or in flight is in flight, waits
/// still, or has exactly one result.
pub proof fn law_no_request_is_lost(
    backend: &mut UringBackend,
    pool: &Option<FixedBufferPool>,
    pending: &mut Option<WorkerRequest>,
    incoming: &mut VecDeque<WorkerRequest>,
    disconnected: bool,
    done: &mut Vec<Completion>,
    step: SubmitStep,
    place: u64,
)
    requires
        call_ensures(
            UringBackend::submit_requests,
            (backend, pool, pending, incoming, disconnected, done),
            step,
        ),
        ({
            let before = io_worker::waiting(*old(pending), old(incoming)@);
            ||| io_worker::owed(old(backend).inflight_requests@).contains(place)
            ||| exists|i: int| 0 <= i < before.len() && #[trigger] before[i].spec_completion() == place
        }),
    ensures
        ({
            let after = io_worker::waiting(*final(pending), final(incoming)@);
            let n = old(done)@.len() as int;
            ||| io_worker::owed(final(backend).inflight_requests@).contains(place)
            ||| exists|i: int| 0 <= i < after.len() && #[trigger] after[i].spec_completion() == place
            ||| exists|i: int| n <= i < final(done)@.len() && #[trigger] final(done)@[i].completion == place
        }),
{
    let before = io_worker::waiting(*old(pending), old(incoming)@);
    let after = io_worker::waiting(*final(pending), final(incoming)@);
    let n = before.len() - after.len();
    let fresh = final(done)@.skip(old(done)@.len() as int);
    let all = io_worker::owed(old(backend).inflight_requests@).union(io_worker::places(before.take(n)));
    if exists|i: int| 0 <= i < before.len() && #[trigger] before[i].spec_completion() == place {
        let i = choose|i: int| 0 <= i < before.len() && #[trigger] before[i].spec_completion() == place;
        if i >= n {
            assert(before.skip(n)[i - n] == before[i]);
            assert(after[i - n].spec_completion() == place);
        } else {
            assert(before.take(n)[i].spec_completion() == place);
            assert(io_worker::places(before.take(n)).contains(place));
        }
    }
    if all.contains(place) && !io_worker::owed(final(backend).inflight_requests@).contains(place) {
        let i = choose|i: int| 0 <= i < fresh.len() && #[trigger] fresh[i].completion == place;
        assert(final(done)@[old(done)@.len() + i] == fresh[i]);
        assert(final(done)@[old(done)@.len() + i].completion == place);
    }
}

/// The outcome is an error that says that the worker failed.
pub open spec fn is_failure(outcome: Outcome, fault: IoFault) -> bool {
    let err = Error::Io(IoError::WorkerFailed(fault));
    match outcome {
        Outcome::Read(outcome) => outcome == Err::<(ReadBuf, usize), Error>(err),
        Outcome::Write(outcome) => outcome == Err::<(), Error>(err),
        Outcome::Fsync(outcome) => outcome == Err::<(), Error>(err),
    }
}

/// One of the results, from `n` on, tells the place that the worker failed.
pub open spec fn is_told(done: Seq<Completion>, n: int, place: u64, fault: IoFault) -> bool {
    exists|i: int|
        n <= i < done.len() && #[trigger] done[i].completion == place && is_failure(done[i].outcome, fault)
}

proof fn lemma_is_told(
    before_done: Seq<Completion>,
    fresh: Seq<Completion>,
    fault: IoFault,
    pending: Option<WorkerRequest>,
    incoming: Seq<WorkerRequest>,
    inflight: Map<u32, InflightRequest>,
    between: Seq<Completion>,
    place: u64,
)
    requires
        ({
            let err = Error::Io(IoError::WorkerFailed(fault));
            let first = io_worker::refusals(io_worker::waiting(pending, Seq::empty()), err);
            let last = io_worker::refusals(incoming, err);
            let before = io_worker::waiting(pending, incoming);
            &&& fresh == first + between + last
            &&& forall|k: u32| #[trigger] inflight.dom().contains(k) ==> io_worker::handed_out(
                between,
                io_worker::failure(inflight[k], err),
            )
            &&& io_worker::owed(inflight).contains(place) || exists|i: int|
                0 <= i < before.len() && #[trigger] before[i].spec_completion() == place
        }),
    ensures
        is_told(before_done + fresh, before_done.len() as int, place, fault),
{
    let n = before_done.len() as int;
    let all = before_done + fresh;
    let err = Error::Io(IoError::WorkerFailed(fault));
    let first = io_worker::refusals(io_worker::waiting(pending, Seq::empty()), err);
    let last = io_worker::refusals(incoming, err);
    let before = io_worker::waiting(pending, incoming);
    if io_worker::owed(inflight).contains(place) {
        let k = choose|k: u32| inflight.dom().contains(k) && #[trigger] inflight[k].completion == place;
        let one = io_worker::failure(inflight[k], err);
        assert(io_worker::handed_out(between, one));
        let i = choose|i: int| 0 <= i < between.len() && #[trigger] between[i] == one;
        assert(all[n + first.len() + i] == one);
        assert(all[n + first.len() + i].completion == place);
    } else {
        let i = choose|i: int| 0 <= i < before.len() && #[trigger] before[i].spec_completion() == place;
        let one = io_worker::refusal(before[i], err);
        if i < first.len() {
            assert(first[i] == one);
            assert(all[n + i] == one);
            assert(all[n + i].completion == place);
        } else {
            let j = i - first.len();
            assert(before[i] == incoming[j]);
            assert(last[j] == one);
            let at = n + first.len() + between.len() + j;
            assert(all[at] == one);
            assert(all[at].completion == place);
        }
    }
}

/// When the worker fails, everyone who waits is told so, and nobody waits any more.
#[verifier::rlimit(50)]
pub proof fn law_failure_reaches_everyone(
    backend: &mut UringBackend,
    fault: IoFault,
    pending: Option<WorkerRequest>,
    incoming: &mut VecDeque<WorkerRequest>,
    done: &mut Vec<Completion>,
    place: u64,
)
    requires
        call_ensures(UringBackend::fail_all, (backend, fault, pending, incoming, done), ()),
        ({
            let before = io_worker::waiting(pending, old(incoming)@);
            ||| io_worker::owed(old(backend).inflight_requests@).contains(place)
            ||| exists|i: int| 0 <= i < before.len() && #[trigger] before[i].spec_completion() == place
        }),
    ensures
        final(backend).inflight_requests@.dom() == Set::<u32>::empty(),
        final(incoming)@.len() == 0,
        is_told(final(done)@, old(done)@.len() as int, place, fault),
{
    let fresh = final(done)@.skip(old(done)@.len() as int);
    let err = Error::Io(IoError::WorkerFailed(fault));
    let first = io_worker::refusals(io_worker::waiting(pending, Seq::empty()), err);
    let last = io_worker::refusals(old(incoming)@, err);
    let between = fresh.subrange(first.len() as int, fresh.len() - last.len());
    assert(final(backend).inflight_requests@.dom() =~= Set::<u32>::empty());
    lemma_is_told(
        old(done)@,
        fresh,
        fault,
        pending,
        old(incoming)@,
        old(backend).inflight_requests@,
        between,
        place,
    );
}

/// A result that is there is handed over, once; until then the task waits, and the waker that it left is
/// handed back with the result.
pub proof fn law_result_is_handed_over<T, W>(
    fresh: &mut TaskCompletion<T, W>,
    waker: W,
    same: bool,
    early: Option<Result<T, Error>>,
    waiting: &mut TaskCompletion<T, W>,
    result: Result<T, Error>,
    woken: Option<W>,
    ready: &mut TaskCompletion<T, W>,
    late: W,
    handed: Option<Result<T, Error>>,
)
    requires
        call_ensures(TaskCompletion::<T, W>::new, (), *old(fresh)),
        call_ensures(TaskCompletion::<T, W>::poll_result, (fresh, waker, same), early),
        *old(waiting) == *final(fresh),
        call_ensures(TaskCompletion::<T, W>::complete, (waiting, result), woken),
        *old(ready) == *final(waiting),
        call_ensures(TaskCompletion::<T, W>::poll_result, (ready, late, same), handed),
    ensures
        early is None,
        woken == Some(waker),
        handed == Some(result),
        final(ready).state() is Consumed,
{
}

/// A task that polls again with another waker is woken through that one.
pub proof fn law_last_waker_is_kept<T, W>(
    waiting: &mut TaskCompletion<T, W>,
    waker: W,
    same: bool,
    none: Option<Result<T, Error>>,
    kept: &mut TaskCompletion<T, W>,
    result: Result<T, Error>,
    woken: Option<W>,
)
    requires
        old(waiting).is_pending(),
        call_ensures(TaskCompletion::<T, W>::poll_result, (waiting, waker, same), none),
        *old(kept) == *final(waiting),
        call_ensures(TaskCompletion::<T, W>::complete, (kept, result), woken),
    ensures
        none is None,
        woken is Some,
        !same ==> woken == Some(waker),
{
}

/// A read of a whole buffer asks for that buffer and offset, once, and succeeds with what it is handed
/// if and only if that is as long as the buffer.
pub proof fn law_exact_read_is_exact(
    buf: ReadBuf,
    offset: u64,
    read: &mut ReadExactAt,
    request: Option<(ReadBuf, u64)>,
    reading: &mut ReadExactAt,
    result: Result<(ReadBuf, usize), Error>,
    exact: ExactPoll,
)
    requires
        call_ensures(ReadExactAt::new, (buf, offset), *old(read)),
        call_ensures(ReadExactAt::take_request, (read,), request),
        *old(reading) == *final(read),
        call_ensures(ReadExactAt::on_poll, (reading, ReadPoll::Ready(result)), exact),
    ensures
        request == Some((buf, offset)),
        exact matches ExactPoll::Ready(exact) && match result {
            Ok((filled, n)) => if n == buf@.len() {
                exact == Ok::<ReadBuf, Error>(filled)
            } else {
                exact is Err
            },
            Err(err) => exact == Err::<ReadBuf, Error>(err),
        },
{
}

/// A queue has as many slots as it was made with; an entry takes one, if there is one, and has it until
/// the kernel has taken the entry up.
pub proof fn law_slots_are_counted(
    capacity: usize,
    fresh: SubmissionRing,
    all: usize,
    ring: &mut SubmissionRing,
    entry: SubmissionEntry,
    pushed: Result<(), Error>,
    slots: (usize, usize),
)
    requires
        call_ensures(SubmissionRing::new, (capacity,), fresh),
        call_ensures(SubmissionRing::available_submission_slots, (&fresh,), all),
        old(ring).wf(),
        call_ensures(SubmissionRing::available_submission_slots, (&*old(ring),), slots.0),
        call_ensures(SubmissionRing::push, (ring, entry), pushed),
        call_ensures(SubmissionRing::available_submission_slots, (final(ring),), slots.1),
    ensures
        all == capacity,
        if slots.0 > 0 {
            &&& pushed is Ok
            &&& slots.1 == slots.0 - 1
            &&& final(ring).entries@ == old(ring).entries@.push(entry)
        } else {
            &&& pushed == Err::<(), Error>(Error::Io(IoError::Fault(IoFault::QueueFull)))
            &&& slots.1 == 0
            &&& final(ring).entries@ == old(ring).entries@
        },
{
}

/// Handing the entries over frees no slot; what the kernel takes up does.
pub proof fn law_slots_are_freed_by_the_kernel(
    ring: &mut SubmissionRing,
    entries: Vec<SubmissionEntry>,
    later: &mut SubmissionRing,
    left: usize,
    slots: (usize, usize, usize),
)
    requires
        old(ring).wf(),
        call_ensures(SubmissionRing::available_submission_slots, (&*old(ring),), slots.0),
        call_ensures(SubmissionRing::submit, (ring,), entries),
        call_ensures(SubmissionRing::available_submission_slots, (final(ring),), slots.1),
        *old(later) == *final(ring),
        left <= old(later).held,
        call_ensures(SubmissionRing::on_submitted, (later, left), ()),
        call_ensures(SubmissionRing::available_submission_slots, (final(later),), slots.2),
    ensures
        entries@ == old(ring).entries@,
        slots.1 == slots.0,
        slots.2 == old(ring).capacity - left,
{
}

/// The worker counts slots as its queue does.
pub proof fn law_worker_frees_slots(backend: &mut UringBackend, left: usize)
    requires
        old(backend).wf(),
        left <= old(backend).ring.held,
        call_ensures(UringBackend::on_submitted, (backend, left), ()),
    ensures
        final(backend).ring.available() == old(backend).ring.available() + old(backend).ring.held - left,
        final(backend).inflight_requests == old(backend).inflight_requests,
        final(backend).next_request_id == old(backend).next_request_id,
{
}

/// A read takes as many slots as it has entries.
pub proof fn law_read_entries_are_counted(
    pool: &Option<FixedBufferPool>,
    buf: &ReadBuf,
    offset: u64,
    id: u32,
    entries: Vec<SubmissionEntry>,
    count: usize,
)
    requires
        call_ensures(read_sqes, (pool, buf, offset, id), entries),
        call_ensures(read_op_count, (pool, buf), count),
    ensures
        count == entries@.len(),
{
    assert(io_worker::read_entries(*pool, *buf, offset, id).len() == count);
}

/// A new worker has all its slots, and waits for nothing.
pub proof fn law_new_worker_is_idle(depth: usize, capacity: usize, backend: UringBackend, id: u32)
    requires
        call_ensures(UringBackend::new, (depth, capacity), backend),
    ensures
        backend.queue_depth == depth,
        backend.ring.available() == capacity,
        !backend.inflight_requests@.dom().contains(id),
{
}

/// A number that is given out is in nobody's use, and those between the last one and it all are.
pub proof fn law_numbers_are_free(backend: &mut UringBackend, id: u32, other: u32)
    requires
        old(backend).inflight_requests@.dom().len() < 0x1_0000_0000,
        old(backend).wf(),
        call_ensures(UringBackend::allocate_request_id, (backend,), id),
    ensures
        !old(backend).inflight_requests@.dom().contains(id),
        final(backend).next_request_id == id,
        old(backend).next_request_id < other < id ==> old(backend).inflight_requests@.dom().contains(other),
        id <= old(backend).next_request_id && (other > old(backend).next_request_id || other < id) 
            ==> old(backend).inflight_requests@.dom().contains(other),
{
    let inflight = old(backend).inflight_requests@;
    let last = old(backend).next_request_id;
    let n = choose|n: int| #[trigger]
        io_worker::skipped(inflight, last, n) && 0 <= n < 0x1_0000_0000 && id == (last + n + 1) % 0x1_0000_0000;
    if last < other < id {
        let i = other - last - 1;
        assert((last + i + 1) % 0x1_0000_0000 == other);
        assert(inflight.dom().contains(((last + i + 1) % 0x1_0000_0000) as u32));
    }
    if id <= last {
        if other > last {
            let i = other - last - 1;
            assert((last + i + 1) % 0x1_0000_0000 == other);
            assert(inflight.dom().contains(((last + i + 1) % 0x1_0000_0000) as u32));
        } else if other < id {
            let i = other + 0x1_0000_0000 - last - 1;
            assert((last + i + 1) % 0x1_0000_0000 == other);
            assert(inflight.dom().contains(((last + i + 1) % 0x1_0000_0000) as u32));
        }
    }
}

/// A read that is not over stays so.
pub proof fn law_exact_read_waits(reading: &mut ReadExactAt, exact: ExactPoll)
    requires
        call_ensures(ReadExactAt::on_poll, (reading, ReadPoll::Pending), exact),
    ensures
        exact is Pending,
        *final(reading) == *old(reading),
{
}

/// The waker that a place keeps is the one that is handed back with the result.
pub proof fn law_kept_waker_is_handed_back<T, W>(
    place: &mut TaskCompletion<T, W>,
    kept: Option<&W>,
    result: Result<T, Error>,
    woken: Option<W>,
)
    requires
        old(place).is_pending(),
        call_ensures(TaskCompletion::<T, W>::kept_waker, (&*old(place),), kept),
        call_ensures(TaskCompletion::<T, W>::complete, (place, result), woken),
    ensures
        match (kept, woken) {
            (Some(kept), Some(woken)) => *kept == woken,
            (None, None) => true,
            _ => false,
        },
{
}

/// A request that fails as a whole is answered with that error, at its own place, whether it was taken up
/// or not.
pub proof fn law_failed_request_is_answered(
    request: WorkerRequest,
    inflight: InflightRequest,
    err: Error,
    refused: Completion,
    failed: Completion,
)
    requires
        just_taken_up(inflight, request, inflight.remaining as int),
        call_ensures(complete_request_with_error, (request, err), refused),
        call_ensures(InflightRequest::complete_with_error, (inflight, err), failed),
    ensures
        refused == failed,
        refused.completion == inflight.completion,
        match (refused.outcome, request) {
            (Outcome::Read(outcome), WorkerRequest::Read { .. }) => outcome == Err::<(ReadBuf, usize), Error>(err),
            (Outcome::Write(outcome), WorkerRequest::Write { .. }) => outcome == Err::<(), Error>(err),
            (Outcome::Fsync(outcome), WorkerRequest::Fsync { .. }) => outcome == Err::<(), Error>(err),
            _ => false,
        },
{
}

/// A request that is complete has the result that its completions came to.
pub proof fn law_complete_request_is_answered(inflight: InflightRequest, done: Completion)
    requires
        call_ensures(InflightRequest::complete, (inflight,), done),
    ensures
        done.completion == inflight.completion,
        match (done.outcome, inflight.kind) {
            (Outcome::Read(outcome), InflightRequestKind::Read { buf, read_accum, expected_total }) => match outcome {
                Ok((filled, n)) => inflight.error is None && filled == buf && n == read_accum && n == expected_total,
                Err(err) => inflight.error == Some(err) || (inflight.error is None && read_accum != expected_total),
            },
            (Outcome::Write(outcome), InflightRequestKind::Write { .. }) => match outcome {
                Ok(_) => inflight.error is None,
                Err(err) => inflight.error == Some(err),
            },
            (Outcome::Fsync(outcome), InflightRequestKind::Fsync) => match outcome {
                Ok(_) => inflight.error is None,
                Err(err) => inflight.error == Some(err),
            },
            _ => false,
        },
{
}

/// A write has the same entries whether it is asked as a request or not.
pub proof fn law_write_entries_agree(
    pool: &Option<FixedBufferPool>,
    writes: Vec<PageWrite>,
    place: u64,
    id: u32,
    entries: Vec<SubmissionEntry>,
    direct: Vec<SubmissionEntry>,
)
    requires
        writes@.len() > 0,
        call_ensures(request_sqes, (pool, &WorkerRequest::Write { writes, completion: place }, id), entries),
        call_ensures(write_sqes, (&writes, id), direct),
    ensures
        entries@ == direct@,
{
}

/// A task that is over waits for nothing, and asks for nothing.
pub proof fn law_finished_task_is_over(
    task: &mut FileTask<PendingFsync>,
    waits: Option<u64>,
    later: &mut FileTask<PendingFsync>,
    place: u64,
    pending: Option<PendingFsync>,
)
    requires
        call_ensures(FileTask::<PendingFsync>::finished, (task,), ()),
        call_ensures(FileTask::<PendingFsync>::waits_for, (final(task),), waits),
        *old(later) == *final(task),
        call_ensures(FileTask::<PendingFsync>::start, (later, place), pending),
    ensures
        waits is None,
        pending is None,
{
}

} // verus!
