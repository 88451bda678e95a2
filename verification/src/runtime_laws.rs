//! What a caller of the work-stealing runtime may rely on, whatever it does inside.
//!
//! Each law is about the calls themselves: it holds of every outcome that the function may have.

use crate::buffer::AlignedBuf;
use crate::error::{Error, IoError, IoFault};
use crate::io_laws;
use crate::io_task::PageWrite;
use crate::io_worker::{decode_cqe_result, Op, SubmissionEntry};
use crate::uring_runtime;
use crate::uring_runtime::{
    take_ws_fsync_result, take_ws_read_result, take_ws_write_result, FinishedTask, IoDriver, ReceiveEvent,
    RuntimeWorker, TickAction, UringFuture, UringPoll, WsFsyncTask, WsReadTask, WsWriteTask,
};
use vstd::prelude::*;

verus! {

/// A read is one entry, for all of its buffer, at its offset. It ends with the buffer and the number of
/// bytes that were read, or with the error that was reported.
pub proof fn law_read_task(
    buf: AlignedBuf,
    offset: u64,
    task: &mut WsReadTask,
    entries: Vec<SubmissionEntry>,
    results: &Vec<i32>,
    decoded: Result<usize, Error>,
    completed: &mut WsReadTask,
    result: Result<(AlignedBuf, usize), Error>,
)
    requires
        0 < buf@.len() <= u32::MAX,
        call_ensures(WsReadTask::new, (buf, offset), *old(task)),
        call_ensures(WsReadTask::prepare_sqe, (&*old(task),), entries),
        results@.len() == 1,
        call_ensures(decode_cqe_result, (results@[0],), decoded),
        call_ensures(WsReadTask::complete, (task, results), ()),
        *old(completed) == *final(task),
        call_ensures(take_ws_read_result, (completed,), result),
    ensures
        entries@.len() == 1,
        io_laws::reads_through(entries@, offset as int, buf@.len() as int),
        !entries@[0].linked,
        result == (match decoded {
            Ok(n) => Ok::<(AlignedBuf, usize), Error>((buf, n)),
            Err(err) => Err(err),
        }),
        result is Ok <==> results@[0] >= 0,
{
}

/// A write has one entry for each page, whole and at its own offset, in order, each waiting for the one
/// before.
pub proof fn law_write_task_covers_its_pages(
    pages: Vec<PageWrite>,
    task: WsWriteTask,
    entries: Vec<SubmissionEntry>,
    i: int,
)
    requires
        call_ensures(WsWriteTask::new, (pages,), task),
        call_ensures(WsWriteTask::prepare_sqe, (&task,), entries),
        0 <= i < entries@.len(),
    ensures
        entries@.len() == pages@.len(),
        entries@[i].op matches Op::Write { index, len } && index == i && len == pages@[i].buf@.len() as u32,
        entries@[i].offset == pages@[i].offset,
        entries@[i].linked == (i + 1 < pages@.len()),
{
    assert(entries.len() == entries@.len());
}

/// Every page was written whole.
pub open spec fn wrote_all(pages: Seq<PageWrite>, results: Seq<i32>) -> bool {
    forall|i: int| 0 <= i < results.len() ==> #[trigger] results[i] == pages[i].buf@.len()
}

proof fn lemma_write_error(pages: Seq<PageWrite>, results: Seq<i32>, n: int)
    requires
        0 <= n <= results.len() <= pages.len(),
    ensures
        uring_runtime::write_error(pages, None, results, n) is None <==> wrote_all(pages, results.take(n)),
    decreases n,
{
    if n > 0 {
        lemma_write_error(pages, results, n - 1);
        let some = results.take(n);
        let fewer = results.take(n - 1);
        if wrote_all(pages, some) {
            assert forall|i: int| 0 <= i < fewer.len() implies #[trigger] fewer[i] == pages[i].buf@.len() by {
                assert(some[i] == pages[i].buf@.len());
            }
            assert(some[n - 1] == pages[n - 1].buf@.len());
        }
        if wrote_all(pages, fewer) && results[n - 1] == pages[n - 1].buf@.len() {
            assert forall|i: int| 0 <= i < some.len() implies #[trigger] some[i] == pages[i].buf@.len() by {
                if i < n - 1 {
                    assert(fewer[i] == pages[i].buf@.len());
                }
            }
        }
    }
}

/// A write succeeds if and only if every page was written whole.
pub proof fn law_write_task_is_answered(
    pages: Vec<PageWrite>,
    task: &mut WsWriteTask,
    results: &Vec<i32>,
    completed: &mut WsWriteTask,
    result: Result<(), Error>,
)
    requires
        call_ensures(WsWriteTask::new, (pages,), *old(task)),
        results@.len() == pages@.len(),
        call_ensures(WsWriteTask::complete, (task, results), ()),
        *old(completed) == *final(task),
        call_ensures(take_ws_write_result, (completed,), result),
    ensures
        result is Ok <==> wrote_all(pages@, results@),
{
    assert(results@.take(results@.len() as int) =~= results@);
    lemma_write_error(pages@, results@, results@.len() as int);
}

proof fn lemma_first_error_stays(pages: Seq<PageWrite>, results: Seq<i32>, j: int, n: int)
    requires
        0 <= j < n <= results.len() <= pages.len(),
        uring_runtime::write_error(pages, None, results, j + 1) is Some,
    ensures
        uring_runtime::write_error(pages, None, results, n) == uring_runtime::write_error(pages, None, results, j + 1),
    decreases n,
{
    if n > j + 1 {
        lemma_first_error_stays(pages, results, j, n - 1);
    }
}

/// Where more than one page of a write fails, the first of them says why.
pub proof fn law_write_task_reports_the_first(
    pages: Vec<PageWrite>,
    task: &mut WsWriteTask,
    results: &Vec<i32>,
    j: int,
    decoded: Result<usize, Error>,
    completed: &mut WsWriteTask,
    result: Result<(), Error>,
)
    requires
        call_ensures(WsWriteTask::new, (pages,), *old(task)),
        results@.len() == pages@.len(),
        0 <= j < results@.len(),
        wrote_all(pages@, results@.take(j)),
        results@[j] != pages@[j].buf@.len(),
        call_ensures(decode_cqe_result, (results@[j],), decoded),
        call_ensures(WsWriteTask::complete, (task, results), ()),
        *old(completed) == *final(task),
        call_ensures(take_ws_write_result, (completed,), result),
    ensures
        result == Err::<(), Error>(
            match decoded {
                Ok(n) => Error::Io(
                    IoError::Fault(IoFault::ShortWrite { expected: pages@[j].buf@.len() as usize, got: n }),
                ),
                Err(err) => err,
            },
        ),
{
    lemma_write_error(pages@, results@, j);
    lemma_first_error_stays(pages@, results@, j, results@.len() as int);
}

/// A write of one page that fails says why.
pub proof fn law_write_task_says_why(
    pages: Vec<PageWrite>,
    task: &mut WsWriteTask,
    results: &Vec<i32>,
    decoded: Result<usize, Error>,
    completed: &mut WsWriteTask,
    result: Result<(), Error>,
)
    requires
        call_ensures(WsWriteTask::new, (pages,), *old(task)),
        results@.len() == 1,
        pages@.len() >= 1,
        call_ensures(decode_cqe_result, (results@[0],), decoded),
        call_ensures(WsWriteTask::complete, (task, results), ()),
        *old(completed) == *final(task),
        call_ensures(take_ws_write_result, (completed,), result),
    ensures
        match decoded {
            Ok(n) => if n == pages@[0].buf@.len() {
                result is Ok
            } else {
                result == Err::<(), Error>(
                    Error::Io(
                        IoError::Fault(IoFault::ShortWrite { expected: pages@[0].buf@.len() as usize, got: n }),
                    ),
                )
            },
            Err(err) => result == Err::<(), Error>(err),
        },
{
    reveal_with_fuel(uring_runtime::write_error, 2);
}

/// A sync is one entry, and that is a sync. It succeeds if and only if that went well.
pub proof fn law_sync_task(
    task: &mut WsFsyncTask,
    entries: Vec<SubmissionEntry>,
    results: &Vec<i32>,
    decoded: Result<usize, Error>,
    completed: &mut WsFsyncTask,
    result: Result<(), Error>,
)
    requires
        call_ensures(WsFsyncTask::new, (), *old(task)),
        call_ensures(WsFsyncTask::prepare_sqe, (&*old(task),), entries),
        results@.len() == 1,
        call_ensures(decode_cqe_result, (results@[0],), decoded),
        call_ensures(WsFsyncTask::complete, (task, results), ()),
        *old(completed) == *final(task),
        call_ensures(take_ws_fsync_result, (completed,), result),
    ensures
        entries@.len() == 1,
        entries@[0].op == Op::Fsync,
        result is Ok <==> results@[0] >= 0,
        decoded matches Err(err) ==> result == Err::<(), Error>(err),
{
}

/// The same entry but for its user data.
pub open spec fn same_but_tag(a: SubmissionEntry, b: SubmissionEntry) -> bool {
    a.op == b.op && a.offset == b.offset && a.linked == b.linked
}

/// The entries of a task that is submitted are in the ring or wait for a slot, all of them, in order, with
/// a tag that no other task has. They wait only where there is no slot.
pub proof fn law_submitted_task_is_queued(
    driver: &mut IoDriver,
    task: u64,
    entries: Vec<SubmissionEntry>,
    token: u16,
)
    requires
        old(driver).wf(),
        old(driver).tokens@.len() > 0,
        entries@.len() > 0,
        call_ensures(IoDriver::submit_task, (driver, task, entries), token),
    ensures
        old(driver).submitted_tasks@[token as int] is None,
        final(driver).submitted_tasks@[token as int] matches Some(submitted) && submitted.task == task
            && submitted.pending_completions == entries@.len() && submitted.completions@.len() == 0,
        ({
            let in_ring = final(driver).ring.entries@.skip(old(driver).ring.entries@.len() as int);
            let queued = final(driver).queued_entries@.skip(old(driver).queued_entries@.len() as int);
            let all = in_ring + queued;
            &&& final(driver).ring.entries@ == old(driver).ring.entries@ + in_ring
            &&& final(driver).queued_entries@ == old(driver).queued_entries@ + queued
            &&& all.len() == entries@.len()
            &&& forall|i: int| 0 <= i < all.len() ==> same_but_tag(#[trigger] all[i], entries@[i]) && all[i].user_data
                == token
            &&& queued.len() > 0 ==> final(driver).ring.available() == 0
        }),
{
    let tagged = uring_runtime::tagged(entries@, token as u64);
    let n = uring_runtime::least(old(driver).ring.available(), entries@.len() as int);
    let in_ring = final(driver).ring.entries@.skip(old(driver).ring.entries@.len() as int);
    let queued = final(driver).queued_entries@.skip(old(driver).queued_entries@.len() as int);
    assert(in_ring =~= tagged.take(n));
    assert(queued =~= tagged.skip(n));
    assert(in_ring + queued =~= tagged);
    assert(final(driver).ring.entries@ =~= old(driver).ring.entries@ + in_ring);
    assert(final(driver).queued_entries@ =~= old(driver).queued_entries@ + queued);
}

/// Entries that wait move into the ring, the oldest first, as many as there are slots for; none is lost
/// and none is made up.
pub proof fn law_waiting_entries_move_up(driver: &mut IoDriver)
    requires
        old(driver).wf(),
        call_ensures(IoDriver::drain_intermediate_queue, (driver,), ()),
    ensures
        final(driver).ring.entries@ + final(driver).queued_entries@
            == old(driver).ring.entries@ + old(driver).queued_entries@,
        final(driver).ring.entries@.len() >= old(driver).ring.entries@.len(),
        final(driver).queued_entries@.len() == 0 || final(driver).ring.available() == 0,
{
    let n = uring_runtime::least(old(driver).ring.available(), old(driver).queued_entries@.len() as int);
    let queue = old(driver).queued_entries@;
    assert(final(driver).ring.entries@ + final(driver).queued_entries@ =~= old(driver).ring.entries@ + queue) by {
        assert(queue.take(n) + queue.skip(n) =~= queue);
    }
}

/// All entries in the ring go to the kernel, and hold their slots until it has taken them up.
pub proof fn law_entries_go_to_the_kernel(
    driver: &mut IoDriver,
    entries: Vec<SubmissionEntry>,
    entered: &mut IoDriver,
    left: usize,
)
    requires
        call_ensures(IoDriver::enter, (driver,), entries),
        *old(entered) == *final(driver),
        call_ensures(IoDriver::on_entered, (entered, left), ()),
    ensures
        entries@ == old(driver).ring.entries@,
        final(driver).ring.entries@.len() == 0,
        final(driver).ring.available() == old(driver).ring.available(),
        final(entered).ring.available() == old(driver).ring.capacity - left,
{
}

/// A task is finished with its last completion and not before, with everything that was reported, in
/// order, and its tag is free again.
pub proof fn law_task_is_finished_with_its_last_completion(
    driver: &mut IoDriver,
    token: u16,
    result: i32,
    finished: Option<FinishedTask>,
)
    requires
        old(driver).wf(),
        token < uring_runtime::MAX_CONCURRENT_IO,
        old(driver).submitted_tasks@[token as int] is Some,
        call_ensures(IoDriver::on_completion, (driver, token, result), finished),
    ensures
        ({
            let before = old(driver).submitted_tasks@[token as int]->0;
            &&& finished is Some <==> before.pending_completions == 1
            &&& finished matches Some(finished) ==> {
                &&& finished.task == before.task
                &&& finished.completions@ == before.completions@.push(result)
                &&& final(driver).submitted_tasks@[token as int] is None
                &&& final(driver).tokens@.contains(token)
            }
            &&& finished is None ==> {
                &&& final(driver).submitted_tasks@[token as int] matches Some(after) && after.task == before.task
                    && after.pending_completions == before.pending_completions - 1 && after.completions@
                    == before.completions@.push(result)
                &&& !final(driver).tokens@.contains(token)
            }
        }),
        forall|t: int| 0 <= t < uring_runtime::MAX_CONCURRENT_IO && t != token
            ==> #[trigger] final(driver).submitted_tasks@[t] == old(driver).submitted_tasks@[t],
{
    let before = old(driver).submitted_tasks@[token as int]->0;
    if before.pending_completions == 1 {
        assert(final(driver).tokens@.last() == token);
    } else if final(driver).tokens@.contains(token) {
        let k = choose|k: int| 0 <= k < final(driver).tokens@.len() && final(driver).tokens@[k] == token;
        assert(old(driver).submitted_tasks@[old(driver).tokens@[k] as int] is None);
    }
}

/// Tasks that are under way go on before new ones are taken, at most five are under way at a time, and a
/// thread is over only when nobody can hand in tasks and none is left.
pub proof fn law_thread_finishes_what_it_has(
    worker: &RuntimeWorker,
    queued: usize,
    action: TickAction,
    over: bool,
    idle: bool,
)
    requires
        call_ensures(RuntimeWorker::try_tick, (worker, queued), action),
        call_ensures(RuntimeWorker::is_over, (worker, queued), over),
        call_ensures(RuntimeWorker::is_idle, (worker, queued), idle),
    ensures
        queued > 0 <==> action is RunLocal,
        action is Receive ==> worker.active_tasks < 5,
        action is Nothing ==> worker.active_tasks >= 5,
        over <==> idle && worker.disconnected,
        idle <==> queued == 0 && worker.active_tasks == 0,
{
}

/// A task that was taken counts as under way until it is over, and a thread that was told that nobody
/// hands in tasks any more remembers it.
pub proof fn law_tasks_are_counted(
    worker: &mut RuntimeWorker,
    event: ReceiveEvent,
    run: bool,
    later: &mut RuntimeWorker,
)
    requires
        call_ensures(RuntimeWorker::on_receive, (worker, event), run),
        *old(later) == *final(worker),
        call_ensures(RuntimeWorker::task_finished, (later,), ()),
        old(worker).active_tasks < u32::MAX,
    ensures
        run <==> event is Task,
        event is Task ==> final(worker).active_tasks == old(worker).active_tasks + 1 && *final(later) == *old(worker),
        !(event is Task) ==> final(worker).active_tasks == old(worker).active_tasks,
        final(worker).disconnected == (old(worker).disconnected || event is Disconnected),
        final(later).disconnected == final(worker).disconnected,
{
}

/// A task is submitted on its first poll, once, and is ready as soon as it is completed after that.
pub proof fn law_future_is_submitted_once(
    first: &mut UringFuture,
    early: bool,
    poll: UringPoll,
    second: &mut UringFuture,
    completed: bool,
    again: UringPoll,
)
    requires
        call_ensures(UringFuture::new, (), *old(first)),
        call_ensures(UringFuture::poll, (first, early), poll),
        *old(second) == *final(first),
        call_ensures(UringFuture::poll, (second, completed), again),
    ensures
        poll is Submit,
        again == (if completed {
            UringPoll::Ready
        } else {
            UringPoll::Pending
        }),
        *final(second) == *old(second),
{
}

/// The kernel is told when a batch of entries waits or some time has gone by, and not otherwise.
pub proof fn law_kernel_is_told_in_batches(driver: &IoDriver, elapsed: u64, later: u64, need: bool, need_later: bool)
    requires
        call_ensures(IoDriver::need_syscall, (driver, elapsed), need),
        call_ensures(IoDriver::need_syscall, (driver, later), need_later),
        elapsed <= later,
    ensures
        need ==> need_later,
        driver.queued_entries@.len() >= 8 ==> need,
        later > 5 ==> need_later,
        driver.queued_entries@.len() < 8 && elapsed <= 5 ==> !need,
{
}

/// A new ring has 256 slots and 128 tags, each once, and no task.
pub proof fn law_new_driver_is_idle(driver: IoDriver, i: int, j: int)
    requires
        call_ensures(IoDriver::new, (), driver),
        0 <= i < j < 128,
    ensures
        driver.ring.available() == 256,
        driver.queued_entries@.len() == 0,
        driver.tokens@.len() == 128,
        driver.tokens@[i] != driver.tokens@[j],
        driver.submitted_tasks@[i] is None,
{
}

/// Tasks that are under way together have different tags.
pub proof fn law_tags_are_different(
    driver: &mut IoDriver,
    task: u64,
    entries: Vec<SubmissionEntry>,
    token: u16,
    later: &mut IoDriver,
    other: u64,
    more: Vec<SubmissionEntry>,
    second: u16,
)
    requires
        old(driver).wf(),
        old(driver).tokens@.len() > 1,
        entries@.len() > 0,
        call_ensures(IoDriver::submit_task, (driver, task, entries), token),
        *old(later) == *final(driver),
        call_ensures(IoDriver::submit_task, (later, other, more), second),
    ensures
        token != second,
        final(later).submitted_tasks@[token as int] matches Some(submitted) && submitted.task == task,
        final(later).submitted_tasks@[second as int] matches Some(submitted) && submitted.task == other,
{
    assert(token == old(driver).tokens@[0]);
    assert(second == old(driver).tokens@[1]);
    assert(old(driver).tokens@[0] != old(driver).tokens@[1]);
}

} // verus!
