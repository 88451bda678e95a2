//! The work-stealing runtime: one ring for each worker thread, and the tasks that run there.
//!
//! A task that is submitted gets a token, which all its entries carry. The token goes back once the
//! last entry of the task is completed.

use crate::buffer::AlignedBuf;
use crate::error::{Error, IoError, IoFault};
use crate::io_task::PageWrite;
use crate::io_worker;
use crate::io_worker::{decode_cqe_result, Op, SubmissionEntry, SubmissionRing};
use std::collections::VecDeque;
use vstd::prelude::*;

verus! {

pub const URING_NUM_ENTRIES: usize = 256;

pub const MAX_CONCURRENT_IO: usize = 128;

pub const URING_BATCH_SIZE: usize = 8;

pub const URING_SYSCALL_INTERVAL_US: u64 = 5;

pub const MAX_ACTIVE_TASKS_PER_THREAD: u32 = 5;

/// A read.
#[derive(Debug)]
pub struct WsReadTask {
    pub buf: Option<AlignedBuf>,
    pub offset: u64,
    pub error: Option<Error>,
    pub result_len: Option<usize>,
}

/// A write of some pages, in order.
#[derive(Debug)]
pub struct WsWriteTask {
    pub pages: Vec<PageWrite>,
    pub error: Option<Error>,
}

#[derive(Debug)]
pub struct WsFsyncTask {
    pub error: Option<Error>,
}

impl WsReadTask {
    pub fn new(buf: AlignedBuf, offset: u64) -> (task: WsReadTask)
        ensures
            task == (WsReadTask { buf: Some(buf), offset, error: None, result_len: None }),
    {
        WsReadTask { buf: Some(buf), offset, error: None, result_len: None }
    }

    /// The entries of the read. Their user data is set when they are submitted.
    pub fn prepare_sqe(&self) -> (entries: Vec<SubmissionEntry>)
        requires
            self.buf is Some,
        ensures
            entries@ == seq![
                SubmissionEntry {
                    op: Op::Read { len: self.buf->0@.len() as u32 },
                    offset: self.offset,
                    linked: false,
                    user_data: 0,
                },
            ],
    {
        let mut entries: Vec<SubmissionEntry> = Vec::new();
        if let Some(buf) = &self.buf {
            entries.push(
                SubmissionEntry {
                    op: Op::Read { len: buf.len_u32() },
                    offset: self.offset,
                    linked: false,
                    user_data: 0,
                },
            );
        }
        assert(entries@ =~= seq![entries@[0]]);
        entries
    }

    /// Takes in what the ring reports of the entries.
    pub fn complete(&mut self, results: &Vec<i32>)
        requires
            results@.len() == 1,
        ensures
            *final(self) == (match io_worker::cqe_result(results@[0]) {
                Ok(n) => WsReadTask { result_len: Some(n), ..*old(self) },
                Err(err) => WsReadTask { error: Some(err), ..*old(self) },
            }),
    {
        match decode_cqe_result(results[0]) {
            Ok(n) => {
                self.result_len = Some(n);
            },
            Err(err) => {
                self.error = Some(err);
            },
        }
    }
}

/// The error of a write after the completions of its first `n` pages: the first that was reported.
pub open spec fn write_error(pages: Seq<PageWrite>, error: Option<Error>, results: Seq<i32>, n: int) -> Option<Error>
    decreases n,
{
    if n <= 0 {
        error
    } else {
        io_worker::first_error(
            write_error(pages, error, results, n - 1),
            io_worker::write_result(results[n - 1], pages[n - 1].buf@.len() as int),
        )
    }
}

impl WsWriteTask {
    pub fn new(pages: Vec<PageWrite>) -> (task: WsWriteTask)
        ensures
            task == (WsWriteTask { pages, error: None }),
    {
        WsWriteTask { pages, error: None }
    }

    /// The entries of the write, one for each page, each but the last linked to the next.
    pub fn prepare_sqe(&self) -> (entries: Vec<SubmissionEntry>)
        ensures
            entries@ == Seq::new(
                self.pages@.len(),
                |i: int|
                    SubmissionEntry {
                        op: Op::Write { index: i as usize, len: self.pages@[i].buf@.len() as u32 },
                        offset: self.pages@[i].offset,
                        linked: i + 1 < self.pages@.len(),
                        user_data: 0,
                    },
            ),
    {
        let mut entries: Vec<SubmissionEntry> = Vec::new();
        let n: usize = self.pages.len();
        let mut i: usize = 0;
        while i < n
            invariant
                i <= n == self.pages@.len(),
                entries@.len() == i,
                forall|k: int| 0 <= k < i ==> #[trigger] entries@[k] == (SubmissionEntry {
                    op: Op::Write { index: k as usize, len: self.pages@[k].buf@.len() as u32 },
                    offset: self.pages@[k].offset,
                    linked: k + 1 < self.pages@.len(),
                    user_data: 0,
                }),
            decreases n - i,
        {
            entries.push(
                SubmissionEntry {
                    op: Op::Write { index: i, len: self.pages[i].buf.len_u32() },
                    offset: self.pages[i].offset,
                    linked: i + 1 < n,
                    user_data: 0,
                },
            );
            i = i + 1;
        }
        entries
    }

    /// Takes in what the ring reports of the entries, and keeps the first error.
    pub fn complete(&mut self, results: &Vec<i32>)
        requires
            results@.len() <= old(self).pages@.len(),
        ensures
            final(self).pages == old(self).pages,
            final(self).error == write_error(
                old(self).pages@,
                old(self).error,
                results@,
                results@.len() as int,
            ),
    {
        let mut i: usize = 0;
        while i < results.len()
            invariant
                i <= results@.len() <= self.pages@.len(),
                self.pages == old(self).pages,
                self.error == write_error(self.pages@, old(self).error, results@, i as int),
            decreases results@.len() - i,
        {
            let expected: usize = self.pages[i].buf.len();
            match decode_cqe_result(results[i]) {
                Ok(n) => {
                    if n != expected && self.error.is_none() {
                        self.error = Some(Error::Io(IoError::Fault(IoFault::ShortWrite { expected, got: n })));
                    }
                },
                Err(err) => {
                    if self.error.is_none() {
                        self.error = Some(err);
                    }
                },
            }
            i = i + 1;
        }
    }
}

impl WsFsyncTask {
    pub fn new() -> (task: WsFsyncTask)
        ensures
            task == (WsFsyncTask { error: None }),
    {
        WsFsyncTask { error: None }
    }

    pub fn prepare_sqe(&self) -> (entries: Vec<SubmissionEntry>)
        ensures
            entries@ == seq![SubmissionEntry { op: Op::Fsync, offset: 0, linked: false, user_data: 0 }],
    {
        let mut entries: Vec<SubmissionEntry> = Vec::new();
        entries.push(SubmissionEntry { op: Op::Fsync, offset: 0, linked: false, user_data: 0 });
        assert(entries@ =~= seq![entries@[0]]);
        entries
    }

    /// Takes in what the ring reports of the entry.
    pub fn complete(&mut self, results: &Vec<i32>)
        requires
            results@.len() == 1,
        ensures
            *final(self) == (match io_worker::cqe_result(results@[0]) {
                Ok(_) => *old(self),
                Err(err) => WsFsyncTask { error: Some(err) },
            }),
    {
        match decode_cqe_result(results[0]) {
            Ok(_) => {},
            Err(err) => {
                self.error = Some(err);
            },
        }
    }
}

/// The result of a read that is completed.
pub fn take_ws_read_result(task: &mut WsReadTask) -> (result: Result<(AlignedBuf, usize), Error>)
    ensures
        match (old(task).error, old(task).result_len, old(task).buf) {
            (Some(err), _, _) => {
                &&& result == Err::<(AlignedBuf, usize), Error>(err)
                &&& *final(task) == (WsReadTask { error: None, ..*old(task) })
            },
            (None, None, _) => {
                &&& result == Err::<(AlignedBuf, usize), Error>(Error::Io(IoError::Fault(IoFault::MissingLength)))
                &&& *final(task) == *old(task)
            },
            (None, Some(_), None) => {
                &&& result == Err::<(AlignedBuf, usize), Error>(Error::Io(IoError::Fault(IoFault::MissingBuffer)))
                &&& *final(task) == (WsReadTask { result_len: None, ..*old(task) })
            },
            (None, Some(n), Some(buf)) => {
                &&& result == Ok::<(AlignedBuf, usize), Error>((buf, n))
                &&& *final(task) == (WsReadTask { result_len: None, buf: None, ..*old(task) })
            },
        },
{
    if let Some(err) = task.error.take() {
        return Err(err);
    }
    let n: usize = match task.result_len.take() {
        Some(n) => n,
        None => {
            return Err(Error::Io(IoError::Fault(IoFault::MissingLength)));
        },
    };
    match task.buf.take() {
        Some(buf) => Ok((buf, n)),
        None => Err(Error::Io(IoError::Fault(IoFault::MissingBuffer))),
    }
}

/// The result of a write that is completed.
pub fn take_ws_write_result(task: &mut WsWriteTask) -> (result: Result<(), Error>)
    ensures
        result == (match old(task).error {
            Some(err) => Err::<(), Error>(err),
            None => Ok(()),
        }),
        *final(task) == (WsWriteTask { error: None, ..*old(task) }),
{
    if let Some(err) = task.error.take() {
        return Err(err);
    }
    Ok(())
}

/// The result of a sync that is completed.
pub fn take_ws_fsync_result(task: &mut WsFsyncTask) -> (result: Result<(), Error>)
    ensures
        result == (match old(task).error {
            Some(err) => Err::<(), Error>(err),
            None => Ok(()),
        }),
        final(task).error is None,
{
    if let Some(err) = task.error.take() {
        return Err(err);
    }
    Ok(())
}

/// A task whose entries are on their way. `task` names it for its owner.
#[derive(Debug)]
pub struct AsyncIoTask {
    pub task: u64,
    pub pending_completions: usize,
    /// What was reported so far, in order.
    pub completions: Vec<i32>,
}

/// A task all of whose entries are completed, and what was reported of them.
#[derive(Debug)]
pub struct FinishedTask {
    pub task: u64,
    pub completions: Vec<i32>,
}

/// The ring of a worker thread, and the tasks that use it.
#[derive(Debug)]
pub struct IoDriver {
    pub ring: SubmissionRing,
    pub submitted_tasks: Vec<Option<AsyncIoTask>>,
    /// Entries that found no slot yet.
    pub queued_entries: VecDeque<SubmissionEntry>,
    pub tokens: VecDeque<u16>,
    /// How many entries the kernel was not told of.
    pub queued_submissions: u64,
}

/// The entries, with a token as their user data.
pub open spec fn tagged(entries: Seq<SubmissionEntry>, token: u64) -> Seq<SubmissionEntry> {
    entries.map_values(|entry: SubmissionEntry| SubmissionEntry { user_data: token, ..entry })
}

/// The smaller of two numbers.
pub open spec fn least(a: int, b: int) -> int {
    if a <= b {
        a
    } else {
        b
    }
}

impl IoDriver {
    /// The entries that the kernel was not told of are counted, and a token is either free, once, or that
    /// of a task that waits for completions.
    pub open spec fn wf(self) -> bool {
        &&& self.ring.wf()
        &&& self.queued_submissions == self.ring.entries@.len()
        &&& self.submitted_tasks@.len() == MAX_CONCURRENT_IO
        &&& self.tokens@.no_duplicates()
        &&& forall|i: int| 0 <= i < self.tokens@.len() ==> (#[trigger] self.tokens@[i]) < MAX_CONCURRENT_IO
            && self.submitted_tasks@[self.tokens@[i] as int] is None
        &&& forall|t: u16| t < MAX_CONCURRENT_IO && self.submitted_tasks@[t as int] is None ==> #[trigger] self.tokens@.contains(t)
        &&& forall|t: int| 0 <= t < MAX_CONCURRENT_IO && (#[trigger] self.submitted_tasks@[t]) is Some
            ==> self.submitted_tasks@[t]->0.pending_completions > 0
    }

    pub fn new() -> (driver: IoDriver)
        ensures
            driver.wf(),
            driver.ring.capacity == URING_NUM_ENTRIES,
            driver.ring.held == 0,
            driver.ring.entries@.len() == 0,
            driver.queued_entries@.len() == 0,
            driver.tokens@ == Seq::new(MAX_CONCURRENT_IO as nat, |i: int| i as u16),
            forall|t: int| 0 <= t < MAX_CONCURRENT_IO ==> (#[trigger] driver.submitted_tasks@[t]) is None,
            driver.queued_submissions == 0,
    {
        let mut tokens: VecDeque<u16> = VecDeque::new();
        let mut submitted_tasks: Vec<Option<AsyncIoTask>> = Vec::new();
        let mut i: u16 = 0;
        while (i as usize) < MAX_CONCURRENT_IO
            invariant
                i <= MAX_CONCURRENT_IO,
                tokens@ == Seq::new(i as nat, |k: int| k as u16),
                submitted_tasks@.len() == i,
                forall|t: int| 0 <= t < i ==> (#[trigger] submitted_tasks@[t]) is None,
            decreases MAX_CONCURRENT_IO - i,
        {
            tokens.push_back(i);
            submitted_tasks.push(None);
            assert(tokens@ =~= Seq::new((i + 1) as nat, |k: int| k as u16));
            i = i + 1;
        }
        let driver = IoDriver {
            ring: SubmissionRing::new(URING_NUM_ENTRIES),
            submitted_tasks,
            queued_entries: VecDeque::new(),
            tokens,
            queued_submissions: 0,
        };
        assert forall|t: u16| t < MAX_CONCURRENT_IO && driver.submitted_tasks@[t as int] is None implies #[trigger] driver.tokens@.contains(t) by {
            assert(driver.tokens@[t as int] == t);
        }
        driver
    }

    /// It is time to tell the kernel: enough entries wait, or the last time is long ago.
    pub fn need_syscall(&self, elapsed_us: u64) -> (need: bool)
        ensures
            need == (self.queued_entries@.len() >= URING_BATCH_SIZE || elapsed_us > URING_SYSCALL_INTERVAL_US),
    {
        let is_batch_full: bool = self.queued_entries.len() >= URING_BATCH_SIZE;
        is_batch_full || elapsed_us > URING_SYSCALL_INTERVAL_US
    }

    /// Moves entries that wait into free slots, oldest first.
    pub fn drain_intermediate_queue(&mut self)
        requires
            old(self).wf(),
        ensures
            final(self).wf(),
            final(self).submitted_tasks == old(self).submitted_tasks,
            final(self).tokens == old(self).tokens,
            final(self).ring.capacity == old(self).ring.capacity,
            final(self).ring.held == old(self).ring.held,
            ({
                let n = least(old(self).ring.available(), old(self).queued_entries@.len() as int);
                &&& final(self).ring.entries@ == old(self).ring.entries@ + old(self).queued_entries@.take(n)
                &&& final(self).queued_entries@ == old(self).queued_entries@.skip(n)
                &&& final(self).queued_submissions == old(self).queued_submissions.wrapping_add(n as u64)
            }),
    {
        let ghost mut n: int = 0;
        proof {
            assert(old(self).ring.entries@ + old(self).queued_entries@.take(0) =~= old(self).ring.entries@);
            assert(old(self).queued_entries@.skip(0) =~= old(self).queued_entries@);
        }
        while self.ring.available_submission_slots() > 0 && self.queued_entries.len() > 0
            invariant
                0 <= n <= old(self).queued_entries@.len(),
                n <= old(self).ring.available(),
                old(self).wf(),
                self.wf(),
                self.submitted_tasks == old(self).submitted_tasks,
                self.tokens == old(self).tokens,
                self.ring.capacity == old(self).ring.capacity,
                self.ring.held == old(self).ring.held,
                self.ring.available() == old(self).ring.available() - n,
                self.ring.entries@ == old(self).ring.entries@ + old(self).queued_entries@.take(n),
                self.queued_entries@ == old(self).queued_entries@.skip(n),
                self.queued_submissions == old(self).queued_submissions.wrapping_add(n as u64),
            decreases self.queued_entries@.len(),
        {
            let ghost queue = old(self).queued_entries@;
            let ghost left = self.queued_entries@;
            match self.queued_entries.pop_front() {
                Some(entry) => {
                    proof {
                        assert(entry == queue[n]) by {
                            assert(left[0] == queue[n]);
                        }
                        assert(queue.skip(n + 1) =~= queue.skip(n).skip(1));
                        assert(queue.take(n + 1) =~= queue.take(n).push(queue[n]));
                    }
                    let _pushed: Result<(), Error> = self.ring.push(entry);
                    self.queued_submissions = self.queued_submissions.wrapping_add(1);
                    proof {
                        assert(self.ring.entries@ =~= old(self).ring.entries@ + queue.take(n + 1));
                        n = n + 1;
                    }
                },
                None => {},
            }
        }
    }

    /// Submits a task: gives it a token and puts its entries into free slots. Entries that find none
    /// wait.
    #[verifier::rlimit(50)]
    pub fn submit_task(&mut self, task: u64, entries: Vec<SubmissionEntry>) -> (token: u16)
        requires
            old(self).wf(),
            old(self).tokens@.len() > 0,
            entries@.len() > 0,
        ensures
            final(self).wf(),
            token == old(self).tokens@[0],
            final(self).tokens@ == old(self).tokens@.skip(1),
            final(self).ring.capacity == old(self).ring.capacity,
            final(self).ring.held == old(self).ring.held,
            final(self).submitted_tasks@.len() == old(self).submitted_tasks@.len(),
            forall|t: int| 0 <= t < MAX_CONCURRENT_IO && t != token ==> #[trigger] final(self).submitted_tasks@[t]
                == old(self).submitted_tasks@[t],
            old(self).submitted_tasks@[token as int] is None,
            final(self).submitted_tasks@[token as int] matches Some(submitted) && submitted.task == task
                && submitted.pending_completions == entries@.len() && submitted.completions@.len() == 0,
            ({
                let all = tagged(entries@, token as u64);
                let n = least(old(self).ring.available(), entries@.len() as int);
                &&& final(self).ring.entries@ == old(self).ring.entries@ + all.take(n)
                &&& final(self).queued_entries@ == old(self).queued_entries@ + all.skip(n)
                &&& final(self).queued_submissions == old(self).queued_submissions.wrapping_add(n as u64)
            }),
    {
        let ghost all_tokens = self.tokens@;
        let token: u16 = match self.tokens.pop_front() {
            Some(token) => token,
            None => 0,
        };
        proof {
            assert(token == all_tokens[0]);
            assert(self.tokens@ =~= all_tokens.skip(1));
        }
        let num_sqes: usize = entries.len();
        let submitted = AsyncIoTask { task, pending_completions: num_sqes, completions: Vec::new() };
        self.submitted_tasks[token as usize] = Some(submitted);
        let ghost all = tagged(entries@, token as u64);
        let ghost room = old(self).ring.available();
        let mut i: usize = 0;
        proof {
            assert(old(self).ring.entries@ + all.take(0) =~= old(self).ring.entries@);
            assert(old(self).queued_entries@ + all.subrange(0, 0) =~= old(self).queued_entries@);
        }
        while i < num_sqes
            invariant
                i <= num_sqes == entries@.len(),
                all == tagged(entries@, token as u64),
                all.len() == num_sqes,
                room == old(self).ring.available(),
                room >= 0,
                self.ring.wf(),
                self.ring.capacity == old(self).ring.capacity,
                self.ring.held == old(self).ring.held,
                self.tokens@ == all_tokens.skip(1),
                self.submitted_tasks@ == old(self).submitted_tasks@.update(token as int, Some(submitted)),
                self.ring.entries@ == old(self).ring.entries@ + all.take(least(room, i as int)),
                self.queued_entries@ == old(self).queued_entries@ + all.subrange(least(room, i as int), i as int),
                self.queued_submissions == old(self).queued_submissions.wrapping_add(least(room, i as int) as u64),
            decreases num_sqes - i,
        {
            let ghost n = least(room, i as int);
            let mut entry: SubmissionEntry = entries[i];
            entry.user_data = token as u64;
            assert(entry == all[i as int]);
            if self.ring.push(entry).is_ok() {
                self.queued_submissions = self.queued_submissions.wrapping_add(1);
                proof {
                    assert(n == i);
                    assert(self.ring.entries@ =~= old(self).ring.entries@ + all.take(i + 1));
                    assert(all.subrange(i as int, i as int) =~= all.subrange(i + 1, i + 1));
                }
            } else {
                self.queued_entries.push_back(entry);
                assert(self.queued_entries@ =~= old(self).queued_entries@ + all.subrange(n, i + 1));
            }
            i = i + 1;
        }
        proof {
            assert(all.subrange(least(room, num_sqes as int), num_sqes as int) =~= all.skip(
                least(room, num_sqes as int),
            ));
            assert forall|k: int| 0 <= k < self.tokens@.len() implies (#[trigger] self.tokens@[k]) < MAX_CONCURRENT_IO
                && self.submitted_tasks@[self.tokens@[k] as int] is None by {
                assert(self.tokens@[k] == all_tokens[k + 1]);
                assert(all_tokens[k + 1] != all_tokens[0]);
            }
            assert forall|t: u16| t < MAX_CONCURRENT_IO && self.submitted_tasks@[t as int] is None implies #[trigger] self.tokens@.contains(t) by {
                assert(all_tokens.contains(t));
                let k = choose|k: int| 0 <= k < all_tokens.len() && all_tokens[k] == t;
                assert(self.tokens@[k - 1] == t);
            }
            assert(self.tokens@.no_duplicates()) by {
                assert forall|x: int, y: int| 0 <= x < self.tokens@.len() && 0 <= y < self.tokens@.len() && x != y
                    implies self.tokens@[x] != self.tokens@[y] by {
                    assert(all_tokens[x + 1] != all_tokens[y + 1]);
                }
            }
        }
        token
    }

    /// Hands the entries in the ring to the kernel.
    pub fn enter(&mut self) -> (entries: Vec<SubmissionEntry>)
        requires
            old(self).wf(),
        ensures
            final(self).wf(),
            entries@ == old(self).ring.entries@,
            entries@.len() == old(self).queued_submissions,
            final(self).ring.entries@.len() == 0,
            final(self).ring.held == old(self).ring.held + entries@.len(),
            final(self).ring.capacity == old(self).ring.capacity,
            final(self).queued_submissions == 0,
            final(self).submitted_tasks == old(self).submitted_tasks,
            final(self).queued_entries == old(self).queued_entries,
            final(self).tokens == old(self).tokens,
    {
        let entries: Vec<SubmissionEntry> = self.ring.submit();
        self.queued_submissions = 0;
        entries
    }

    /// The kernel has taken up entries that were handed to it, all but the last `left`, whose slots are
    /// not free yet.
    pub fn on_entered(&mut self, left: usize)
        requires
            old(self).wf(),
            left <= old(self).ring.held,
        ensures
            final(self).wf(),
            *final(self) == (IoDriver { ring: SubmissionRing { held: left, ..old(self).ring }, ..*old(self) }),
            final(self).ring.available() == old(self).ring.capacity - left - old(self).ring.entries@.len(),
    {
        self.ring.on_submitted(left);
    }

    /// Takes in the completion of an entry. Where it was the last of its task, the task is finished and
    /// its token free again.
    #[verifier::rlimit(50)]
    pub fn on_completion(&mut self, token: u16, result: i32) -> (finished: Option<FinishedTask>)
        requires
            old(self).wf(),
            token < MAX_CONCURRENT_IO,
            old(self).submitted_tasks@[token as int] is Some,
        ensures
            final(self).wf(),
            final(self).ring == old(self).ring,
            final(self).queued_entries == old(self).queued_entries,
            final(self).queued_submissions == old(self).queued_submissions,
            final(self).submitted_tasks@.len() == old(self).submitted_tasks@.len(),
            forall|t: int| 0 <= t < MAX_CONCURRENT_IO && t != token ==> #[trigger] final(self).submitted_tasks@[t]
                == old(self).submitted_tasks@[t],
            ({
                let before = old(self).submitted_tasks@[token as int]->0;
                if before.pending_completions == 1 {
                    &&& finished matches Some(finished) && finished.task == before.task && finished.completions@
                        == before.completions@.push(result)
                    &&& final(self).submitted_tasks@[token as int] is None
                    &&& final(self).tokens@ == old(self).tokens@.push(token)
                } else {
                    &&& finished is None
                    &&& final(self).submitted_tasks@[token as int] matches Some(after) && after.task == before.task
                        && after.pending_completions == before.pending_completions - 1 && after.completions@
                        == before.completions@.push(result)
                    &&& final(self).tokens == old(self).tokens
                }
            }),
    {
        let ghost tasks = self.submitted_tasks@;
        let mut slot: Option<AsyncIoTask> = None;
        core::mem::swap(&mut self.submitted_tasks[token as usize], &mut slot);
        let mut task: AsyncIoTask = match slot {
            Some(task) => task,
            None => {
                return None;
            },
        };
        proof {
            assert(!self.tokens@.contains(token)) by {
                if self.tokens@.contains(token) {
                    let k = choose|k: int| 0 <= k < self.tokens@.len() && self.tokens@[k] == token;
                    assert(tasks[self.tokens@[k] as int] is None);
                }
            }
        }
        task.completions.push(result);
        if task.pending_completions == 1 {
            self.tokens.push_back(token);
            proof {
                let before = old(self).tokens@;
                assert(self.tokens@ =~= before.push(token));
                assert forall|k: int| 0 <= k < self.tokens@.len() implies (#[trigger] self.tokens@[k])
                    < MAX_CONCURRENT_IO && self.submitted_tasks@[self.tokens@[k] as int] is None by {
                    if k < before.len() {
                        assert(self.tokens@[k] == before[k]);
                        assert(before.contains(before[k]));
                    }
                }
                assert forall|t: u16| t < MAX_CONCURRENT_IO && self.submitted_tasks@[t as int] is None implies #[trigger] self.tokens@.contains(t) by {
                    if t == token {
                        assert(self.tokens@[before.len() as int] == t);
                    } else {
                        assert(before.contains(t));
                        let k = choose|k: int| 0 <= k < before.len() && before[k] == t;
                        assert(self.tokens@[k] == t);
                    }
                }
            }
            return Some(FinishedTask { task: task.task, completions: task.completions });
        }
        task.pending_completions = task.pending_completions - 1;
        self.submitted_tasks[token as usize] = Some(task);
        proof {
            assert forall|k: int| 0 <= k < self.tokens@.len() implies (#[trigger] self.tokens@[k]) < MAX_CONCURRENT_IO
                && self.submitted_tasks@[self.tokens@[k] as int] is None by {
                assert(self.tokens@.contains(self.tokens@[k]));
            }
        }
        None
    }
}

/// What a worker thread does on a tick.
#[derive(Clone, Copy, PartialEq, Eq, Structural, Debug)]
pub enum TickAction {
    /// Run the first task of the local queue.
    RunLocal,
    /// Ask for a new task.
    Receive,
    Nothing,
}

/// What came of asking for a new task.
#[derive(Clone, Copy, PartialEq, Eq, Structural, Debug)]
pub enum ReceiveEvent {
    Task,
    Empty,
    Disconnected,
}

/// The tasks of a worker thread.
#[derive(Clone, Copy, PartialEq, Eq, Structural, Debug)]
pub struct RuntimeWorker {
    pub active_tasks: u32,
    pub disconnected: bool,
}

impl RuntimeWorker {
    pub fn new() -> (worker: RuntimeWorker)
        ensures
            worker == (RuntimeWorker { active_tasks: 0, disconnected: false }),
    {
        RuntimeWorker { active_tasks: 0, disconnected: false }
    }

    /// Nothing is queued, and no task is under way.
    pub fn is_idle(&self, local_len: usize) -> (idle: bool)
        ensures
            idle == (local_len == 0 && self.active_tasks == 0),
    {
        local_len == 0 && self.active_tasks == 0
    }

    /// Nobody can hand in tasks any more, and there is none left.
    pub fn is_over(&self, local_len: usize) -> (over: bool)
        ensures
            over == (self.disconnected && local_len == 0 && self.active_tasks == 0),
    {
        self.disconnected && self.is_idle(local_len)
    }

    /// What to do now: tasks that are under way go first, and only so many are under way at a time.
    pub fn try_tick(&self, local_len: usize) -> (action: TickAction)
        ensures
            action == (if local_len > 0 {
                TickAction::RunLocal
            } else if self.active_tasks < MAX_ACTIVE_TASKS_PER_THREAD {
                TickAction::Receive
            } else {
                TickAction::Nothing
            }),
    {
        if local_len > 0 {
            TickAction::RunLocal
        } else if self.active_tasks < MAX_ACTIVE_TASKS_PER_THREAD {
            TickAction::Receive
        } else {
            TickAction::Nothing
        }
    }

    /// Takes in what came of asking for a new task, and says whether there is one to run.
    pub fn on_receive(&mut self, event: ReceiveEvent) -> (run: bool)
        ensures
            run == (event == ReceiveEvent::Task),
            *final(self) == (match event {
                ReceiveEvent::Task => RuntimeWorker {
                    active_tasks: old(self).active_tasks.saturating_add(1),
                    ..*old(self)
                },
                ReceiveEvent::Empty => *old(self),
                ReceiveEvent::Disconnected => RuntimeWorker { disconnected: true, ..*old(self) },
            }),
    {
        match event {
            ReceiveEvent::Task => {
                self.active_tasks = self.active_tasks.saturating_add(1);
                true
            },
            ReceiveEvent::Empty => false,
            ReceiveEvent::Disconnected => {
                self.disconnected = true;
                false
            },
        }
    }

    /// Takes in that a task is over.
    pub fn task_finished(&mut self)
        ensures
            *final(self) == (RuntimeWorker {
                active_tasks: old(self).active_tasks.saturating_sub(1),
                ..*old(self)
            }),
    {
        self.active_tasks = self.active_tasks.saturating_sub(1);
    }
}

/// How far a task is.
#[derive(Clone, Copy, PartialEq, Eq, Structural, Debug)]
pub enum UringState {
    Created,
    Submitted,
}

/// What a poll of a task comes to.
#[derive(Clone, Copy, PartialEq, Eq, Structural, Debug)]
pub enum UringPoll {
    /// Submit the task, then wait.
    Submit,
    Pending,
    Ready,
}

/// The life of a task: it is submitted on its first poll, and ready once it is completed.
#[derive(Clone, Copy, PartialEq, Eq, Structural, Debug)]
pub struct UringFuture {
    pub state: UringState,
}

impl UringFuture {
    pub fn new() -> (future: UringFuture)
        ensures
            future.state == UringState::Created,
    {
        UringFuture { state: UringState::Created }
    }

    pub fn poll(&mut self, completed: bool) -> (poll: UringPoll)
        ensures
            final(self).state == UringState::Submitted,
            poll == (if old(self).state == UringState::Created {
                UringPoll::Submit
            } else if completed {
                UringPoll::Ready
            } else {
                UringPoll::Pending
            }),
    {
        match self.state {
            UringState::Created => {
                self.state = UringState::Submitted;
                UringPoll::Submit
            },
            UringState::Submitted => {
                if completed {
                    UringPoll::Ready
                } else {
                    UringPoll::Pending
                }
            },
        }
    }
}

} // verus!
