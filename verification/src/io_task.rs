//! Requests for I/O, and how they are completed.

use crate::buffer::{AlignedBuf, ReadBuf};
use crate::error::{Error, IoError, IoFault};
use vstd::prelude::*;

verus! {

/// Bytes to be written at an offset of the store file.
#[derive(Debug)]
pub struct PageWrite {
    pub buf: AlignedBuf,
    pub offset: u64,
}

/// How far a result is on its way from the worker to the task that waits for it.
#[derive(Debug)]
pub enum TaskCompletionState<T, W> {
    PendingUnpolled,
    /// The task waits, and can be woken.
    Pending { waker: W },
    Ready(Result<T, Error>),
    Consumed,
}

/// A place for one result, and for the waker of the one task that waits for it.
#[derive(Debug)]
pub struct TaskCompletion<T, W> {
    inner: TaskCompletionState<T, W>,
}

impl<T, W> TaskCompletion<T, W> {
    pub closed spec fn state(self) -> TaskCompletionState<T, W> {
        self.inner
    }

    /// There is no result yet.
    pub open spec fn is_pending(self) -> bool {
        self.state() is PendingUnpolled || self.state() is Pending
    }

    pub fn new() -> (completion: TaskCompletion<T, W>)
        ensures
            completion.state() == TaskCompletionState::<T, W>::PendingUnpolled,
    {
        TaskCompletion { inner: TaskCompletionState::PendingUnpolled }
    }

    /// Puts the result in its place, and returns the waker of the task that waits for it.
    pub fn complete(&mut self, result: Result<T, Error>) -> (waker: Option<W>)
        requires
            old(self).is_pending(),
        ensures
            final(self).state() == TaskCompletionState::<T, W>::Ready(result),
            waker == (match old(self).state() {
                TaskCompletionState::Pending { waker } => Some(waker),
                _ => None,
            }),
    {
        let mut before: TaskCompletionState<T, W> = TaskCompletionState::Ready(result);
        core::mem::swap(&mut self.inner, &mut before);
        match before {
            TaskCompletionState::Pending { waker } => Some(waker),
            _ => None,
        }
    }

    /// The waker that is kept for the task that waits.
    pub fn kept_waker(&self) -> (waker: Option<&W>)
        ensures
            waker == (match self.state() {
                TaskCompletionState::Pending { waker } => Some(&waker),
                _ => None,
            }),
    {
        match &self.inner {
            TaskCompletionState::Pending { waker } => Some(waker),
            _ => None,
        }
    }

    /// Takes the result, once; until it is there, keeps `waker`, unless the waker that is kept already
    /// wakes the same task.
    pub fn poll_result(&mut self, waker: W, wakes_same: bool) -> (result: Option<Result<T, Error>>)
        requires
            !(old(self).state() is Consumed),
        ensures
            match old(self).state() {
                TaskCompletionState::PendingUnpolled => {
                    &&& result is None
                    &&& final(self).state() == (TaskCompletionState::<T, W>::Pending { waker })
                },
                TaskCompletionState::Pending { waker: kept } => {
                    &&& result is None
                    &&& final(self).state() == (TaskCompletionState::<T, W>::Pending {
                        waker: if wakes_same {
                            kept
                        } else {
                            waker
                        },
                    })
                },
                TaskCompletionState::Ready(ready) => {
                    &&& result == Some(ready)
                    &&& final(self).state() == TaskCompletionState::<T, W>::Consumed
                },
                TaskCompletionState::Consumed => false,
            },
    {
        let mut before: TaskCompletionState<T, W> = TaskCompletionState::Consumed;
        core::mem::swap(&mut self.inner, &mut before);
        match before {
            TaskCompletionState::PendingUnpolled => {
                self.inner = TaskCompletionState::Pending { waker };
                None
            },
            TaskCompletionState::Pending { waker: kept } => {
                if wakes_same {
                    self.inner = TaskCompletionState::Pending { waker: kept };
                } else {
                    self.inner = TaskCompletionState::Pending { waker };
                }
                None
            },
            TaskCompletionState::Ready(result) => Some(result),
            TaskCompletionState::Consumed => None,
        }
    }
}

/// What is said where the worker is gone.
pub fn worker_disconnected_error() -> (err: Error)
    ensures
        err == Error::Io(IoError::Fault(IoFault::WorkerGone)),
{
    Error::Io(IoError::Fault(IoFault::WorkerGone))
}

/// What a task asks of the worker. `completion` names the place for the result.
#[derive(Debug)]
pub enum WorkerRequest {
    Read { buf: ReadBuf, offset: u64, completion: u64 },
    Write { writes: Vec<PageWrite>, completion: u64 },
    Fsync { completion: u64 },
}

impl WorkerRequest {
    pub open spec fn spec_completion(self) -> u64 {
        match self {
            WorkerRequest::Read { completion, .. } => completion,
            WorkerRequest::Write { completion, .. } => completion,
            WorkerRequest::Fsync { completion } => completion,
        }
    }

    /// A read has a proper buffer, a write has something to write.
    pub open spec fn wf(self) -> bool {
        match self {
            WorkerRequest::Read { buf, .. } => buf.wf(),
            WorkerRequest::Write { writes, .. } => writes@.len() > 0,
            WorkerRequest::Fsync { .. } => true,
        }
    }
}

/// The buffer and the offset of a read.
#[derive(Debug)]
pub struct PendingRead {
    pub buf: ReadBuf,
    pub offset: u64,
}

#[derive(Debug)]
pub struct PendingWrite {
    pub writes: Vec<PageWrite>,
}

#[derive(Debug)]
pub struct PendingFsync {}

#[derive(Debug)]
pub enum FileTaskState<P> {
    /// Nothing was asked of the worker yet.
    Init(P),
    /// The worker was asked, and puts its result in this place.
    Waiting(u64),
    Done,
}

/// One request of a task, from its first poll to its result.
#[derive(Debug)]
pub struct FileTask<P> {
    state: FileTaskState<P>,
}

pub type FileReadTask = FileTask<PendingRead>;

pub type FileWriteTask = FileTask<PendingWrite>;

pub type FileFsyncTask = FileTask<PendingFsync>;

impl<P> FileTask<P> {
    pub closed spec fn spec_state(self) -> FileTaskState<P> {
        self.state
    }

    pub fn new(pending: P) -> (task: FileTask<P>)
        ensures
            task.spec_state() == FileTaskState::Init(pending),
    {
        FileTask { state: FileTaskState::Init(pending) }
    }

    /// What to ask of the worker on the first poll, whose result goes to `completion`; nothing on a
    /// later one.
    pub fn start(&mut self, completion: u64) -> (pending: Option<P>)
        ensures
            match old(self).spec_state() {
                FileTaskState::Init(pending_before) => {
                    &&& pending == Some(pending_before)
                    &&& final(self).spec_state() == FileTaskState::<P>::Waiting(completion)
                },
                _ => pending is None && *final(self) == *old(self),
            },
    {
        let mut before: FileTaskState<P> = FileTaskState::Waiting(completion);
        core::mem::swap(&mut self.state, &mut before);
        match before {
            FileTaskState::Init(pending) => Some(pending),
            FileTaskState::Waiting(place) => {
                self.state = FileTaskState::Waiting(place);
                None
            },
            FileTaskState::Done => {
                self.state = FileTaskState::Done;
                None
            },
        }
    }

    /// Takes in whether the worker got the request. Without a worker the task is over.
    pub fn sent(&mut self, delivered: bool) -> (outcome: Result<(), Error>)
        requires
            old(self).spec_state() is Waiting,
        ensures
            delivered ==> outcome is Ok && *final(self) == *old(self),
            !delivered ==> outcome == Err::<(), Error>(Error::Io(IoError::Fault(IoFault::WorkerGone))),
            !delivered ==> final(self).spec_state() == FileTaskState::<P>::Done,
    {
        if delivered {
            Ok(())
        } else {
            self.state = FileTaskState::Done;
            Err(worker_disconnected_error())
        }
    }

    /// The place of the result that the task waits for.
    pub fn waits_for(&self) -> (completion: Option<u64>)
        ensures
            completion == (match self.spec_state() {
                FileTaskState::Waiting(completion) => Some(completion),
                _ => None,
            }),
    {
        match &self.state {
            FileTaskState::Waiting(completion) => Some(*completion),
            _ => None,
        }
    }

    /// Takes in that the result is there.
    pub fn finished(&mut self)
        requires
            old(self).spec_state() is Waiting,
        ensures
            final(self).spec_state() == FileTaskState::<P>::Done,
    {
        self.state = FileTaskState::Done;
    }
}

/// The request of a read.
pub fn read_request(pending: PendingRead, completion: u64) -> (request: WorkerRequest)
    ensures
        request == (WorkerRequest::Read { buf: pending.buf, offset: pending.offset, completion }),
{
    WorkerRequest::Read { buf: pending.buf, offset: pending.offset, completion }
}

/// The request of a write.
pub fn write_request(pending: PendingWrite, completion: u64) -> (request: WorkerRequest)
    ensures
        request == (WorkerRequest::Write { writes: pending.writes, completion }),
{
    WorkerRequest::Write { writes: pending.writes, completion }
}

/// The request of a sync.
pub fn fsync_request(completion: u64) -> (request: WorkerRequest)
    ensures
        request == (WorkerRequest::Fsync { completion }),
{
    WorkerRequest::Fsync { completion }
}

} // verus!
