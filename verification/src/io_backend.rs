//! How the store file is read and written.

use crate::buffer::ReadBuf;
use crate::error::{Error, IoError, IoFault};
use vstd::prelude::*;

verus! {

/// How the ring for the store file is run.
#[derive(Clone, Copy, PartialEq, Eq, Structural, Debug)]
pub enum IoBackendKind {
    /// One background thread services a single ring.
    DedicatedThread,
    /// A pool of threads with a ring each. Operations on the store have to run on that pool.
    WorkStealing { io_threads: u32 },
}

impl Default for IoBackendKind {
    fn default() -> (kind: IoBackendKind)
        ensures
            kind == IoBackendKind::DedicatedThread,
    {
        IoBackendKind::DedicatedThread
    }
}

/// A read that has to fill its buffer.
#[derive(Debug)]
pub struct ReadExactAt {
    state: ReadExactState,
    expected: usize,
}

#[derive(Debug)]
pub enum ReadExactState {
    /// The read was not issued yet.
    Start { buf: ReadBuf, offset: u64 },
    Reading,
    Done,
}

/// What a read was told by the backend.
#[derive(Debug)]
pub enum ReadPoll {
    Pending,
    Ready(Result<(ReadBuf, usize), Error>),
}

/// What an exact read has come to.
#[derive(Debug)]
pub enum ExactPoll {
    Pending,
    Ready(Result<ReadBuf, Error>),
}

impl ReadExactAt {
    pub closed spec fn spec_state(self) -> ReadExactState {
        self.state
    }

    pub closed spec fn spec_expected(self) -> usize {
        self.expected
    }

    /// A read that fills `buf` from `offset` on.
    pub fn new(buf: ReadBuf, offset: u64) -> (read: ReadExactAt)
        requires
            buf.wf(),
        ensures
            read.spec_state() == (ReadExactState::Start { buf, offset }),
            read.spec_expected() == buf@.len(),
    {
        let expected: usize = buf.len();
        ReadExactAt { state: ReadExactState::Start { buf, offset }, expected }
    }

    /// The read to issue, the first time.
    pub fn take_request(&mut self) -> (request: Option<(ReadBuf, u64)>)
        ensures
            final(self).spec_expected() == old(self).spec_expected(),
            match old(self).spec_state() {
                ReadExactState::Start { buf, offset } => {
                    &&& request == Some((buf, offset))
                    &&& final(self).spec_state() == ReadExactState::Reading
                },
                _ => request is None && *final(self) == *old(self),
            },
    {
        let mut state: ReadExactState = ReadExactState::Reading;
        core::mem::swap(&mut self.state, &mut state);
        match state {
            ReadExactState::Start { buf, offset } => Some((buf, offset)),
            ReadExactState::Reading => None,
            ReadExactState::Done => {
                self.state = ReadExactState::Done;
                None
            },
        }
    }

    /// Takes in what the backend says of the read, and checks its length.
    pub fn on_poll(&mut self, poll: ReadPoll) -> (exact: ExactPoll)
        requires
            old(self).spec_state() == ReadExactState::Reading,
        ensures
            final(self).spec_expected() == old(self).spec_expected(),
            match poll {
                ReadPoll::Pending => exact is Pending && *final(self) == *old(self),
                ReadPoll::Ready(result) => {
                    &&& final(self).spec_state() == ReadExactState::Done
                    &&& exact matches ExactPoll::Ready(exact) && exact == exact_result(result, old(self).spec_expected())
                },
            },
    {
        match poll {
            ReadPoll::Pending => ExactPoll::Pending,
            ReadPoll::Ready(result) => {
                self.state = ReadExactState::Done;
                match result {
                    Ok((buf, n)) => {
                        if n != self.expected {
                            ExactPoll::Ready(
                                Err(
                                    Error::Io(
                                        IoError::Fault(IoFault::ShortRead { expected: self.expected, got: n }),
                                    ),
                                ),
                            )
                        } else {
                            ExactPoll::Ready(Ok(buf))
                        }
                    },
                    Err(err) => ExactPoll::Ready(Err(err)),
                }
            },
        }
    }
}

/// What comes of a read that should have brought `expected` bytes.
pub open spec fn exact_result(result: Result<(ReadBuf, usize), Error>, expected: usize) -> Result<ReadBuf, Error> {
    match result {
        Ok((buf, n)) => if n == expected {
            Ok(buf)
        } else {
            Err(Error::Io(IoError::Fault(IoFault::ShortRead { expected, got: n })))
        },
        Err(err) => Err(err),
    }
}

} // verus!
