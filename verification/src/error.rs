//! What can go wrong.

use vstd::prelude::*;

verus! {

/// A fault of the ring, the file or the machinery around them.
#[derive(Clone, Copy, PartialEq, Eq, Structural, Debug)]
pub enum IoFault {
    /// The operating system refused, with this error number.
    Os(i32),
    ShortRead { expected: usize, got: usize },
    ShortWrite { expected: usize, got: usize },
    /// The submission queue is full.
    QueueFull,
    /// A request needs more entries than the submission queue has.
    TooManyEntries { needed: usize, queue_depth: usize },
    /// The worker that does the I/O is not running.
    WorkerGone,
    MissingLength,
    MissingBuffer,
}

#[derive(Clone, Copy, PartialEq, Eq, Structural, Debug)]
pub enum IoError {
    Fault(IoFault),
    /// The worker gave up because of this fault, and every request with it.
    WorkerFailed(IoFault),
}

/// A file that is no store, or a limit of the format.
#[derive(Clone, Copy, PartialEq, Eq, Structural, Debug)]
pub enum FormatFault {
    /// The file is shorter than the first page of the log.
    ShortFile,
    BadMagic,
    BadVersion,
    /// An entry does not fit its page, or its fields contradict the format.
    BadEntry,
    /// Sequence numbers do not increase along the log.
    LsnOrder,
    /// A page other than the first holds no entry.
    EmptyPage,
    /// The entry does not fit on the page.
    PageFull,
    ReplayOverflow,
    FileTailOverflow,
    LsnOverflow,
    /// A padded value does not fit a buffer.
    ValueTooLong,
}

#[derive(Clone, Copy, PartialEq, Eq, Structural, Debug)]
pub enum ArgumentFault {
    ZeroQueueDepth,
    AlignOverflow,
    EmptySource,
    SourceTooLong,
    BufferLayout,
    PageBufferSize,
    KeyTooLong,
    ValueTooLong,
}

#[derive(Clone, Copy, PartialEq, Eq, Structural, Debug)]
pub enum Error {
    Io(IoError),
    Format(FormatFault),
    NotFound,
    RangeOutOfBounds,
    LockPoisoned,
    InvalidArgument(ArgumentFault),
}

} // verus!
