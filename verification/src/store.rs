//! The store: what each operation reads and writes, and what it answers.

use crate::buffer::ReadBuf;
use crate::error::{ArgumentFault, Error, FormatFault};
use crate::index::Index;
use crate::input_kv::{T4Key, T4KeyRef, T4Value, ValueRef, MAX_KEY_LEN};
use crate::io_backend::IoBackendKind;
use crate::io_task::PageWrite;
use crate::layout;
use crate::layout::{align_down_u64, align_up_u32, align_up_u64, CheckedRangeU32, RangeRequestU32};
use crate::wal;
use crate::wal::{Wal, WalReplay};
use crate::wal_page;
use crate::wal_page::{AppendEntry, PageModel};
use crate::wal_replay::ReplayModel;
use crate::{PAGE_SIZE, PAGE_SIZE_U32, PAGE_SIZE_U64};
use vstd::prelude::*;

verus! {

/// How a store is opened.
#[derive(Clone, Copy, PartialEq, Eq, Structural, Debug)]
pub struct MountOptions {
    pub queue_depth: u32,
    pub direct_io: bool,
    pub dsync: bool,
    pub io_backend: IoBackendKind,
    /// Size of the arena for fixed buffers.
    pub fixed_buffer_pool_size_mb: usize,
}

impl Default for MountOptions {
    fn default() -> (options: MountOptions)
        ensures
            options == (MountOptions {
                queue_depth: 256,
                direct_io: true,
                dsync: true,
                io_backend: IoBackendKind::DedicatedThread,
                fixed_buffer_pool_size_mb: 128,
            }),
    {
        MountOptions {
            queue_depth: 256,
            direct_io: true,
            dsync: true,
            io_backend: IoBackendKind::DedicatedThread,
            fixed_buffer_pool_size_mb: 128,
        }
    }
}

impl MountOptions {
    /// The flags to open the store file with, beyond reading, writing and creating it.
    pub fn custom_flags(&self, o_direct: i32, o_dsync: i32) -> (flags: i32)
        ensures
            flags == (if self.direct_io && self.dsync {
                0 | o_direct | o_dsync
            } else if self.direct_io {
                0 | o_direct
            } else if self.dsync {
                0 | o_dsync
            } else {
                0
            }),
    {
        let mut custom_flags: i32 = 0;
        if self.direct_io {
            custom_flags = custom_flags | o_direct;
        }
        if self.dsync {
            custom_flags = custom_flags | o_dsync;
        }
        custom_flags
    }
}

/// What has to be done before the store of a file can be used.
pub enum MountStep {
    /// The file is empty: write the first page of the log, then use the store.
    Create(PageWrite, T4Store),
    /// Read the log.
    Replay(WalReplay),
}

/// The part of the file that holds what was asked for.
#[derive(Clone, Copy, PartialEq, Eq, Structural, Debug)]
pub struct Window {
    /// Where to read, and how much.
    pub offset: u64,
    pub len: u32,
    /// Where the answer starts in what was read, and its length.
    pub start: u32,
    pub take: u32,
}

impl Window {
    pub open spec fn wf(self) -> bool {
        0 < self.len && self.start + self.take <= self.len
    }

    /// The answer, from what was read.
    pub fn extract(&self, buf: &ReadBuf) -> (answer: Vec<u8>)
        requires
            self.wf(),
            buf.wf(),
            buf@.len() == self.len,
        ensures
            answer@ == buf@.subrange(self.start as int, self.start + self.take),
    {
        let bytes: &[u8] = buf.as_slice();
        let start: usize = self.start as usize;
        let end: usize = start + self.take as usize;
        let mut answer: Vec<u8> = Vec::with_capacity(self.take as usize);
        let mut i: usize = start;
        while i < end
            invariant
                start <= i <= end <= bytes@.len(),
                answer@ == bytes@.subrange(start as int, i as int),
            decreases end - i,
        {
            answer.push(bytes[i]);
            assert(answer@ =~= bytes@.subrange(start as int, i + 1));
            i = i + 1;
        }
        answer
    }
}

/// How a question is answered.
#[derive(Clone, Copy, PartialEq, Eq, Structural, Debug)]
pub enum ReadPlan {
    /// There are no bytes to read.
    Empty,
    Read(Window),
}

/// A `put` that waits for a write.
#[derive(Debug)]
pub struct PendingPut {
    pub key: T4Key,
    pub value: ValueRef,
    /// The write was that of the log, not that of the value.
    pub logged: bool,
}

/// What a `put` does next.
#[derive(Debug)]
pub enum PutStep {
    /// Do the writes, in order, then go on with [`T4Store::put_written`].
    Write(Vec<PageWrite>, PendingPut),
    Done,
}

/// The log and the index of an open store.
pub struct T4Store {
    pub wal: Wal,
    pub index: Index,
}

/// How a read of a whole value is answered.
pub open spec fn get_plan(value: ValueRef) -> Result<ReadPlan, Error> {
    let padded = layout::aligned_up(value.length as int, PAGE_SIZE as int);
    if value.length == 0 {
        Ok(ReadPlan::Empty)
    } else if padded > u32::MAX {
        Err(Error::Format(FormatFault::ValueTooLong))
    } else {
        Ok(ReadPlan::Read(Window { offset: value.offset, len: padded as u32, start: 0, take: value.length }))
    }
}

/// The aligned part of the file around a range of a value: where it starts and where it ends.
pub open spec fn range_window(value: ValueRef, range: RangeRequestU32) -> (int, int) {
    (
        layout::aligned_down(value.offset + range.start, PAGE_SIZE as int),
        layout::aligned_up(value.offset + range.start + range.len, PAGE_SIZE as int),
    )
}

/// How a read of a part of a value is answered.
pub open spec fn get_range_plan(value: ValueRef, range: RangeRequestU32) -> Result<ReadPlan, Error> {
    let (start, end) = range_window(value, range);
    if range.start + range.len > value.length {
        Err(Error::RangeOutOfBounds)
    } else if range.len == 0 {
        Ok(ReadPlan::Empty)
    } else if end > u64::MAX || end - start > u32::MAX {
        Err(Error::RangeOutOfBounds)
    } else {
        Ok(
            ReadPlan::Read(
                Window {
                    offset: start as u64,
                    len: (end - start) as u32,
                    start: (value.offset + range.start - start) as u32,
                    take: range.len,
                },
            ),
        )
    }
}

/// What starting a `put` does: a value that is not empty is written first.
pub open spec fn put_started(before: T4Store, after: T4Store, key: Seq<u8>, value: Seq<u8>, step: PutStep) -> bool {
    &&& after.index == before.index
    &&& step matches PutStep::Write(writes, pending) && {
        &&& pending.key@ == key
        &&& pending.value.length == value.len()
        &&& if value.len() == 0 {
            &&& pending.logged
            &&& pending.value.offset == 0
            &&& wal::appended(before.wal, after.wal, key, Some(pending.value), writes@)
        } else {
            &&& !pending.logged
            &&& writes@.len() == 1
            &&& wal::placed(before.wal, after.wal, value, pending.value, Some(writes@[0]))
        }
    }
}

/// What a `put` does once a write is done: the entry of the log follows the value, and the index
/// follows the entry.
pub open spec fn put_continued(before: T4Store, after: T4Store, pending: PendingPut, step: PutStep) -> bool {
    if pending.logged {
        &&& step is Done
        &&& after.wal == before.wal
        &&& after.index@ == before.index@.insert(pending.key@, pending.value)
    } else {
        &&& after.index == before.index
        &&& step matches PutStep::Write(writes, next) && {
            &&& next.key@ == pending.key@
            &&& next.value == pending.value
            &&& next.logged
            &&& wal::appended(before.wal, after.wal, pending.key@, Some(pending.value), writes@)
        }
    }
}

impl T4Store {
    pub open spec fn wf(self) -> bool {
        self.wal.wf() && self.index.wf()
    }

    /// Starts to open the store of a file of `len` bytes.
    pub fn mount_with_options(options: &MountOptions, len: u64) -> (step: Result<MountStep, Error>)
        ensures
            match step {
                Ok(MountStep::Create(write, store)) => {
                    &&& options.queue_depth > 0
                    &&& len == 0
                    &&& created(store, write)
                },
                Ok(MountStep::Replay(replay)) => {
                    &&& options.queue_depth > 0
                    &&& len >= PAGE_SIZE
                    &&& replay.wf()
                    &&& replay.state@ == ReplayModel::init()
                    &&& replay.offset == 0
                    &&& replay.file_len == len
                    &&& replay.chain@ == Seq::<u64>::empty()
                },
                Err(err) => if options.queue_depth == 0 {
                    err == Error::InvalidArgument(ArgumentFault::ZeroQueueDepth)
                } else {
                    0 < len < PAGE_SIZE && err == Error::Format(FormatFault::ShortFile)
                },
            },
    {
        if options.queue_depth == 0 {
            return Err(Error::InvalidArgument(ArgumentFault::ZeroQueueDepth));
        }
        Self::open_wal_and_index(len)
    }

    /// A new log for an empty file, the log that is there for any other.
    pub fn open_wal_and_index(len: u64) -> (step: Result<MountStep, Error>)
        ensures
            match step {
                Ok(MountStep::Create(write, store)) => len == 0 && created(store, write),
                Ok(MountStep::Replay(replay)) => {
                    &&& len >= PAGE_SIZE
                    &&& replay.wf()
                    &&& replay.state@ == ReplayModel::init()
                    &&& replay.offset == 0
                    &&& replay.file_len == len
                    &&& replay.chain@ == Seq::<u64>::empty()
                },
                Err(err) => 0 < len < PAGE_SIZE && err == Error::Format(FormatFault::ShortFile),
            },
    {
        if len == 0 {
            match Wal::create() {
                Ok((wal, write)) => Ok(MountStep::Create(write, T4Store { wal, index: Index::new() })),
                Err(err) => Err(err),
            }
        } else {
            match WalReplay::begin(len) {
                Ok(replay) => Ok(MountStep::Replay(replay)),
                Err(err) => Err(err),
            }
        }
    }

    /// Starts to set the value of a key.
    pub fn put(&mut self, key: T4Key, value: &T4Value) -> (step: Result<PutStep, Error>)
        requires
            old(self).wf(),
        ensures
            final(self).wf(),
            match step {
                Ok(step) => {
                    &&& wal::place_fault(old(self).wal, value@) is None
                    &&& value@.len() == 0 ==> wal::append_fault(old(self).wal, key@) is None
                    &&& put_started(*old(self), *final(self), key@, value@, step)
                },
                Err(err) => {
                    &&& *final(self) == *old(self)
                    &&& if value@.len() == 0 {
                        wal::append_fault(old(self).wal, key@) matches Some(fault) && err == Error::Format(fault)
                    } else {
                        wal::place_fault(old(self).wal, value@) == Some(err)
                    }
                },
            },
    {
        match self.wal.put(value) {
            Err(err) => Err(err),
            Ok((value_ref, Some(write))) => {
                let mut writes: Vec<PageWrite> = Vec::new();
                writes.push(write);
                Ok(PutStep::Write(writes, PendingPut { key, value: value_ref, logged: false }))
            },
            Ok((value_ref, None)) => self.put_append(PendingPut { key, value: value_ref, logged: false }),
        }
    }

    /// Appends the entry of a `put` to the log.
    fn put_append(&mut self, pending: PendingPut) -> (step: Result<PutStep, Error>)
        requires
            old(self).wf(),
            !pending.logged,
        ensures
            final(self).wf(),
            match step {
                Ok(step) => {
                    &&& wal::append_fault(old(self).wal, pending.key@) is None
                    &&& put_continued(*old(self), *final(self), pending, step)
                },
                Err(err) => {
                    &&& wal::append_fault(old(self).wal, pending.key@) matches Some(fault) && err == Error::Format(fault)
                    &&& *final(self) == *old(self)
                },
            },
    {
        let entry = AppendEntry::Live {
            key: pending.key.duplicate(),
            offset: pending.value.offset,
            length: pending.value.length,
        };
        match self.wal.append_entry(entry) {
            Ok(writes) => Ok(
                PutStep::Write(writes, PendingPut { key: pending.key, value: pending.value, logged: true }),
            ),
            Err(err) => Err(err),
        }
    }

    /// Goes on with a `put` whose write is done.
    pub fn put_written(&mut self, pending: PendingPut) -> (step: Result<PutStep, Error>)
        requires
            old(self).wf(),
            old(self).index@.dom().len() < usize::MAX,
        ensures
            final(self).wf(),
            match step {
                Ok(step) => {
                    &&& pending.logged || wal::append_fault(old(self).wal, pending.key@) is None
                    &&& put_continued(*old(self), *final(self), pending, step)
                },
                Err(err) => {
                    &&& !pending.logged
                    &&& wal::append_fault(old(self).wal, pending.key@) matches Some(fault) && err == Error::Format(fault)
                    &&& *final(self) == *old(self)
                },
            },
    {
        if pending.logged {
            self.index.insert(pending.key, pending.value);
            Ok(PutStep::Done)
        } else {
            self.put_append(pending)
        }
    }

    /// How to read the value of a key.
    pub fn get(&self, key: &T4KeyRef) -> (plan: Result<ReadPlan, Error>)
        requires
            self.wf(),
        ensures
            plan == (if self.index@.dom().contains(key@) {
                get_plan(self.index@[key@])
            } else {
                Err(Error::NotFound)
            }),
            plan matches Ok(ReadPlan::Read(window)) ==> window.wf(),
    {
        let value: ValueRef = match self.index.get(key.as_bytes()) {
            Some(value) => value,
            None => {
                return Err(Error::NotFound);
            },
        };
        if value.length == 0 {
            return Ok(ReadPlan::Empty);
        }
        proof {
            layout::lemma_aligned_up(value.length as int, PAGE_SIZE as int);
        }
        match align_up_u32(value.length, PAGE_SIZE_U32) {
            Some(padded) => Ok(
                ReadPlan::Read(Window { offset: value.offset, len: padded, start: 0, take: value.length }),
            ),
            None => Err(Error::Format(FormatFault::ValueTooLong)),
        }
    }

    /// How to read a part of the value of a key.
    pub fn get_range(&self, key: &T4KeyRef, range: RangeRequestU32) -> (plan: Result<ReadPlan, Error>)
        requires
            self.wf(),
        ensures
            plan == (if self.index@.dom().contains(key@) {
                get_range_plan(self.index@[key@], range)
            } else {
                Err(Error::NotFound)
            }),
            plan matches Ok(ReadPlan::Read(window)) ==> window.wf(),
    {
        let value: ValueRef = match self.index.get(key.as_bytes()) {
            Some(value) => value,
            None => {
                return Err(Error::NotFound);
            },
        };
        let checked: CheckedRangeU32 = match range.checked_against(value.length) {
            Some(checked) => checked,
            None => {
                return Err(Error::RangeOutOfBounds);
            },
        };
        if checked.is_empty() {
            return Ok(ReadPlan::Empty);
        }
        proof {
            layout::lemma_aligned_up(value.offset + range.start, PAGE_SIZE as int);
            layout::lemma_aligned_up(value.offset + range.start + range.len, PAGE_SIZE as int);
        }
        let abs_start: u64 = match value.offset.checked_add(checked.start() as u64) {
            Some(abs_start) => abs_start,
            None => {
                return Err(Error::RangeOutOfBounds);
            },
        };
        let abs_end: u64 = match value.offset.checked_add(checked.end() as u64) {
            Some(abs_end) => abs_end,
            None => {
                return Err(Error::RangeOutOfBounds);
            },
        };
        let aligned_start: u64 = align_down_u64(abs_start, PAGE_SIZE_U64);
        let aligned_end: u64 = match align_up_u64(abs_end, PAGE_SIZE_U64) {
            Some(aligned_end) => aligned_end,
            None => {
                return Err(Error::RangeOutOfBounds);
            },
        };
        let read_len: u64 = aligned_end - aligned_start;
        if read_len > u32::MAX as u64 {
            return Err(Error::RangeOutOfBounds);
        }
        let slice_start: u64 = abs_start - aligned_start;
        Ok(
            ReadPlan::Read(
                Window { offset: aligned_start, len: read_len as u32, start: slice_start as u32, take: checked.len() },
            ),
        )
    }

    /// Starts to forget a key, whether it is there or not. The writes have to be done in order.
    pub fn remove(&mut self, key: &T4Key) -> (writes: Result<Vec<PageWrite>, Error>)
        requires
            old(self).wf(),
        ensures
            final(self).wf(),
            final(self).index == old(self).index,
            match writes {
                Ok(writes) => {
                    &&& wal::append_fault(old(self).wal, key@) is None
                    &&& wal::appended(old(self).wal, final(self).wal, key@, None, writes@)
                },
                Err(err) => {
                    &&& wal::append_fault(old(self).wal, key@) matches Some(fault) && err == Error::Format(fault)
                    &&& *final(self) == *old(self)
                },
            },
    {
        self.wal.tombstone(key.duplicate())
    }

    /// Forgets a key whose tombstone is written, and says whether it was there.
    pub fn remove_written(&mut self, key: &T4Key) -> (existed: bool)
        requires
            old(self).wf(),
        ensures
            final(self).wf(),
            final(self).wal == old(self).wal,
            final(self).index@ == old(self).index@.remove(key@),
            existed == old(self).index@.dom().contains(key@),
    {
        self.index.remove(key.as_bytes())
    }

    pub fn len(&self) -> (len: usize)
        requires
            self.wf(),
        ensures
            len == self.index@.dom().len(),
    {
        self.index.len()
    }

    pub fn is_empty(&self) -> (empty: bool)
        requires
            self.wf(),
        ensures
            empty == (self.index@ == Map::<Seq<u8>, ValueRef>::empty()),
    {
        self.index.is_empty()
    }
}

/// A new store, and the write that makes its file one.
pub open spec fn created(store: T4Store, write: PageWrite) -> bool {
    &&& store.wf()
    &&& store.index@ == Map::<Seq<u8>, ValueRef>::empty()
    &&& store.wal.file_tail == PAGE_SIZE
    &&& store.wal.tail_offset == 0
    &&& store.wal.next_lsn == 0
    &&& store.wal.chain@ == seq![0u64]
    &&& store.wal.tail@ == (PageModel { next_page: 0, entries: Seq::empty() })
    &&& store.wal.tail.raw() == wal_page::empty_page()
    &&& wal::writes_page(write, 0, store.wal.tail)
}

/// A store, as callers see it: keys and values are bytes, checked here.
pub struct Store {
    pub inner: T4Store,
}

impl Store {
    /// Starts to set the value of a key.
    pub fn put(&mut self, key: Vec<u8>, value: Vec<u8>) -> (step: Result<PutStep, Error>)
        requires
            old(self).inner.wf(),
        ensures
            final(self).inner.wf(),
            match step {
                Ok(step) => {
                    &&& key@.len() <= MAX_KEY_LEN
                    &&& value@.len() <= u32::MAX
                    &&& put_started(old(self).inner, final(self).inner, key@, value@, step)
                },
                Err(err) => {
                    &&& *final(self) == *old(self)
                    &&& err == put_fault(old(self).inner, key@, value@)->0
                },
            },
            step is Err <==> put_fault(old(self).inner, key@, value@) is Some,
    {
        let key: T4Key = match T4Key::try_from_vec(key) {
            Ok(key) => key,
            Err(err) => {
                return Err(err);
            },
        };
        let value: T4Value = match T4Value::try_from_vec(value) {
            Ok(value) => value,
            Err(err) => {
                return Err(err);
            },
        };
        self.inner.put(key, &value)
    }

    /// How to read the value of a key.
    pub fn get(&self, key: &[u8]) -> (plan: Result<ReadPlan, Error>)
        requires
            self.inner.wf(),
        ensures
            plan == (if key@.len() > MAX_KEY_LEN {
                Err(Error::InvalidArgument(ArgumentFault::KeyTooLong))
            } else if self.inner.index@.dom().contains(key@) {
                get_plan(self.inner.index@[key@])
            } else {
                Err(Error::NotFound)
            }),
            plan matches Ok(ReadPlan::Read(window)) ==> window.wf(),
    {
        match T4KeyRef::try_from_slice(key) {
            Ok(key) => self.inner.get(&key),
            Err(err) => Err(err),
        }
    }

    /// How to read a part of the value of a key.
    pub fn get_range(&self, key: &[u8], range_start: u64, range_len: u64) -> (plan: Result<ReadPlan, Error>)
        requires
            self.inner.wf(),
        ensures
            plan == (if key@.len() > MAX_KEY_LEN {
                Err(Error::InvalidArgument(ArgumentFault::KeyTooLong))
            } else if range_start > u32::MAX || range_len > u32::MAX {
                Err(Error::RangeOutOfBounds)
            } else if self.inner.index@.dom().contains(key@) {
                get_range_plan(
                    self.inner.index@[key@],
                    RangeRequestU32 { start: range_start as u32, len: range_len as u32 },
                )
            } else {
                Err(Error::NotFound)
            }),
            plan matches Ok(ReadPlan::Read(window)) ==> window.wf(),
    {
        let key: T4KeyRef = match T4KeyRef::try_from_slice(key) {
            Ok(key) => key,
            Err(err) => {
                return Err(err);
            },
        };
        match RangeRequestU32::from_u64(range_start, range_len) {
            Some(range) => self.inner.get_range(&key, range),
            None => Err(Error::RangeOutOfBounds),
        }
    }

    /// Starts to forget a key.
    pub fn remove(&mut self, key: &[u8]) -> (started: Result<(T4Key, Vec<PageWrite>), Error>)
        requires
            old(self).inner.wf(),
        ensures
            final(self).inner.wf(),
            final(self).inner.index == old(self).inner.index,
            match started {
                Ok((owned, writes)) => {
                    &&& key@.len() <= MAX_KEY_LEN
                    &&& owned@ == key@
                    &&& wal::append_fault(old(self).inner.wal, key@) is None
                    &&& wal::appended(old(self).inner.wal, final(self).inner.wal, key@, None, writes@)
                },
                Err(err) => {
                    &&& *final(self) == *old(self)
                    &&& if key@.len() > MAX_KEY_LEN {
                        err == Error::InvalidArgument(ArgumentFault::KeyTooLong)
                    } else {
                        wal::append_fault(old(self).inner.wal, key@) matches Some(fault) && err == Error::Format(fault)
                    }
                },
            },
    {
        let key: T4Key = match T4Key::try_from_slice(key) {
            Ok(key) => key,
            Err(err) => {
                return Err(err);
            },
        };
        match self.inner.remove(&key) {
            Ok(writes) => Ok((key, writes)),
            Err(err) => Err(err),
        }
    }

    pub fn len(&self) -> (len: usize)
        requires
            self.inner.wf(),
        ensures
            len == self.inner.index@.dom().len(),
    {
        self.inner.len()
    }

    pub fn is_empty(&self) -> (empty: bool)
        requires
            self.inner.wf(),
        ensures
            empty == (self.inner.index@ == Map::<Seq<u8>, ValueRef>::empty()),
    {
        self.inner.is_empty()
    }
}

/// Why a `put` cannot start, if it cannot.
pub open spec fn put_fault(store: T4Store, key: Seq<u8>, value: Seq<u8>) -> Option<Error> {
    if key.len() > MAX_KEY_LEN {
        Some(Error::InvalidArgument(ArgumentFault::KeyTooLong))
    } else if value.len() > u32::MAX {
        Some(Error::InvalidArgument(ArgumentFault::ValueTooLong))
    } else if value.len() == 0 {
        match wal::append_fault(store.wal, key) {
            Some(fault) => Some(Error::Format(fault)),
            None => None,
        }
    } else {
        wal::place_fault(store.wal, value)
    }
}

} // verus!
