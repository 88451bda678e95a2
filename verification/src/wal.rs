//! The log: where entries and values go in the store file.
//!
//! The log owns the end of the file. Values and new pages of the log are placed there, so nothing that
//! was written before is touched again but the last page of the log.

use crate::buffer;
use crate::buffer::{AlignedBuf, ReadBuf};
use crate::error::{ArgumentFault, Error, FormatFault};
use crate::index::Index;
use crate::input_kv::{T4Key, T4Value, ValueRef};
use crate::io_task::PageWrite;
use crate::layout;
use crate::layout::{allocate_next_lsn, reserve_space};
use crate::wal_page;
use crate::wal_page::{AppendEntry, LogEntry, PageModel, WalPage, ENTRY_HEADER_SIZE, HEADER_SIZE};
use crate::wal_replay::{ReplayModel, ReplayState};
use crate::{PAGE_SIZE, PAGE_SIZE_U32, PAGE_SIZE_U64};
use vstd::prelude::*;

verus! {

/// The end of the file, the last page of the log, and the next sequence number.
pub struct Wal {
    pub file_tail: u64,
    pub tail: WalPage,
    pub tail_offset: u64,
    pub next_lsn: u64,
    /// Where the pages of the log lie, in order.
    pub chain: Ghost<Seq<u64>>,
}

/// `write` puts the bytes of a page at `offset`.
pub open spec fn writes_page(write: PageWrite, offset: u64, page: WalPage) -> bool {
    write.offset == offset && write.buf@ == page.raw()
}

/// The entry fits on the page.
pub open spec fn fits(page: PageModel, key: Seq<u8>) -> bool {
    HEADER_SIZE + wal_page::total_size(page.entries) + wal_page::entry_size(key) <= PAGE_SIZE
}

/// What appending an entry does: the last page takes it in, or links to a new page that does.
pub open spec fn appended(
    before: Wal,
    after: Wal,
    key: Seq<u8>,
    value: Option<ValueRef>,
    writes: Seq<PageWrite>,
) -> bool {
    let entry = LogEntry { key, value, lsn: before.next_lsn };
    &&& after.wf()
    &&& after.next_lsn == before.next_lsn + 1
    &&& if fits(before.tail@, key) {
        &&& after.file_tail == before.file_tail
        &&& after.tail_offset == before.tail_offset
        &&& after.chain == before.chain
        &&& after.tail@ == (PageModel { entries: before.tail@.entries.push(entry), ..before.tail@ })
        &&& after.tail.raw() == wal_page::with_entry(before.tail.raw(), before.tail@.entries, entry)
        &&& writes.len() == 1
        &&& writes_page(writes[0], before.tail_offset, after.tail)
    } else {
        &&& after.file_tail == before.file_tail + PAGE_SIZE
        &&& after.tail_offset == before.file_tail
        &&& after.chain@ == before.chain@.push(before.file_tail)
        &&& after.tail@ == (PageModel { next_page: 0, entries: seq![entry] })
        &&& after.tail.raw() == wal_page::with_entry(wal_page::empty_page(), Seq::empty(), entry)
        &&& writes.len() == 2
        &&& writes[0].offset == before.tail_offset
        &&& writes[0].buf@ == wal_page::with_next_page(before.tail.raw(), before.file_tail)
        &&& writes[0].buf@.len() == PAGE_SIZE
        &&& wal_page::page_model(writes[0].buf@) == Some(
            PageModel { next_page: before.file_tail, ..before.tail@ },
        )
        &&& writes_page(writes[1], before.file_tail, after.tail)
    }
}

/// Why an entry cannot be appended, if it cannot.
pub open spec fn append_fault(wal: Wal, key: Seq<u8>) -> Option<FormatFault> {
    if wal.next_lsn == u64::MAX {
        Some(FormatFault::LsnOverflow)
    } else if !fits(wal.tail@, key) && wal.file_tail + PAGE_SIZE > u64::MAX {
        Some(FormatFault::FileTailOverflow)
    } else {
        None
    }
}

/// What placing a value does: a value that is not empty goes to the end of the file.
pub open spec fn placed(before: Wal, after: Wal, value: Seq<u8>, at: ValueRef, write: Option<PageWrite>) -> bool {
    &&& after == (Wal { file_tail: after.file_tail, ..before })
    &&& at.length == value.len()
    &&& if value.len() == 0 {
        at.offset == 0 && write is None && after.file_tail == before.file_tail
    } else {
        &&& at.offset == before.file_tail
        &&& after.file_tail == before.file_tail + layout::aligned_up(value.len() as int, PAGE_SIZE as int)
        &&& write matches Some(write) && write.offset == before.file_tail && write.buf@ == buffer::padded(value)
    }
}

/// Why a value cannot be placed, if it cannot.
pub open spec fn place_fault(wal: Wal, value: Seq<u8>) -> Option<Error> {
    let padded = layout::aligned_up(value.len() as int, PAGE_SIZE as int);
    if value.len() == 0 {
        None
    } else if padded > u32::MAX {
        Some(Error::InvalidArgument(ArgumentFault::AlignOverflow))
    } else if !buffer::can_lay_out(padded) {
        Some(Error::InvalidArgument(ArgumentFault::BufferLayout))
    } else if wal.file_tail + padded > u64::MAX {
        Some(Error::Format(FormatFault::FileTailOverflow))
    } else {
        None
    }
}

impl Wal {
    pub open spec fn wf(self) -> bool {
        &&& self.tail.wf()
        &&& self.chain@.len() > 0
        &&& self.chain@.last() == self.tail_offset
    }

    /// The log of a new store, and the write that makes it one: an empty page at the start of the file.
    pub fn create() -> (created: Result<(Wal, PageWrite), Error>)
        ensures
            created is Ok,
            ({
                let (wal, write) = created->Ok_0;
                &&& wal.wf()
                &&& wal.file_tail == PAGE_SIZE
                &&& wal.tail_offset == 0
                &&& wal.next_lsn == 0
                &&& wal.chain@ == seq![0u64]
                &&& wal.tail@ == (PageModel { next_page: 0, entries: Seq::empty() })
                &&& wal.tail.raw() == wal_page::empty_page()
                &&& writes_page(write, 0, wal.tail)
            }),
    {
        let page: WalPage = WalPage::empty();
        let ghost chain = seq![0u64];
        match Self::encode_page_write(0, &page) {
            Ok(write) => Ok(
                (
                    Wal {
                        file_tail: PAGE_SIZE_U64,
                        tail: page,
                        tail_offset: 0,
                        next_lsn: 0,
                        chain: Ghost(chain),
                    },
                    write,
                ),
            ),
            Err(err) => Err(err),
        }
    }

    /// Places a value: says where it will lie, and what has to be written there.
    pub fn put(&mut self, value: &T4Value) -> (placed: Result<(ValueRef, Option<PageWrite>), Error>)
        requires
            old(self).wf(),
        ensures
            final(self).wf(),
            match placed {
                Ok((at, write)) => {
                    &&& place_fault(*old(self), value@) is None
                    &&& self::placed(*old(self), *final(self), value@, at, write)
                },
                Err(err) => place_fault(*old(self), value@) == Some(err) && *final(self) == *old(self),
            },
    {
        let value_len: u32 = value.len_u32();
        if value_len == 0 {
            return Ok((ValueRef { offset: 0, length: 0 }, None));
        }
        proof {
            layout::lemma_aligned_up(value@.len() as int, PAGE_SIZE as int);
        }
        let buf: AlignedBuf = match AlignedBuf::from_padded_slice(value.as_bytes()) {
            Ok(buf) => buf,
            Err(err) => {
                return Err(err);
            },
        };
        match self.reserve_value_space(buf.len_u32()) {
            Ok(value_offset) => Ok(
                (
                    ValueRef { offset: value_offset, length: value_len },
                    Some(PageWrite { buf, offset: value_offset }),
                ),
            ),
            Err(err) => Err(err),
        }
    }

    /// Records that a key has no value any more. The writes have to be done in order.
    pub fn tombstone(&mut self, key: T4Key) -> (writes: Result<Vec<PageWrite>, Error>)
        requires
            old(self).wf(),
        ensures
            match writes {
                Ok(writes) => {
                    &&& append_fault(*old(self), key@) is None
                    &&& appended(*old(self), *final(self), key@, None, writes@)
                },
                Err(err) => append_fault(*old(self), key@) is Some && err == Error::Format(
                    append_fault(*old(self), key@)->0,
                ) && *final(self) == *old(self),
            },
    {
        self.append_entry(AppendEntry::Tombstone { key })
    }

    pub fn reserve_value_space(&mut self, padded_len: u32) -> (offset: Result<u64, Error>)
        ensures
            match offset {
                Ok(offset) => {
                    &&& old(self).file_tail + padded_len <= u64::MAX
                    &&& offset == old(self).file_tail
                    &&& *final(self) == (Wal { file_tail: (old(self).file_tail + padded_len) as u64, ..*old(self) })
                },
                Err(err) => {
                    &&& old(self).file_tail + padded_len > u64::MAX
                    &&& err == Error::Format(FormatFault::FileTailOverflow)
                    &&& *final(self) == *old(self)
                },
            },
    {
        match reserve_space(self.file_tail, padded_len) {
            Some(reservation) => {
                self.file_tail = reservation.next_tail;
                Ok(reservation.offset)
            },
            None => Err(Error::Format(FormatFault::FileTailOverflow)),
        }
    }

    /// Appends an entry, on a new page where the last one is full. The writes have to be done in order.
    pub fn append_entry(&mut self, pending: AppendEntry) -> (writes: Result<Vec<PageWrite>, Error>)
        requires
            old(self).wf(),
        ensures
            match writes {
                Ok(writes) => {
                    &&& append_fault(*old(self), pending.key()) is None
                    &&& appended(*old(self), *final(self), pending.key(), pending.value(), writes@)
                },
                Err(err) => append_fault(*old(self), pending.key()) is Some && err == Error::Format(
                    append_fault(*old(self), pending.key())->0,
                ) && *final(self) == *old(self),
            },
    {
        let lsn: u64 = self.next_lsn;
        let next_lsn: u64 = match allocate_next_lsn(lsn) {
            Some(next_lsn) => next_lsn,
            None => {
                return Err(Error::Format(FormatFault::LsnOverflow));
            },
        };
        let mut writes: Vec<PageWrite> = Vec::new();
        if self.tail.can_fit(&pending) {
            let _done: Result<(), Error> = self.tail.append(&pending, lsn);
            match Self::encode_page_write(self.tail_offset, &self.tail) {
                Ok(write) => {
                    writes.push(write);
                },
                Err(err) => {
                    return Err(err);
                },
            }
        } else {
            let new_page_offset: u64 = match self.reserve_value_space(PAGE_SIZE_U32) {
                Ok(new_page_offset) => new_page_offset,
                Err(err) => {
                    return Err(err);
                },
            };
            let old_tail_offset: u64 = self.tail_offset;
            self.tail.set_next_page(new_page_offset);
            proof {
                self.tail.lemma_raw();
            }
            match Self::encode_page_write(old_tail_offset, &self.tail) {
                Ok(write) => {
                    writes.push(write);
                },
                Err(err) => {
                    return Err(err);
                },
            }
            let mut new_page: WalPage = WalPage::empty();
            proof {
                assert(new_page@.entries.len() == 0);
                assert(wal_page::total_size(new_page@.entries) == 0);
            }
            let key_len: usize = match &pending {
                AppendEntry::Live { key, .. } => key.as_bytes().len(),
                AppendEntry::Tombstone { key } => key.as_bytes().len(),
            };
            assert(key_len == pending.key().len());
            let _done: Result<(), Error> = new_page.append(&pending, lsn);
            match Self::encode_page_write(new_page_offset, &new_page) {
                Ok(write) => {
                    writes.push(write);
                },
                Err(err) => {
                    return Err(err);
                },
            }
            self.tail_offset = new_page_offset;
            self.tail = new_page;
            self.chain = Ghost(self.chain@.push(new_page_offset));
            assert(self.tail@.entries =~= seq![pending.logged(lsn)]);
        }
        self.next_lsn = next_lsn;
        Ok(writes)
    }

    /// The write that puts a page of the log at an offset.
    fn encode_page_write(offset: u64, page: &WalPage) -> (write: Result<PageWrite, Error>)
        requires
            page.wf(),
        ensures
            write is Ok,
            writes_page(write->Ok_0, offset, *page),
    {
        proof {
            page.lemma_raw();
        }
        match AlignedBuf::new_zeroed(PAGE_SIZE_U32) {
            Ok(mut buf) => {
                buf.copy_from_slice(page.as_slice());
                Ok(PageWrite { buf, offset })
            },
            Err(err) => Err(err),
        }
    }

    /// The page of the log that was read into a buffer.
    pub fn read_page(buf: ReadBuf) -> (page: Result<WalPage, Error>)
        requires
            buf.wf(),
        ensures
            match page {
                Ok(page) => {
                    &&& buf@.len() == PAGE_SIZE
                    &&& page.wf()
                    &&& page.raw() == buf@
                    &&& wal_page::page_model(buf@) == Some(page@)
                },
                Err(err) => {
                    &&& buf@.len() != PAGE_SIZE || wal_page::page_model(buf@) is None
                    &&& buf@.len() == PAGE_SIZE ==> err == Error::Format(page_fault(buf@))
                    &&& buf@.len() != PAGE_SIZE ==> err == Error::InvalidArgument(
                        if buf is Aligned {
                            ArgumentFault::BufferLayout
                        } else {
                            ArgumentFault::PageBufferSize
                        },
                    )
                },
            },
    {
        match buf.try_into_boxed_page() {
            Ok(boxed) => WalPage::from_bytes(boxed),
            Err(err) => Err(err),
        }
    }
}

/// What is wrong with a page that is none of the log.
pub open spec fn page_fault(bytes: Seq<u8>) -> FormatFault {
    if !wal_page::magic_ok(bytes) {
        FormatFault::BadMagic
    } else if !wal_page::version_ok(bytes) {
        FormatFault::BadVersion
    } else {
        FormatFault::BadEntry
    }
}

/// A replay that waits for a page of the log.
pub struct WalReplay {
    pub state: ReplayState,
    pub offset: u64,
    pub file_len: u64,
    /// Where the pages lie that were taken in.
    pub chain: Ghost<Seq<u64>>,
}

/// What a replay does next.
pub enum ReplayStep {
    /// Read the page at the offset of the replay, and hand it in.
    ReadPage(WalReplay),
    /// The log is replayed.
    Done(Wal, Index),
}

/// What comes of the page that a replay waits for.
pub enum StepModel {
    ReadPage { state: ReplayModel, offset: u64 },
    Done { state: ReplayModel, next_lsn: u64, file_tail: u64 },
    Failed(FormatFault),
}

/// What comes of a page, in a replay of a file of `file_len` bytes that has come so far.
pub open spec fn replay_step(state: ReplayModel, page: PageModel, file_len: u64) -> StepModel {
    let after = state.after(page);
    let file_tail = layout::aligned_up(file_len as int, PAGE_SIZE_U64 as int);
    if !state.at_start && page.entries.len() == 0 {
        StepModel::Failed(FormatFault::EmptyPage)
    } else if !state.accepts(page) {
        StepModel::Failed(FormatFault::LsnOrder)
    } else if page.next_page != 0 {
        StepModel::ReadPage { state: after, offset: page.next_page }
    } else if file_tail > u64::MAX || after.last_lsn == u64::MAX {
        StepModel::Failed(FormatFault::ReplayOverflow)
    } else {
        StepModel::Done { state: after, next_lsn: (after.last_lsn + 1) as u64, file_tail: file_tail as u64 }
    }
}

/// What taking in a page does.
pub open spec fn stepped(replay: WalReplay, page: WalPage, step: Result<ReplayStep, Error>) -> bool {
    let model = replay_step(replay.state@, page@, replay.file_len);
    match step {
        Ok(ReplayStep::ReadPage(next)) => {
            &&& next.wf()
            &&& model == (StepModel::ReadPage { state: next.state@, offset: next.offset })
            &&& next.file_len == replay.file_len
            &&& next.chain@ == replay.chain@.push(replay.offset)
        },
        Ok(ReplayStep::Done(wal, index)) => {
            &&& wal.wf()
            &&& index.wf()
            &&& model == (StepModel::Done {
                state: replay.state@.after(page@),
                next_lsn: wal.next_lsn,
                file_tail: wal.file_tail,
            })
            &&& index@ == replay.state@.after(page@).index
            &&& wal.tail == page
            &&& wal.tail_offset == replay.offset
            &&& wal.chain@ == replay.chain@.push(replay.offset)
        },
        Err(err) => model matches StepModel::Failed(fault) && err == Error::Format(fault),
    }
}

impl WalReplay {
    pub open spec fn wf(self) -> bool {
        self.state.wf()
    }

    /// Starts to replay the log of a file of `file_len` bytes, at the page at the start of the file.
    pub fn begin(file_len: u64) -> (replay: Result<WalReplay, Error>)
        ensures
            match replay {
                Ok(replay) => {
                    &&& file_len >= PAGE_SIZE
                    &&& replay.wf()
                    &&& replay.state@ == ReplayModel::init()
                    &&& replay.offset == 0
                    &&& replay.file_len == file_len
                    &&& replay.chain@ == Seq::<u64>::empty()
                },
                Err(err) => file_len < PAGE_SIZE && err == Error::Format(FormatFault::ShortFile),
            },
    {
        if file_len < PAGE_SIZE_U64 {
            return Err(Error::Format(FormatFault::ShortFile));
        }
        Ok(WalReplay { state: ReplayState::init(), offset: 0, file_len, chain: Ghost(Seq::empty()) })
    }

    /// Takes in the page at the offset of the replay.
    pub fn on_page(self, page: WalPage) -> (step: Result<ReplayStep, Error>)
        requires
            self.wf(),
            page.wf(),
            self.state@.index.dom().len() + PAGE_SIZE <= usize::MAX,
        ensures
            stepped(self, page, step),
    {
        proof {
            page.lemma_raw();
            lemma_entry_count(page@.entries);
        }
        let (state, next_page): (ReplayState, Option<u64>) = match self.state.process_page(&page) {
            Ok(next) => next,
            Err(err) => {
                return Err(err);
            },
        };
        let ghost chain = self.chain@.push(self.offset);
        match next_page {
            Some(offset) => Ok(
                ReplayStep::ReadPage(WalReplay { state, offset, file_len: self.file_len, chain: Ghost(chain) }),
            ),
            None => match state.finalize(self.file_len) {
                Ok((file_tail, next_lsn, index)) => {
                    let wal = Wal {
                        file_tail,
                        tail: page,
                        tail_offset: self.offset,
                        next_lsn,
                        chain: Ghost(chain),
                    };
                    Ok(ReplayStep::Done(wal, index))
                },
                Err(err) => Err(err),
            },
        }
    }
}

/// A page does not hold more entries than bytes.
proof fn lemma_entry_count(entries: Seq<LogEntry>)
    ensures
        wal_page::total_size(entries) >= entries.len() * ENTRY_HEADER_SIZE,
    decreases entries.len(),
{
    if entries.len() > 0 {
        lemma_entry_count(entries.skip(1));
    }
}

} // verus!
