//! Replaying the log: what it records, page after page.

use crate::error::{Error, FormatFault};
use crate::index::Index;
use crate::input_kv::ValueRef;
use crate::layout;
use crate::layout::{align_up_u64, allocate_next_lsn};
use crate::wal_page::{LogEntry, PageModel, WalEntry, WalPage};
use crate::PAGE_SIZE_U64;
use vstd::prelude::*;

verus! {

/// The index after an entry of the log.
pub open spec fn applied(index: Map<Seq<u8>, ValueRef>, entry: LogEntry) -> Map<Seq<u8>, ValueRef> {
    match entry.value {
        Some(value) => index.insert(entry.key, value),
        None => index.remove(entry.key),
    }
}

/// The index after some entries of the log, in order.
pub open spec fn applied_all(index: Map<Seq<u8>, ValueRef>, entries: Seq<LogEntry>) -> Map<Seq<u8>, ValueRef>
    decreases entries.len(),
{
    if entries.len() == 0 {
        index
    } else {
        applied(applied_all(index, entries.drop_last()), entries.last())
    }
}

/// The last sequence number among `last` and the entries; -1 stands for none.
pub open spec fn last_lsn(last: int, entries: Seq<LogEntry>) -> int {
    if entries.len() == 0 {
        last
    } else {
        entries.last().lsn as int
    }
}

/// Sequence numbers increase, from above `last` on.
pub open spec fn ordered(last: int, entries: Seq<LogEntry>) -> bool
    decreases entries.len(),
{
    if entries.len() == 0 {
        true
    } else {
        ordered(last, entries.drop_last()) && last_lsn(last, entries.drop_last()) < entries.last().lsn
    }
}

/// What was learnt from the log so far.
#[verifier::ext_equal]
pub struct ReplayModel {
    pub index: Map<Seq<u8>, ValueRef>,
    /// -1 where there was no entry yet.
    pub last_lsn: int,
    /// No page was seen yet.
    pub at_start: bool,
}

impl ReplayModel {
    pub open spec fn init() -> ReplayModel {
        ReplayModel { index: Map::empty(), last_lsn: -1, at_start: true }
    }

    /// A page can follow: its sequence numbers go on increasing, and only the first page may be empty.
    pub open spec fn accepts(self, page: PageModel) -> bool {
        (self.at_start || page.entries.len() > 0) && ordered(self.last_lsn, page.entries)
    }

    pub open spec fn after(self, page: PageModel) -> ReplayModel {
        ReplayModel {
            index: applied_all(self.index, page.entries),
            last_lsn: last_lsn(self.last_lsn, page.entries),
            at_start: false,
        }
    }
}

/// What was learnt from the log so far.
#[derive(Debug)]
pub struct ReplayState {
    index: Index,
    latest: Option<u64>,
    at_start: bool,
}

impl View for ReplayState {
    type V = ReplayModel;

    closed spec fn view(&self) -> ReplayModel {
        ReplayModel {
            index: self.index@,
            last_lsn: match self.latest {
                Some(lsn) => lsn as int,
                None => -1,
            },
            at_start: self.at_start,
        }
    }
}

impl ReplayState {
    pub closed spec fn wf(self) -> bool {
        self.index.wf()
    }

    pub fn init() -> (state: ReplayState)
        ensures
            state.wf(),
            state@ == ReplayModel::init(),
    {
        ReplayState { index: Index::new(), latest: None, at_start: true }
    }

    /// How many keys there are so far.
    pub fn len(&self) -> (len: usize)
        requires
            self.wf(),
        ensures
            len == self@.index.dom().len(),
            self@.index.dom().finite(),
    {
        self.index.len()
    }

    /// Takes in the next page of the log, and says where the one after it is.
    pub fn process_page(self, page: &WalPage) -> (next: Result<(ReplayState, Option<u64>), Error>)
        requires
            self.wf(),
            page.wf(),
            self@.index.dom().len() + page@.entries.len() <= usize::MAX,
        ensures
            match next {
                Ok((state, next_page)) => {
                    &&& self@.accepts(page@)
                    &&& state.wf()
                    &&& state@ == self@.after(page@)
                    &&& next_page == (if page@.next_page == 0 {
                        None
                    } else {
                        Some(page@.next_page)
                    })
                },
                Err(err) => {
                    &&& !self@.accepts(page@)
                    &&& err == Error::Format(
                        if !self@.at_start && page@.entries.len() == 0 {
                            FormatFault::EmptyPage
                        } else {
                            FormatFault::LsnOrder
                        },
                    )
                },
            },
    {
        let ghost start = self@;
        let ghost all = page@.entries;
        let mut index: Index = self.index;
        let mut latest: Option<u64> = self.latest;
        let at_start: bool = self.at_start;
        let entries: Vec<WalEntry> = page.entries();
        if !at_start && entries.len() == 0 {
            return Err(Error::Format(FormatFault::EmptyPage));
        }
        assert(all.take(0) =~= Seq::empty());
        let mut i: usize = 0;
        while i < entries.len()
            invariant
                i <= entries@.len() == all.len(),
                forall|k: int| 0 <= k < all.len() ==> (#[trigger] entries@[k])@ == all[k],
                start == self@,
                all == page@.entries,
                at_start == start.at_start,
                at_start || all.len() > 0,
                index.wf(),
                start.index.dom().len() + all.len() <= usize::MAX,
                index@.dom().len() <= start.index.dom().len() + i,
                index@ == applied_all(start.index, all.take(i as int)),
                ordered(start.last_lsn, all.take(i as int)),
                last_lsn(start.last_lsn, all.take(i as int)) == (match latest {
                    Some(lsn) => lsn as int,
                    None => -1,
                }),
            decreases entries@.len() - i,
        {
            let entry: &WalEntry = &entries[i];
            let ghost so_far = all.take(i as int);
            let ghost next = all.take(i + 1);
            proof {
                assert(next.drop_last() =~= so_far);
                assert(next.last() == all[i as int]);
            }
            let follows: bool = match latest {
                Some(lsn) => lsn < entry.lsn,
                None => true,
            };
            if !follows {
                proof {
                    assert(!ordered(start.last_lsn, next));
                    if ordered(start.last_lsn, all) {
                        lemma_ordered_prefix(start.last_lsn, all, i + 1);
                    }
                }
                return Err(Error::Format(FormatFault::LsnOrder));
            }
            latest = Some(entry.lsn);
            let key_bytes: &[u8] = entry.key.as_bytes();
            proof {
                index.lemma_finite();
            }
            match entry.value {
                Some(value) => {
                    index.insert(entry.key.duplicate(), value);
                },
                None => {
                    let _existed: bool = index.remove(key_bytes);
                },
            }
            i = i + 1;
        }
        proof {
            assert(all.take(i as int) =~= all);
        }
        let next_page: u64 = page.next_page();
        let state = ReplayState { index, latest, at_start: false };
        if next_page == 0 {
            Ok((state, None))
        } else {
            Ok((state, Some(next_page)))
        }
    }

    /// What the log says once all its pages are taken in: where the file ends, the next sequence number,
    /// and the index.
    pub fn finalize(self, file_len: u64) -> (end: Result<(u64, u64, Index), Error>)
        requires
            self.wf(),
        ensures
            match end {
                Ok((file_tail, next_lsn, index)) => {
                    &&& file_tail == layout::aligned_up(file_len as int, PAGE_SIZE_U64 as int)
                    &&& next_lsn == self@.last_lsn + 1
                    &&& index.wf()
                    &&& index@ == self@.index
                },
                Err(err) => {
                    &&& err == Error::Format(FormatFault::ReplayOverflow)
                    &&& layout::aligned_up(file_len as int, PAGE_SIZE_U64 as int) > u64::MAX || self@.last_lsn
                        == u64::MAX
                },
            },
    {
        let file_tail: u64 = match align_up_u64(file_len, PAGE_SIZE_U64) {
            Some(file_tail) => file_tail,
            None => {
                return Err(Error::Format(FormatFault::ReplayOverflow));
            },
        };
        let next_lsn: u64 = match self.latest {
            None => 0,
            Some(lsn) => match allocate_next_lsn(lsn) {
                Some(next_lsn) => next_lsn,
                None => {
                    return Err(Error::Format(FormatFault::ReplayOverflow));
                },
            },
        };
        Ok((file_tail, next_lsn, self.index))
    }
}

/// A prefix of increasing sequence numbers is increasing.
pub proof fn lemma_ordered_prefix(last: int, entries: Seq<LogEntry>, n: int)
    requires
        0 <= n <= entries.len(),
        ordered(last, entries),
    ensures
        ordered(last, entries.take(n)),
    decreases entries.len(),
{
    if n < entries.len() {
        assert(entries.take(n) =~= entries.drop_last().take(n));
        lemma_ordered_prefix(last, entries.drop_last(), n);
    } else {
        assert(entries.take(n) =~= entries);
    }
}

} // verus!
