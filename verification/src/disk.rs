//! What the store file holds, and what the operations make of it.
//!
//! The store stands for a map from keys to values. [`holds`] says that a store and the bytes of its
//! file stand for a given map; the laws below say that every operation, once its writes are done,
//! changes the map as it should, that reads answer from it, and that opening the file again gives a
//! store that stands for the same map.

use crate::buffer;
use crate::error::Error;
use crate::input_kv::ValueRef;
use crate::io_task::PageWrite;
use crate::layout;
use crate::layout::RangeRequestU32;
use crate::store;
use crate::store::{PendingPut, PutStep, ReadPlan, T4Store};
use crate::wal;
use crate::wal::{ReplayStep, Wal, WalReplay};
use crate::wal_page;
use crate::wal_page::{LogEntry, PageModel, WalPage};
use crate::wal_replay;
use crate::wal_replay::ReplayModel;
use crate::PAGE_SIZE;
use vstd::prelude::*;

verus! {

/// The file after one write. A write behind the end makes the file longer.
pub open spec fn overwritten(disk: Seq<u8>, offset: int, data: Seq<u8>) -> Seq<u8> {
    let end = offset + data.len();
    Seq::new(
        if disk.len() >= end {
            disk.len()
        } else {
            end as nat
        },
        |i: int| if offset <= i < end {
            data[i - offset]
        } else if i < disk.len() {
            disk[i]
        } else {
            0
        },
    )
}

/// The file after some writes, in order.
pub open spec fn written(disk: Seq<u8>, writes: Seq<PageWrite>) -> Seq<u8>
    decreases writes.len(),
{
    if writes.len() == 0 {
        disk
    } else {
        overwritten(written(disk, writes.drop_last()), writes.last().offset as int, writes.last().buf@)
    }
}

/// The `len` bytes of the file from `offset` on.
pub open spec fn bytes_at(disk: Seq<u8>, offset: int, len: int) -> Seq<u8> {
    disk.subrange(offset, offset + len)
}

/// The page of the log at an offset, if there is one.
pub open spec fn page_on(disk: Seq<u8>, offset: u64) -> Option<PageModel> {
    if offset + PAGE_SIZE <= disk.len() {
        wal_page::page_model(bytes_at(disk, offset as int, PAGE_SIZE as int))
    } else {
        None
    }
}

/// The entries of some pages of the log, in order.
pub open spec fn log_on(disk: Seq<u8>, chain: Seq<u64>) -> Seq<LogEntry>
    decreases chain.len(),
{
    if chain.len() == 0 {
        Seq::empty()
    } else {
        log_on(disk, chain.drop_last()) + page_on(disk, chain.last())->0.entries
    }
}

/// Page `i` of the chain is a page of the log, linked to the next one, and lies inside the file.
pub open spec fn link_ok(disk: Seq<u8>, chain: Seq<u64>, i: int) -> bool {
    &&& page_on(disk, chain[i]) is Some
    &&& page_on(disk, chain[i])->0.next_page == (if i + 1 < chain.len() {
        chain[i + 1]
    } else {
        0
    })
    &&& i > 0 ==> chain[i] != 0 && page_on(disk, chain[i])->0.entries.len() > 0
    &&& layout::page_aligned(chain[i] as int)
    &&& chain[i] + PAGE_SIZE <= disk.len()
}

/// The pages of the chain are those of the log, from the start of the file on.
pub open spec fn linked(disk: Seq<u8>, chain: Seq<u64>) -> bool {
    &&& chain.len() > 0
    &&& chain[0] == 0
    &&& chain.no_duplicates()
    &&& forall|i: int| 0 <= i < chain.len() ==> #[trigger] link_ok(disk, chain, i)
}

/// The file holds the log, and the log has these entries.
pub open spec fn logs(wal: Wal, disk: Seq<u8>, log: Seq<LogEntry>) -> bool {
    &&& wal.wf()
    &&& linked(disk, wal.chain@)
    &&& disk.len() == wal.file_tail
    &&& layout::page_aligned(wal.file_tail as int)
    &&& bytes_at(disk, wal.tail_offset as int, PAGE_SIZE as int) == wal.tail.raw()
    &&& log == log_on(disk, wal.chain@)
    &&& wal_replay::ordered(-1, log)
    &&& wal_replay::last_lsn(-1, log) < wal.next_lsn
}

/// A part of the file has nothing in common with the pages of the log.
pub open spec fn apart(chain: Seq<u64>, offset: int, len: int) -> bool {
    forall|i: int| 0 <= i < chain.len() ==> offset + len <= #[trigger] chain[i] || chain[i] + PAGE_SIZE <= offset
}

/// A value lies in whole pages of the file, apart from the log.
pub open spec fn stored(disk: Seq<u8>, chain: Seq<u64>, at: ValueRef) -> bool {
    let padded = layout::aligned_up(at.length as int, PAGE_SIZE as int);
    at.length > 0 ==> {
        &&& layout::page_aligned(at.offset as int)
        &&& at.offset + padded <= disk.len()
        &&& padded <= u32::MAX
        &&& apart(chain, at.offset as int, padded)
    }
}

/// The bytes of a value.
pub open spec fn value_on(disk: Seq<u8>, at: ValueRef) -> Seq<u8> {
    if at.length == 0 {
        Seq::empty()
    } else {
        bytes_at(disk, at.offset as int, at.length as int)
    }
}

/// The places in an index are those of the values of a map.
pub open spec fn indexes(
    disk: Seq<u8>,
    chain: Seq<u64>,
    index: Map<Seq<u8>, ValueRef>,
    map: Map<Seq<u8>, Seq<u8>>,
) -> bool {
    &&& map.dom() == index.dom()
    &&& forall|key: Seq<u8>| #[trigger] index.dom().contains(key) ==> stored(disk, chain, index[key]) && map[key]
        == value_on(disk, index[key])
}

/// The store and its file stand for this map.
pub open spec fn holds(store: T4Store, disk: Seq<u8>, map: Map<Seq<u8>, Seq<u8>>) -> bool {
    &&& store.wf()
    &&& logs(store.wal, disk, log_on(disk, store.wal.chain@))
    &&& store.index@ == wal_replay::applied_all(Map::empty(), log_on(disk, store.wal.chain@))
    &&& indexes(disk, store.wal.chain@, store.index@, map)
}

/// Bytes that a write does not touch stay as they are.
proof fn lemma_untouched(disk: Seq<u8>, offset: int, data: Seq<u8>, at: int, len: int)
    requires
        0 <= offset,
        0 <= at,
        0 <= len,
        at + len <= disk.len(),
        at + len <= offset || offset + data.len() <= at,
    ensures
        bytes_at(overwritten(disk, offset, data), at, len) == bytes_at(disk, at, len),
{
    assert(bytes_at(overwritten(disk, offset, data), at, len) =~= bytes_at(disk, at, len));
}

/// What was written can be read.
proof fn lemma_read_back(disk: Seq<u8>, offset: int, data: Seq<u8>)
    requires
        0 <= offset,
    ensures
        bytes_at(overwritten(disk, offset, data), offset, data.len() as int) == data,
{
    assert(bytes_at(overwritten(disk, offset, data), offset, data.len() as int) =~= data);
}

/// The log depends on its own pages only.
proof fn lemma_log_same(a: Seq<u8>, b: Seq<u8>, chain: Seq<u64>)
    requires
        forall|i: int| 0 <= i < chain.len() ==> page_on(b, #[trigger] chain[i]) == page_on(a, chain[i]),
    ensures
        log_on(b, chain) == log_on(a, chain),
    decreases chain.len(),
{
    if chain.len() > 0 {
        assert forall|i: int| 0 <= i < chain.drop_last().len() implies page_on(b, #[trigger] chain.drop_last()[i])
            == page_on(a, chain.drop_last()[i]) by {
            assert(chain.drop_last()[i] == chain[i]);
        }
        lemma_log_same(a, b, chain.drop_last());
        assert(chain.last() == chain[chain.len() - 1]);
    }
}

/// Pages of the log do not overlap.
proof fn lemma_pages_apart(disk: Seq<u8>, chain: Seq<u64>, i: int, j: int)
    requires
        linked(disk, chain),
        0 <= i < chain.len(),
        0 <= j < chain.len(),
        i != j,
    ensures
        chain[i] + PAGE_SIZE <= chain[j] || chain[j] + PAGE_SIZE <= chain[i],
{
    assert(link_ok(disk, chain, i));
    assert(link_ok(disk, chain, j));
    assert(chain[i] != chain[j]);
}

/// A store that was just created stands for the empty map.
pub proof fn law_created_store_is_empty(store: T4Store, write: PageWrite)
    requires
        store::created(store, write),
    ensures
        holds(store, written(Seq::empty(), seq![write]), Map::empty()),
{
    let disk = written(Seq::empty(), seq![write]);
    store.wal.tail.lemma_raw();
    assert(seq![write].drop_last() =~= Seq::<PageWrite>::empty());
    assert(written(Seq::empty(), seq![write].drop_last()) == Seq::<u8>::empty());
    lemma_read_back(Seq::empty(), 0, write.buf@);
    let chain = store.wal.chain@;
    assert(disk == overwritten(Seq::empty(), 0, write.buf@));
    assert(disk.len() == PAGE_SIZE);
    assert(page_on(disk, 0) == Some(store.wal.tail@));
    assert(link_ok(disk, chain, 0));
    assert(chain.drop_last() =~= Seq::<u64>::empty());
    assert(log_on(disk, chain.drop_last()) == Seq::<LogEntry>::empty());
    assert(log_on(disk, chain) =~= Seq::<LogEntry>::empty());
}

/// What `wal` says of its last page is what the file holds there.
proof fn lemma_tail_on_disk(wal: Wal, disk: Seq<u8>, log: Seq<LogEntry>)
    requires
        logs(wal, disk, log),
    ensures
        page_on(disk, wal.tail_offset) == Some(wal.tail@),
        wal.tail@.next_page == 0,
        wal.tail.raw().len() == PAGE_SIZE,
        wal.tail_offset + PAGE_SIZE <= disk.len(),
        log == log_on(disk, wal.chain@.drop_last()) + wal.tail@.entries,
{
    wal.tail.lemma_raw();
    assert(link_ok(disk, wal.chain@, wal.chain@.len() - 1));
}

/// An entry that fits on the last page is one more entry of the log.
#[verifier::rlimit(50)]
proof fn lemma_appended_there(
    before: Wal,
    after: Wal,
    disk: Seq<u8>,
    key: Seq<u8>,
    value: Option<ValueRef>,
    writes: Seq<PageWrite>,
    log: Seq<LogEntry>,
)
    requires
        logs(before, disk, log),
        wal::appended(before, after, key, value, writes),
        wal::fits(before.tail@, key),
    ensures
        logs(after, written(disk, writes), log.push(LogEntry { key, value, lsn: before.next_lsn })),
        forall|at: int, len: int|
            0 <= at && 0 <= len && at + len <= disk.len() && apart(before.chain@, at, len) ==> #[trigger] bytes_at(
                written(disk, writes),
                at,
                len,
            ) == bytes_at(disk, at, len) && apart(after.chain@, at, len),
        written(disk, writes).len() >= disk.len(),
{
    let entry = LogEntry { key, value, lsn: before.next_lsn };
    let chain = before.chain@;
    let last = chain.len() - 1;
    let tail = before.tail_offset as int;
    lemma_tail_on_disk(before, disk, log);
    after.tail.lemma_raw();
    assert(log.push(entry).drop_last() =~= log);
    assert(link_ok(disk, chain, 0));
    assert(link_ok(disk, chain, last));
    let d = overwritten(disk, tail, writes[0].buf@);
    assert(writes.drop_last() =~= Seq::<PageWrite>::empty());
    assert(written(disk, writes.drop_last()) == disk);
    assert(written(disk, writes) == d);
    lemma_read_back(disk, tail, writes[0].buf@);
    assert(page_on(d, before.tail_offset) == Some(after.tail@));
    assert forall|i: int| 0 <= i < last implies page_on(d, #[trigger] chain[i]) == page_on(disk, chain[i]) by {
        lemma_pages_apart(disk, chain, i, last);
        assert(link_ok(disk, chain, i));
        lemma_untouched(disk, tail, writes[0].buf@, chain[i] as int, PAGE_SIZE as int);
    }
    assert forall|i: int| 0 <= i < chain.len() implies #[trigger] link_ok(d, chain, i) by {
        assert(link_ok(disk, chain, i));
    }
    assert forall|i: int| 0 <= i < chain.drop_last().len() implies page_on(d, #[trigger] chain.drop_last()[i])
        == page_on(disk, chain.drop_last()[i]) by {
        assert(chain.drop_last()[i] == chain[i]);
    }
    lemma_log_same(disk, d, chain.drop_last());
    assert(log_on(d, chain) =~= log.push(entry));
    assert forall|at: int, len: int|
        0 <= at && 0 <= len && at + len <= disk.len() && apart(chain, at, len) implies #[trigger] bytes_at(d, at, len)
        == bytes_at(disk, at, len) by {
        assert(at + len <= chain[last] || chain[last] + PAGE_SIZE <= at);
        lemma_untouched(disk, tail, writes[0].buf@, at, len);
    }
}

/// An entry on a new page is one more entry of the log.
#[verifier::rlimit(50)]
proof fn lemma_appended_behind(
    before: Wal,
    after: Wal,
    disk: Seq<u8>,
    key: Seq<u8>,
    value: Option<ValueRef>,
    writes: Seq<PageWrite>,
    log: Seq<LogEntry>,
)
    requires
        logs(before, disk, log),
        wal::appended(before, after, key, value, writes),
        !wal::fits(before.tail@, key),
    ensures
        logs(after, written(disk, writes), log.push(LogEntry { key, value, lsn: before.next_lsn })),
        forall|at: int, len: int|
            0 <= at && 0 <= len && at + len <= disk.len() && apart(before.chain@, at, len) ==> #[trigger] bytes_at(
                written(disk, writes),
                at,
                len,
            ) == bytes_at(disk, at, len) && apart(after.chain@, at, len),
        written(disk, writes).len() >= disk.len(),
{
    let entry = LogEntry { key, value, lsn: before.next_lsn };
    let chain = before.chain@;
    let last = chain.len() - 1;
    let tail = before.tail_offset as int;
    lemma_tail_on_disk(before, disk, log);
    after.tail.lemma_raw();
    assert(log.push(entry).drop_last() =~= log);
    assert(link_ok(disk, chain, 0));
    assert(link_ok(disk, chain, last));
    let new = before.file_tail;
    let d1 = overwritten(disk, tail, writes[0].buf@);
    let d = overwritten(d1, new as int, writes[1].buf@);
    let longer = chain.push(new);
    assert(writes.drop_last().drop_last() =~= Seq::<PageWrite>::empty());
    assert(written(disk, writes.drop_last().drop_last()) == disk);
    assert(written(disk, writes.drop_last()) == d1);
    assert(written(disk, writes) == d);
    assert(d1.len() == disk.len());
    lemma_read_back(disk, tail, writes[0].buf@);
    lemma_untouched(d1, new as int, writes[1].buf@, tail, PAGE_SIZE as int);
    lemma_read_back(d1, new as int, writes[1].buf@);
    assert(page_on(d, before.tail_offset) == Some(PageModel { next_page: new, ..before.tail@ }));
    assert(page_on(d, new) == Some(after.tail@));
    assert forall|i: int| 0 <= i < last implies page_on(d, #[trigger] chain[i]) == page_on(disk, chain[i]) by {
        lemma_pages_apart(disk, chain, i, last);
        assert(link_ok(disk, chain, i));
        lemma_untouched(disk, tail, writes[0].buf@, chain[i] as int, PAGE_SIZE as int);
        lemma_untouched(d1, new as int, writes[1].buf@, chain[i] as int, PAGE_SIZE as int);
    }
    assert(longer.no_duplicates()) by {
        assert forall|i: int| 0 <= i < chain.len() implies chain[i] != new by {
            assert(link_ok(disk, chain, i));
        }
    }
    assert forall|i: int| 0 <= i < longer.len() implies #[trigger] link_ok(d, longer, i) by {
        if i < chain.len() {
            assert(link_ok(disk, chain, i));
        }
    }
    assert(longer.drop_last() =~= chain);
    assert forall|i: int| 0 <= i < chain.drop_last().len() implies page_on(d, #[trigger] chain.drop_last()[i])
        == page_on(disk, chain.drop_last()[i]) by {
        assert(chain.drop_last()[i] == chain[i]);
    }
    lemma_log_same(disk, d, chain.drop_last());
    assert(log_on(d, chain) =~= log);
    assert(log_on(d, longer) =~= log.push(entry));
    assert(layout::page_aligned(before.file_tail + PAGE_SIZE));
    assert forall|at: int, len: int|
        0 <= at && 0 <= len && at + len <= disk.len() && apart(chain, at, len) implies #[trigger] bytes_at(d, at, len)
        == bytes_at(disk, at, len) && apart(longer, at, len) by {
        assert(at + len <= chain[last] || chain[last] + PAGE_SIZE <= at);
        lemma_untouched(disk, tail, writes[0].buf@, at, len);
        lemma_untouched(d1, new as int, writes[1].buf@, at, len);
        assert forall|i: int| 0 <= i < longer.len() implies at + len <= #[trigger] longer[i] || longer[i] + PAGE_SIZE
            <= at by {
            if i < chain.len() {
                assert(longer[i] == chain[i]);
            }
        }
    }
}

/// An entry that is appended is one more entry of the log, and nothing else in the file changes.
pub proof fn lemma_appended(
    before: Wal,
    after: Wal,
    disk: Seq<u8>,
    key: Seq<u8>,
    value: Option<ValueRef>,
    writes: Seq<PageWrite>,
    log: Seq<LogEntry>,
)
    requires
        logs(before, disk, log),
        wal::appended(before, after, key, value, writes),
    ensures
        logs(after, written(disk, writes), log.push(LogEntry { key, value, lsn: before.next_lsn })),
        forall|at: int, len: int|
            0 <= at && 0 <= len && at + len <= disk.len() && apart(before.chain@, at, len) ==> #[trigger] bytes_at(
                written(disk, writes),
                at,
                len,
            ) == bytes_at(disk, at, len) && apart(after.chain@, at, len),
        written(disk, writes).len() >= disk.len(),
{
    if wal::fits(before.tail@, key) {
        lemma_appended_there(before, after, disk, key, value, writes, log);
    } else {
        lemma_appended_behind(before, after, disk, key, value, writes, log);
    }
}

/// Every value that lies in the file, indexed or not, stays as it is.
pub open spec fn values_stay(disk: Seq<u8>, chain: Seq<u64>, after: Seq<u8>, longer: Seq<u64>) -> bool {
    forall|at: ValueRef| #[trigger] stored(disk, chain, at) ==> stored(after, longer, at) && value_on(after, at)
        == value_on(disk, at)
}

proof fn lemma_values_stay(disk: Seq<u8>, after: Seq<u8>, chain: Seq<u64>, longer: Seq<u64>)
    requires
        after.len() >= disk.len(),
        forall|at: int, len: int|
            0 <= at && 0 <= len && at + len <= disk.len() && apart(chain, at, len) ==> #[trigger] bytes_at(after, at, len)
                == bytes_at(disk, at, len) && apart(longer, at, len),
    ensures
        values_stay(disk, chain, after, longer),
{
    assert forall|at: ValueRef| #[trigger] stored(disk, chain, at) implies stored(after, longer, at) && value_on(after, at)
        == value_on(disk, at) by {
        lemma_value_kept(disk, after, chain, longer, at);
    }
}

/// Values stay where they are while the log grows.
pub proof fn lemma_values_kept(
    disk: Seq<u8>,
    after: Seq<u8>,
    chain: Seq<u64>,
    longer: Seq<u64>,
    index: Map<Seq<u8>, ValueRef>,
    map: Map<Seq<u8>, Seq<u8>>,
)
    requires
        indexes(disk, chain, index, map),
        after.len() >= disk.len(),
        forall|at: int, len: int|
            0 <= at && 0 <= len && at + len <= disk.len() && apart(chain, at, len) ==> #[trigger] bytes_at(after, at, len)
                == bytes_at(disk, at, len) && apart(longer, at, len),
    ensures
        indexes(after, longer, index, map),
{
    assert forall|key: Seq<u8>| #[trigger] index.dom().contains(key) implies stored(after, longer, index[key])
        && map[key] == value_on(after, index[key]) by {
        lemma_value_kept(disk, after, chain, longer, index[key]);
    }
}

pub proof fn lemma_value_kept(disk: Seq<u8>, after: Seq<u8>, chain: Seq<u64>, longer: Seq<u64>, at: ValueRef)
    requires
        stored(disk, chain, at),
        after.len() >= disk.len(),
        forall|from: int, len: int|
            0 <= from && 0 <= len && from + len <= disk.len() && apart(chain, from, len) ==> #[trigger] bytes_at(
                after,
                from,
                len,
            ) == bytes_at(disk, from, len) && apart(longer, from, len),
    ensures
        stored(after, longer, at),
        value_on(after, at) == value_on(disk, at),
{
    if at.length > 0 {
        let padded = layout::aligned_up(at.length as int, PAGE_SIZE as int);
        layout::lemma_aligned_up(at.length as int, PAGE_SIZE as int);
        assert(bytes_at(after, at.offset as int, padded) == bytes_at(disk, at.offset as int, padded));
        assert(bytes_at(after, at.offset as int, at.length as int) =~= bytes_at(after, at.offset as int, padded).take(
            at.length as int,
        ));
        assert(bytes_at(disk, at.offset as int, at.length as int) =~= bytes_at(disk, at.offset as int, padded).take(
            at.length as int,
        ));
    }
}

/// The index after one more entry of the log.
pub proof fn lemma_applied_push(index: Map<Seq<u8>, ValueRef>, log: Seq<LogEntry>, entry: LogEntry)
    ensures
        wal_replay::applied_all(index, log.push(entry)) == wal_replay::applied(
            wal_replay::applied_all(index, log),
            entry,
        ),
{
    assert(log.push(entry).drop_last() =~= log);
}

/// Placing a value and writing it keeps the map, and the value can be read where it was placed. Like the
/// other operations it leaves values that wait for their entry in the log alone, so operations may
/// start in between.
#[verifier::rlimit(50)]
pub proof fn law_value_written(
    before: T4Store,
    after: T4Store,
    disk: Seq<u8>,
    map: Map<Seq<u8>, Seq<u8>>,
    value: Seq<u8>,
    at: ValueRef,
    write: PageWrite,
)
    requires
        holds(before, disk, map),
        value.len() > 0,
        wal::place_fault(before.wal, value) is None,
        wal::placed(before.wal, after.wal, value, at, Some(write)),
        after.index == before.index,
    ensures
        holds(after, written(disk, seq![write]), map),
        stored(written(disk, seq![write]), after.wal.chain@, at),
        value_on(written(disk, seq![write]), at) == value,
        values_stay(disk, before.wal.chain@, written(disk, seq![write]), after.wal.chain@),
{
    let chain = before.wal.chain@;
    let tail = before.wal.file_tail as int;
    let padded = layout::aligned_up(value.len() as int, PAGE_SIZE as int);
    layout::lemma_aligned_up(value.len() as int, PAGE_SIZE as int);
    let d = overwritten(disk, tail, write.buf@);
    assert(seq![write].drop_last() =~= Seq::<PageWrite>::empty());
    assert(written(disk, seq![write].drop_last()) == disk);
    assert(written(disk, seq![write]) == d);
    assert(write.buf@.len() == padded);
    assert(d.len() == tail + padded);
    assert forall|i: int| 0 <= i < chain.len() implies page_on(d, #[trigger] chain[i]) == page_on(disk, chain[i]) by {
        assert(link_ok(disk, chain, i));
        lemma_untouched(disk, tail, write.buf@, chain[i] as int, PAGE_SIZE as int);
    }
    assert forall|i: int| 0 <= i < chain.len() implies #[trigger] link_ok(d, chain, i) by {
        assert(link_ok(disk, chain, i));
    }
    lemma_log_same(disk, d, chain);
    assert(link_ok(disk, chain, chain.len() - 1));
    lemma_untouched(disk, tail, write.buf@, before.wal.tail_offset as int, PAGE_SIZE as int);
    assert(layout::page_aligned(tail + padded));
    assert forall|from: int, len: int|
        0 <= from && 0 <= len && from + len <= disk.len() && apart(chain, from, len) implies #[trigger] bytes_at(
        d,
        from,
        len,
    ) == bytes_at(disk, from, len) && apart(chain, from, len) by {
        lemma_untouched(disk, tail, write.buf@, from, len);
    }
    lemma_values_kept(disk, d, chain, chain, before.index@, map);
    lemma_values_stay(disk, d, chain, chain);
    lemma_read_back(disk, tail, write.buf@);
    assert(value_on(d, at) =~= value) by {
        assert(bytes_at(d, tail, padded) == write.buf@);
        assert forall|i: int| 0 <= i < value.len() implies #[trigger] d[tail + i] == value[i] by {
            assert(bytes_at(d, tail, padded)[i] == buffer::padded(value)[i]);
        }
    }
    assert(apart(chain, tail, padded)) by {
        assert forall|i: int| 0 <= i < chain.len() implies tail + padded <= #[trigger] chain[i] || chain[i] + PAGE_SIZE
            <= tail by {
            assert(link_ok(disk, chain, i));
        }
    }
}

/// Once the entry of a value is in the log and in the index, the map has the value.
#[verifier::rlimit(50)]
pub proof fn law_entry_logged(
    before: T4Store,
    after: T4Store,
    disk: Seq<u8>,
    map: Map<Seq<u8>, Seq<u8>>,
    key: Seq<u8>,
    value: Seq<u8>,
    at: ValueRef,
    writes: Seq<PageWrite>,
)
    requires
        holds(before, disk, map),
        stored(disk, before.wal.chain@, at),
        value_on(disk, at) == value,
        wal::appended(before.wal, after.wal, key, Some(at), writes),
        after.wf(),
        after.index@ == before.index@.insert(key, at),
    ensures
        holds(after, written(disk, writes), map.insert(key, value)),
        values_stay(disk, before.wal.chain@, written(disk, writes), after.wal.chain@),
{
    let log = log_on(disk, before.wal.chain@);
    let entry = LogEntry { key, value: Some(at), lsn: before.wal.next_lsn };
    let d = written(disk, writes);
    lemma_appended(before.wal, after.wal, disk, key, Some(at), writes, log);
    lemma_applied_push(Map::empty(), log, entry);
    lemma_values_kept(disk, d, before.wal.chain@, after.wal.chain@, before.index@, map);
    lemma_values_stay(disk, d, before.wal.chain@, after.wal.chain@);
    assert(map.insert(key, value).dom() =~= after.index@.dom());
    assert forall|k: Seq<u8>| #[trigger] after.index@.dom().contains(k) implies stored(
        d,
        after.wal.chain@,
        after.index@[k],
    ) && map.insert(key, value)[k] == value_on(d, after.index@[k]) by {
        if k != key {
            assert(before.index@.dom().contains(k));
        }
    }
}

/// A `put` of a value that is not empty, with its writes done in order, sets the value of the key.
pub proof fn law_put(
    s0: T4Store,
    s1: T4Store,
    s2: T4Store,
    s3: T4Store,
    disk: Seq<u8>,
    map: Map<Seq<u8>, Seq<u8>>,
    key: Seq<u8>,
    value: Seq<u8>,
    value_writes: Vec<PageWrite>,
    placed: PendingPut,
    log_writes: Vec<PageWrite>,
    logged: PendingPut,
)
    requires
        holds(s0, disk, map),
        value.len() > 0,
        wal::place_fault(s0.wal, value) is None,
        store::put_started(s0, s1, key, value, PutStep::Write(value_writes, placed)),
        store::put_continued(s1, s2, placed, PutStep::Write(log_writes, logged)),
        store::put_continued(s2, s3, logged, PutStep::Done),
        s3.wf(),
    ensures
        holds(s3, written(written(disk, value_writes@), log_writes@), map.insert(key, value)),
{
    assert(value_writes@ =~= seq![value_writes@[0]]);
    law_value_written(s0, s1, disk, map, value, placed.value, value_writes@[0]);
    law_entry_logged(
        s1,
        s3,
        written(disk, value_writes@),
        map,
        key,
        value,
        placed.value,
        log_writes@,
    );
}

/// A `put` of an empty value, with its writes done in order, sets the value of the key.
pub proof fn law_put_empty(
    s0: T4Store,
    s1: T4Store,
    s2: T4Store,
    disk: Seq<u8>,
    map: Map<Seq<u8>, Seq<u8>>,
    key: Seq<u8>,
    writes: Vec<PageWrite>,
    logged: PendingPut,
)
    requires
        holds(s0, disk, map),
        store::put_started(s0, s1, key, Seq::empty(), PutStep::Write(writes, logged)),
        store::put_continued(s1, s2, logged, PutStep::Done),
        s2.wf(),
    ensures
        holds(s2, written(disk, writes@), map.insert(key, Seq::empty())),
{
    law_entry_logged(s0, s2, disk, map, key, Seq::empty(), logged.value, writes@);
}

/// A `remove`, with its writes done in order, takes the key out of the map.
#[verifier::rlimit(50)]
pub proof fn law_remove(
    s0: T4Store,
    s1: T4Store,
    disk: Seq<u8>,
    map: Map<Seq<u8>, Seq<u8>>,
    key: Seq<u8>,
    writes: Seq<PageWrite>,
)
    requires
        holds(s0, disk, map),
        wal::appended(s0.wal, s1.wal, key, None, writes),
        s1.wf(),
        s1.index@ == s0.index@.remove(key),
    ensures
        holds(s1, written(disk, writes), map.remove(key)),
        s0.index@.dom().contains(key) == map.dom().contains(key),
        values_stay(disk, s0.wal.chain@, written(disk, writes), s1.wal.chain@),
{
    let log = log_on(disk, s0.wal.chain@);
    let entry = LogEntry { key, value: None, lsn: s0.wal.next_lsn };
    let d = written(disk, writes);
    lemma_appended(s0.wal, s1.wal, disk, key, None, writes, log);
    lemma_applied_push(Map::empty(), log, entry);
    lemma_values_kept(disk, d, s0.wal.chain@, s1.wal.chain@, s0.index@, map);
    lemma_values_stay(disk, d, s0.wal.chain@, s1.wal.chain@);
    assert(map.remove(key).dom() =~= s1.index@.dom());
    assert forall|k: Seq<u8>| #[trigger] s1.index@.dom().contains(k) implies stored(d, s1.wal.chain@, s1.index@[k])
        && map.remove(key)[k] == value_on(d, s1.index@[k]) by {
        assert(s0.index@.dom().contains(k));
    }
}

/// A key is found if and only if the map has it, and what is read for it is its value.
pub proof fn law_get(store: T4Store, disk: Seq<u8>, map: Map<Seq<u8>, Seq<u8>>, key: Seq<u8>)
    requires
        holds(store, disk, map),
    ensures
        store.index@.dom().contains(key) == map.dom().contains(key),
        map.dom().contains(key) ==> match store::get_plan(store.index@[key]) {
            Ok(ReadPlan::Empty) => map[key].len() == 0,
            Ok(ReadPlan::Read(window)) => {
                &&& window.offset + window.len <= disk.len()
                &&& layout::page_aligned(window.offset as int)
                &&& layout::page_aligned(window.len as int)
                &&& bytes_at(disk, window.offset as int, window.len as int).subrange(
                    window.start as int,
                    window.start + window.take,
                ) == map[key]
            },
            Err(_) => false,
        },
{
    if map.dom().contains(key) {
        let at = store.index@[key];
        assert(stored(disk, store.wal.chain@, at));
        layout::lemma_aligned_up(at.length as int, PAGE_SIZE as int);
        if at.length > 0 {
            let padded = layout::aligned_up(at.length as int, PAGE_SIZE as int);
            assert(bytes_at(disk, at.offset as int, padded).subrange(0, at.length as int) =~= map[key]);
        }
    }
}

/// A range inside a value is answered with that part of the value, any other range is refused.
#[verifier::rlimit(50)]
pub proof fn law_get_range(
    store: T4Store,
    disk: Seq<u8>,
    map: Map<Seq<u8>, Seq<u8>>,
    key: Seq<u8>,
    range: RangeRequestU32,
)
    requires
        holds(store, disk, map),
        map.dom().contains(key),
    ensures
        store.index@.dom().contains(key),
        match store::get_range_plan(store.index@[key], range) {
            Ok(ReadPlan::Empty) => range.len == 0 && range.start <= map[key].len(),
            Ok(ReadPlan::Read(window)) => {
                &&& 0 < range.len
                &&& range.start + range.len <= map[key].len()
                &&& window.offset + window.len <= disk.len()
                &&& layout::page_aligned(window.offset as int)
                &&& layout::page_aligned(window.len as int)
                &&& bytes_at(disk, window.offset as int, window.len as int).subrange(
                    window.start as int,
                    window.start + window.take,
                ) == map[key].subrange(range.start as int, range.start + range.len)
            },
            Err(err) => err == Error::RangeOutOfBounds && range.start + range.len > map[key].len(),
        },
{
    let at = store.index@[key];
    assert(stored(disk, store.wal.chain@, at));
    assert(map[key] == value_on(disk, at));
    layout::lemma_aligned_up(at.length as int, PAGE_SIZE as int);
    assert(map[key].len() == at.length);
    if range.start + range.len <= at.length && range.len > 0 {
        let (start, end) = store::range_window(at, range);
        lemma_window(at.offset as int, at.length as int, range.start as int, range.len as int);
        lemma_part_of_part(
            disk,
            at.offset as int,
            at.length as int,
            start,
            end,
            range.start as int,
            range.len as int,
        );
    }
}

/// A range is read through the least part of the file that is made of whole pages and covers it.
pub proof fn law_window_is_minimal(value: ValueRef, range: RangeRequestU32, from: int, to: int)
    requires
        layout::page_aligned(from),
        layout::page_aligned(to),
        from <= value.offset + range.start,
        value.offset + range.start + range.len <= to,
    ensures
        store::get_range_plan(value, range) matches Ok(ReadPlan::Read(window)) ==> {
            &&& from <= window.offset <= value.offset + range.start
            &&& value.offset + range.start + range.len <= window.offset + window.len <= to
        },
{
    layout::lemma_aligned_up(value.offset + range.start, PAGE_SIZE as int);
    layout::lemma_aligned_up(value.offset + range.start + range.len, PAGE_SIZE as int);
}

/// The file only grows, whatever is placed or appended.
pub proof fn law_file_only_grows(before: Wal, after: Wal)
    requires
        (exists|value: Seq<u8>, at: ValueRef, write: Option<PageWrite>| #[trigger]
            wal::placed(before, after, value, at, write)) || (exists|
            key: Seq<u8>,
            value: Option<ValueRef>,
            writes: Seq<PageWrite>,
        | #[trigger] wal::appended(before, after, key, value, writes)),
    ensures
        before.file_tail <= after.file_tail,
{
    if exists|value: Seq<u8>, at: ValueRef, write: Option<PageWrite>| #[trigger]
        wal::placed(before, after, value, at, write) {
        let (value, at, write) = choose|value: Seq<u8>, at: ValueRef, write: Option<PageWrite>| #[trigger]
            wal::placed(before, after, value, at, write);
        layout::lemma_aligned_up(value.len() as int, PAGE_SIZE as int);
    }
}

/// The aligned part of the file around a range of a value lies inside the pages of the value.
proof fn lemma_window(offset: int, length: int, start: int, len: int)
    requires
        0 <= offset,
        layout::page_aligned(offset),
        0 <= start,
        0 < len,
        start + len <= length,
    ensures
        ({
            let from = layout::aligned_down(offset + start, PAGE_SIZE as int);
            let to = layout::aligned_up(offset + start + len, PAGE_SIZE as int);
            &&& offset <= from <= offset + start
            &&& offset + start + len <= to <= offset + layout::aligned_up(length, PAGE_SIZE as int)
            &&& offset + start - from < PAGE_SIZE
            &&& layout::page_aligned(from)
            &&& layout::page_aligned(to - from)
        }),
{
    let q = offset / 4096;
    assert(offset == 4096 * q);
    lemma_in_pages(offset + start);
    lemma_in_pages(offset + start + len);
    lemma_in_pages(length);
    lemma_pages_on(q, start);
    lemma_pages_on(q, start + len + 4095);
}

/// Aligning, as whole pages.
proof fn lemma_in_pages(x: int)
    ensures
        layout::aligned_down(x, PAGE_SIZE as int) == 4096 * (x / 4096),
        layout::aligned_up(x, PAGE_SIZE as int) == 4096 * ((x + 4095) / 4096),
{
}

/// Whole pages in front are counted apart.
proof fn lemma_pages_on(q: int, x: int)
    ensures
        (4096 * q + x) / 4096 == q + x / 4096,
{
    vstd::arithmetic::div_mod::lemma_hoist_over_denominator(x, q, 4096);
    assert(4096 * q == q * 4096);
}

/// A part of a value, read through a larger part of the file.
proof fn lemma_part_of_part(disk: Seq<u8>, offset: int, length: int, from: int, to: int, start: int, len: int)
    requires
        0 <= offset <= from <= offset + start,
        0 <= start,
        0 <= len,
        start + len <= length,
        offset + start + len <= to <= disk.len(),
        offset + length <= disk.len(),
    ensures
        bytes_at(disk, from, to - from).subrange(offset + start - from, offset + start - from + len) == bytes_at(
            disk,
            offset,
            length,
        ).subrange(start, start + len),
{
    assert(bytes_at(disk, from, to - from).subrange(offset + start - from, offset + start - from + len) =~= bytes_at(
        disk,
        offset,
        length,
    ).subrange(start, start + len));
}

/// What a replay has learnt after the first `i` pages of the log.
pub open spec fn learnt(disk: Seq<u8>, chain: Seq<u64>, i: int) -> ReplayModel {
    let log = log_on(disk, chain.take(i));
    ReplayModel {
        index: wal_replay::applied_all(Map::empty(), log),
        last_lsn: wal_replay::last_lsn(-1, log),
        at_start: i == 0,
    }
}

/// A replay has taken in the first `i` pages of the log, and waits for the next.
pub open spec fn replays(replay: WalReplay, wal: Wal, disk: Seq<u8>, i: int) -> bool {
    &&& 0 <= i < wal.chain@.len()
    &&& replay.wf()
    &&& replay.state@ == learnt(disk, wal.chain@, i)
    &&& replay.offset == wal.chain@[i]
    &&& replay.file_len == disk.len()
    &&& replay.chain@ == wal.chain@.take(i)
}

proof fn lemma_applied_concat(index: Map<Seq<u8>, ValueRef>, a: Seq<LogEntry>, b: Seq<LogEntry>)
    ensures
        wal_replay::applied_all(index, a + b) == wal_replay::applied_all(wal_replay::applied_all(index, a), b),
        forall|last: int| #[trigger] wal_replay::last_lsn(last, a + b) == wal_replay::last_lsn(
            wal_replay::last_lsn(last, a),
            b,
        ),
        forall|last: int| #[trigger] wal_replay::ordered(last, a + b) == (wal_replay::ordered(last, a)
            && wal_replay::ordered(wal_replay::last_lsn(last, a), b)),
    decreases b.len(),
{
    if b.len() == 0 {
        assert(a + b =~= a);
    } else {
        lemma_applied_concat(index, a, b.drop_last());
        assert((a + b).drop_last() =~= a + b.drop_last());
        assert((a + b).last() == b.last());
        assert forall|last: int| #[trigger] wal_replay::ordered(last, a + b) == (wal_replay::ordered(last, a)
            && wal_replay::ordered(wal_replay::last_lsn(last, a), b)) by {
            assert(wal_replay::ordered(last, a + b.drop_last()) == (wal_replay::ordered(last, a)
                && wal_replay::ordered(wal_replay::last_lsn(last, a), b.drop_last())));
            assert(wal_replay::last_lsn(last, a + b.drop_last()) == wal_replay::last_lsn(
                wal_replay::last_lsn(last, a),
                b.drop_last(),
            ));
        }
    }
}

/// The log of the first pages is the start of the log.
proof fn lemma_log_prefix(disk: Seq<u8>, chain: Seq<u64>, i: int)
    requires
        0 <= i <= chain.len(),
    ensures
        exists|rest: Seq<LogEntry>| log_on(disk, chain) == #[trigger] (log_on(disk, chain.take(i)) + rest),
    decreases chain.len() - i,
{
    if i == chain.len() {
        assert(chain.take(i) =~= chain);
        assert(log_on(disk, chain) =~= log_on(disk, chain.take(i)) + Seq::<LogEntry>::empty());
    } else {
        lemma_log_prefix(disk, chain, i + 1);
        let rest = choose|rest: Seq<LogEntry>| log_on(disk, chain) == #[trigger] (log_on(disk, chain.take(i + 1)) + rest);
        assert(chain.take(i + 1).drop_last() =~= chain.take(i));
        let page = page_on(disk, chain[i])->0.entries;
        assert(log_on(disk, chain) =~= log_on(disk, chain.take(i)) + (page + rest));
    }
}

/// A replay of the file of a store starts at the first page of its log.
pub proof fn law_replay_starts(store: T4Store, disk: Seq<u8>, map: Map<Seq<u8>, Seq<u8>>, replay: WalReplay)
    requires
        holds(store, disk, map),
        replay.wf(),
        replay.state@ == ReplayModel::init(),
        replay.offset == 0,
        replay.file_len == disk.len(),
        replay.chain@ == Seq::<u64>::empty(),
    ensures
        disk.len() >= PAGE_SIZE,
        replays(replay, store.wal, disk, 0),
{
    assert(link_ok(disk, store.wal.chain@, 0));
    assert(store.wal.chain@.take(0) =~= Seq::<u64>::empty());
}

/// Opening the file again gives back the map: a replay that is handed the pages of the log, one after
/// the other, accepts each of them, and after the last one is a store that stands for the same map.
#[verifier::rlimit(50)]
pub proof fn law_replay_gives_back_the_map(
    store: T4Store,
    disk: Seq<u8>,
    map: Map<Seq<u8>, Seq<u8>>,
    replay: WalReplay,
    i: int,
    page: WalPage,
    step: Result<ReplayStep, Error>,
)
    requires
        holds(store, disk, map),
        replays(replay, store.wal, disk, i),
        page.wf(),
        page.raw() == bytes_at(disk, replay.offset as int, PAGE_SIZE as int),
        wal::stepped(replay, page, step),
    ensures
        match step {
            Ok(ReplayStep::ReadPage(next)) => replays(next, store.wal, disk, i + 1),
            Ok(ReplayStep::Done(wal, index)) => {
                &&& i + 1 == store.wal.chain@.len()
                &&& holds(T4Store { wal, index }, disk, map)
            },
            Err(_) => false,
        },
{
    let chain = store.wal.chain@;
    let log = log_on(disk, chain);
    assert(link_ok(disk, chain, i));
    page.lemma_raw();
    assert(page_on(disk, chain[i]) == Some(page@));
    let so_far = log_on(disk, chain.take(i));
    assert(chain.take(i + 1).drop_last() =~= chain.take(i));
    assert(log_on(disk, chain.take(i + 1)) == so_far + page@.entries);
    lemma_applied_concat(Map::empty(), so_far, page@.entries);
    assert(replay.state@.after(page@) == learnt(disk, chain, i + 1));
    assert(wal_replay::ordered(-1, so_far + page@.entries)) by {
        lemma_log_prefix(disk, chain, i + 1);
        let rest = choose|rest: Seq<LogEntry>| log == #[trigger] (log_on(disk, chain.take(i + 1)) + rest);
        lemma_applied_concat(Map::empty(), log_on(disk, chain.take(i + 1)), rest);
    }
    assert(replay.state@.accepts(page@));
    assert(replay.chain@.push(replay.offset) =~= chain.take(i + 1));
    if i + 1 < chain.len() {
        assert(link_ok(disk, chain, i + 1));
    } else {
        assert(chain.take(i + 1) =~= chain);
        layout::lemma_aligned_up(disk.len() as int, PAGE_SIZE as int);
        assert(layout::aligned_up(disk.len() as int, PAGE_SIZE as int) == disk.len());
    }
}

} // verus!
