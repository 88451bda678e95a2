//! What a caller of the store may rely on, whatever the store does inside.
//!
//! Each law is about the calls themselves: it holds of every outcome that the function may have. A
//! store and its file stand for a map, in the sense of [`crate::disk`]; the laws say what each call,
//! with the writes that it asks for done in order, makes of the map, and what it answers.

use crate::buffer::ReadBuf;
use crate::disk;
use crate::error::{ArgumentFault, Error, FormatFault};
use crate::input_kv::{T4Key, T4KeyRef, T4Value, ValueRef};
use crate::io_backend::IoBackendKind;
use crate::io_task::PageWrite;
use crate::layout;
use crate::layout::RangeRequestU32;
use crate::store::{MountOptions, MountStep, PendingPut, PutStep, ReadPlan, Store, T4Store, Window};
use crate::wal;
use crate::wal::{ReplayStep, Wal, WalReplay};
use crate::wal_page;
use crate::wal_page::{AppendEntry, LogEntry, WalPage};
use crate::wal_replay;
use crate::PAGE_SIZE;
use vstd::prelude::*;

verus! {

/// The log in the file says what the index is going to be; the index in memory is still that of `map`.
pub open spec fn settling(
    store: T4Store,
    disk: Seq<u8>,
    map: Map<Seq<u8>, Seq<u8>>,
    index: Map<Seq<u8>, ValueRef>,
) -> bool {
    let chain = store.wal.chain@;
    &&& store.wf()
    &&& disk::logs(store.wal, disk, disk::log_on(disk, chain))
    &&& index == wal_replay::applied_all(Map::empty(), disk::log_on(disk, chain))
    &&& disk::indexes(disk, chain, store.index@, map)
}

/// A `put` of `value` waits, its last writes done: the value can be read where it was placed, and the
/// store stands for `map`, but for the entry in the log, where there is one already.
pub open spec fn put_waits(
    store: T4Store,
    disk: Seq<u8>,
    map: Map<Seq<u8>, Seq<u8>>,
    pending: PendingPut,
    value: Seq<u8>,
) -> bool {
    &&& disk::stored(disk, store.wal.chain@, pending.value)
    &&& disk::value_on(disk, pending.value) == value
    &&& if pending.logged {
        settling(store, disk, map, store.index@.insert(pending.key@, pending.value))
    } else {
        disk::holds(store, disk, map)
    }
}

/// The last page of the log has no room for the entry of such a key.
pub open spec fn page_full(wal: Wal, key: Seq<u8>) -> bool {
    20 + wal_page::total_size(wal.tail@.entries) + 23 + key.len() > 4096
}

/// The plan reads exactly these bytes: it reads whole pages of the file, no page more than it needs, and
/// takes the answer out of them.
pub open spec fn answers(plan: Result<ReadPlan, Error>, disk: Seq<u8>, bytes: Seq<u8>) -> bool {
    match plan {
        Ok(ReadPlan::Empty) => bytes.len() == 0,
        Ok(ReadPlan::Read(window)) => {
            &&& bytes.len() > 0
            &&& window.offset % 4096 == 0
            &&& window.len % 4096 == 0
            &&& window.offset + window.len <= disk.len()
            &&& window.start < 4096
            &&& window.start + window.take <= window.len < window.start + window.take + 4096
            &&& bytes == disk.subrange(
                window.offset + window.start,
                window.offset + window.start + window.take,
            )
        },
        Err(_) => false,
    }
}

/// What an entry that is appended makes of a store: the file has it, the index does not.
proof fn lemma_settling(
    before: T4Store,
    after: T4Store,
    disk: Seq<u8>,
    map: Map<Seq<u8>, Seq<u8>>,
    key: Seq<u8>,
    value: Option<ValueRef>,
    writes: Seq<PageWrite>,
)
    requires
        disk::holds(before, disk, map),
        wal::appended(before.wal, after.wal, key, value, writes),
        after.index == before.index,
    ensures
        settling(
            after,
            disk::written(disk, writes),
            map,
            match value {
                Some(at) => before.index@.insert(key, at),
                None => before.index@.remove(key),
            },
        ),
        writes.len() > 0,
        forall|at: ValueRef| #[trigger] disk::stored(disk, before.wal.chain@, at) ==> disk::stored(
            disk::written(disk, writes),
            after.wal.chain@,
            at,
        ) && disk::value_on(disk::written(disk, writes), at) == disk::value_on(disk, at),
{
    let log = disk::log_on(disk, before.wal.chain@);
    let entry = LogEntry { key, value, lsn: before.wal.next_lsn };
    let d = disk::written(disk, writes);
    disk::lemma_appended(before.wal, after.wal, disk, key, value, writes, log);
    disk::lemma_applied_push(Map::empty(), log, entry);
    disk::lemma_values_kept(disk, d, before.wal.chain@, after.wal.chain@, before.index@, map);
    assert forall|at: ValueRef| #[trigger] disk::stored(disk, before.wal.chain@, at) implies disk::stored(
        d,
        after.wal.chain@,
        at,
    ) && disk::value_on(d, at) == disk::value_on(disk, at) by {
        disk::lemma_value_kept(disk, d, before.wal.chain@, after.wal.chain@, at);
    }
}

/// A store whose index follows its log stands for what the log says.
proof fn lemma_settled(
    before: T4Store,
    after: T4Store,
    disk: Seq<u8>,
    map: Map<Seq<u8>, Seq<u8>>,
    next: Map<Seq<u8>, Seq<u8>>,
    key: Seq<u8>,
)
    requires
        settling(before, disk, map, after.index@),
        after.wal == before.wal,
        after.wf(),
        next.dom() =~= after.index@.dom(),
        forall|k: Seq<u8>| k != key ==> after.index@.dom().contains(k) == before.index@.dom().contains(k),
        forall|k: Seq<u8>| k != key && after.index@.dom().contains(k) ==> after.index@[k] == before.index@[k],
        forall|k: Seq<u8>| k != key && map.dom().contains(k) ==> next[k] == map[k],
        after.index@.dom().contains(key) ==> disk::stored(disk, after.wal.chain@, after.index@[key]) && next[key]
            == disk::value_on(disk, after.index@[key]),
    ensures
        disk::holds(after, disk, next),
{
    assert forall|k: Seq<u8>| #[trigger] after.index@.dom().contains(k) implies disk::stored(
        disk,
        after.wal.chain@,
        after.index@[k],
    ) && next[k] == disk::value_on(disk, after.index@[k]) by {
        if k != key {
            assert(before.index@.dom().contains(k));
        }
    }
}

/// A `put` is not done before it has written something. Once what it asks for is written, the value is
/// in the file; if it is refused, that is because of the length of the key or of the value, or because
/// a number of 64 bits is used up, and nothing has changed.
pub proof fn law_put_writes_first(
    store: &mut Store,
    key: Vec<u8>,
    value: Vec<u8>,
    step: Result<PutStep, Error>,
    disk: Seq<u8>,
    map: Map<Seq<u8>, Seq<u8>>,
)
    requires
        call_ensures(Store::put, (store, key, value), step),
        disk::holds(old(store).inner, disk, map),
    ensures
        match step {
            Ok(PutStep::Done) => false,
            Ok(PutStep::Write(writes, pending)) => {
                &&& key@.len() <= 256
                &&& value@.len() <= u32::MAX
                &&& writes@.len() >= 1
                &&& value@.len() > 0 ==> writes@.len() == 1 && writes@[0].offset == disk.len()
                &&& pending.key@ == key@
                &&& put_waits(final(store).inner, disk::written(disk, writes@), map, pending, value@)
            },
            Err(err) => {
                let pages = (value@.len() + 4095) / 4096;
                &&& *final(store) == *old(store)
                &&& match err {
                    Error::InvalidArgument(ArgumentFault::KeyTooLong) => key@.len() > 256,
                    Error::InvalidArgument(ArgumentFault::ValueTooLong) => value@.len() > u32::MAX,
                    Error::InvalidArgument(ArgumentFault::AlignOverflow) => pages * 4096 > u32::MAX,
                    Error::InvalidArgument(ArgumentFault::BufferLayout) => pages * 4096 > isize::MAX - 4095,
                    Error::Format(FormatFault::LsnOverflow) => value@.len() == 0 && old(store).inner.wal.next_lsn
                        == u64::MAX,
                    Error::Format(FormatFault::FileTailOverflow) => if value@.len() == 0 {
                        page_full(old(store).inner.wal, key@) && disk.len() + 4096 > u64::MAX
                    } else {
                        disk.len() + pages * 4096 > u64::MAX
                    },
                    _ => false,
                }
            },
        },
{
    let before = old(store).inner;
    let after = final(store).inner;
    if let Ok(PutStep::Write(writes, pending)) = step {
        if value@.len() == 0 {
            lemma_settling(before, after, disk, map, key@, Some(pending.value), writes@);
            assert(disk::value_on(disk::written(disk, writes@), pending.value) =~= value@);
        } else {
            assert(writes@ =~= seq![writes@[0]]);
            disk::law_value_written(before, after, disk, map, value@, pending.value, writes@[0]);
        }
    }
}

/// A `put` whose entry is not in the log yet goes on with writing the entry, and no other is done. When
/// it is done, the store and the file have the value for the key, and all else as before.
pub proof fn law_put_is_logged_first(
    store: &mut T4Store,
    pending: PendingPut,
    step: Result<PutStep, Error>,
    disk: Seq<u8>,
    map: Map<Seq<u8>, Seq<u8>>,
    value: Seq<u8>,
)
    requires
        call_ensures(T4Store::put_written, (store, pending), step),
        put_waits(*old(store), disk, map, pending, value),
    ensures
        match step {
            Ok(PutStep::Done) => pending.logged && disk::holds(*final(store), disk, map.insert(pending.key@, value)),
            Ok(PutStep::Write(writes, next)) => {
                &&& !pending.logged
                &&& next.logged
                &&& next.key@ == pending.key@
                &&& writes@.len() >= 1
                &&& put_waits(*final(store), disk::written(disk, writes@), map, next, value)
            },
            Err(err) => {
                &&& !pending.logged
                &&& *final(store) == *old(store)
                &&& match err {
                    Error::Format(FormatFault::LsnOverflow) => old(store).wal.next_lsn == u64::MAX,
                    Error::Format(FormatFault::FileTailOverflow) => page_full(old(store).wal, pending.key@)
                        && disk.len() + 4096 > u64::MAX,
                    _ => false,
                }
            },
        },
{
    let before = *old(store);
    let after = *final(store);
    match step {
        Ok(PutStep::Write(writes, next)) => {
            lemma_settling(before, after, disk, map, pending.key@, Some(pending.value), writes@);
            assert(disk::stored(disk, before.wal.chain@, pending.value));
        },
        Ok(PutStep::Done) => {
            lemma_settled(before, after, disk, map, map.insert(pending.key@, value), pending.key@);
        },
        Err(_) => {},
    }
}

/// A value that was put is what a read of its key gives, and a read of any other key gives what it gave
/// before.
pub proof fn law_put_is_read_back(
    store: &mut Store,
    key: Vec<u8>,
    value: Vec<u8>,
    first: Result<PutStep, Error>,
    placed: &mut T4Store,
    second: Result<PutStep, Error>,
    logged: &mut T4Store,
    third: Result<PutStep, Error>,
    reader: &Store,
    asked: &[u8],
    plan: Result<ReadPlan, Error>,
    disk: Seq<u8>,
    map: Map<Seq<u8>, Seq<u8>>,
)
    requires
        disk::holds(old(store).inner, disk, map),
        value@.len() > 0,
        call_ensures(Store::put, (store, key, value), first),
        first matches Ok(PutStep::Write(_, pending)) ==> {
            &&& *old(placed) == final(store).inner
            &&& call_ensures(T4Store::put_written, (placed, pending), second)
        },
        second matches Ok(PutStep::Write(_, pending)) ==> {
            &&& *old(logged) == *final(placed)
            &&& call_ensures(T4Store::put_written, (logged, pending), third)
        },
        third is Ok ==> reader.inner == *final(logged),
        call_ensures(Store::get, (reader, asked), plan),
        first is Ok,
        second is Ok,
    ensures
        first matches Ok(PutStep::Write(value_writes, _)) && second matches Ok(PutStep::Write(log_writes, _)) && {
            let after = disk::written(disk::written(disk, value_writes@), log_writes@);
            &&& third matches Ok(PutStep::Done)
            &&& disk::holds(reader.inner, after, map.insert(key@, value@))
            &&& asked@ == key@ ==> answers(plan, after, value@)
            &&& asked@ != key@ && asked@.len() <= 256 && map.dom().contains(asked@) ==> answers(
                plan,
                after,
                map[asked@],
            )
        },
{
    law_put_writes_first(store, key, value, first, disk, map);
    let value_writes = first->Ok_0->Write_0;
    let d1 = disk::written(disk, value_writes@);
    let pending = first->Ok_0->Write_1;
    law_put_is_logged_first(placed, pending, second, d1, map, value@);
    assert(!pending.logged);
    let log_writes = second->Ok_0->Write_0;
    let d2 = disk::written(d1, log_writes@);
    law_put_is_logged_first(logged, second->Ok_0->Write_1, third, d2, map, value@);
    law_get_answers(reader, asked, plan, d2, map.insert(key@, value@));
}

/// A key is answered with its value if and only if the map has it.
pub proof fn law_get_answers(
    store: &Store,
    key: &[u8],
    plan: Result<ReadPlan, Error>,
    disk: Seq<u8>,
    map: Map<Seq<u8>, Seq<u8>>,
)
    requires
        call_ensures(Store::get, (store, key), plan),
        disk::holds(store.inner, disk, map),
    ensures
        if key@.len() > 256 {
            plan == Err::<ReadPlan, Error>(Error::InvalidArgument(ArgumentFault::KeyTooLong))
        } else if map.dom().contains(key@) {
            answers(plan, disk, map[key@])
        } else {
            plan == Err::<ReadPlan, Error>(Error::NotFound)
        },
{
    if key@.len() <= 256 && map.dom().contains(key@) {
        let at = store.inner.index@[key@];
        assert(disk::stored(disk, store.inner.wal.chain@, at));
        layout::lemma_aligned_up(at.length as int, PAGE_SIZE as int);
        assert(map[key@] == disk::value_on(disk, at));
    }
}

/// A range is answered with that part of the value if it lies inside the value, and refused otherwise.
#[verifier::rlimit(50)]
pub proof fn law_get_range_answers(
    store: &Store,
    key: &[u8],
    start: u64,
    len: u64,
    plan: Result<ReadPlan, Error>,
    disk: Seq<u8>,
    map: Map<Seq<u8>, Seq<u8>>,
)
    requires
        call_ensures(Store::get_range, (store, key, start, len), plan),
        disk::holds(store.inner, disk, map),
    ensures
        if key@.len() > 256 {
            plan == Err::<ReadPlan, Error>(Error::InvalidArgument(ArgumentFault::KeyTooLong))
        } else if start > u32::MAX || len > u32::MAX {
            plan == Err::<ReadPlan, Error>(Error::RangeOutOfBounds)
        } else if !map.dom().contains(key@) {
            plan == Err::<ReadPlan, Error>(Error::NotFound)
        } else if start + len <= map[key@].len() {
            answers(plan, disk, map[key@].subrange(start as int, start + len))
        } else {
            plan == Err::<ReadPlan, Error>(Error::RangeOutOfBounds)
        },
{
    if key@.len() <= 256 && map.dom().contains(key@) && start <= u32::MAX && len <= u32::MAX {
        let at = store.inner.index@[key@];
        let range = layout::RangeRequestU32 { start: start as u32, len: len as u32 };
        disk::law_get_range(store.inner, disk, map, key@, range);
        assert(disk::stored(disk, store.inner.wal.chain@, at));
        assert(map[key@] == disk::value_on(disk, at));
        layout::lemma_aligned_up(at.offset + start, PAGE_SIZE as int);
        layout::lemma_aligned_up(at.offset + start + len, PAGE_SIZE as int);
        if start + len <= map[key@].len() && len > 0 {
            let window = plan->Ok_0->Read_0;
            let whole = disk::bytes_at(disk, window.offset as int, window.len as int);
            assert(disk.subrange(window.offset + window.start, window.offset + window.start + window.take)
                =~= whole.subrange(window.start as int, window.start + window.take));
        }
    }
}

/// What is taken out of the pages that a plan reads is the answer.
pub proof fn law_answer_is_extracted(
    window: &Window,
    buf: &ReadBuf,
    answer: Vec<u8>,
    disk: Seq<u8>,
    bytes: Seq<u8>,
)
    requires
        call_ensures(Window::extract, (window, buf), answer),
        answers(Ok(ReadPlan::Read(*window)), disk, bytes),
        buf@ == disk.subrange(window.offset as int, window.offset + window.len),
    ensures
        answer@ == bytes,
{
    assert(answer@ =~= bytes);
}

/// A `remove` writes a tombstone first; it is refused only for the length of the key or because a number
/// of 64 bits is used up, and then nothing has changed.
pub proof fn law_remove_is_logged_first(
    store: &mut Store,
    key: &[u8],
    started: Result<(T4Key, Vec<PageWrite>), Error>,
    disk: Seq<u8>,
    map: Map<Seq<u8>, Seq<u8>>,
)
    requires
        call_ensures(Store::remove, (store, key), started),
        disk::holds(old(store).inner, disk, map),
    ensures
        match started {
            Ok((owned, writes)) => {
                &&& key@.len() <= 256
                &&& owned@ == key@
                &&& writes@.len() >= 1
                &&& settling(
                    final(store).inner,
                    disk::written(disk, writes@),
                    map,
                    final(store).inner.index@.remove(key@),
                )
            },
            Err(err) => {
                &&& *final(store) == *old(store)
                &&& match err {
                    Error::InvalidArgument(ArgumentFault::KeyTooLong) => key@.len() > 256,
                    Error::Format(FormatFault::LsnOverflow) => old(store).inner.wal.next_lsn == u64::MAX,
                    Error::Format(FormatFault::FileTailOverflow) => page_full(old(store).inner.wal, key@)
                        && disk.len() + 4096 > u64::MAX,
                    _ => false,
                }
            },
        },
{
    if let Ok((owned, writes)) = started {
        lemma_settling(old(store).inner, final(store).inner, disk, map, key@, None, writes@);
    }
}

/// A `remove` whose tombstone is written takes the key out of the store and the file, says whether it
/// was there, and leaves all else as it was.
pub proof fn law_remove_forgets(
    store: &mut T4Store,
    key: &T4Key,
    existed: bool,
    disk: Seq<u8>,
    map: Map<Seq<u8>, Seq<u8>>,
)
    requires
        call_ensures(T4Store::remove_written, (store, key), existed),
        settling(*old(store), disk, map, old(store).index@.remove(key@)),
    ensures
        disk::holds(*final(store), disk, map.remove(key@)),
        existed == map.dom().contains(key@),
{
    lemma_settled(*old(store), *final(store), disk, map, map.remove(key@), key@);
}

/// The store has as many keys as the map.
pub proof fn law_len_counts(
    store: &Store,
    len: usize,
    empty: bool,
    disk: Seq<u8>,
    map: Map<Seq<u8>, Seq<u8>>,
)
    requires
        call_ensures(Store::len, (store,), len),
        call_ensures(Store::is_empty, (store,), empty),
        disk::holds(store.inner, disk, map),
    ensures
        len == map.dom().len(),
        empty == (map =~= Map::<Seq<u8>, Seq<u8>>::empty()),
{
    let index = store.inner.index@;
    if empty {
        assert(map =~= Map::<Seq<u8>, Seq<u8>>::empty());
    }
    if map =~= Map::<Seq<u8>, Seq<u8>>::empty() {
        assert(index =~= Map::<Seq<u8>, ValueRef>::empty());
    }
}

/// An empty file becomes an empty store with one write; a file that holds no whole page is refused.
pub proof fn law_mount_opens(options: &MountOptions, len: u64, step: Result<MountStep, Error>)
    requires
        call_ensures(T4Store::mount_with_options, (options, len), step),
    ensures
        if options.queue_depth == 0 {
            step == Err::<MountStep, Error>(Error::InvalidArgument(ArgumentFault::ZeroQueueDepth))
        } else if len == 0 {
            step matches Ok(MountStep::Create(write, store)) && {
                &&& disk::holds(store, disk::written(Seq::empty(), seq![write]), Map::empty())
                &&& write.offset == 0
                &&& write.buf@.len() == 4096
                &&& store.wal.next_lsn == 0
            }
        } else if len < 4096 {
            step == Err::<MountStep, Error>(Error::Format(FormatFault::ShortFile))
        } else {
            step matches Ok(MountStep::Replay(replay)) && replay.offset == 0 && replay.file_len == len
        },
{
    if let Ok(MountStep::Create(write, store)) = step {
        disk::law_created_store_is_empty(store, write);
        store.wal.tail.lemma_raw();
    }
}

/// The file of a store can be opened again: its log is read from the start of the file on.
pub proof fn law_mount_reads_the_log(
    options: &MountOptions,
    step: Result<MountStep, Error>,
    store: T4Store,
    disk: Seq<u8>,
    map: Map<Seq<u8>, Seq<u8>>,
)
    requires
        call_ensures(T4Store::mount_with_options, (options, disk.len() as u64), step),
        options.queue_depth > 0,
        disk::holds(store, disk, map),
    ensures
        step matches Ok(MountStep::Replay(replay)) && disk::replays(replay, store.wal, disk, 0),
{
    assert(disk::link_ok(disk, store.wal.chain@, 0));
    disk::law_replay_starts(store, disk, map, step->Ok_0->Replay_0);
}

/// The page that a replay asks for is a page of the log, and what comes of it is the next page to read,
/// or, after the last one, a store that stands for the same map.
pub proof fn law_mount_takes_in_a_page(
    store: T4Store,
    disk: Seq<u8>,
    map: Map<Seq<u8>, Seq<u8>>,
    replay: WalReplay,
    i: int,
    buf: ReadBuf,
    page: Result<WalPage, Error>,
    step: Result<ReplayStep, Error>,
)
    requires
        disk::holds(store, disk, map),
        disk::replays(replay, store.wal, disk, i),
        buf.wf(),
        buf@ == disk.subrange(replay.offset as int, replay.offset + 4096),
        call_ensures(Wal::read_page, (buf,), page),
        page matches Ok(page) ==> call_ensures(WalReplay::on_page, (replay, page), step),
    ensures
        page is Ok,
        match step {
            Ok(ReplayStep::ReadPage(next)) => disk::replays(next, store.wal, disk, i + 1),
            Ok(ReplayStep::Done(wal, index)) => {
                &&& i + 1 == store.wal.chain@.len()
                &&& disk::holds(T4Store { wal, index }, disk, map)
            },
            Err(_) => false,
        },
{
    assert(disk::link_ok(disk, store.wal.chain@, i));
    disk::law_replay_gives_back_the_map(store, disk, map, replay, i, page->Ok_0, step);
}

/// What opening a file gives: `out`, after at most `n` pages more.
pub open spec fn reopens(replay: WalReplay, disk: Seq<u8>, n: nat, out: T4Store) -> bool
    decreases n,
{
    n > 0 && exists|buf: ReadBuf, page: WalPage, step: Result<ReplayStep, Error>|
        {
            &&& #[trigger] call_ensures(Wal::read_page, (buf,), Ok::<WalPage, Error>(page))
            &&& #[trigger] call_ensures(WalReplay::on_page, (replay, page), step)
            &&& buf.wf()
            &&& buf@ == disk.subrange(replay.offset as int, replay.offset + 4096)
            &&& match step {
                Ok(ReplayStep::ReadPage(next)) => reopens(next, disk, (n - 1) as nat, out),
                Ok(ReplayStep::Done(wal, index)) => out == T4Store { wal, index },
                Err(_) => false,
            }
        }
}

/// Opening the file of a store gives a store that stands for the same map: every key that was put is
/// there with its value, and no key that was removed.
pub proof fn law_reopened_store_is_the_same(
    store: T4Store,
    disk: Seq<u8>,
    map: Map<Seq<u8>, Seq<u8>>,
    replay: WalReplay,
    i: int,
    n: nat,
    out: T4Store,
)
    requires
        disk::holds(store, disk, map),
        disk::replays(replay, store.wal, disk, i),
        reopens(replay, disk, n, out),
    ensures
        disk::holds(out, disk, map),
        n >= store.wal.chain@.len() - i,
    decreases n,
{
    let (buf, page, step) = choose|buf: ReadBuf, page: WalPage, step: Result<ReplayStep, Error>|
        {
            &&& #[trigger] call_ensures(Wal::read_page, (buf,), Ok::<WalPage, Error>(page))
            &&& #[trigger] call_ensures(WalReplay::on_page, (replay, page), step)
            &&& buf.wf()
            &&& buf@ == disk.subrange(replay.offset as int, replay.offset + 4096)
            &&& match step {
                Ok(ReplayStep::ReadPage(next)) => reopens(next, disk, (n - 1) as nat, out),
                Ok(ReplayStep::Done(wal, index)) => out == T4Store { wal, index },
                Err(_) => false,
            }
        };
    law_mount_takes_in_a_page(store, disk, map, replay, i, buf, Ok(page), step);
    if let Ok(ReplayStep::ReadPage(next)) = step {
        law_reopened_store_is_the_same(store, disk, map, next, i + 1, (n - 1) as nat, out);
    }
}

/// An entry that is appended is the last one of the log in the file, under the next sequence number. It
/// is refused only where there is no next number, or where it needs a new page and the file cannot grow
/// by one.
pub proof fn law_append_adds_an_entry(
    wal: &mut Wal,
    pending: AppendEntry,
    writes: Result<Vec<PageWrite>, Error>,
    disk: Seq<u8>,
    log: Seq<LogEntry>,
)
    requires
        call_ensures(Wal::append_entry, (wal, pending), writes),
        disk::logs(*old(wal), disk, log),
    ensures
        ({
            let (key, value) = match pending {
                AppendEntry::Live { key, offset, length } => (key@, Some(ValueRef { offset, length })),
                AppendEntry::Tombstone { key } => (key@, None),
            };
            match writes {
                Ok(writes) => {
                    &&& writes@.len() == if page_full(*old(wal), key) {
                        2int
                    } else {
                        1
                    }
                    &&& writes@[0].offset == old(wal).tail_offset
                    &&& page_full(*old(wal), key) ==> writes@[1].offset == disk.len()
                    &&& disk::logs(
                        *final(wal),
                        disk::written(disk, writes@),
                        log.push(LogEntry { key, value, lsn: old(wal).next_lsn }),
                    )
                    &&& final(wal).next_lsn == old(wal).next_lsn + 1
                    &&& disk::written(disk, writes@).len() == disk.len() + (if page_full(*old(wal), key) {
                        4096int
                    } else {
                        0
                    })
                },
                Err(err) => {
                    &&& *final(wal) == *old(wal)
                    &&& match err {
                        Error::Format(FormatFault::LsnOverflow) => old(wal).next_lsn == u64::MAX,
                        Error::Format(FormatFault::FileTailOverflow) => page_full(*old(wal), key) && disk.len() + 4096
                            > u64::MAX,
                        _ => false,
                    }
                },
            }
        }),
{
    if let Ok(writes) = writes {
        disk::lemma_appended(*old(wal), *final(wal), disk, pending.key(), pending.value(), writes@, log);
    }
}

/// A value is placed at the end of the file, which ends behind the last page of the value then; the write
/// is the value and zeroes up to the end of that page. An empty value takes no place. Nothing else of the
/// log has changed.
pub proof fn law_value_goes_to_the_end_of_the_file(
    wal: &mut Wal,
    value: &T4Value,
    placed: Result<(ValueRef, Option<PageWrite>), Error>,
    i: int,
)
    requires
        call_ensures(Wal::put, (wal, value), placed),
        old(wal).wf(),
    ensures
        match placed {
            Ok((at, None)) => value@.len() == 0 && at == (ValueRef { offset: 0, length: 0 }) && *final(wal) == *old(wal),
            Ok((at, Some(write))) => {
                &&& value@.len() > 0
                &&& at.offset == old(wal).file_tail
                &&& at.length == value@.len()
                &&& write.offset == at.offset
                &&& write.buf@.len() % 4096 == 0
                &&& value@.len() <= write.buf@.len() < value@.len() + 4096
                &&& 0 <= i < value@.len() ==> write.buf@[i] == value@[i]
                &&& value@.len() <= i < write.buf@.len() ==> write.buf@[i] == 0
                &&& final(wal).file_tail == old(wal).file_tail + write.buf@.len()
                &&& final(wal).tail == old(wal).tail
                &&& final(wal).tail_offset == old(wal).tail_offset
                &&& final(wal).next_lsn == old(wal).next_lsn
            },
            Err(err) => {
                &&& *final(wal) == *old(wal)
                &&& match err {
                    Error::InvalidArgument(ArgumentFault::AlignOverflow) => value@.len() + 4095 > u32::MAX,
                    Error::InvalidArgument(ArgumentFault::BufferLayout) => value@.len() + 8190 > isize::MAX,
                    Error::Format(FormatFault::FileTailOverflow) => old(wal).file_tail + value@.len() + 4095 > u64::MAX,
                    _ => false,
                }
            },
        },
{
    layout::lemma_aligned_up(value@.len() as int, PAGE_SIZE as int);
}

/// A tombstone is appended as any other entry is.
pub proof fn law_tombstone_is_an_entry(
    wal: &mut Wal,
    key: T4Key,
    writes: Result<Vec<PageWrite>, Error>,
    disk: Seq<u8>,
    log: Seq<LogEntry>,
)
    requires
        call_ensures(Wal::tombstone, (wal, key), writes),
        disk::logs(*old(wal), disk, log),
    ensures
        match writes {
            Ok(writes) => disk::logs(
                *final(wal),
                disk::written(disk, writes@),
                log.push(LogEntry { key: key@, value: None, lsn: old(wal).next_lsn }),
            ),
            Err(err) => {
                &&& *final(wal) == *old(wal)
                &&& old(wal).next_lsn == u64::MAX || (page_full(*old(wal), key@) && disk.len() + 4096 > u64::MAX)
            },
        },
{
    if let Ok(writes) = writes {
        disk::lemma_appended(*old(wal), *final(wal), disk, key@, None, writes@, log);
    }
}

/// The value of a `put` that waits for its entry in the log stays where it is, and as it is, while another
/// `put` starts.
pub proof fn law_waiting_value_survives_a_put(
    store: &mut Store,
    key: Vec<u8>,
    value: Vec<u8>,
    step: Result<PutStep, Error>,
    disk: Seq<u8>,
    map: Map<Seq<u8>, Seq<u8>>,
    waiting: PendingPut,
    first: Seq<u8>,
)
    requires
        put_waits(old(store).inner, disk, map, waiting, first),
        !waiting.logged,
        call_ensures(Store::put, (store, key, value), step),
    ensures
        step matches Ok(PutStep::Write(writes, _)) ==> {
            let after = disk::written(disk, writes@);
            &&& disk::stored(after, final(store).inner.wal.chain@, waiting.value)
            &&& disk::value_on(after, waiting.value) == first
        },
{
    let before = old(store).inner;
    let after = final(store).inner;
    if let Ok(PutStep::Write(writes, pending)) = step {
        assert(disk::stored(disk, before.wal.chain@, waiting.value));
        if value@.len() == 0 {
            lemma_settling(before, after, disk, map, key@, Some(pending.value), writes@);
        } else {
            assert(writes@ =~= seq![writes@[0]]);
            disk::law_value_written(before, after, disk, map, value@, pending.value, writes@[0]);
        }
    }
}

/// The value of a `put` that waits for its entry in the log stays where it is, and as it is, while a
/// `remove` starts, and while another `put` goes on.
pub proof fn law_waiting_value_survives_the_log(
    removing: &mut Store,
    key: &[u8],
    started: Result<(T4Key, Vec<PageWrite>), Error>,
    putting: &mut T4Store,
    pending: PendingPut,
    step: Result<PutStep, Error>,
    disk: Seq<u8>,
    map: Map<Seq<u8>, Seq<u8>>,
    waiting: PendingPut,
    first: Seq<u8>,
)
    requires
        put_waits(old(removing).inner, disk, map, waiting, first),
        !waiting.logged,
        *old(putting) == old(removing).inner,
        !pending.logged,
        call_ensures(Store::remove, (removing, key), started),
        call_ensures(T4Store::put_written, (putting, pending), step),
    ensures
        started matches Ok((_, writes)) ==> {
            let after = disk::written(disk, writes@);
            &&& disk::stored(after, final(removing).inner.wal.chain@, waiting.value)
            &&& disk::value_on(after, waiting.value) == first
        },
        step matches Ok(PutStep::Write(writes, _)) ==> {
            let after = disk::written(disk, writes@);
            &&& disk::stored(after, final(putting).wal.chain@, waiting.value)
            &&& disk::value_on(after, waiting.value) == first
        },
{
    let before = old(removing).inner;
    assert(disk::stored(disk, before.wal.chain@, waiting.value));
    if let Ok((_, writes)) = started {
        lemma_settling(before, final(removing).inner, disk, map, key@, None, writes@);
    }
    if let Ok(PutStep::Write(writes, _)) = step {
        lemma_settling(before, *final(putting), disk, map, pending.key@, Some(pending.value), writes@);
    }
}

/// Every call is allowed on every store, whatever the key, the value and the range.
pub proof fn law_store_takes_any_call(
    store: &mut Store,
    reader: &Store,
    key: Vec<u8>,
    value: Vec<u8>,
    bytes: &[u8],
    start: u64,
    len: u64,
    options: &MountOptions,
    buf: ReadBuf,
)
    requires
        old(store).inner.wf(),
        reader.inner.wf(),
        buf.wf(),
    ensures
        call_requires(Store::put, (store, key, value)),
        call_requires(Store::remove, (store, bytes)),
        call_requires(Store::get, (reader, bytes)),
        call_requires(Store::get_range, (reader, bytes, start, len)),
        call_requires(Store::len, (reader,)),
        call_requires(Store::is_empty, (reader,)),
        call_requires(T4Store::mount_with_options, (options, len)),
        call_requires(Wal::read_page, (buf,)),
{
}

/// What a call hands out can be taken in again, as long as there is a number for every key.
pub proof fn law_store_takes_its_steps(
    store: &mut T4Store,
    pending: PendingPut,
    key: &T4Key,
    replay: WalReplay,
    page: WalPage,
)
    requires
        old(store).wf(),
        old(store).index@.dom().len() < usize::MAX,
        replay.wf(),
        page.wf(),
        replay.state@.index.dom().len() + 4096 <= usize::MAX,
    ensures
        call_requires(T4Store::put_written, (store, pending)),
        call_requires(T4Store::remove_written, (store, key)),
        call_requires(WalReplay::on_page, (replay, page)),
{
}

/// What a plan reads can be taken out of a buffer of that length.
pub proof fn law_plans_can_be_extracted(
    store: &Store,
    key: &[u8],
    start: u64,
    len: u64,
    whole: Result<ReadPlan, Error>,
    part: Result<ReadPlan, Error>,
    buf: &ReadBuf,
)
    requires
        call_ensures(Store::get, (store, key), whole),
        call_ensures(Store::get_range, (store, key, start, len), part),
        buf.wf(),
    ensures
        whole matches Ok(ReadPlan::Read(window)) ==> (buf@.len() == window.len ==> call_requires(
            Window::extract,
            (&window, buf),
        )),
        part matches Ok(ReadPlan::Read(window)) ==> (buf@.len() == window.len ==> call_requires(
            Window::extract,
            (&window, buf),
        )),
{
}

/// The file is opened for direct I/O if and only if that is asked for, and so for synchronous writes.
pub proof fn law_flags_are_those_asked_for(
    on: &MountOptions,
    o_direct: i32,
    o_dsync: i32,
    flags: i32,
)
    requires
        call_ensures(MountOptions::custom_flags, (on, o_direct, o_dsync), flags),
    ensures
        on.direct_io ==> flags & o_direct == o_direct,
        on.dsync ==> flags & o_dsync == o_dsync,
        !on.direct_io && !on.dsync ==> flags == 0,
        !on.direct_io && on.dsync ==> flags == o_dsync,
        on.direct_io && !on.dsync ==> flags == o_direct,
{
    assert((0i32 | o_direct | o_dsync) & o_direct == o_direct) by (bit_vector);
    assert((0i32 | o_direct | o_dsync) & o_dsync == o_dsync) by (bit_vector);
    assert((0i32 | o_direct) & o_direct == o_direct && (0i32 | o_direct) == o_direct) by (bit_vector);
    assert((0i32 | o_dsync) & o_dsync == o_dsync && (0i32 | o_dsync) == o_dsync) by (bit_vector);
}

/// With the default options a store can be opened; it is on the disk when a write is done, past the cache
/// of the system, and one thread does its I/O.
pub proof fn law_defaults_open_a_store(
    options: MountOptions,
    kind: IoBackendKind,
    step: Result<MountStep, Error>,
)
    requires
        call_ensures(<MountOptions as Default>::default, (), options),
        call_ensures(<IoBackendKind as Default>::default, (), kind),
        call_ensures(T4Store::mount_with_options, (&options, 0u64), step),
    ensures
        options.direct_io,
        options.dsync,
        options.io_backend == kind,
        kind == IoBackendKind::DedicatedThread,
        step is Ok,
{
}

/// A store that is closed and opened again answers every question as before: keys that were put are there
/// with their values, keys that were removed are not.
pub proof fn law_remount_keeps_everything(
    store: T4Store,
    disk: Seq<u8>,
    map: Map<Seq<u8>, Seq<u8>>,
    options: &MountOptions,
    step: Result<MountStep, Error>,
    n: nat,
    reopened: &Store,
    asked: &[u8],
    plan: Result<ReadPlan, Error>,
    len: usize,
)
    requires
        disk::holds(store, disk, map),
        options.queue_depth > 0,
        call_ensures(T4Store::mount_with_options, (options, disk.len() as u64), step),
        step matches Ok(MountStep::Replay(replay)) ==> reopens(replay, disk, n, reopened.inner),
        call_ensures(Store::get, (reopened, asked), plan),
        call_ensures(Store::len, (reopened,), len),
        asked@.len() <= 256,
    ensures
        step matches Ok(MountStep::Replay(_)),
        disk::holds(reopened.inner, disk, map),
        len == map.dom().len(),
        if map.dom().contains(asked@) {
            answers(plan, disk, map[asked@])
        } else {
            plan == Err::<ReadPlan, Error>(Error::NotFound)
        },
{
    law_mount_reads_the_log(options, step, store, disk, map);
    let replay = step->Ok_0->Replay_0;
    law_reopened_store_is_the_same(store, disk, map, replay, 0, n, reopened.inner);
    law_get_answers(reopened, asked, plan, disk, map);
    assert(map.dom() == reopened.inner.index@.dom());
}

/// A value that was put is there after the store was closed and opened again.
pub proof fn law_put_survives_a_remount(
    store: &mut T4Store,
    pending: PendingPut,
    step: Result<PutStep, Error>,
    disk: Seq<u8>,
    map: Map<Seq<u8>, Seq<u8>>,
    value: Seq<u8>,
    options: &MountOptions,
    mounted: Result<MountStep, Error>,
    n: nat,
    reopened: &Store,
    asked: &[u8],
    plan: Result<ReadPlan, Error>,
    len: usize,
)
    requires
        put_waits(*old(store), disk, map, pending, value),
        call_ensures(T4Store::put_written, (store, pending), step),
        step matches Ok(PutStep::Done),
        options.queue_depth > 0,
        call_ensures(T4Store::mount_with_options, (options, disk.len() as u64), mounted),
        mounted matches Ok(MountStep::Replay(replay)) ==> reopens(replay, disk, n, reopened.inner),
        asked@ == pending.key@,
        asked@.len() <= 256,
        call_ensures(Store::get, (reopened, asked), plan),
        call_ensures(Store::len, (reopened,), len),
    ensures
        answers(plan, disk, value),
{
    law_put_is_logged_first(store, pending, step, disk, map, value);
    law_remount_keeps_everything(
        *final(store),
        disk,
        map.insert(pending.key@, value),
        options,
        mounted,
        n,
        reopened,
        asked,
        plan,
        len,
    );
}

/// A key that was removed is not there, neither in the store nor after it was closed and opened again.
pub proof fn law_removed_key_is_gone(
    store: &mut T4Store,
    key: &T4Key,
    existed: bool,
    disk: Seq<u8>,
    map: Map<Seq<u8>, Seq<u8>>,
    options: &MountOptions,
    mounted: Result<MountStep, Error>,
    n: nat,
    reader: &Store,
    reopened: &Store,
    asked: &[u8],
    plans: (Result<ReadPlan, Error>, Result<ReadPlan, Error>),
    len: usize,
)
    requires
        settling(*old(store), disk, map, old(store).index@.remove(key@)),
        call_ensures(T4Store::remove_written, (store, key), existed),
        reader.inner == *final(store),
        options.queue_depth > 0,
        call_ensures(T4Store::mount_with_options, (options, disk.len() as u64), mounted),
        mounted matches Ok(MountStep::Replay(replay)) ==> reopens(replay, disk, n, reopened.inner),
        asked@ == key@,
        asked@.len() <= 256,
        call_ensures(Store::get, (reader, asked), plans.0),
        call_ensures(Store::get, (reopened, asked), plans.1),
        call_ensures(Store::len, (reopened,), len),
    ensures
        plans.0 == Err::<ReadPlan, Error>(Error::NotFound),
        plans.1 == Err::<ReadPlan, Error>(Error::NotFound),
{
    law_remove_forgets(store, key, existed, disk, map);
    law_get_answers(reader, asked, plans.0, disk, map.remove(key@));
    law_remount_keeps_everything(
        *final(store),
        disk,
        map.remove(key@),
        options,
        mounted,
        n,
        reopened,
        asked,
        plans.1,
        len,
    );
}

/// The same of keys and values that are checked already: a `put` is not done before it has written
/// something, and once that is written the value is in the file.
pub proof fn law_checked_put_writes_first(
    store: &mut T4Store,
    key: T4Key,
    value: &T4Value,
    step: Result<PutStep, Error>,
    disk: Seq<u8>,
    map: Map<Seq<u8>, Seq<u8>>,
)
    requires
        call_ensures(T4Store::put, (store, key, value), step),
        disk::holds(*old(store), disk, map),
    ensures
        match step {
            Ok(PutStep::Done) => false,
            Ok(PutStep::Write(writes, pending)) => {
                &&& writes@.len() >= 1
                &&& value@.len() > 0 ==> writes@.len() == 1 && writes@[0].offset == disk.len()
                &&& pending.key@ == key@
                &&& put_waits(*final(store), disk::written(disk, writes@), map, pending, value@)
            },
            Err(err) => {
                let pages = (value@.len() + 4095) / 4096;
                &&& *final(store) == *old(store)
                &&& match err {
                    Error::InvalidArgument(ArgumentFault::AlignOverflow) => pages * 4096 > u32::MAX,
                    Error::InvalidArgument(ArgumentFault::BufferLayout) => pages * 4096 > isize::MAX - 4095,
                    Error::Format(FormatFault::LsnOverflow) => value@.len() == 0 && old(store).wal.next_lsn == u64::MAX,
                    Error::Format(FormatFault::FileTailOverflow) => if value@.len() == 0 {
                        page_full(old(store).wal, key@) && disk.len() + 4096 > u64::MAX
                    } else {
                        disk.len() + pages * 4096 > u64::MAX
                    },
                    _ => false,
                }
            },
        },
{
    let before = *old(store);
    let after = *final(store);
    if let Ok(PutStep::Write(writes, pending)) = step {
        if value@.len() == 0 {
            lemma_settling(before, after, disk, map, key@, Some(pending.value), writes@);
            assert(disk::value_on(disk::written(disk, writes@), pending.value) =~= value@);
        } else {
            assert(writes@ =~= seq![writes@[0]]);
            disk::law_value_written(before, after, disk, map, value@, pending.value, writes@[0]);
        }
    }
}

/// The same of keys that are checked already: a key is answered with its value if and only if the map has
/// it.
pub proof fn law_checked_get_answers(
    store: &T4Store,
    key: &T4KeyRef<'_>,
    plan: Result<ReadPlan, Error>,
    disk: Seq<u8>,
    map: Map<Seq<u8>, Seq<u8>>,
)
    requires
        call_ensures(T4Store::get, (store, key), plan),
        disk::holds(*store, disk, map),
    ensures
        if map.dom().contains(key@) {
            answers(plan, disk, map[key@])
        } else {
            plan == Err::<ReadPlan, Error>(Error::NotFound)
        },
{
    if map.dom().contains(key@) {
        let at = store.index@[key@];
        assert(disk::stored(disk, store.wal.chain@, at));
        layout::lemma_aligned_up(at.length as int, PAGE_SIZE as int);
        assert(map[key@] == disk::value_on(disk, at));
    }
}

/// The same of keys and ranges that are checked already: a range is answered with that part of the value
/// if it lies inside the value, and refused otherwise.
#[verifier::rlimit(50)]
pub proof fn law_checked_get_range_answers(
    store: &T4Store,
    key: &T4KeyRef<'_>,
    range: RangeRequestU32,
    plan: Result<ReadPlan, Error>,
    disk: Seq<u8>,
    map: Map<Seq<u8>, Seq<u8>>,
)
    requires
        call_ensures(T4Store::get_range, (store, key, range), plan),
        disk::holds(*store, disk, map),
    ensures
        if !map.dom().contains(key@) {
            plan == Err::<ReadPlan, Error>(Error::NotFound)
        } else if range.start + range.len <= map[key@].len() {
            answers(plan, disk, map[key@].subrange(range.start as int, range.start + range.len))
        } else {
            plan == Err::<ReadPlan, Error>(Error::RangeOutOfBounds)
        },
{
    if map.dom().contains(key@) {
        let at = store.index@[key@];
        disk::law_get_range(*store, disk, map, key@, range);
        assert(disk::stored(disk, store.wal.chain@, at));
        assert(map[key@] == disk::value_on(disk, at));
        layout::lemma_aligned_up(at.offset + range.start, PAGE_SIZE as int);
        layout::lemma_aligned_up(at.offset + range.start + range.len, PAGE_SIZE as int);
        if range.start + range.len <= map[key@].len() && range.len > 0 {
            let window = plan->Ok_0->Read_0;
            let whole = disk::bytes_at(disk, window.offset as int, window.len as int);
            assert(disk.subrange(window.offset + window.start, window.offset + window.start + window.take)
                =~= whole.subrange(window.start as int, window.start + window.take));
        }
    }
}

/// The same of keys that are checked already: a `remove` writes a tombstone first.
pub proof fn law_checked_remove_is_logged_first(
    store: &mut T4Store,
    key: &T4Key,
    writes: Result<Vec<PageWrite>, Error>,
    disk: Seq<u8>,
    map: Map<Seq<u8>, Seq<u8>>,
)
    requires
        call_ensures(T4Store::remove, (store, key), writes),
        disk::holds(*old(store), disk, map),
    ensures
        match writes {
            Ok(writes) => {
                &&& writes@.len() >= 1
                &&& settling(*final(store), disk::written(disk, writes@), map, final(store).index@.remove(key@))
            },
            Err(err) => {
                &&& *final(store) == *old(store)
                &&& match err {
                    Error::Format(FormatFault::LsnOverflow) => old(store).wal.next_lsn == u64::MAX,
                    Error::Format(FormatFault::FileTailOverflow) => page_full(old(store).wal, key@) && disk.len() + 4096
                        > u64::MAX,
                    _ => false,
                }
            },
        },
{
    if let Ok(writes) = writes {
        lemma_settling(*old(store), *final(store), disk, map, key@, None, writes@);
    }
}

/// The log of a new store, once it is written, has no entry and is one page.
pub proof fn law_new_log_is_empty(created: Result<(Wal, PageWrite), Error>)
    requires
        call_ensures(Wal::create, (), created),
    ensures
        created matches Ok((wal, write)) && {
            &&& disk::logs(wal, disk::written(Seq::empty(), seq![write]), Seq::empty())
            &&& wal.file_tail == 4096
            &&& wal.next_lsn == 0
            &&& write.offset == 0
        },
{
    let (wal, write) = created->Ok_0;
    let disk = disk::written(Seq::empty(), seq![write]);
    wal.tail.lemma_raw();
    assert(seq![write].drop_last() =~= Seq::<PageWrite>::empty());
    assert(disk::written(Seq::empty(), seq![write].drop_last()) == Seq::<u8>::empty());
    assert(disk == disk::overwritten(Seq::empty(), 0, write.buf@));
    assert(disk::bytes_at(disk, 0, 4096) =~= write.buf@);
    let chain = wal.chain@;
    assert(disk::page_on(disk, 0) == Some(wal.tail@));
    assert(disk::link_ok(disk, chain, 0));
    assert(chain.drop_last() =~= Seq::<u64>::empty());
    assert(disk::log_on(disk, chain.drop_last()) == Seq::<LogEntry>::empty());
    assert(disk::log_on(disk, chain) =~= Seq::<LogEntry>::empty());
}

/// A log is replayed from the first page on, with nothing known, and only where there is a whole page.
pub proof fn law_replay_begins_with_nothing(len: u64, replay: Result<WalReplay, Error>, key: Seq<u8>)
    requires
        call_ensures(WalReplay::begin, (len,), replay),
    ensures
        match replay {
            Ok(replay) => {
                &&& len >= 4096
                &&& replay.offset == 0
                &&& replay.file_len == len
                &&& !replay.state@.index.dom().contains(key)
            },
            Err(err) => len < 4096 && err == Error::Format(FormatFault::ShortFile),
        },
{
}

/// A store counts its keys whether it is asked through its handle or not.
pub proof fn law_handle_counts_alike(
    store: &Store,
    lens: (usize, usize),
    empties: (bool, bool),
)
    requires
        call_ensures(Store::len, (store,), lens.0),
        call_ensures(T4Store::len, (&store.inner,), lens.1),
        call_ensures(Store::is_empty, (store,), empties.0),
        call_ensures(T4Store::is_empty, (&store.inner,), empties.1),
    ensures
        lens.0 == lens.1,
        empties.0 == empties.1,
{
}

} // verus!
