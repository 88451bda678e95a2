//! What holds of the pages of the log, of keys, values and buffers, and of the index, whatever their
//! functions do inside.
//!
//! Each law is about the calls themselves: it holds of every outcome that the function may have.

use crate::buffer;
use crate::buffer::{AlignedBuf, ReadBuf};
use crate::codec;
use crate::codec::{read_le, write_le};
use crate::error::{ArgumentFault, Error, FormatFault};
use crate::index::Index;
use crate::input_kv::{copy_bytes, same_bytes, T4Key, T4KeyRef, T4Value, ValueRef};
use crate::layout;
use crate::layout::{CheckedRangeU32, RangeRequestU32, Reservation};
use crate::wal::{ReplayStep, Wal, WalReplay};
use crate::wal_page;
use crate::wal_page::{read_entry, AppendEntry, LogEntry, WalEntry, WalPage};
use crate::wal_replay;
use crate::PAGE_SIZE;
use vstd::prelude::*;

verus! {

/// An integer that was written is read again, and no byte beside it has changed.
pub proof fn law_integers_are_read_back<const N: usize>(
    bytes: &mut [u8; N],
    at: usize,
    n: usize,
    value: u64,
    slice: &[u8],
    back: u64,
    i: int,
)
    requires
        call_ensures(write_le::<N>, (bytes, at, n, value), ()),
        slice@ == final(bytes)@,
        call_ensures(read_le, (slice, at, n), back),
        0 <= i < N,
    ensures
        back == value,
        i < at || at + n <= i ==> final(bytes)@[i] == old(bytes)@[i],
{
}

/// The bytes of an integer, put together from the least significant one on, are the integer.
pub proof fn law_integers_are_little_endian(slice: &[u8], at: usize, first: u64, rest: u64, n: usize)
    requires
        n > 0,
        call_ensures(read_le, (slice, at, n), first),
        call_ensures(read_le, ((slice), (at + 1) as usize, (n - 1) as usize), rest),
        at < usize::MAX,
    ensures
        first == slice@[at as int] + 256 * rest,
{
}

/// Aligning up gives the least multiple from the value on, and fails only where that does not fit.
pub proof fn law_align_up_is_least(value: u64, alignment: u64, aligned: Option<u64>, other: int)
    requires
        alignment > 0,
        call_ensures(layout::align_up_u64, (value, alignment), aligned),
        other % (alignment as int) == 0,
        value <= other,
    ensures
        match aligned {
            Some(aligned) => value <= aligned <= other && aligned % alignment == 0,
            None => other > u64::MAX,
        },
{
    lemma_least(value as int, alignment as int, other);
}

/// Aligning up gives the least multiple from the value on, and fails only where that does not fit.
pub proof fn law_align_up_u32_is_least(
    value: u32,
    alignment: u32,
    aligned: Option<u32>,
    checked: Result<u32, Error>,
    other: int,
)
    requires
        alignment > 0,
        call_ensures(layout::align_up_u32, (value, alignment), aligned),
        call_ensures(buffer::align_up_u32, (value, alignment), checked),
        other % (alignment as int) == 0,
        value <= other,
    ensures
        match aligned {
            Some(aligned) => value <= aligned <= other && aligned % alignment == 0 && checked == Ok::<u32, Error>(
                aligned,
            ),
            None => other > u32::MAX && checked == Err::<u32, Error>(
                Error::InvalidArgument(ArgumentFault::AlignOverflow),
            ),
        },
{
    lemma_least(value as int, alignment as int, other);
}

/// Aligning down gives the greatest multiple up to the value.
pub proof fn law_align_down_is_greatest(value: u64, alignment: u64, aligned: u64, other: int)
    requires
        alignment > 0,
        call_ensures(layout::align_down_u64, (value, alignment), aligned),
        other % (alignment as int) == 0,
        other <= value,
    ensures
        other <= aligned <= value,
        aligned % alignment == 0,
{
    lemma_greatest(value as int, alignment as int, other);
}

proof fn lemma_least(value: int, alignment: int, other: int)
    requires
        alignment > 0,
        other % alignment == 0,
        value <= other,
    ensures
        value <= layout::aligned_up(value, alignment) <= other,
        layout::aligned_up(value, alignment) % alignment == 0,
{
    layout::lemma_aligned_up(value, alignment);
    let up = layout::aligned_up(value, alignment);
    vstd::arithmetic::div_mod::lemma_fundamental_div_mod(up, alignment);
    vstd::arithmetic::div_mod::lemma_fundamental_div_mod(other, alignment);
    let p = up / alignment;
    let q = other / alignment;
    assert(up <= other) by (nonlinear_arith)
        requires
            up == alignment * p,
            other == alignment * q,
            up < value + alignment,
            value <= other,
            alignment > 0,
    ;
}

proof fn lemma_greatest(value: int, alignment: int, other: int)
    requires
        alignment > 0,
        other % alignment == 0,
        other <= value,
    ensures
        other <= layout::aligned_down(value, alignment) <= value,
        layout::aligned_down(value, alignment) % alignment == 0,
{
    layout::lemma_aligned_up(value, alignment);
    let down = layout::aligned_down(value, alignment);
    vstd::arithmetic::div_mod::lemma_fundamental_div_mod(down, alignment);
    vstd::arithmetic::div_mod::lemma_fundamental_div_mod(other, alignment);
    let p = down / alignment;
    let q = other / alignment;
    assert(other <= down) by (nonlinear_arith)
        requires
            down == alignment * p,
            other == alignment * q,
            value - alignment < down,
            other <= value,
            alignment > 0,
    ;
}

/// What is reserved one after the other does not overlap, and nothing is left out in between.
pub proof fn law_reservations_follow(
    tail: u64,
    len: u32,
    first: Option<Reservation>,
    more: u32,
    second: Option<Reservation>,
)
    requires
        call_ensures(layout::reserve_space, (tail, len), first),
        first matches Some(first) ==> call_ensures(layout::reserve_space, (first.next_tail, more), second),
    ensures
        first is None <==> tail + len > u64::MAX,
        first matches Some(first) ==> {
            &&& first.offset == tail
            &&& second matches Some(second) ==> second.offset == first.offset + len && second.next_tail == tail + len
                + more
        },
{
}

/// Sequence numbers go up by one, up to the last one.
pub proof fn law_sequence_numbers_go_up(lsn: u64, next: Option<u64>)
    requires
        call_ensures(layout::allocate_next_lsn, (lsn,), next),
    ensures
        match next {
            Some(next) => next == lsn + 1,
            None => lsn == u64::MAX,
        },
{
}

/// A range is accepted if and only if it lies inside the value, and is then the one that was asked for.
pub proof fn law_ranges_are_checked(
    start: u64,
    len: u64,
    value_len: u32,
    range: Option<RangeRequestU32>,
    checked: Option<CheckedRangeU32>,
    bounds: (u32, u32, u32, bool),
)
    requires
        call_ensures(RangeRequestU32::from_u64, (start, len), range),
        range matches Some(range) ==> call_ensures(RangeRequestU32::checked_against, (range, value_len), checked),
        range is None ==> checked is None,
        checked matches Some(checked) ==> {
            &&& call_ensures(CheckedRangeU32::start, (&checked,), bounds.0)
            &&& call_ensures(CheckedRangeU32::end, (&checked,), bounds.1)
            &&& call_ensures(CheckedRangeU32::len, (&checked,), bounds.2)
            &&& call_ensures(CheckedRangeU32::is_empty, (&checked,), bounds.3)
        },
    ensures
        checked is Some <==> start + len <= value_len,
        checked is Some ==> bounds == (start as u32, (start + len) as u32, len as u32, len == 0),
{
}

/// A key has at most 256 bytes, and is those bytes.
pub proof fn law_keys_are_short(
    owned: Vec<u8>,
    borrowed: &[u8],
    from_vec: Result<T4Key, Error>,
    from_slice: Result<T4Key, Error>,
    by_ref: Result<T4KeyRef, Error>,
)
    requires
        owned@ == borrowed@,
        call_ensures(T4Key::try_from_vec, (owned,), from_vec),
        call_ensures(T4Key::try_from_slice, (borrowed,), from_slice),
        call_ensures(T4KeyRef::try_from_slice, (borrowed,), by_ref),
    ensures
        match (from_vec, from_slice, by_ref) {
            (Ok(a), Ok(b), Ok(c)) => borrowed@.len() <= 256 && a@ == borrowed@ && b@ == borrowed@ && c@ == borrowed@,
            (Err(a), Err(b), Err(c)) => borrowed@.len() > 256 && a == Error::InvalidArgument(ArgumentFault::KeyTooLong)
                && b == a && c == a,
            _ => false,
        },
{
}

/// The length of a value fits 32 bits, and a value is its bytes.
pub proof fn law_values_fit(bytes: Vec<u8>, value: Result<T4Value, Error>)
    requires
        call_ensures(T4Value::try_from_vec, (bytes,), value),
    ensures
        match value {
            Ok(value) => bytes@.len() <= 0xffff_ffff && value@ == bytes@,
            Err(err) => bytes@.len() > 0xffff_ffff && err == Error::InvalidArgument(ArgumentFault::ValueTooLong),
        },
{
}

/// A padded buffer is the bytes and zeroes behind them, up to the end of the last page that they touch.
pub proof fn law_padding_fills_the_last_page(src: &[u8], buf: Result<AlignedBuf, Error>, i: int)
    requires
        call_ensures(AlignedBuf::from_padded_slice, (src,), buf),
    ensures
        match buf {
            Ok(buf) => {
                &&& buf@.len() % 4096 == 0
                &&& 0 < src@.len() <= buf@.len() < src@.len() + 4096
                &&& 0 <= i < src@.len() ==> buf@[i] == src@[i]
                &&& src@.len() <= i < buf@.len() ==> buf@[i] == 0
            },
            Err(err) => match err {
                Error::InvalidArgument(ArgumentFault::EmptySource) => src@.len() == 0,
                Error::InvalidArgument(ArgumentFault::SourceTooLong) => src@.len() > u32::MAX,
                Error::InvalidArgument(ArgumentFault::AlignOverflow) => src@.len() + 4095 > u32::MAX,
                Error::InvalidArgument(ArgumentFault::BufferLayout) => src@.len() + 8190 > isize::MAX,
                _ => false,
            },
        },
{
    layout::lemma_aligned_up(src@.len() as int, PAGE_SIZE as int);
}

/// A new buffer has the length that was asked for, and is all zeroes.
pub proof fn law_new_buffers_are_zero(len: u32, buf: Result<AlignedBuf, Error>, i: int)
    requires
        call_ensures(AlignedBuf::new_zeroed, (len,), buf),
    ensures
        match buf {
            Ok(buf) => buf@.len() == len && (0 <= i < len ==> buf@[i] == 0),
            Err(err) => len + 4095 > isize::MAX && err == Error::InvalidArgument(ArgumentFault::BufferLayout),
        },
{
}

/// What is copied into a buffer is what is in it, and a buffer of one page can be taken as a page.
pub proof fn law_pages_keep_their_bytes(
    buf: &mut AlignedBuf,
    src: &[u8],
    slice: &[u8],
    page: Result<Box<[u8; PAGE_SIZE]>, Error>,
    read: Result<Box<[u8; PAGE_SIZE]>, Error>,
)
    requires
        call_ensures(AlignedBuf::copy_from_slice, (buf, src), ()),
        call_ensures(AlignedBuf::as_slice, (final(buf),), slice),
        call_ensures(AlignedBuf::try_into_boxed_array, (*final(buf),), page),
        call_ensures(ReadBuf::try_into_boxed_page, (ReadBuf::Aligned(*final(buf)),), read),
    ensures
        slice@ == src@,
        match page {
            Ok(page) => src@.len() == 4096 && page@ == src@ && read is Ok && read->Ok_0@ == src@,
            Err(_) => src@.len() != 4096 && read is Err,
        },
{
}

/// What was put into the index is found there, what was removed is not, and no other key is touched.
pub proof fn law_index_is_a_map(
    index: &mut Index,
    key: T4Key,
    value: ValueRef,
    removed: &mut Index,
    gone: &[u8],
    existed: bool,
    asked: &[u8],
    before: Option<ValueRef>,
    between: Option<ValueRef>,
    after: Option<ValueRef>,
)
    requires
        call_ensures(Index::get, (&*old(index), asked), before),
        call_ensures(Index::insert, (index, key, value), ()),
        call_ensures(Index::get, (final(index), asked), between),
        *old(removed) == *final(index),
        call_ensures(Index::remove, (removed, gone), existed),
        call_ensures(Index::get, (final(removed), asked), after),
    ensures
        between == (if asked@ == key@ {
            Some(value)
        } else {
            before
        }),
        after == (if asked@ == gone@ {
            None
        } else {
            between
        }),
        asked@ == gone@ ==> existed == between is Some,
{
}

/// A new index has no key, and the number of keys goes up by one with a new key and stays with a known
/// one.
pub proof fn law_index_counts(
    fresh: Index,
    none: Option<ValueRef>,
    asked: &[u8],
    zero: usize,
    index: &mut Index,
    key: T4Key,
    value: ValueRef,
    lens: (usize, usize),
    known: Option<ValueRef>,
    key_bytes: &[u8],
)
    requires
        call_ensures(Index::new, (), fresh),
        call_ensures(Index::get, (&fresh, asked), none),
        call_ensures(Index::len, (&fresh,), zero),
        old(index).wf(),
        key_bytes@ == key@,
        call_ensures(Index::len, (&*old(index),), lens.0),
        call_ensures(Index::get, (&*old(index), key_bytes), known),
        call_ensures(Index::insert, (index, key, value), ()),
        call_ensures(Index::len, (final(index),), lens.1),
    ensures
        none is None,
        zero == 0,
        lens.1 == lens.0 + (if known is Some {
            0int
        } else {
            1
        }),
{
    old(index).lemma_finite();
    if known is Some {
        assert(old(index)@.dom().insert(key@) =~= old(index)@.dom());
    }
    assert(final(index)@.dom() =~= old(index)@.dom().insert(key@));
}

/// A page without entries has none, is linked to nothing, and every page starts with the same eight
/// bytes: bytes that do not are no page.
pub proof fn law_pages_start_alike(
    empty: WalPage,
    entries: Vec<WalEntry>,
    next: u64,
    bytes: Box<[u8; PAGE_SIZE]>,
    page: Result<WalPage, Error>,
)
    requires
        call_ensures(WalPage::empty, (), empty),
        call_ensures(WalPage::entries, (&empty,), entries),
        call_ensures(WalPage::next_page, (&empty,), next),
        call_ensures(WalPage::from_bytes, (bytes,), page),
    ensures
        entries@.len() == 0,
        next == 0,
        ({
            let magic = bytes@.subrange(0, 4) == empty.raw().subrange(0, 4);
            let version = bytes@.subrange(4, 8) == empty.raw().subrange(4, 8);
            match page {
                Ok(page) => magic && version && page.raw() == bytes@,
                Err(err) => if !magic {
                    err == Error::Format(FormatFault::BadMagic)
                } else if !version {
                    err == Error::Format(FormatFault::BadVersion)
                } else {
                    err == Error::Format(FormatFault::BadEntry)
                },
            }
        }),
{
    empty.lemma_raw();
    assert(bytes@.len() == PAGE_SIZE);
    codec::lemma_le_bytes(bytes@, 0, 4);
    codec::lemma_le_bytes(bytes@, 4, 4);
    codec::lemma_le_bytes(empty.raw(), 0, 4);
    codec::lemma_le_bytes(empty.raw(), 4, 4);
    lemma_le_of(bytes@, empty.raw(), 0, 4);
    lemma_le_of(bytes@, empty.raw(), 4, 4);
}

/// The same bytes are the same integer.
proof fn lemma_le_of(a: Seq<u8>, b: Seq<u8>, at: int, n: nat)
    requires
        0 <= at,
        at + n <= a.len(),
        at + n <= b.len(),
    ensures
        a.subrange(at, at + n) == b.subrange(at, at + n) ==> codec::le_at(a, at, n) == codec::le_at(b, at, n),
{
    if a.subrange(at, at + n) == b.subrange(at, at + n) {
        assert forall|i: int| 0 <= i < n implies #[trigger] a[at + i] == b[at + i] by {
            assert(a.subrange(at, at + n)[i] == a[at + i]);
            assert(b.subrange(at, at + n)[i] == b[at + i]);
        }
        codec::lemma_le_same(a, b, at, at, n);
    }
}

/// An entry that was appended is the last one that the page has, the others are as they were, and so is
/// the link. An entry is refused if and only if it does not fit behind the others, and then nothing has
/// changed.
pub proof fn law_appended_entry_is_the_last(
    page: &mut WalPage,
    pending: &AppendEntry,
    lsn: u64,
    fits: bool,
    done: Result<(), Error>,
    before: Vec<WalEntry>,
    after: Vec<WalEntry>,
    links: (u64, u64),
)
    requires
        old(page).wf(),
        call_ensures(WalPage::entries, (&*old(page),), before),
        call_ensures(WalPage::next_page, (&*old(page),), links.0),
        call_ensures(WalPage::can_fit, (&*old(page), pending), fits),
        call_ensures(WalPage::append, (page, pending, lsn), done),
        call_ensures(WalPage::entries, (final(page),), after),
        call_ensures(WalPage::next_page, (final(page),), links.1),
    ensures
        done is Ok <==> fits,
        links.0 == links.1,
        ({
            let (key, value) = match *pending {
                AppendEntry::Live { key, offset, length } => (key@, Some(ValueRef { offset, length })),
                AppendEntry::Tombstone { key } => (key@, None),
            };
            let used = 20 + wal_page::total_size(old(page)@.entries);
            &&& fits == (used + 23 + key.len() <= 4096)
            &&& match done {
                Ok(_) => {
                    &&& after@.len() == before@.len() + 1
                    &&& forall|i: int| 0 <= i < before@.len() ==> (#[trigger] after@[i])@ == before@[i]@
                    &&& after@.last().key@ == key
                    &&& after@.last().value == value
                    &&& after@.last().lsn == lsn
                },
                Err(err) => err == Error::Format(FormatFault::PageFull) && *final(page) == *old(page),
            }
        }),
{
    if done is Ok {
        let entries = old(page)@.entries;
        let n = entries.len() as int;
        assert(final(page)@.entries.len() == n + 1);
        assert(final(page)@.entries[n] == pending.logged(lsn));
        assert(after@.last()@ == final(page)@.entries[n]);
        assert forall|i: int| 0 <= i < before@.len() implies (#[trigger] after@[i])@ == before@[i]@ by {
            assert(final(page)@.entries[i] == entries[i]);
        }
    }
}

/// A page that is linked to another one says so, and has the entries that it had.
pub proof fn law_links_are_kept(
    page: &mut WalPage,
    next_page: u64,
    next: u64,
    before: Vec<WalEntry>,
    after: Vec<WalEntry>,
    i: int,
)
    requires
        call_ensures(WalPage::entries, (&*old(page),), before),
        call_ensures(WalPage::set_next_page, (page, next_page), ()),
        call_ensures(WalPage::next_page, (final(page),), next),
        call_ensures(WalPage::entries, (final(page),), after),
    ensures
        next == next_page,
        after@.len() == before@.len(),
        0 <= i < after@.len() ==> after@[i]@ == before@[i]@,
{
}

/// The bytes of a page, read again, are a page with the same entries and the same link.
pub proof fn law_pages_are_read_back(
    page: &WalPage,
    bytes: Box<[u8; PAGE_SIZE]>,
    slice: &[u8],
    read: Result<WalPage, Error>,
    before: Vec<WalEntry>,
    after: Vec<WalEntry>,
    links: (u64, u64),
    i: int,
)
    requires
        page.wf(),
        call_ensures(WalPage::as_slice, (page,), slice),
        bytes@ == slice@,
        call_ensures(WalPage::from_bytes, (bytes,), read),
        call_ensures(WalPage::entries, (page,), before),
        call_ensures(WalPage::next_page, (page,), links.0),
        read matches Ok(read) ==> call_ensures(WalPage::entries, (&read,), after),
        read matches Ok(read) ==> call_ensures(WalPage::next_page, (&read,), links.1),
    ensures
        read is Ok,
        after@.len() == before@.len(),
        0 <= i < after@.len() ==> after@[i]@ == before@[i]@,
        links.0 == links.1,
{
    page.lemma_raw();
}

/// The last entry of a key says whether it has a value, and where; a key without an entry is as it was.
pub proof fn law_last_entry_counts(index: Map<Seq<u8>, ValueRef>, entries: Seq<LogEntry>, key: Seq<u8>, i: int)
    requires
        -1 <= i < entries.len(),
        i >= 0 ==> entries[i].key == key,
        forall|k: int| i < k < entries.len() ==> (#[trigger] entries[k]).key != key,
    ensures
        ({
            let after = wal_replay::applied_all(index, entries);
            if i < 0 {
                &&& after.dom().contains(key) == index.dom().contains(key)
                &&& index.dom().contains(key) ==> after[key] == index[key]
            } else {
                match entries[i].value {
                    Some(at) => after.dom().contains(key) && after[key] == at,
                    None => !after.dom().contains(key),
                }
            }
        }),
    decreases entries.len(),
{
    if entries.len() > 0 {
        let fewer = entries.drop_last();
        if i < fewer.len() {
            assert forall|k: int| i < k < fewer.len() implies (#[trigger] fewer[k]).key != key by {
                assert(fewer[k] == entries[k]);
            }
            assert(entries[entries.len() - 1].key != key);
            law_last_entry_counts(index, fewer, key, i);
        }
    }
}

/// The index that a replay has come to.
pub open spec fn replayed_index(step: ReplayStep) -> Map<Seq<u8>, ValueRef> {
    match step {
        ReplayStep::ReadPage(next) => next.state@.index,
        ReplayStep::Done(_, index) => index@,
    }
}

/// A page of the log that is taken in makes of the index what its entries say, the last entry of each key
/// counts; the page that it is linked to is read next, and where it is linked to none the log ends with
/// it, at the end of the last page that the file touches.
pub proof fn law_replay_follows_the_log(
    replay: WalReplay,
    page: WalPage,
    entries: Vec<WalEntry>,
    next_page: u64,
    step: Result<ReplayStep, Error>,
    key: Seq<u8>,
    i: int,
)
    requires
        page.wf(),
        replay.wf(),
        call_ensures(WalPage::entries, (&page,), entries),
        call_ensures(WalPage::next_page, (&page,), next_page),
        call_ensures(WalReplay::on_page, (replay, page), step),
        -1 <= i < entries@.len(),
        i >= 0 ==> entries@[i].key@ == key,
        forall|k: int| i < k < entries@.len() ==> (#[trigger] entries@[k]).key@ != key,
    ensures
        match step {
            Ok(step) => {
                let before = replay.state@.index;
                let after = replayed_index(step);
                &&& if i < 0 {
                    &&& after.dom().contains(key) == before.dom().contains(key)
                    &&& before.dom().contains(key) ==> after[key] == before[key]
                } else {
                    match entries@[i].value {
                        Some(at) => after.dom().contains(key) && after[key] == at,
                        None => !after.dom().contains(key),
                    }
                }
                &&& match step {
                    ReplayStep::ReadPage(next) => next_page != 0 && next.offset == next_page && next.file_len
                        == replay.file_len,
                    ReplayStep::Done(wal, _) => {
                        &&& next_page == 0
                        &&& wal.tail_offset == replay.offset
                        &&& wal.tail.raw() == page.raw()
                        &&& wal.file_tail % 4096 == 0
                        &&& replay.file_len <= wal.file_tail < replay.file_len + 4096
                        &&& entries@.len() > 0 ==> wal.next_lsn == entries@.last().lsn + 1
                    },
                }
                &&& forall|k: int|
                    0 <= k && k + 1 < entries@.len() ==> (#[trigger] entries@[k]).lsn < entries@[k + 1].lsn
            },
            Err(err) => match err {
                Error::Format(FormatFault::EmptyPage) => entries@.len() == 0 && !replay.state@.at_start,
                Error::Format(FormatFault::LsnOrder) => !wal_replay::ordered(replay.state@.last_lsn, page@.entries),
                Error::Format(FormatFault::ReplayOverflow) => next_page == 0,
                _ => false,
            },
        },
{
    let all = page@.entries;
    assert forall|k: int| i < k < all.len() implies (#[trigger] all[k]).key != key by {
        assert(entries@[k]@ == all[k]);
    }
    if i >= 0 {
        assert(entries@[i]@ == all[i]);
    }
    law_last_entry_counts(replay.state@.index, all, key, i);
    layout::lemma_aligned_up(replay.file_len as int, PAGE_SIZE as int);
    if step is Ok {
        assert forall|k: int| 0 <= k && k + 1 < entries@.len() implies (#[trigger] entries@[k]).lsn < entries@[k
            + 1].lsn by {
            assert(entries@[k]@ == all[k]);
            assert(entries@[k + 1]@ == all[k + 1]);
            wal_replay::lemma_ordered_prefix(replay.state@.last_lsn, all, k + 2);
            let some = all.take(k + 2);
            assert(some.last() == all[k + 1]);
            assert(some.drop_last().last() == all[k]);
        }
        if entries@.len() > 0 {
            assert(entries@.last()@ == all.last());
        }
    }
}

/// Numbers that do not go up from the last one on are what a replay refuses.
pub proof fn law_ordered_means_increasing(last: int, entries: Seq<LogEntry>)
    ensures
        wal_replay::ordered(last, entries) <==> {
            &&& entries.len() > 0 ==> last < entries[0].lsn
            &&& forall|k: int| 0 <= k && k + 1 < entries.len() ==> (#[trigger] entries[k]).lsn < entries[k + 1].lsn
        },
    decreases entries.len(),
{
    if entries.len() > 0 {
        let fewer = entries.drop_last();
        law_ordered_means_increasing(last, fewer);
        let n = entries.len() - 1;
        if wal_replay::ordered(last, entries) {
            assert forall|k: int| 0 <= k && k + 1 < entries.len() implies (#[trigger] entries[k]).lsn < entries[k
                + 1].lsn by {
                assert(fewer[k] == entries[k]);
                if k + 1 < n {
                    assert(fewer[k + 1] == entries[k + 1]);
                }
            }
            if n > 0 {
                assert(fewer[0] == entries[0]);
            }
        } else if (entries.len() > 0 ==> last < entries[0].lsn) && (forall|k: int|
            0 <= k && k + 1 < entries.len() ==> (#[trigger] entries[k]).lsn < entries[k + 1].lsn) {
            assert forall|k: int| 0 <= k && k + 1 < fewer.len() implies (#[trigger] fewer[k]).lsn < fewer[k + 1].lsn by {
                assert(fewer[k] == entries[k]);
                assert(entries[k].lsn < entries[k + 1].lsn);
            }
            if n > 0 {
                assert(fewer[0] == entries[0]);
                assert(entries[n - 1].lsn < entries[n - 1 + 1].lsn);
                assert(fewer.last() == entries[n - 1]);
            }
        }
    }
}

/// The space of values is taken from the end of the file, one behind the other.
pub proof fn law_values_are_placed_one_behind_the_other(
    wal: &mut Wal,
    len: u32,
    first: Result<u64, Error>,
    later: &mut Wal,
    more: u32,
    second: Result<u64, Error>,
)
    requires
        call_ensures(Wal::reserve_value_space, (wal, len), first),
        *old(later) == *final(wal),
        call_ensures(Wal::reserve_value_space, (later, more), second),
    ensures
        match first {
            Ok(offset) => {
                &&& offset == old(wal).file_tail
                &&& final(wal).file_tail == offset + len
                &&& second matches Ok(next) ==> next == offset + len
            },
            Err(err) => {
                &&& err == Error::Format(FormatFault::FileTailOverflow)
                &&& old(wal).file_tail + len > u64::MAX
                &&& *final(wal) == *old(wal)
            },
        },
{
}

/// A page is read from a buffer as it is read from its bytes; a buffer of another length is none.
pub proof fn law_pages_are_read_from_buffers(
    buf: ReadBuf,
    bytes: Box<[u8; PAGE_SIZE]>,
    read: Result<WalPage, Error>,
    direct: Result<WalPage, Error>,
)
    requires
        buf.wf(),
        buf@.len() == 4096 ==> bytes@ == buf@,
        call_ensures(Wal::read_page, (buf,), read),
        call_ensures(WalPage::from_bytes, (bytes,), direct),
    ensures
        buf@.len() != 4096 ==> read is Err,
        buf@.len() == 4096 ==> match (read, direct) {
            (Ok(a), Ok(b)) => a.raw() == buf@ && b.raw() == buf@ && a@ == b@,
            (Err(a), Err(b)) => a == b,
            _ => false,
        },
{
}

/// The first entry of a page is the one behind the header, and each is followed by the next.
pub proof fn law_entries_follow_the_header(
    page: &WalPage,
    slice: &[u8],
    entries: Vec<WalEntry>,
    first: Option<WalEntry>,
)
    requires
        page.wf(),
        call_ensures(WalPage::as_slice, (page,), slice),
        call_ensures(WalPage::entries, (page,), entries),
        call_ensures(read_entry, (slice, 20usize), first),
    ensures
        entries@.len() > 0 ==> first is Some && first->0@ == entries@[0]@,
{
    page.lemma_raw();
    if entries@.len() > 0 {
        let n = page@.entries.len();
        let bytes = page.raw();
        let e = wal_page::entry_at(bytes, 20);
        assert(wal_page::entries_from(bytes, 20, codec::le_at(bytes, 16, 4) as nat) == Some(page@.entries));
        assert(entries@[0]@ == page@.entries[0]);
    }
}

/// Bytes are the same if and only if they are equal, and a copy is the same.
pub proof fn law_copies_are_the_same(
    a: &[u8],
    b: &[u8],
    same: bool,
    copy: Vec<u8>,
    key: &T4Key,
    twin: T4Key,
    bytes: &[u8],
    value: &T4Value,
    len: u32,
    value_bytes: &[u8],
)
    requires
        call_ensures(same_bytes, (a, b), same),
        call_ensures(copy_bytes, (a,), copy),
        call_ensures(T4Key::duplicate, (key,), twin),
        call_ensures(T4Key::as_bytes, (&twin,), bytes),
        call_ensures(T4Value::len_u32, (value,), len),
        call_ensures(T4Value::as_bytes, (value,), value_bytes),
    ensures
        same <==> a@ =~= b@,
        copy@ == a@,
        bytes@ == key@,
        bytes@.len() <= 256,
        value_bytes@ == value@,
        len == value_bytes@.len(),
{
}

/// A read buffer is as long as what is in it, and what is in it can be taken as a page where it is one.
pub proof fn law_read_buffers_keep_their_bytes(
    buf: ReadBuf,
    len: usize,
    len_u32: u32,
    slice: &[u8],
    page: Result<Box<[u8; PAGE_SIZE]>, Error>,
)
    requires
        buf.wf(),
        call_ensures(ReadBuf::len, (&buf,), len),
        call_ensures(ReadBuf::len_u32, (&buf,), len_u32),
        call_ensures(ReadBuf::as_slice, (&buf,), slice),
        call_ensures(ReadBuf::try_into_boxed_page, (buf,), page),
    ensures
        slice@ == buf@,
        len == slice@.len(),
        len_u32 == slice@.len(),
        match page {
            Ok(page) => slice@.len() == 4096 && page@ == slice@,
            Err(_) => slice@.len() != 4096,
        },
{
}

} // verus!
