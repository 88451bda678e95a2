//! Pages of the log.
//!
//! A page starts with a header: magic, version, the offset of the next page of the log (0 where there
//! is none) and the number of entries. The entries follow without gaps. An entry has the length of its
//! key, a flag that tells a live entry from a tombstone, the offset and the length of the value, its
//! sequence number, and the bytes of the key.

use crate::codec;
use crate::codec::{read_le, write_le};
use crate::error::{Error, FormatFault};
use crate::input_kv::{T4Key, ValueRef, MAX_KEY_LEN};
use crate::PAGE_SIZE;
use vstd::prelude::*;

verus! {

pub const WAL_MAGIC: u32 = 0x5734_5457;

pub const WAL_VERSION: u32 = 1;

/// Bytes before the first entry.
pub const HEADER_SIZE: usize = 20;

/// Bytes of an entry before its key.
pub const ENTRY_HEADER_SIZE: usize = 23;

pub const FLAG_LIVE: u8 = 1;

pub const FLAG_TOMBSTONE: u8 = 2;

/// What an entry of the log records: where the value of a key lies, or that the key has none.
#[verifier::ext_equal]
pub struct LogEntry {
    pub key: Seq<u8>,
    pub value: Option<ValueRef>,
    pub lsn: u64,
}

/// What a page of the log records.
#[verifier::ext_equal]
pub struct PageModel {
    /// 0 where this is the last page.
    pub next_page: u64,
    pub entries: Seq<LogEntry>,
}

/// Bytes that an entry with such a key takes.
pub open spec fn entry_size(key: Seq<u8>) -> int {
    ENTRY_HEADER_SIZE + key.len()
}

/// Bytes that a run of entries takes.
pub open spec fn total_size(entries: Seq<LogEntry>) -> int
    decreases entries.len(),
{
    if entries.len() == 0 {
        0
    } else {
        entry_size(entries[0].key) + total_size(entries.skip(1))
    }
}

/// The entry at offset `at` of a page, if there is a proper one.
pub open spec fn entry_at(bytes: Seq<u8>, at: int) -> Option<LogEntry> {
    let key_len = codec::le_at(bytes, at, 2);
    let flags = bytes[at + 2];
    if at + ENTRY_HEADER_SIZE > PAGE_SIZE || key_len > MAX_KEY_LEN || at + ENTRY_HEADER_SIZE + key_len > PAGE_SIZE || (
    flags != FLAG_LIVE && flags != FLAG_TOMBSTONE) {
        None
    } else {
        Some(
            LogEntry {
                key: bytes.subrange(at + ENTRY_HEADER_SIZE, at + ENTRY_HEADER_SIZE + key_len),
                value: if flags == FLAG_LIVE {
                    Some(
                        ValueRef {
                            offset: codec::le_at(bytes, at + 3, 8) as u64,
                            length: codec::le_at(bytes, at + 11, 4) as u32,
                        },
                    )
                } else {
                    None
                },
                lsn: codec::le_at(bytes, at + 15, 8) as u64,
            },
        )
    }
}

/// The `n` entries from offset `at` on, if they are all proper.
pub open spec fn entries_from(bytes: Seq<u8>, at: int, n: nat) -> Option<Seq<LogEntry>>
    decreases n,
{
    if n == 0 {
        Some(Seq::empty())
    } else {
        match entry_at(bytes, at) {
            None => None,
            Some(entry) => match entries_from(bytes, at + entry_size(entry.key), (n - 1) as nat) {
                None => None,
                Some(rest) => Some(seq![entry] + rest),
            },
        }
    }
}

pub open spec fn magic_ok(bytes: Seq<u8>) -> bool {
    codec::le_at(bytes, 0, 4) == WAL_MAGIC
}

pub open spec fn version_ok(bytes: Seq<u8>) -> bool {
    codec::le_at(bytes, 4, 4) == WAL_VERSION
}

/// What the bytes of a page record, if they are a page of the log.
pub open spec fn page_model(bytes: Seq<u8>) -> Option<PageModel> {
    if !magic_ok(bytes) || !version_ok(bytes) {
        None
    } else {
        match entries_from(bytes, HEADER_SIZE as int, codec::le_at(bytes, 16, 4) as nat) {
            None => None,
            Some(entries) => Some(PageModel { next_page: codec::le_at(bytes, 8, 8) as u64, entries }),
        }
    }
}

/// The bytes of a page without entries that is the last of its log: the header, and zeroes.
pub open spec fn empty_page() -> Seq<u8> {
    codec::le_bytes(WAL_MAGIC as int, 4) + codec::le_bytes(WAL_VERSION as int, 4) + codec::le_bytes(0, 8)
        + codec::le_bytes(0, 4) + Seq::new((PAGE_SIZE - HEADER_SIZE) as nat, |i: int| 0u8)
}

/// The bytes of an entry. A tombstone has zeroes where a live entry has its value.
pub open spec fn entry_bytes(entry: LogEntry) -> Seq<u8> {
    let (flags, offset, length) = match entry.value {
        Some(value) => (FLAG_LIVE, value.offset, value.length),
        None => (FLAG_TOMBSTONE, 0u64, 0u32),
    };
    codec::le_bytes(entry.key.len() as int, 2) + seq![flags] + codec::le_bytes(offset as int, 8) + codec::le_bytes(
        length as int,
        4,
    ) + codec::le_bytes(entry.lsn as int, 8) + entry.key
}

/// The bytes of a page with one entry more behind those that it has.
pub open spec fn with_entry(bytes: Seq<u8>, entries: Seq<LogEntry>, entry: LogEntry) -> Seq<u8> {
    codec::overlaid(
        codec::overlaid(bytes, HEADER_SIZE + total_size(entries), entry_bytes(entry)),
        16,
        codec::le_bytes((entries.len() + 1) as int, 4),
    )
}

/// The bytes of a page with a link to the next one.
pub open spec fn with_next_page(bytes: Seq<u8>, next_page: u64) -> Seq<u8> {
    codec::overlaid(bytes, 8, codec::le_bytes(next_page as int, 8))
}

/// An entry depends on its own bytes only.
proof fn lemma_entry_same(a: Seq<u8>, b: Seq<u8>, at: int)
    requires
        a.len() == PAGE_SIZE,
        b.len() == PAGE_SIZE,
        0 <= at,
        entry_at(a, at) is Some,
        forall|i: int| at <= i < at + entry_size(entry_at(a, at)->0.key) ==> #[trigger] a[i] == b[i],
    ensures
        entry_at(b, at) == entry_at(a, at),
{
    codec::lemma_le_bounds(a, at, 2);
    let key_len = codec::le_at(a, at, 2);
    assert(entry_at(a, at)->0.key.len() == key_len);
    codec::lemma_le_same(a, b, at, at, 2);
    codec::lemma_le_same(a, b, at + 3, at + 3, 8);
    codec::lemma_le_same(a, b, at + 11, at + 11, 4);
    codec::lemma_le_same(a, b, at + 15, at + 15, 8);
    assert(a.subrange(at + ENTRY_HEADER_SIZE, at + ENTRY_HEADER_SIZE + key_len) =~= b.subrange(
        at + ENTRY_HEADER_SIZE,
        at + ENTRY_HEADER_SIZE + key_len,
    ));
}

/// Proper entries lie inside the page.
proof fn lemma_entries_inside(bytes: Seq<u8>, at: int, n: nat)
    requires
        bytes.len() == PAGE_SIZE,
        0 <= at,
        entries_from(bytes, at, n) is Some,
    ensures
        entries_from(bytes, at, n)->0.len() == n,
        n > 0 ==> at + total_size(entries_from(bytes, at, n)->0) <= PAGE_SIZE,
        total_size(entries_from(bytes, at, n)->0) >= n * ENTRY_HEADER_SIZE,
        forall|i: int| 0 <= i < n ==> (#[trigger] entries_from(bytes, at, n)->0[i]).key.len() <= MAX_KEY_LEN,
    decreases n,
{
    if n > 0 {
        let entry = entry_at(bytes, at)->0;
        codec::lemma_le_bounds(bytes, at, 2);
        let rest = entries_from(bytes, at + entry_size(entry.key), (n - 1) as nat)->0;
        let all = entries_from(bytes, at, n)->0;
        lemma_entries_inside(bytes, at + entry_size(entry.key), (n - 1) as nat);
        assert(all.skip(1) =~= rest);
        if n == 1 {
            assert(total_size(rest) == 0);
        }
        assert forall|i: int| 0 <= i < n implies (#[trigger] all[i]).key.len() <= MAX_KEY_LEN by {
            if i > 0 {
                assert(all[i] == rest[i - 1]);
            }
        }
    }
}

/// An entry behind proper entries is one more proper entry.
proof fn lemma_entries_extend(a: Seq<u8>, b: Seq<u8>, at: int, n: nat)
    requires
        a.len() == PAGE_SIZE,
        b.len() == PAGE_SIZE,
        0 <= at,
        entries_from(a, at, n) is Some,
        forall|i: int| at <= i < at + total_size(entries_from(a, at, n)->0) ==> #[trigger] a[i] == b[i],
        entry_at(b, at + total_size(entries_from(a, at, n)->0)) is Some,
    ensures
        entries_from(b, at, n + 1) == Some(
            entries_from(a, at, n)->0.push(entry_at(b, at + total_size(entries_from(a, at, n)->0))->0),
        ),
    decreases n,
{
    let all = entries_from(a, at, n)->0;
    let last = entry_at(b, at + total_size(all))->0;
    if n == 0 {
        assert(entries_from(b, at + entry_size(last.key), 0) == Some(Seq::<LogEntry>::empty()));
        assert(seq![last] + Seq::<LogEntry>::empty() =~= all.push(last));
    } else {
        let entry = entry_at(a, at)->0;
        let next = at + entry_size(entry.key);
        let rest = entries_from(a, next, (n - 1) as nat)->0;
        assert(all.skip(1) =~= rest);
        lemma_entries_inside(a, next, (n - 1) as nat);
        lemma_entry_same(a, b, at);
        lemma_entries_extend(a, b, next, (n - 1) as nat);
        assert(seq![entry] + rest.push(last) =~= all.push(last));
    }
}

/// Proper entries depend on their own bytes only.
proof fn lemma_entries_same(a: Seq<u8>, b: Seq<u8>, at: int, n: nat)
    requires
        a.len() == PAGE_SIZE,
        b.len() == PAGE_SIZE,
        0 <= at,
        forall|i: int| at <= i < PAGE_SIZE ==> #[trigger] a[i] == b[i],
    ensures
        entries_from(b, at, n) == entries_from(a, at, n),
    decreases n,
{
    if n > 0 {
        codec::lemma_le_bounds(a, at, 2);
        codec::lemma_le_bounds(b, at, 2);
        if at + ENTRY_HEADER_SIZE <= PAGE_SIZE {
            codec::lemma_le_same(a, b, at, at, 2);
        }
        if entry_at(a, at) is Some {
            lemma_entry_same(a, b, at);
            lemma_entries_same(a, b, at + entry_size(entry_at(a, at)->0.key), (n - 1) as nat);
        }
    }
}

/// An entry to be appended to the log.
#[derive(Debug)]
pub enum AppendEntry {
    Live { key: T4Key, offset: u64, length: u32 },
    Tombstone { key: T4Key },
}

impl AppendEntry {
    pub open spec fn key(self) -> Seq<u8> {
        match self {
            AppendEntry::Live { key, .. } => key@,
            AppendEntry::Tombstone { key } => key@,
        }
    }

    pub open spec fn value(self) -> Option<ValueRef> {
        match self {
            AppendEntry::Live { offset, length, .. } => Some(ValueRef { offset, length }),
            AppendEntry::Tombstone { .. } => None,
        }
    }

    /// What the entry records with a sequence number.
    pub open spec fn logged(self, lsn: u64) -> LogEntry {
        LogEntry { key: self.key(), value: self.value(), lsn }
    }
}

/// An entry that was read from the log.
#[derive(Debug)]
pub struct WalEntry {
    pub key: T4Key,
    pub value: Option<ValueRef>,
    pub lsn: u64,
}

impl View for WalEntry {
    type V = LogEntry;

    open spec fn view(&self) -> LogEntry {
        LogEntry { key: self.key@, value: self.value, lsn: self.lsn }
    }
}

/// Reads the entry at offset `at` of a page.
pub fn read_entry(bytes: &[u8], at: usize) -> (entry: Option<WalEntry>)
    requires
        bytes@.len() == PAGE_SIZE,
        at <= PAGE_SIZE,
    ensures
        match entry {
            Some(entry) => entry_at(bytes@, at as int) == Some(entry@),
            None => entry_at(bytes@, at as int) is None,
        },
{
    if at + ENTRY_HEADER_SIZE > PAGE_SIZE {
        return None;
    }
    proof {
        codec::lemma_le_bounds(bytes@, at as int, 2);
        codec::lemma_le_bounds(bytes@, at + 3, 8);
        codec::lemma_le_bounds(bytes@, at + 11, 4);
        codec::lemma_le_bounds(bytes@, at + 15, 8);
        codec::lemma_radix_values();
    }
    let key_len: usize = read_le(bytes, at, 2) as usize;
    let flags: u8 = bytes[at + 2];
    if key_len > MAX_KEY_LEN || at + ENTRY_HEADER_SIZE + key_len > PAGE_SIZE {
        return None;
    }
    if flags != FLAG_LIVE && flags != FLAG_TOMBSTONE {
        return None;
    }
    let offset: u64 = read_le(bytes, at + 3, 8);
    let length: u32 = read_le(bytes, at + 11, 4) as u32;
    let lsn: u64 = read_le(bytes, at + 15, 8);
    let mut key_bytes: Vec<u8> = Vec::with_capacity(key_len);
    let mut i: usize = 0;
    while i < key_len
        invariant
            i <= key_len,
            at + ENTRY_HEADER_SIZE + key_len <= PAGE_SIZE == bytes@.len(),
            key_bytes@ == bytes@.subrange(at + ENTRY_HEADER_SIZE, at + ENTRY_HEADER_SIZE + i),
        decreases key_len - i,
    {
        key_bytes.push(bytes[at + ENTRY_HEADER_SIZE + i]);
        assert(key_bytes@ =~= bytes@.subrange(at + ENTRY_HEADER_SIZE, at + ENTRY_HEADER_SIZE + i + 1));
        i = i + 1;
    }
    let key: T4Key = match T4Key::try_from_vec(key_bytes) {
        Ok(key) => key,
        Err(_) => {
            return None;
        },
    };
    let value: Option<ValueRef> = if flags == FLAG_LIVE {
        Some(ValueRef { offset, length })
    } else {
        None
    };
    Some(WalEntry { key, value, lsn })
}

/// A page of the log.
#[derive(Debug)]
pub struct WalPage {
    bytes: Box<[u8; PAGE_SIZE]>,
    /// Where the next entry goes.
    used: usize,
    entry_count: u32,
}

impl View for WalPage {
    type V = PageModel;

    closed spec fn view(&self) -> PageModel {
        page_model(self.bytes@)->0
    }
}

impl WalPage {
    pub closed spec fn raw(self) -> Seq<u8> {
        self.bytes@
    }

    /// The bytes are a page of the log, with its entries up to where the next one goes.
    pub closed spec fn wf(self) -> bool {
        &&& page_model(self.bytes@) is Some
        &&& self.bytes@.len() == PAGE_SIZE
        &&& self.entry_count == self@.entries.len()
        &&& self.entry_count == codec::le_at(self.bytes@, 16, 4)
        &&& self.used == HEADER_SIZE + total_size(self@.entries)
        &&& self.used <= PAGE_SIZE
    }

    /// The bytes of a proper page, read as a page, give the same page.
    pub proof fn lemma_raw(self)
        requires
            self.wf(),
        ensures
            self.raw().len() == PAGE_SIZE,
            page_model(self.raw()) == Some(self@),
            HEADER_SIZE + total_size(self@.entries) <= PAGE_SIZE,
            forall|i: int| 0 <= i < self@.entries.len() ==> (#[trigger] self@.entries[i]).key.len() <= MAX_KEY_LEN,
    {
        lemma_entries_inside(self.bytes@, HEADER_SIZE as int, codec::le_at(self.bytes@, 16, 4) as nat);
    }

    /// A page without entries, the last of its log.
    pub fn empty() -> (page: WalPage)
        ensures
            page.wf(),
            page@ == (PageModel { next_page: 0, entries: Seq::empty() }),
            page.raw() == empty_page(),
    {
        let mut bytes: Box<[u8; PAGE_SIZE]> = Box::new([0; PAGE_SIZE]);
        proof {
            codec::lemma_radix_values();
        }
        write_le(&mut *bytes, 0, 4, WAL_MAGIC as u64);
        let ghost b1 = bytes@;
        write_le(&mut *bytes, 4, 4, WAL_VERSION as u64);
        let ghost b2 = bytes@;
        write_le(&mut *bytes, 8, 8, 0);
        let ghost b3 = bytes@;
        write_le(&mut *bytes, 16, 4, 0);
        proof {
            codec::lemma_le_same(b1, bytes@, 0, 0, 4);
            codec::lemma_le_same(b2, bytes@, 4, 4, 4);
            codec::lemma_le_same(b3, bytes@, 8, 8, 8);
            codec::lemma_le_bytes_len(WAL_MAGIC as int, 4);
            codec::lemma_le_bytes_len(WAL_VERSION as int, 4);
            codec::lemma_le_bytes_len(0, 8);
            codec::lemma_le_bytes_len(0, 4);
            assert(bytes@ =~= empty_page());
        }
        WalPage { bytes, used: HEADER_SIZE, entry_count: 0 }
    }

    /// Reads a page, and says what is wrong with it where it is none.
    #[verifier::rlimit(50)]
    pub fn from_bytes(bytes: Box<[u8; PAGE_SIZE]>) -> (page: Result<WalPage, Error>)
        ensures
            match page {
                Ok(page) => page.wf() && page.raw() == bytes@ && page_model(bytes@) == Some(page@),
                Err(err) => {
                    &&& page_model(bytes@) is None
                    &&& err == Error::Format(
                        if !magic_ok(bytes@) {
                            FormatFault::BadMagic
                        } else if !version_ok(bytes@) {
                            FormatFault::BadVersion
                        } else {
                            FormatFault::BadEntry
                        },
                    )
                },
            },
    {
        proof {
            codec::lemma_radix_values();
            codec::lemma_le_bounds(bytes@, 0, 4);
            codec::lemma_le_bounds(bytes@, 4, 4);
            codec::lemma_le_bounds(bytes@, 16, 4);
        }
        let all: &[u8] = bytes.as_slice();
        if read_le(all, 0, 4) != WAL_MAGIC as u64 {
            return Err(Error::Format(FormatFault::BadMagic));
        }
        if read_le(all, 4, 4) != WAL_VERSION as u64 {
            return Err(Error::Format(FormatFault::BadVersion));
        }
        let entry_count: u32 = read_le(all, 16, 4) as u32;
        let mut used: usize = HEADER_SIZE;
        let mut i: u32 = 0;
        proof {
            assert(entries_from(bytes@, used as int, 0) == Some(Seq::<LogEntry>::empty()));
        }
        while i < entry_count
            invariant
                i <= entry_count,
                all@ == bytes@,
                bytes@.len() == PAGE_SIZE,
                used <= PAGE_SIZE,
                entries_from(bytes@, HEADER_SIZE as int, i as nat) is Some,
                used == HEADER_SIZE + total_size(entries_from(bytes@, HEADER_SIZE as int, i as nat)->0),
                entry_count == codec::le_at(bytes@, 16, 4),
                magic_ok(bytes@),
                version_ok(bytes@),
            decreases entry_count - i,
        {
            match read_entry(all, used) {
                None => {
                    proof {
                        if entries_from(bytes@, HEADER_SIZE as int, entry_count as nat) is Some {
                            lemma_entries_split(bytes@, HEADER_SIZE as int, i as nat, entry_count as nat);
                        }
                    }
                    return Err(Error::Format(FormatFault::BadEntry));
                },
                Some(entry) => {
                    proof {
                        lemma_entries_extend(bytes@, bytes@, HEADER_SIZE as int, i as nat);
                        lemma_total_push(entries_from(bytes@, HEADER_SIZE as int, i as nat)->0, entry@);
                        codec::lemma_le_bounds(bytes@, used as int, 2);
                    }
                    used = used + ENTRY_HEADER_SIZE + entry.key.as_bytes().len();
                },
            }
            i = i + 1;
        }
        proof {
            lemma_entries_inside(bytes@, HEADER_SIZE as int, entry_count as nat);
        }
        Ok(WalPage { bytes, used, entry_count })
    }

    pub fn as_slice(&self) -> (bytes: &[u8])
        ensures
            bytes@ == self.raw(),
    {
        self.bytes.as_slice()
    }

    /// The offset of the next page of the log, 0 where there is none.
    pub fn next_page(&self) -> (next_page: u64)
        requires
            self.wf(),
        ensures
            next_page == self@.next_page,
    {
        proof {
            codec::lemma_radix_values();
            codec::lemma_le_bounds(self.bytes@, 8, 8);
        }
        read_le(self.bytes.as_slice(), 8, 8)
    }

    /// The entries of the page, in order.
    #[verifier::rlimit(50)]
    pub fn entries(&self) -> (entries: Vec<WalEntry>)
        requires
            self.wf(),
        ensures
            entries@.len() == self@.entries.len(),
            forall|i: int| 0 <= i < entries@.len() ==> (#[trigger] entries@[i])@ == self@.entries[i],
    {
        let ghost all = self@.entries;
        let all_bytes: &[u8] = self.bytes.as_slice();
        let mut entries: Vec<WalEntry> = Vec::new();
        let mut at: usize = HEADER_SIZE;
        let mut i: u32 = 0;
        assert(all.skip(0) =~= all);
        while i < self.entry_count
            invariant
                self.wf(),
                all == self@.entries,
                all_bytes@ == self.bytes@,
                i <= self.entry_count,
                at <= PAGE_SIZE,
                entries@.len() == i,
                forall|k: int| 0 <= k < i ==> (#[trigger] entries@[k])@ == all[k],
                entries_from(self.bytes@, at as int, (self.entry_count - i) as nat) == Some(all.skip(i as int)),
            decreases self.entry_count - i,
        {
            proof {
                codec::lemma_le_bounds(self.bytes@, at as int, 2);
                assert(all.skip(i as int)[0] == all[i as int]);
                assert(all.skip(i as int).skip(1) =~= all.skip(i + 1));
                let entry = entry_at(self.bytes@, at as int)->0;
                let rest = entries_from(
                    self.bytes@,
                    at + entry_size(entry.key),
                    (self.entry_count - i - 1) as nat,
                )->0;
                assert((seq![entry] + rest).skip(1) =~= rest);
                assert((seq![entry] + rest)[0] == entry);
            }
            match read_entry(all_bytes, at) {
                None => {
                    assert(false);
                },
                Some(entry) => {
                    at = at + ENTRY_HEADER_SIZE + entry.key.as_bytes().len();
                    entries.push(entry);
                },
            }
            i = i + 1;
        }
        entries
    }

    /// Links the page to the next one of the log.
    pub fn set_next_page(&mut self, next_page: u64)
        requires
            old(self).wf(),
        ensures
            final(self).wf(),
            final(self)@ == (PageModel { next_page, ..old(self)@ }),
            final(self).raw() == with_next_page(old(self).raw(), next_page),
    {
        let ghost before = self.bytes@;
        proof {
            codec::lemma_radix_values();
        }
        write_le(&mut *self.bytes, 8, 8, next_page);
        proof {
            codec::lemma_le_same(before, self.bytes@, 0, 0, 4);
            codec::lemma_le_same(before, self.bytes@, 4, 4, 4);
            codec::lemma_le_same(before, self.bytes@, 16, 16, 4);
            lemma_entries_same(before, self.bytes@, HEADER_SIZE as int, self.entry_count as nat);
        }
    }

    /// There is room for the entry.
    pub fn can_fit(&self, pending: &AppendEntry) -> (fits: bool)
        requires
            self.wf(),
        ensures
            fits == (HEADER_SIZE + total_size(self@.entries) + entry_size(pending.key()) <= PAGE_SIZE),
    {
        let key_len: usize = match pending {
            AppendEntry::Live { key, .. } => key.as_bytes().len(),
            AppendEntry::Tombstone { key } => key.as_bytes().len(),
        };
        self.used + ENTRY_HEADER_SIZE + key_len <= PAGE_SIZE
    }

    /// Appends an entry, if there is room for it.
    #[verifier::rlimit(50)]
    pub fn append(&mut self, pending: &AppendEntry, lsn: u64) -> (done: Result<(), Error>)
        requires
            old(self).wf(),
        ensures
            final(self).wf(),
            done is Ok <==> HEADER_SIZE + total_size(old(self)@.entries) + entry_size(pending.key()) <= PAGE_SIZE,
            match done {
                Ok(_) => {
                    &&& final(self)@ == (PageModel {
                        entries: old(self)@.entries.push(pending.logged(lsn)),
                        ..old(self)@
                    })
                    &&& final(self).raw() == with_entry(old(self).raw(), old(self)@.entries, pending.logged(lsn))
                },
                Err(err) => *final(self) == *old(self) && err == Error::Format(FormatFault::PageFull),
            },
    {
        if !self.can_fit(pending) {
            return Err(Error::Format(FormatFault::PageFull));
        }
        let (key, flags, offset, length): (&[u8], u8, u64, u32) = match pending {
            AppendEntry::Live { key, offset, length } => (key.as_bytes(), FLAG_LIVE, *offset, *length),
            AppendEntry::Tombstone { key } => (key.as_bytes(), FLAG_TOMBSTONE, 0, 0),
        };
        let key_len: usize = key.len();
        let at: usize = self.used;
        let ghost b0 = self.bytes@;
        proof {
            codec::lemma_radix_values();
            lemma_entries_inside(b0, HEADER_SIZE as int, self.entry_count as nat);
        }
        write_le(&mut *self.bytes, at, 2, key_len as u64);
        let ghost b1 = self.bytes@;
        self.bytes[at + 2] = flags;
        let ghost b2 = self.bytes@;
        write_le(&mut *self.bytes, at + 3, 8, offset);
        let ghost b3 = self.bytes@;
        write_le(&mut *self.bytes, at + 11, 4, length as u64);
        let ghost b4 = self.bytes@;
        write_le(&mut *self.bytes, at + 15, 8, lsn);
        let ghost b5 = self.bytes@;
        let mut i: usize = 0;
        while i < key_len
            invariant
                i <= key_len == key@.len(),
                at == self.used,
                at + ENTRY_HEADER_SIZE + key_len <= PAGE_SIZE,
                self.bytes@.len() == PAGE_SIZE,
                b5.len() == PAGE_SIZE,
                self.used == old(self).used,
                self.entry_count == old(self).entry_count,
                forall|k: int|
                    0 <= k < PAGE_SIZE && !(at + ENTRY_HEADER_SIZE <= k < at + ENTRY_HEADER_SIZE + i)
                        ==> #[trigger] self.bytes@[k] == b5[k],
                forall|k: int| 0 <= k < i ==> self.bytes@[at + ENTRY_HEADER_SIZE + k] == #[trigger] key@[k],
            decreases key_len - i,
        {
            self.bytes[at + ENTRY_HEADER_SIZE + i] = key[i];
            i = i + 1;
        }
        let ghost b6 = self.bytes@;
        write_le(&mut *self.bytes, 16, 4, self.entry_count as u64 + 1);
        proof {
            let b = self.bytes@;
            codec::lemma_le_same(b0, b, 0, 0, 4);
            codec::lemma_le_same(b0, b, 4, 4, 4);
            codec::lemma_le_same(b0, b, 8, 8, 8);
            codec::lemma_le_same(b1, b, at as int, at as int, 2);
            codec::lemma_le_same(b3, b, at + 3, at + 3, 8);
            codec::lemma_le_same(b4, b, at + 11, at + 11, 4);
            codec::lemma_le_same(b5, b, at + 15, at + 15, 8);
            assert(b[at + 2] == b2[at + 2]);
            assert(b.subrange(at + ENTRY_HEADER_SIZE, at + ENTRY_HEADER_SIZE + key_len) =~= key@);
            assert(entry_at(b, at as int) == Some(pending.logged(lsn)));
            lemma_entries_extend(b0, b, HEADER_SIZE as int, self.entry_count as nat);
            lemma_total_push(old(self)@.entries, pending.logged(lsn));
            lemma_with_entry(b0, b, old(self)@.entries, pending.logged(lsn), b1, b2, b3, b4, b5, b6);
        }
        self.used = at + ENTRY_HEADER_SIZE + key_len;
        self.entry_count = self.entry_count + 1;
        Ok(())
    }
}

/// The parts of an entry, written one after the other, are the entry.
proof fn lemma_with_entry(
    b0: Seq<u8>,
    b: Seq<u8>,
    entries: Seq<LogEntry>,
    entry: LogEntry,
    b1: Seq<u8>,
    b2: Seq<u8>,
    b3: Seq<u8>,
    b4: Seq<u8>,
    b5: Seq<u8>,
    b6: Seq<u8>,
)
    requires
        b0.len() == PAGE_SIZE,
        b5.len() == b6.len(),
        HEADER_SIZE + total_size(entries) + entry_size(entry.key) <= PAGE_SIZE,
        total_size(entries) >= 0,
        ({
            let at = HEADER_SIZE + total_size(entries);
            let (flags, offset, length) = match entry.value {
                Some(value) => (FLAG_LIVE, value.offset, value.length),
                None => (FLAG_TOMBSTONE, 0u64, 0u32),
            };
            &&& b1 == codec::overlaid(b0, at, codec::le_bytes(entry.key.len() as int, 2))
            &&& b2 == b1.update(at + 2, flags)
            &&& b3 == codec::overlaid(b2, at + 3, codec::le_bytes(offset as int, 8))
            &&& b4 == codec::overlaid(b3, at + 11, codec::le_bytes(length as int, 4))
            &&& b5 == codec::overlaid(b4, at + 15, codec::le_bytes(entry.lsn as int, 8))
            &&& forall|k: int| 0 <= k < entry.key.len() ==> b6[at + ENTRY_HEADER_SIZE + k] == #[trigger] entry.key[k]
            &&& forall|k: int|
                0 <= k < PAGE_SIZE && !(at + ENTRY_HEADER_SIZE <= k < at + ENTRY_HEADER_SIZE + entry.key.len())
                    ==> #[trigger] b6[k] == b5[k]
            &&& b == codec::overlaid(b6, 16, codec::le_bytes((entries.len() + 1) as int, 4))
        }),
    ensures
        b == with_entry(b0, entries, entry),
{
    let at = HEADER_SIZE + total_size(entries);
    let (flags, offset, length) = match entry.value {
        Some(value) => (FLAG_LIVE, value.offset, value.length),
        None => (FLAG_TOMBSTONE, 0u64, 0u32),
    };
    codec::lemma_le_bytes_len(entry.key.len() as int, 2);
    codec::lemma_le_bytes_len(offset as int, 8);
    codec::lemma_le_bytes_len(length as int, 4);
    codec::lemma_le_bytes_len(entry.lsn as int, 8);
    let data = entry_bytes(entry);
    let whole = codec::overlaid(b0, at, data);
    assert forall|k: int| 0 <= k < PAGE_SIZE implies #[trigger] b6[k] == whole[k] by {
        if at + ENTRY_HEADER_SIZE <= k < at + ENTRY_HEADER_SIZE + entry.key.len() {
            assert(b6[at + ENTRY_HEADER_SIZE + (k - at - ENTRY_HEADER_SIZE)] == entry.key[k - at - ENTRY_HEADER_SIZE]);
        }
    }
    assert(b6 =~= whole);
}

proof fn lemma_total_push(entries: Seq<LogEntry>, entry: LogEntry)
    ensures
        total_size(entries.push(entry)) == total_size(entries) + entry_size(entry.key),
    decreases entries.len(),
{
    assert(entries.push(entry)[0] == if entries.len() == 0 { entry } else { entries[0] });
    if entries.len() == 0 {
        assert(entries.push(entry).skip(1).len() == 0);
        assert(total_size(entries.push(entry).skip(1)) == 0);
    } else {
        assert(entries.push(entry).skip(1) =~= entries.skip(1).push(entry));
        lemma_total_push(entries.skip(1), entry);
    }
}

/// Where entries are proper, so are the first of them, and the one behind those.
proof fn lemma_entries_split(bytes: Seq<u8>, at: int, i: nat, n: nat)
    requires
        i <= n,
        entries_from(bytes, at, n) is Some,
    ensures
        entries_from(bytes, at, i) is Some,
        i < n ==> entry_at(bytes, at + total_size(entries_from(bytes, at, i)->0)) is Some,
    decreases i,
{
    if i > 0 {
        let entry = entry_at(bytes, at)->0;
        let next = at + entry_size(entry.key);
        lemma_entries_split(bytes, next, (i - 1) as nat, (n - 1) as nat);
        let first = entries_from(bytes, at, i)->0;
        let rest = entries_from(bytes, next, (i - 1) as nat)->0;
        assert(first.skip(1) =~= rest);
    }
}

} // verus!
