use std::collections::HashMap;

use t4::buffer::{AlignedBuf, ReadBuf};
use t4::error::{ArgumentFault, Error, FormatFault};
use t4::index::Index;
use t4::input_kv::{T4Key, ValueRef};
use t4::io_backend::IoBackendKind;
use t4::io_task::PageWrite;
use t4::store::{MountOptions, MountStep, PutStep, ReadPlan, Store, T4Store, Window};
use t4::wal::{ReplayStep, Wal, WalReplay};
use t4::wal_page::{AppendEntry, WalPage};
use t4::PAGE_SIZE;

fn apply(disk: &mut Vec<u8>, writes: &[PageWrite]) {
    for write in writes {
        let start = write.offset as usize;
        let bytes = write.buf.as_slice();
        if disk.len() < start + bytes.len() {
            disk.resize(start + bytes.len(), 0);
        }
        disk[start..start + bytes.len()].copy_from_slice(bytes);
    }
}

fn read(disk: &[u8], offset: u64, len: u32) -> ReadBuf {
    let mut buf = AlignedBuf::new_zeroed(len).unwrap();
    buf.copy_from_slice(&disk[offset as usize..offset as usize + len as usize]);
    ReadBuf::Aligned(buf)
}

fn mount(disk: &mut Vec<u8>) -> Result<Store, Error> {
    let options = MountOptions::default();
    match T4Store::mount_with_options(&options, disk.len() as u64)? {
        MountStep::Create(write, inner) => {
            apply(disk, &[write]);
            Ok(Store { inner })
        }
        MountStep::Replay(mut replay) => loop {
            if replay.offset as usize + PAGE_SIZE > disk.len() {
                return Err(Error::Format(FormatFault::ShortFile));
            }
            let page = Wal::read_page(read(disk, replay.offset, PAGE_SIZE as u32))?;
            match replay.on_page(page)? {
                ReplayStep::ReadPage(next) => replay = next,
                ReplayStep::Done(wal, index) => return Ok(Store { inner: T4Store { wal, index } }),
            }
        },
    }
}

fn put(store: &mut Store, disk: &mut Vec<u8>, key: &[u8], value: &[u8]) -> Result<(), Error> {
    let mut step = store.put(key.to_vec(), value.to_vec())?;
    loop {
        match step {
            PutStep::Write(writes, pending) => {
                apply(disk, &writes);
                step = store.inner.put_written(pending)?;
            }
            PutStep::Done => return Ok(()),
        }
    }
}

fn answer(disk: &[u8], plan: ReadPlan) -> Vec<u8> {
    match plan {
        ReadPlan::Empty => Vec::new(),
        ReadPlan::Read(window) => window.extract(&read(disk, window.offset, window.len)),
    }
}

fn get(store: &Store, disk: &[u8], key: &[u8]) -> Result<Vec<u8>, Error> {
    Ok(answer(disk, store.get(key)?))
}

fn get_range(store: &Store, disk: &[u8], key: &[u8], start: u64, len: u64) -> Result<Vec<u8>, Error> {
    Ok(answer(disk, store.get_range(key, start, len)?))
}

fn remove(store: &mut Store, disk: &mut Vec<u8>, key: &[u8]) -> Result<bool, Error> {
    let (key, writes) = store.remove(key)?;
    apply(disk, &writes);
    Ok(store.inner.remove_written(&key))
}

#[test]
fn readme_example() {
    let mut disk = Vec::new();
    let mut store = mount(&mut disk).unwrap();
    put(&mut store, &mut disk, b"a.txt", b"Hello, world!").unwrap();
    assert_eq!(get(&store, &disk, b"a.txt").unwrap(), b"Hello, world!");
    assert_eq!(get_range(&store, &disk, b"a.txt", 7, 5).unwrap(), b"world");
    assert!(remove(&mut store, &mut disk, b"a.txt").unwrap());
    assert_eq!(get(&store, &disk, b"a.txt"), Err(Error::NotFound));
    assert!(!remove(&mut store, &mut disk, b"a.txt").unwrap());
}

#[test]
fn new_store_is_one_empty_page() {
    let mut disk = Vec::new();
    let store = mount(&mut disk).unwrap();
    assert_eq!(disk, WalPage::empty().as_slice());
    assert_eq!(store.len(), 0);
    assert!(store.is_empty());
    assert_eq!(store.inner.wal.file_tail, 4096);
    assert_eq!(store.inner.wal.next_lsn, 0);
}

#[test]
fn values_are_padded_to_pages() {
    let mut disk = Vec::new();
    let mut store = mount(&mut disk).unwrap();
    let value = vec![7u8; 4097];
    put(&mut store, &mut disk, b"k", &value).unwrap();
    assert_eq!(disk.len(), 4096 + 8192);
    assert_eq!(&disk[4096..4096 + 4097], &value[..]);
    assert!(disk[4096 + 4097..].iter().all(|b| *b == 0));
    assert_eq!(
        store.get(b"k").unwrap(),
        ReadPlan::Read(Window { offset: 4096, len: 8192, start: 0, take: 4097 })
    );
}

#[test]
fn empty_values_take_no_space() {
    let mut disk = Vec::new();
    let mut store = mount(&mut disk).unwrap();
    put(&mut store, &mut disk, b"", b"").unwrap();
    assert_eq!(disk.len(), 4096);
    assert_eq!(store.get(b"").unwrap(), ReadPlan::Empty);
    assert_eq!(get(&store, &disk, b"").unwrap(), b"");
    let store = mount(&mut disk).unwrap();
    assert_eq!(get(&store, &disk, b"").unwrap(), b"");
    assert_eq!(store.len(), 1);
}

#[test]
fn range_reads_are_minimal_and_aligned() {
    let mut disk = Vec::new();
    let mut store = mount(&mut disk).unwrap();
    let value: Vec<u8> = (0..20000u32).map(|i| (i % 251) as u8).collect();
    put(&mut store, &mut disk, b"k", &value).unwrap();
    assert_eq!(
        store.get_range(b"k", 5000, 10).unwrap(),
        ReadPlan::Read(Window { offset: 8192, len: 4096, start: 904, take: 10 })
    );
    assert_eq!(
        store.get_range(b"k", 4090, 10).unwrap(),
        ReadPlan::Read(Window { offset: 4096, len: 8192, start: 4090, take: 10 })
    );
    for (start, len) in [(0usize, 1usize), (0, 20000), (4095, 2), (4096, 4096), (19999, 1), (20000, 0), (3, 0)] {
        assert_eq!(
            get_range(&store, &disk, b"k", start as u64, len as u64).unwrap(),
            &value[start..start + len]
        );
    }
    assert_eq!(get_range(&store, &disk, b"k", 20000, 1), Err(Error::RangeOutOfBounds));
    assert_eq!(get_range(&store, &disk, b"k", 20001, 0), Err(Error::RangeOutOfBounds));
    assert_eq!(get_range(&store, &disk, b"k", u32::MAX as u64, 2), Err(Error::RangeOutOfBounds));
    assert_eq!(get_range(&store, &disk, b"k", 1 << 32, 0), Err(Error::RangeOutOfBounds));
    assert_eq!(get_range(&store, &disk, b"k", 0, 1 << 32), Err(Error::RangeOutOfBounds));
    assert_eq!(get_range(&store, &disk, b"missing", 0, 1), Err(Error::NotFound));
}

#[test]
fn keys_and_values_are_checked() {
    let mut disk = Vec::new();
    let mut store = mount(&mut disk).unwrap();
    let long = vec![b'x'; 257];
    let err = Error::InvalidArgument(ArgumentFault::KeyTooLong);
    assert_eq!(put(&mut store, &mut disk, &long, b"v"), Err(err));
    assert_eq!(get(&store, &disk, &long), Err(err));
    assert_eq!(get_range(&store, &disk, &long, 0, 1), Err(err));
    assert_eq!(remove(&mut store, &mut disk, &long), Err(err));
    put(&mut store, &mut disk, &long[..256], b"v").unwrap();
    assert_eq!(get(&store, &disk, &long[..256]).unwrap(), b"v");
}

#[test]
fn store_agrees_with_a_map_and_survives_remounts() {
    let mut disk = Vec::new();
    let mut store = mount(&mut disk).unwrap();
    let mut model: HashMap<Vec<u8>, Vec<u8>> = HashMap::new();
    let mut seed = 12345u64;
    for round in 0..400u32 {
        seed = seed.wrapping_mul(6364136223846793005).wrapping_add(1442695040888963407);
        let key = format!("key-{}", (seed >> 33) % 40).into_bytes();
        match (seed >> 20) % 4 {
            0 | 1 => {
                let value = vec![(seed >> 40) as u8; ((seed >> 12) % 9000) as usize];
                put(&mut store, &mut disk, &key, &value).unwrap();
                model.insert(key, value);
            }
            2 => {
                assert_eq!(remove(&mut store, &mut disk, &key).unwrap(), model.remove(&key).is_some());
            }
            _ => match model.get(&key) {
                Some(value) => assert_eq!(&get(&store, &disk, &key).unwrap(), value),
                None => assert_eq!(get(&store, &disk, &key), Err(Error::NotFound)),
            },
        }
        if round % 100 == 99 {
            store = mount(&mut disk).unwrap();
        }
        assert_eq!(store.len(), model.len());
        assert_eq!(store.is_empty(), model.is_empty());
        assert_eq!(disk.len() as u64, store.inner.wal.file_tail);
    }
    let store = mount(&mut disk).unwrap();
    for (key, value) in &model {
        assert_eq!(&get(&store, &disk, key).unwrap(), value);
    }
    assert_eq!(store.len(), model.len());
}

#[test]
fn a_full_page_links_to_a_new_one() {
    let mut disk = Vec::new();
    let mut store = mount(&mut disk).unwrap();
    // Entries with keys of 256 bytes take 279 bytes: 14 of them fit on a page.
    for i in 0..14u8 {
        put(&mut store, &mut disk, &[i; 256], b"").unwrap();
    }
    assert_eq!(disk.len(), 4096);
    assert_eq!(store.inner.wal.tail_offset, 0);
    put(&mut store, &mut disk, &[14; 256], b"").unwrap();
    assert_eq!(disk.len(), 8192);
    assert_eq!(store.inner.wal.tail_offset, 4096);
    assert_eq!(store.inner.wal.next_lsn, 15);
    let first = WalPage::from_bytes(Box::new(disk[..4096].try_into().unwrap())).unwrap();
    assert_eq!(first.next_page(), 4096);
    let second = WalPage::from_bytes(Box::new(disk[4096..].try_into().unwrap())).unwrap();
    assert_eq!(second.next_page(), 0);
    assert_eq!(second.entries()[0].lsn, 14);
    let store = mount(&mut disk).unwrap();
    assert_eq!(store.len(), 15);
    assert_eq!(store.inner.wal.next_lsn, 15);
    assert_eq!(store.inner.wal.tail_offset, 4096);
}

#[test]
fn an_append_to_a_full_page_writes_the_old_page_first() {
    let (mut wal, _) = Wal::create().unwrap();
    for i in 0..14u8 {
        let writes = wal.tombstone(T4Key::try_from_slice(&[i; 256]).unwrap()).unwrap();
        assert_eq!(writes.len(), 1);
        assert_eq!(writes[0].offset, 0);
    }
    let writes = wal.tombstone(T4Key::try_from_slice(&[14; 256]).unwrap()).unwrap();
    assert_eq!(writes.len(), 2);
    assert_eq!(writes[0].offset, 0);
    assert_eq!(writes[1].offset, 4096);
    assert_eq!(wal.file_tail, 8192);
}

#[test]
fn limits_of_the_log_are_errors() {
    let (mut wal, _) = Wal::create().unwrap();
    wal.next_lsn = u64::MAX;
    let key = || T4Key::try_from_slice(b"k").unwrap();
    assert_eq!(wal.tombstone(key()).err(), Some(Error::Format(FormatFault::LsnOverflow)));
    wal.next_lsn = 0;
    wal.file_tail = u64::MAX;
    assert_eq!(wal.reserve_value_space(1), Err(Error::Format(FormatFault::FileTailOverflow)));
    wal.tombstone(key()).unwrap();
    for i in 0..13u8 {
        wal.tombstone(T4Key::try_from_slice(&[i; 256]).unwrap()).unwrap();
    }
    let lsn = wal.next_lsn;
    assert_eq!(
        wal.tombstone(T4Key::try_from_slice(&[0; 256]).unwrap()).map(|w| w.len()),
        Ok(1)
    );
    assert_eq!(wal.next_lsn, lsn + 1);
    assert_eq!(
        wal.tombstone(T4Key::try_from_slice(&[0; 256]).unwrap()).err(),
        Some(Error::Format(FormatFault::FileTailOverflow))
    );
}

#[test]
fn mounting_bad_files() {
    let options = MountOptions { queue_depth: 0, ..MountOptions::default() };
    assert_eq!(
        T4Store::mount_with_options(&options, 0).err(),
        Some(Error::InvalidArgument(ArgumentFault::ZeroQueueDepth))
    );
    assert_eq!(mount(&mut vec![0; 100]).err(), Some(Error::Format(FormatFault::ShortFile)));
    assert_eq!(mount(&mut vec![0; 4096]).err(), Some(Error::Format(FormatFault::BadMagic)));
    assert_eq!(WalReplay::begin(4095).err(), Some(Error::Format(FormatFault::ShortFile)));
}

fn step_of(replay: WalReplay, page: WalPage) -> Result<ReplayStep, Error> {
    replay.on_page(page)
}

#[test]
fn replay_checks_the_order_of_the_log() {
    let entry = |k: &[u8]| AppendEntry::Tombstone { key: T4Key::try_from_slice(k).unwrap() };
    let mut page = WalPage::empty();
    page.append(&entry(b"a"), 5).unwrap();
    page.append(&entry(b"b"), 5).unwrap();
    assert_eq!(
        step_of(WalReplay::begin(4096).unwrap(), page).err(),
        Some(Error::Format(FormatFault::LsnOrder))
    );

    let mut page = WalPage::empty();
    page.set_next_page(4096);
    page.append(&entry(b"a"), 5).unwrap();
    let next = match step_of(WalReplay::begin(8192).unwrap(), page).unwrap() {
        ReplayStep::ReadPage(next) => next,
        ReplayStep::Done(..) => panic!("the log goes on"),
    };
    assert_eq!(next.offset, 4096);
    assert_eq!(step_of(next, WalPage::empty()).err(), Some(Error::Format(FormatFault::EmptyPage)));

    let mut page = WalPage::empty();
    page.append(&entry(b"a"), u64::MAX).unwrap();
    assert_eq!(
        step_of(WalReplay::begin(4096).unwrap(), page).err(),
        Some(Error::Format(FormatFault::ReplayOverflow))
    );
    assert_eq!(
        step_of(WalReplay::begin(u64::MAX).unwrap(), WalPage::empty()).err(),
        Some(Error::Format(FormatFault::ReplayOverflow))
    );
}

#[test]
fn replay_rounds_the_end_of_the_file_up() {
    match step_of(WalReplay::begin(5000).unwrap(), WalPage::empty()).unwrap() {
        ReplayStep::Done(wal, index) => {
            assert_eq!(wal.file_tail, 8192);
            assert_eq!(wal.next_lsn, 0);
            assert!(index.is_empty());
        }
        ReplayStep::ReadPage(_) => panic!("there is one page"),
    }
}

#[test]
fn reading_a_page_needs_a_page() {
    let buf = ReadBuf::Aligned(AlignedBuf::new_zeroed(512).unwrap());
    assert_eq!(Wal::read_page(buf).err(), Some(Error::InvalidArgument(ArgumentFault::BufferLayout)));
}

#[test]
fn values_near_the_limit_cannot_be_padded() {
    let mut index = Index::new();
    index.insert(T4Key::try_from_slice(b"k").unwrap(), ValueRef { offset: 0, length: u32::MAX });
    let (wal, _) = Wal::create().unwrap();
    let store = Store { inner: T4Store { wal, index } };
    assert_eq!(store.get(b"k"), Err(Error::Format(FormatFault::ValueTooLong)));
    assert_eq!(
        store.get_range(b"k", u32::MAX as u64 - 1, 1).unwrap(),
        ReadPlan::Read(Window { offset: 4294963200, len: 4096, start: 4094, take: 1 })
    );
    assert_eq!(store.get_range(b"k", 0, u32::MAX as u64), Err(Error::RangeOutOfBounds));
}

#[test]
fn mount_options() {
    let options = MountOptions::default();
    assert_eq!(options.queue_depth, 256);
    assert_eq!(options.fixed_buffer_pool_size_mb, 128);
    assert_eq!(options.io_backend, IoBackendKind::default());
    assert_eq!(IoBackendKind::default(), IoBackendKind::DedicatedThread);
    assert_eq!(options.custom_flags(0x4000, 0x1000), 0x5000);
    let plain = MountOptions { direct_io: false, ..options };
    assert_eq!(plain.custom_flags(0x4000, 0x1000), 0x1000);
    let plain = MountOptions { direct_io: false, dsync: false, ..options };
    assert_eq!(plain.custom_flags(0x4000, 0x1000), 0);
}

#[test]
fn index_keeps_the_last_value_of_a_key() {
    let key = |i: u32| T4Key::try_from_vec(i.to_le_bytes().to_vec()).unwrap();
    let mut index = Index::new();
    for i in 0..300u32 {
        index.insert(key(i % 100), ValueRef { offset: i as u64, length: i });
    }
    assert_eq!(index.len(), 100);
    for i in 0..100u32 {
        assert_eq!(
            index.get(&i.to_le_bytes()),
            Some(ValueRef { offset: 200 + i as u64, length: 200 + i })
        );
    }
    assert!(index.remove(&7u32.to_le_bytes()));
    assert!(!index.remove(&7u32.to_le_bytes()));
    assert_eq!(index.get(&7u32.to_le_bytes()), None);
    assert_eq!(index.len(), 99);
}

#[test]
fn a_new_store_is_one_empty_page() {
    let (wal, write) = Wal::create().unwrap();
    assert_eq!((wal.file_tail, wal.tail_offset, wal.next_lsn), (4096, 0, 0));
    assert_eq!(write.offset, 0);
    assert_eq!(write.buf.as_slice(), WalPage::empty().as_slice());
    assert_eq!(wal.tail.as_slice(), WalPage::empty().as_slice());
    assert!(write.buf.as_slice()[8..].iter().all(|b| *b == 0));
}
