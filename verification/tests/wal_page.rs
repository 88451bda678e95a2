use t4::error::{Error, FormatFault};
use t4::input_kv::{T4Key, ValueRef};
use t4::wal_page::{AppendEntry, WalPage, FLAG_LIVE, FLAG_TOMBSTONE, WAL_MAGIC, WAL_VERSION};
use t4::PAGE_SIZE;

fn live(key: &[u8], offset: u64, length: u32) -> AppendEntry {
    AppendEntry::Live { key: T4Key::try_from_vec(key.to_vec()).unwrap(), offset, length }
}

fn boxed(bytes: &[u8]) -> Box<[u8; PAGE_SIZE]> {
    Box::new(bytes.try_into().unwrap())
}

#[test]
fn page_round_trip() {
    let mut page = WalPage::empty();
    page.set_next_page(8192);
    page.append(
        &AppendEntry::Live {
            key: T4Key::try_from_vec(b"alpha".to_vec()).unwrap(),
            offset: 4096,
            length: 123,
        },
        0,
    )
    .unwrap();
    page.append(
        &AppendEntry::Tombstone { key: T4Key::try_from_vec(b"beta".to_vec()).unwrap() },
        1,
    )
    .unwrap();

    let boxed: Box<[u8; PAGE_SIZE]> = Box::new(page.as_slice().try_into().unwrap());
    let decoded = WalPage::from_bytes(boxed).unwrap();
    assert_eq!(decoded.as_slice(), page.as_slice());
}

#[test]
fn page_overflow_detection() {
    let mut page = WalPage::empty();
    let mut i = 0_u64;
    while page
        .append(
            &AppendEntry::Live {
                key: T4Key::try_from_vec(vec![b'k'; 64]).unwrap(),
                offset: i * 4096,
                length: 64,
            },
            i,
        )
        .is_ok()
    {
        i = i + 1;
    }
    assert!(i > 0);
    assert!(!page.can_fit(&AppendEntry::Live {
        key: T4Key::try_from_vec(vec![1; 128]).unwrap(),
        offset: 0,
        length: 1,
    }));
}

#[test]
fn decoded_page_has_the_same_entries() {
    let mut page = WalPage::empty();
    page.set_next_page(12288);
    page.append(&live(b"alpha", 4096, 123), 7).unwrap();
    page.append(&AppendEntry::Tombstone { key: T4Key::try_from_vec(b"".to_vec()).unwrap() }, 9).unwrap();
    let decoded = WalPage::from_bytes(boxed(page.as_slice())).unwrap();
    assert_eq!(decoded.next_page(), 12288);
    let entries = decoded.entries();
    assert_eq!(entries.len(), 2);
    assert_eq!(entries[0].key.as_bytes(), b"alpha");
    assert_eq!(entries[0].value, Some(ValueRef { offset: 4096, length: 123 }));
    assert_eq!(entries[0].lsn, 7);
    assert_eq!(entries[1].key.as_bytes(), b"");
    assert_eq!(entries[1].value, None);
    assert_eq!(entries[1].lsn, 9);
}

#[test]
fn page_holds_as_many_entries_as_fit() {
    // 20 bytes of header; an entry with a key of 64 bytes takes 87.
    let mut page = WalPage::empty();
    let mut n = 0u64;
    while page.can_fit(&live(&[1; 64], 0, 0)) {
        page.append(&live(&[1; 64], 0, 0), n).unwrap();
        n += 1;
    }
    assert_eq!(n, 46);
    let before = page.as_slice().to_vec();
    assert_eq!(page.append(&live(&[1; 64], 0, 0), n), Err(Error::Format(FormatFault::PageFull)));
    assert_eq!(page.as_slice(), &before[..]);
    // 74 bytes are left: a key of 51 fits exactly.
    assert!(page.can_fit(&live(&[1; 51], 0, 0)));
    assert!(!page.can_fit(&live(&[1; 52], 0, 0)));
    page.append(&live(&[2; 51], 5, 6), n).unwrap();
    let decoded = WalPage::from_bytes(boxed(page.as_slice())).unwrap();
    assert_eq!(decoded.entries().len(), 47);
    assert_eq!(decoded.entries()[46].key.as_bytes(), &[2u8; 51][..]);
}

#[test]
fn damaged_pages_are_refused() {
    let mut page = WalPage::empty();
    page.append(&live(b"k", 4096, 1), 0).unwrap();

    let mut bytes = page.as_slice().to_vec();
    bytes[0] ^= 1;
    assert_eq!(WalPage::from_bytes(boxed(&bytes)).err(), Some(Error::Format(FormatFault::BadMagic)));

    let mut bytes = page.as_slice().to_vec();
    bytes[4] = 2;
    assert_eq!(WalPage::from_bytes(boxed(&bytes)).err(), Some(Error::Format(FormatFault::BadVersion)));

    let mut bytes = page.as_slice().to_vec();
    bytes[22] = 3;
    assert_eq!(WalPage::from_bytes(boxed(&bytes)).err(), Some(Error::Format(FormatFault::BadEntry)));

    let mut bytes = page.as_slice().to_vec();
    bytes[21] = 2;
    assert_eq!(WalPage::from_bytes(boxed(&bytes)).err(), Some(Error::Format(FormatFault::BadEntry)));

    let mut bytes = page.as_slice().to_vec();
    bytes[16] = 200;
    assert_eq!(WalPage::from_bytes(boxed(&bytes)).err(), Some(Error::Format(FormatFault::BadEntry)));

    assert_eq!(
        WalPage::from_bytes(boxed(&[0; PAGE_SIZE])).err(),
        Some(Error::Format(FormatFault::BadMagic))
    );
}

#[test]
fn empty_page_is_the_last() {
    let page = WalPage::empty();
    assert_eq!(page.next_page(), 0);
    assert_eq!(page.entries().len(), 0);
    assert_eq!(page.as_slice().len(), PAGE_SIZE);
    assert_eq!(&page.as_slice()[0..4], &0x5734_5457u32.to_le_bytes()[..]);
    assert!(page.as_slice()[8..].iter().all(|b| *b == 0));
}

#[test]
fn pages_are_laid_out_byte_by_byte() {
    let mut page = WalPage::empty();
    let mut expected = vec![0u8; PAGE_SIZE];
    expected[0..4].copy_from_slice(&WAL_MAGIC.to_le_bytes());
    expected[4..8].copy_from_slice(&WAL_VERSION.to_le_bytes());
    assert_eq!(page.as_slice(), &expected[..]);
    page.append(&live(b"ab", 4096, 258), 3).unwrap();
    expected[16] = 1;
    expected[20..22].copy_from_slice(&[2, 0]);
    expected[22] = FLAG_LIVE;
    expected[23..31].copy_from_slice(&4096u64.to_le_bytes());
    expected[31..35].copy_from_slice(&258u32.to_le_bytes());
    expected[35..43].copy_from_slice(&3u64.to_le_bytes());
    expected[43..45].copy_from_slice(b"ab");
    assert_eq!(page.as_slice(), &expected[..]);
    page.append(&AppendEntry::Tombstone { key: T4Key::try_from_vec(b"c".to_vec()).unwrap() }, 4).unwrap();
    page.set_next_page(8192);
    expected[16] = 2;
    expected[8..16].copy_from_slice(&8192u64.to_le_bytes());
    expected[45..47].copy_from_slice(&[1, 0]);
    expected[47] = FLAG_TOMBSTONE;
    expected[60] = 4;
    expected[68] = b'c';
    assert_eq!(page.as_slice(), &expected[..]);
}
