use t4::buffer::{align_up_u32, try_read_buf, AlignedBuf, FixedBuf, ReadBuf};
use t4::codec::read_le;
use t4::error::{ArgumentFault, Error, IoError, IoFault};
use t4::input_kv::{T4KeyRef, T4Value};
use t4::io_backend::{ExactPoll, ReadExactAt, ReadPoll};
use t4::layout;
use t4::layout::RangeRequestU32;
use t4::memory::pool::{FixedBufferAllocation, FixedBufferPool};

#[test]
fn padding_fills_with_zeroes() {
    let buf = AlignedBuf::from_padded_slice(&[1, 2, 3]).unwrap();
    assert_eq!(buf.len(), 4096);
    assert_eq!(buf.len_u32(), 4096);
    assert_eq!(&buf.as_slice()[..3], &[1, 2, 3]);
    assert!(buf.as_slice()[3..].iter().all(|b| *b == 0));
    assert_eq!(AlignedBuf::from_padded_slice(&[9; 4096]).unwrap().len(), 4096);
    assert_eq!(AlignedBuf::from_padded_slice(&[9; 4097]).unwrap().len(), 8192);
    assert_eq!(
        AlignedBuf::from_padded_slice(&[]).err(),
        Some(Error::InvalidArgument(ArgumentFault::EmptySource))
    );
}

#[test]
fn alignment_arithmetic() {
    assert_eq!(layout::align_up_u64(0, 4096), Some(0));
    assert_eq!(layout::align_up_u64(1, 4096), Some(4096));
    assert_eq!(layout::align_up_u64(4096, 4096), Some(4096));
    assert_eq!(layout::align_up_u64(u64::MAX, 4096), None);
    assert_eq!(layout::align_down_u64(8191, 4096), 4096);
    assert_eq!(layout::align_up_u32(u32::MAX - 4095, 4096), Some(u32::MAX - 4095));
    assert_eq!(layout::align_up_u32(u32::MAX - 4094, 4096), None);
    assert_eq!(align_up_u32(5, 4096), Ok(4096));
    assert_eq!(align_up_u32(u32::MAX, 4096), Err(Error::InvalidArgument(ArgumentFault::AlignOverflow)));
    assert_eq!(layout::allocate_next_lsn(41), Some(42));
    assert_eq!(layout::allocate_next_lsn(u64::MAX), None);
    let reservation = layout::reserve_space(4096, 8192).unwrap();
    assert_eq!((reservation.offset, reservation.next_tail), (4096, 12288));
    assert!(layout::reserve_space(u64::MAX - 1, 2).is_none());
}

#[test]
fn ranges_are_checked_against_the_value() {
    let range = RangeRequestU32::from_u64(3, 4).unwrap();
    let checked = range.checked_against(7).unwrap();
    assert_eq!((checked.start(), checked.end(), checked.len(), checked.is_empty()), (3, 7, 4, false));
    assert!(range.checked_against(6).is_none());
    assert!(RangeRequestU32::from_u64(7, 0).unwrap().checked_against(7).unwrap().is_empty());
    let far = RangeRequestU32::from_u64(u32::MAX as u64, 1).unwrap();
    assert!(far.checked_against(u32::MAX).is_none());
    assert!(RangeRequestU32::from_u64(1 << 32, 0).is_none());
}

#[test]
fn boxed_pages_have_one_page() {
    let mut buf = AlignedBuf::new_zeroed(4096).unwrap();
    buf.copy_from_slice(&[5; 4096]);
    assert_eq!(&buf.try_into_boxed_array().unwrap()[..], &[5u8; 4096][..]);
    assert_eq!(
        AlignedBuf::new_zeroed(8192).unwrap().try_into_boxed_array().err(),
        Some(Error::InvalidArgument(ArgumentFault::BufferLayout))
    );
    let fixed = |n: usize| {
        ReadBuf::Fixed(FixedBuf {
            alloc: FixedBufferAllocation { ptr: 1 << 30, size: n },
            bytes: vec![6; n],
        })
    };
    assert_eq!(&fixed(4096).try_into_boxed_page().unwrap()[..], &[6u8; 4096][..]);
    assert_eq!(
        fixed(100).try_into_boxed_page().err(),
        Some(Error::InvalidArgument(ArgumentFault::PageBufferSize))
    );
    assert_eq!(fixed(100).len(), 100);
    assert_eq!(fixed(100).len_u32(), 100);
}

#[test]
fn read_buffers_come_from_the_pool_where_there_is_one() {
    let mut none = None;
    assert!(matches!(try_read_buf(&mut none, 0, 10).unwrap(), ReadBuf::Aligned(_)));
    let mut pool = Some(FixedBufferPool::new(1 << 30, 64, 2));
    match try_read_buf(&mut pool, 0, 4096).unwrap() {
        ReadBuf::Fixed(fixed) => {
            assert_eq!(fixed.alloc.size, 4096);
            assert_eq!(fixed.bytes, vec![0; 4096]);
        }
        ReadBuf::Aligned(_) => panic!("the pool has room"),
    }
    // A request for more than a segment is served from the heap.
    assert!(matches!(try_read_buf(&mut pool, 0, 40 << 20).unwrap(), ReadBuf::Aligned(_)));
}

#[test]
fn exact_reads_check_their_length() {
    let buf = || ReadBuf::Aligned(AlignedBuf::new_zeroed(4096).unwrap());
    let mut read = ReadExactAt::new(buf(), 8192);
    let (taken, offset) = read.take_request().unwrap();
    assert_eq!((taken.len(), offset), (4096, 8192));
    assert!(read.take_request().is_none());
    assert!(matches!(read.on_poll(ReadPoll::Pending), ExactPoll::Pending));
    match read.on_poll(ReadPoll::Ready(Ok((taken, 4096)))) {
        ExactPoll::Ready(Ok(buf)) => assert_eq!(buf.len(), 4096),
        other => panic!("{other:?}"),
    }

    let mut read = ReadExactAt::new(buf(), 0);
    let (taken, _) = read.take_request().unwrap();
    match read.on_poll(ReadPoll::Ready(Ok((taken, 100)))) {
        ExactPoll::Ready(Err(err)) => assert_eq!(
            err,
            Error::Io(IoError::Fault(IoFault::ShortRead { expected: 4096, got: 100 }))
        ),
        other => panic!("{other:?}"),
    }

    let mut read = ReadExactAt::new(buf(), 0);
    let _ = read.take_request();
    let err = Error::Io(IoError::Fault(IoFault::Os(5)));
    assert!(matches!(read.on_poll(ReadPoll::Ready(Err(err))), ExactPoll::Ready(Err(e)) if e == err));
}

#[test]
fn little_endian_integers() {
    let bytes = [0x34, 0x12, 0, 0, 0, 0, 0, 0x80];
    assert_eq!(read_le(&bytes, 0, 2), 0x1234);
    assert_eq!(read_le(&bytes, 0, 8), 0x8000_0000_0000_1234);
    assert_eq!(read_le(&bytes, 1, 0), 0);
}

#[test]
fn key_and_value_limits() {
    assert!(T4KeyRef::try_from_slice(&[0; 256]).is_ok());
    assert_eq!(
        T4KeyRef::try_from_slice(&[0; 257]).err(),
        Some(Error::InvalidArgument(ArgumentFault::KeyTooLong))
    );
    let value = T4Value::try_from_vec(vec![1, 2, 3]).unwrap();
    assert_eq!(value.len_u32(), 3);
    assert_eq!(value.as_bytes(), &[1, 2, 3]);
}

#[test]
fn a_busy_pool_serves_until_it_has_no_room() {
    let mut pool = Some(FixedBufferPool::new(1 << 30, 64, 1));
    let mut fixed = 0;
    loop {
        match try_read_buf(&mut pool, 0, 1 << 20).unwrap() {
            ReadBuf::Fixed(buf) => {
                assert_eq!(buf.alloc.size, 1 << 20);
                fixed += 1;
            }
            ReadBuf::Aligned(buf) => {
                assert_eq!(buf.len(), 1 << 20);
                assert!(buf.as_slice().iter().all(|b| *b == 0));
                break;
            }
        }
    }
    assert!(fixed > 1);
    assert!(pool.as_mut().unwrap().malloc(0, 1 << 20).is_none());
    let mut small = 0;
    while let ReadBuf::Fixed(_) = try_read_buf(&mut pool, 0, 4096).unwrap() {
        small += 1;
    }
    assert!(small > 1);
    assert!(matches!(try_read_buf(&mut pool, 0, 1).unwrap(), ReadBuf::Aligned(_)));
}
