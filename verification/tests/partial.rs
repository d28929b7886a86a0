use compact_codec::error::{allocation, reservation, DecodeError, EncodeError, OutOfMemory};
use compact_codec::config::Config;
use compact_codec::enc::Encoder;
use compact_codec::partial::PartialBuffer;
use compact_codec::writer::VecWriter;

#[test]
fn buffer_is_filled_slot_by_slot() {
    let mut buffer: PartialBuffer<u8> = PartialBuffer::reserve(3).unwrap();
    assert_eq!(buffer.initialized(), 0);
    assert_eq!(buffer.vacant(), 3);
    buffer.write(10);
    assert_eq!(buffer.initialized(), 1);
    assert_eq!(buffer.vacant(), 2);
    buffer.write(20);
    buffer.write(30);
    assert_eq!(buffer.initialized(), 3);
    assert_eq!(buffer.vacant(), 0);
    assert_eq!(buffer.finish(), vec![10u8, 20, 30]);
}

#[test]
fn empty_buffer_finishes_empty() {
    let buffer: PartialBuffer<String> = PartialBuffer::reserve(0).unwrap();
    assert_eq!(buffer.initialized(), 0);
    assert_eq!(buffer.vacant(), 0);
    assert_eq!(buffer.finish(), Vec::<String>::new());
}

#[test]
fn buffer_that_cannot_be_reserved_is_an_error() {
    let r: Result<PartialBuffer<u64>, DecodeError> = PartialBuffer::reserve(usize::MAX);
    assert!(matches!(
        r,
        Err(DecodeError::OutOfMemory { inner: OutOfMemory::TryReserve { requested: usize::MAX } })
    ));
}

#[test]
fn buffer_for_a_boxed_slice_fails_as_an_allocation() {
    let buffer: PartialBuffer<u64> = PartialBuffer::allocate(2).unwrap();
    assert_eq!(buffer.initialized(), 0);
    assert_eq!(buffer.vacant(), 2);
    let r: Result<PartialBuffer<u8>, DecodeError> = PartialBuffer::allocate(1usize << 63);
    assert!(matches!(
        r,
        Err(DecodeError::OutOfMemory { inner: OutOfMemory::Alloc { requested } })
            if requested == 1usize << 63
    ));
    let r: Result<PartialBuffer<u64>, DecodeError> = PartialBuffer::allocate(usize::MAX);
    assert!(matches!(
        r,
        Err(DecodeError::OutOfMemory { inner: OutOfMemory::Alloc { requested: usize::MAX } })
    ));
}

#[test]
fn reservation_outcome_carries_the_request() {
    assert_eq!(reservation(Ok(()), 5), Ok(()));
    let mut probe: Vec<u64> = Vec::new();
    let refused = probe.try_reserve(usize::MAX);
    assert!(refused.is_err());
    assert_eq!(reservation(refused, 5), Err(OutOfMemory::TryReserve { requested: 5 }));
}

#[test]
fn allocation_outcome_carries_the_size() {
    assert_eq!(allocation(Ok(()), 8), Ok(()));
    let mut probe: Vec<u64> = Vec::new();
    let refused = probe.try_reserve(usize::MAX);
    assert!(refused.is_err());
    assert_eq!(allocation(refused, 8), Err(OutOfMemory::Alloc { requested: 8 }));
}

#[test]
fn writer_appends_whole_writes() {
    let mut writer = VecWriter::new();
    assert_eq!(writer.len(), 0);
    assert_eq!(writer.write(&[1, 2, 3]), Ok::<(), EncodeError>(()));
    assert_eq!(writer.len(), 3);
    assert_eq!(writer.write(&[]), Ok(()));
    assert_eq!(writer.write(&[4]), Ok(()));
    assert_eq!(writer.len(), 4);
    assert_eq!(writer.collect(), vec![1u8, 2, 3, 4]);
}

#[test]
fn writer_appends_once_room_is_had() {
    let mut writer = VecWriter::new();
    assert_eq!(writer.append_reserved(Ok(()), &[1, 2]), Ok(()));
    assert_eq!(writer.append_reserved(Ok(()), &[3]), Ok(()));
    assert_eq!(writer.len(), 3);
    assert_eq!(writer.collect(), vec![1u8, 2, 3]);
}

#[test]
fn writer_writes_nothing_where_room_is_refused() {
    let mut writer = VecWriter::new();
    writer.write(&[9]).unwrap();
    let mut probe: Vec<u64> = Vec::new();
    let refused = probe.try_reserve(usize::MAX);
    assert!(refused.is_err());
    assert_eq!(
        writer.append_reserved(refused, &[1, 2, 3]),
        Err(EncodeError::OutOfMemory { inner: OutOfMemory::TryReserve { requested: 3 } })
    );
    assert_eq!(writer.len(), 1);
    assert_eq!(writer.collect(), vec![9u8]);
}

#[test]
fn default_writer_is_empty() {
    let writer = VecWriter::default();
    assert_eq!(writer.len(), 0);
    assert_eq!(writer.collect(), Vec::<u8>::new());
}

#[test]
fn encoder_writes_through_to_its_writer() {
    let mut writer = VecWriter::new();
    writer.write(&[9]).unwrap();
    let config = Config::standard().with_big_endian();
    let mut encoder = Encoder::new(writer, config);
    assert_eq!(encoder.settings(), config);
    encoder.write(&[8, 7]).unwrap();
    assert_eq!(encoder.into_writer().collect(), vec![9u8, 8, 7]);
}
