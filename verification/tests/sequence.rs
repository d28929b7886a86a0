use compact_codec::config::Config;
use compact_codec::de::Decoder;
use compact_codec::error::{DecodeError, OutOfMemory};
use compact_codec::partial::PartialBuffer;
use compact_codec::queue::decode_reserved as queue_reserved;
use compact_codec::sequence::decode_reserved;
use compact_codec::{decode_from_slice, encode_to_vec};
use std::collections::VecDeque;

#[test]
fn byte_sequence_on_the_wire() {
    let bytes = encode_to_vec(vec![1u8, 2, 3], Config::standard()).unwrap();
    assert_eq!(bytes, vec![3u8, 1, 2, 3]);
    let (back, used) = decode_from_slice::<Vec<u8>>(&[3u8, 1, 2, 3], Config::standard()).unwrap();
    assert_eq!(back, vec![1u8, 2, 3]);
    assert_eq!(used, 4);
}

#[test]
fn empty_sequence_is_one_byte() {
    let bytes = encode_to_vec(Vec::<u64>::new(), Config::standard()).unwrap();
    assert_eq!(bytes, vec![0u8]);
    let (back, used) = decode_from_slice::<Vec<u64>>(&bytes, Config::standard()).unwrap();
    assert!(back.is_empty());
    assert_eq!(used, 1);
}

#[test]
fn decode_leaves_what_follows_the_value() {
    let input = [2u8, 10, 20, 99, 98];
    let (back, used) = decode_from_slice::<Vec<u8>>(&input, Config::standard()).unwrap();
    assert_eq!(back, vec![10u8, 20]);
    assert_eq!(used, 3);
}

#[test]
fn sequence_of_integers_round_trips_in_every_setting() {
    let value: Vec<u64> = vec![0, 250, 251, 65_535, 65_536, 4_294_967_295, 4_294_967_296, u64::MAX];
    let settings = [
        Config::standard(),
        Config::standard().with_big_endian(),
        Config::standard().with_fixed_int_encoding(),
        Config::standard().with_fixed_int_encoding().with_big_endian(),
    ];
    for config in settings {
        let bytes = encode_to_vec(value.clone(), config).unwrap();
        let (back, used) = decode_from_slice::<Vec<u64>>(&bytes, config).unwrap();
        assert_eq!(back, value);
        assert_eq!(used, bytes.len());
    }
}

#[test]
fn fixed_width_sequence_on_the_wire() {
    let config = Config::standard().with_fixed_int_encoding();
    let bytes = encode_to_vec(vec![1u64, 0x0102], config).unwrap();
    assert_eq!(
        bytes,
        vec![2u8, 0, 0, 0, 0, 0, 0, 0, 1, 0, 0, 0, 0, 0, 0, 0, 2, 1, 0, 0, 0, 0, 0, 0]
    );
    let big = encode_to_vec(vec![0x0102u64], config.with_big_endian()).unwrap();
    assert_eq!(big, vec![0u8, 0, 0, 0, 0, 0, 0, 1, 0, 0, 0, 0, 0, 0, 1, 2]);
}

#[test]
fn nested_sequences_round_trip() {
    let value: Vec<Vec<u8>> = vec![vec![], vec![1], vec![2, 3]];
    let bytes = encode_to_vec(value.clone(), Config::standard()).unwrap();
    assert_eq!(bytes, vec![3u8, 0, 1, 1, 2, 2, 3]);
    let (back, _) = decode_from_slice::<Vec<Vec<u8>>>(&bytes, Config::standard()).unwrap();
    assert_eq!(back, value);
}

#[test]
fn long_sequence_has_a_wide_count() {
    let value: Vec<u8> = vec![7u8; 300];
    let bytes = encode_to_vec(value.clone(), Config::standard()).unwrap();
    assert_eq!(&bytes[..3], &[251u8, 0x2C, 0x01]);
    assert_eq!(bytes.len(), 303);
    let (back, used) = decode_from_slice::<Vec<u8>>(&bytes, Config::standard()).unwrap();
    assert_eq!(back, value);
    assert_eq!(used, 303);
}

#[test]
fn boxed_slice_round_trips() {
    let value: Box<[u64]> = vec![5u64, 300, 70_000].into_boxed_slice();
    let bytes = encode_to_vec(value.clone(), Config::standard()).unwrap();
    assert_eq!(bytes, vec![3u8, 5, 251, 0x2C, 0x01, 252, 0x70, 0x11, 0x01, 0x00]);
    let (back, used) = decode_from_slice::<Box<[u64]>>(&bytes, Config::standard()).unwrap();
    assert_eq!(back, value);
    assert_eq!(used, bytes.len());
}

#[test]
fn boxed_slice_and_vector_share_the_wire() {
    let as_vec = encode_to_vec(vec![9u8, 8, 7], Config::standard()).unwrap();
    let as_box = encode_to_vec(vec![9u8, 8, 7].into_boxed_slice(), Config::standard()).unwrap();
    assert_eq!(as_vec, as_box);
}

#[test]
fn queue_round_trips_front_to_back() {
    let mut value: VecDeque<u8> = VecDeque::new();
    value.push_back(2);
    value.push_back(3);
    value.push_front(1);
    let bytes = encode_to_vec(value.clone(), Config::standard()).unwrap();
    assert_eq!(bytes, vec![3u8, 1, 2, 3]);
    let (back, used) = decode_from_slice::<VecDeque<u8>>(&bytes, Config::standard()).unwrap();
    assert_eq!(back, value);
    assert_eq!(back.iter().copied().collect::<Vec<u8>>(), vec![1u8, 2, 3]);
    assert_eq!(used, 4);
}

#[test]
fn forged_count_is_refused_by_the_limit() {
    let config = Config::standard().with_limit(1024);
    // the marker of a 64-bit count, then 2^32 in little-endian order
    let input = [253u8, 0, 0, 0, 0, 1, 0, 0, 0, 7, 7];
    assert_eq!(decode_from_slice::<Vec<u64>>(&input, config), Err(DecodeError::LimitExceeded));
    assert_eq!(decode_from_slice::<Box<[u64]>>(&input, config), Err(DecodeError::LimitExceeded));
    assert_eq!(
        decode_from_slice::<VecDeque<u64>>(&input, config),
        Err(DecodeError::LimitExceeded)
    );
}

#[test]
fn forged_count_whose_worst_case_overflows_is_refused() {
    let config = Config::standard().with_limit(usize::MAX);
    let input = [253u8, 0xFF, 0xFF, 0xFF, 0xFF, 0xFF, 0xFF, 0xFF, 0x7F];
    assert_eq!(decode_from_slice::<Vec<u64>>(&input, config), Err(DecodeError::LimitExceeded));
}

#[test]
fn limit_counts_the_count_and_the_elements() {
    // eight bytes for the count, three for the three elements
    let input = [3u8, 1, 2, 3];
    let enough = Config::standard().with_limit(11);
    assert_eq!(decode_from_slice::<Vec<u8>>(&input, enough), Ok((vec![1u8, 2, 3], 4)));
    let short = Config::standard().with_limit(10);
    assert_eq!(decode_from_slice::<Vec<u8>>(&input, short), Err(DecodeError::LimitExceeded));
    let none = Config::standard().with_limit(7);
    assert_eq!(decode_from_slice::<Vec<u8>>(&input, none), Err(DecodeError::LimitExceeded));
}

#[test]
fn nested_elements_claim_against_what_the_container_hands_back() {
    // the outer count claims 8, the two inner vectors 2 * 24 on top of it;
    // each inner vector gets 24 back and claims 8 for its count and 1 for
    // its one byte
    let input = [2u8, 1, 5, 1, 6];
    let worst = 8 + 2 * std::mem::size_of::<Vec<u8>>();
    let enough = Config::standard().with_limit(worst);
    assert_eq!(
        decode_from_slice::<Vec<Vec<u8>>>(&input, enough),
        Ok((vec![vec![5u8], vec![6u8]], 5))
    );
    let short = Config::standard().with_limit(worst - 1);
    assert_eq!(
        decode_from_slice::<Vec<Vec<u8>>>(&input, short),
        Err(DecodeError::LimitExceeded)
    );
}

#[test]
fn boxed_slice_hands_each_share_back_before_the_element_claims() {
    // eight bytes for the count and sixteen for the elements are claimed;
    // each element gets its byte back before it claims one, so that no
    // more than 24 bytes are ever claimed
    let mut input: Vec<u8> = vec![16];
    input.extend(0u8..16);
    let expected: Box<[u8]> = (0u8..16).collect::<Vec<u8>>().into_boxed_slice();
    assert_eq!(
        decode_from_slice::<Box<[u8]>>(&input, Config::standard().with_limit(28)),
        Ok((expected.clone(), 17))
    );
    assert_eq!(
        decode_from_slice::<Box<[u8]>>(&input, Config::standard().with_limit(24)),
        Ok((expected, 17))
    );
    assert_eq!(
        decode_from_slice::<Box<[u8]>>(&input, Config::standard().with_limit(23)),
        Err(DecodeError::LimitExceeded)
    );
}

#[test]
fn truncated_sequence_reports_the_missing_byte() {
    let input = [3u8, 1, 2];
    assert_eq!(
        decode_from_slice::<Vec<u8>>(&input, Config::standard()),
        Err(DecodeError::UnexpectedEnd { additional: 1 })
    );
    assert_eq!(
        decode_from_slice::<Vec<u8>>(&[], Config::standard()),
        Err(DecodeError::UnexpectedEnd { additional: 1 })
    );
}

#[test]
fn truncated_count_reports_what_is_missing() {
    let input = [252u8, 1];
    assert_eq!(
        decode_from_slice::<Vec<u8>>(&input, Config::standard()),
        Err(DecodeError::UnexpectedEnd { additional: 3 })
    );
}

#[test]
fn count_with_a_reserved_marker_is_refused() {
    assert_eq!(
        decode_from_slice::<Vec<u8>>(&[254u8, 0, 0], Config::standard()),
        Err(DecodeError::InvalidIntegerType { marker: 254 })
    );
    assert_eq!(
        decode_from_slice::<Vec<u8>>(&[255u8, 0, 0], Config::standard()),
        Err(DecodeError::InvalidIntegerType { marker: 255 })
    );
}

#[test]
fn element_failure_is_passed_on_unchanged() {
    let input = [3u8, 1, 0, 2];
    assert_eq!(
        decode_from_slice::<Vec<bool>>(&input, Config::standard()),
        Err(DecodeError::InvalidBooleanValue { byte: 2 })
    );
}

#[test]
fn reservation_that_cannot_be_had_is_an_error() {
    // 2^61 elements of eight bytes each: more than any allocation can hold
    let input = [253u8, 0, 0, 0, 0, 0, 0, 0, 0x20];
    let requested = 1usize << 61;
    let expected = DecodeError::OutOfMemory { inner: OutOfMemory::TryReserve { requested } };
    assert_eq!(decode_from_slice::<Vec<u64>>(&input, Config::standard()), Err(expected));
    assert_eq!(decode_from_slice::<VecDeque<u64>>(&input, Config::standard()), Err(expected));
}

#[test]
fn boxed_slice_that_cannot_be_had_is_a_failed_allocation() {
    // 2^63 bytes, which can be counted but not had in one allocation
    let input = [253u8, 0, 0, 0, 0, 0, 0, 0, 0x80];
    assert_eq!(
        decode_from_slice::<Box<[u8]>>(&input, Config::standard()),
        Err(DecodeError::OutOfMemory { inner: OutOfMemory::Alloc { requested: 1usize << 63 } })
    );
    // 2^61 elements of eight bytes each: more bytes than can be counted
    let input = [253u8, 0, 0, 0, 0, 0, 0, 0, 0x20];
    assert_eq!(
        decode_from_slice::<Box<[u64]>>(&input, Config::standard()),
        Err(DecodeError::OutOfMemory { inner: OutOfMemory::Alloc { requested: usize::MAX } })
    );
}

#[test]
fn element_that_cannot_be_reserved_keeps_its_kind_inside_a_boxed_slice() {
    // one element, itself a vector that announces 2^61 integers
    let input = [1u8, 253, 0, 0, 0, 0, 0, 0, 0, 0x20];
    assert_eq!(
        decode_from_slice::<Box<[Vec<u64>]>>(&input, Config::standard()),
        Err(DecodeError::OutOfMemory { inner: OutOfMemory::TryReserve { requested: 1 << 61 } })
    );
}

#[test]
fn refused_buffer_is_handed_on_and_nothing_is_read() {
    let input = [1u8, 2, 3];
    let mut decoder = Decoder::new(&input, Config::standard());
    let refusal = DecodeError::OutOfMemory { inner: OutOfMemory::Alloc { requested: 24 } };
    assert_eq!(decode_reserved::<u8>(&mut decoder, Err(refusal)), Err(refusal));
    assert_eq!(decoder.remaining_len(), 3);
}

#[test]
fn reserved_buffer_is_filled_from_the_input() {
    let input = [1u8, 2, 3];
    let mut decoder = Decoder::new(&input, Config::standard());
    let buffer = PartialBuffer::<u8>::reserve(2);
    assert_eq!(decode_reserved(&mut decoder, buffer), Ok(vec![1u8, 2]));
    assert_eq!(decoder.remaining_len(), 1);
    let buffer = PartialBuffer::<u8>::allocate(0);
    assert_eq!(decode_reserved(&mut decoder, buffer), Ok(Vec::new()));
    assert_eq!(decoder.remaining_len(), 1);
    let buffer = PartialBuffer::<u8>::allocate(2);
    assert_eq!(
        decode_reserved(&mut decoder, buffer),
        Err(DecodeError::UnexpectedEnd { additional: 1 })
    );
}

#[test]
fn queue_is_filled_once_its_room_is_had() {
    let input = [1u8, 2, 3];
    let mut decoder = Decoder::new(&input, Config::standard());
    let filled = queue_reserved::<u8>(&mut decoder, VecDeque::new(), Ok(()), 3).unwrap();
    assert_eq!(filled.iter().copied().collect::<Vec<u8>>(), vec![1u8, 2, 3]);
    assert_eq!(decoder.remaining_len(), 0);
    assert_eq!(queue_reserved::<u8>(&mut decoder, VecDeque::new(), Ok(()), 0), Ok(VecDeque::new()));
}

#[test]
fn queue_whose_room_is_refused_reads_nothing() {
    let input = [1u8, 2, 3];
    let mut decoder = Decoder::new(&input, Config::standard());
    let mut probe: Vec<u64> = Vec::new();
    let refused = probe.try_reserve(usize::MAX);
    assert!(refused.is_err());
    assert_eq!(
        queue_reserved::<u8>(&mut decoder, VecDeque::new(), refused, 3),
        Err(DecodeError::OutOfMemory { inner: OutOfMemory::TryReserve { requested: 3 } })
    );
    assert_eq!(decoder.remaining_len(), 3);
}
