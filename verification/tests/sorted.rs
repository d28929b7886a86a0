use compact_codec::config::Config;
use compact_codec::error::DecodeError;
use compact_codec::{decode_from_slice, encode_to_vec};
use std::collections::{BTreeMap, BTreeSet};

#[test]
fn sorted_set_is_encoded_in_ascending_order() {
    let mut set: BTreeSet<u64> = BTreeSet::new();
    set.insert(3);
    set.insert(1);
    set.insert(2);
    let bytes = encode_to_vec(set.clone(), Config::standard()).unwrap();
    assert_eq!(bytes, vec![3u8, 1, 2, 3]);
    let (back, used) = decode_from_slice::<BTreeSet<u64>>(&bytes, Config::standard()).unwrap();
    assert_eq!(back.iter().copied().collect::<Vec<u64>>(), vec![1u64, 2, 3]);
    assert_eq!(back, set);
    assert_eq!(used, 4);
}

#[test]
fn sorted_set_forgets_the_encoded_order() {
    let (set, _) = decode_from_slice::<BTreeSet<u64>>(&[3u8, 3, 1, 2], Config::standard()).unwrap();
    assert_eq!(set.iter().copied().collect::<Vec<u64>>(), vec![1u64, 2, 3]);
    assert_eq!(encode_to_vec(set, Config::standard()).unwrap(), vec![3u8, 1, 2, 3]);
}

#[test]
fn sorted_set_keeps_one_of_each() {
    let (set, used) =
        decode_from_slice::<BTreeSet<u64>>(&[4u8, 7, 7, 2, 7], Config::standard()).unwrap();
    assert_eq!(set.iter().copied().collect::<Vec<u64>>(), vec![2u64, 7]);
    assert_eq!(used, 5);
}

#[test]
fn sorted_set_orders_by_value_not_by_bytes() {
    let mut set: BTreeSet<u64> = BTreeSet::new();
    set.insert(70_000);
    set.insert(5);
    set.insert(300);
    let bytes = encode_to_vec(set.clone(), Config::standard()).unwrap();
    assert_eq!(bytes, vec![3u8, 5, 251, 0x2C, 0x01, 252, 0x70, 0x11, 0x01, 0x00]);
    assert_eq!(decode_from_slice::<BTreeSet<u64>>(&bytes, Config::standard()), Ok((set, 10)));
}

#[test]
fn empty_sorted_containers_round_trip() {
    let set: BTreeSet<u64> = BTreeSet::new();
    let bytes = encode_to_vec(set.clone(), Config::standard()).unwrap();
    assert_eq!(bytes, vec![0u8]);
    assert_eq!(decode_from_slice::<BTreeSet<u64>>(&bytes, Config::standard()), Ok((set, 1)));
    let map: BTreeMap<u64, u8> = BTreeMap::new();
    let bytes = encode_to_vec(map.clone(), Config::standard()).unwrap();
    assert_eq!(bytes, vec![0u8]);
    assert_eq!(decode_from_slice::<BTreeMap<u64, u8>>(&bytes, Config::standard()), Ok((map, 1)));
}

#[test]
fn sorted_map_is_encoded_in_ascending_key_order() {
    let mut map: BTreeMap<u64, u8> = BTreeMap::new();
    map.insert(3, 30);
    map.insert(1, 10);
    map.insert(2, 20);
    let bytes = encode_to_vec(map.clone(), Config::standard()).unwrap();
    assert_eq!(bytes, vec![3u8, 1, 10, 2, 20, 3, 30]);
    let (back, used) = decode_from_slice::<BTreeMap<u64, u8>>(&bytes, Config::standard()).unwrap();
    assert_eq!(back.keys().copied().collect::<Vec<u64>>(), vec![1u64, 2, 3]);
    assert_eq!(back, map);
    assert_eq!(used, 7);
}

#[test]
fn sorted_map_forgets_the_encoded_order() {
    let input = [3u8, 3, 30, 1, 10, 2, 20];
    let (map, _) = decode_from_slice::<BTreeMap<u64, u8>>(&input, Config::standard()).unwrap();
    assert_eq!(map.iter().map(|(k, v)| (*k, *v)).collect::<Vec<(u64, u8)>>(), vec![
        (1u64, 10u8),
        (2, 20),
        (3, 30)
    ]);
    assert_eq!(encode_to_vec(map, Config::standard()).unwrap(), vec![3u8, 1, 10, 2, 20, 3, 30]);
}

#[test]
fn sorted_map_keeps_the_last_value_of_a_key() {
    let input = [3u8, 5, 1, 6, 2, 5, 3];
    let (map, used) = decode_from_slice::<BTreeMap<u64, u8>>(&input, Config::standard()).unwrap();
    assert_eq!(map.len(), 2);
    assert_eq!(map.get(&5), Some(&3));
    assert_eq!(map.get(&6), Some(&2));
    assert_eq!(used, 7);
}

#[test]
fn sorted_map_of_containers_round_trips() {
    let mut map: BTreeMap<u64, Vec<String>> = BTreeMap::new();
    map.insert(9, vec![String::from("a"), String::from("bc")]);
    map.insert(4, vec![]);
    let bytes = encode_to_vec(map.clone(), Config::standard()).unwrap();
    assert_eq!(bytes, vec![2u8, 4, 0, 9, 2, 1, b'a', 2, b'b', b'c']);
    let (back, used) =
        decode_from_slice::<BTreeMap<u64, Vec<String>>>(&bytes, Config::standard()).unwrap();
    assert_eq!(back, map);
    assert_eq!(used, bytes.len());
}

#[test]
fn sorted_containers_claim_before_they_read() {
    let forged = [253u8, 0, 0, 0, 0, 1, 0, 0, 0, 1, 2];
    let config = Config::standard().with_limit(4096);
    assert_eq!(
        decode_from_slice::<BTreeSet<u64>>(&forged, config),
        Err(DecodeError::LimitExceeded)
    );
    assert_eq!(
        decode_from_slice::<BTreeMap<u64, u8>>(&forged, config),
        Err(DecodeError::LimitExceeded)
    );
}

#[test]
fn sorted_map_claims_a_pair_for_each_entry() {
    let input = [2u8, 1, 10, 2, 20];
    let worst = 8 + 2 * std::mem::size_of::<(u64, u8)>();
    let enough = Config::standard().with_limit(worst);
    assert!(decode_from_slice::<BTreeMap<u64, u8>>(&input, enough).is_ok());
    let short = Config::standard().with_limit(worst - 1);
    assert_eq!(
        decode_from_slice::<BTreeMap<u64, u8>>(&input, short),
        Err(DecodeError::LimitExceeded)
    );
}

#[test]
fn sorted_containers_pass_on_element_failures() {
    assert_eq!(
        decode_from_slice::<BTreeSet<u64>>(&[2u8, 1], Config::standard()),
        Err(DecodeError::UnexpectedEnd { additional: 1 })
    );
    assert_eq!(
        decode_from_slice::<BTreeMap<u64, bool>>(&[2u8, 1, 1, 2, 7], Config::standard()),
        Err(DecodeError::InvalidBooleanValue { byte: 7 })
    );
    assert_eq!(
        decode_from_slice::<BTreeMap<u64, bool>>(&[1u8, 255, 1], Config::standard()),
        Err(DecodeError::InvalidIntegerType { marker: 255 })
    );
}

#[test]
fn sorted_set_decode_is_decided_by_the_input_alone() {
    // a count that no reservation could serve is no obstacle: nothing is
    // reserved, and the input ends where the first member should be
    let input = [253u8, 0, 0, 0, 0, 0, 0, 0, 0x20];
    assert_eq!(
        decode_from_slice::<BTreeSet<u64>>(&input, Config::standard()),
        Err(DecodeError::UnexpectedEnd { additional: 1 })
    );
    assert_eq!(
        decode_from_slice::<BTreeMap<u64, u8>>(&input, Config::standard()),
        Err(DecodeError::UnexpectedEnd { additional: 1 })
    );
}
