use compact_codec::config::Config;
use compact_codec::error::DecodeError;
use compact_codec::pointer::ensure_room;
use compact_codec::{decode_from_slice, encode_to_vec};
use std::borrow::Cow;
use std::rc::Rc;
use std::sync::Arc;

#[test]
fn wrappers_add_nothing_to_the_wire() {
    let bare = encode_to_vec(vec![1u8, 2, 3], Config::standard()).unwrap();
    assert_eq!(encode_to_vec(Box::new(vec![1u8, 2, 3]), Config::standard()).unwrap(), bare);
    assert_eq!(encode_to_vec(Rc::new(vec![1u8, 2, 3]), Config::standard()).unwrap(), bare);
    assert_eq!(encode_to_vec(Arc::new(vec![1u8, 2, 3]), Config::standard()).unwrap(), bare);
    let owned: Cow<Vec<u8>> = Cow::Owned(vec![1u8, 2, 3]);
    assert_eq!(encode_to_vec(owned, Config::standard()).unwrap(), bare);
    let held = vec![1u8, 2, 3];
    let borrowed: Cow<Vec<u8>> = Cow::Borrowed(&held);
    assert_eq!(encode_to_vec(borrowed, Config::standard()).unwrap(), bare);
    assert_eq!(encode_to_vec(Box::new(Rc::new(300u64)), Config::standard()).unwrap(), vec![
        251u8, 0x2C, 0x01
    ]);
}

#[test]
fn wrappers_round_trip() {
    let bytes = [251u8, 0x2C, 0x01];
    assert_eq!(decode_from_slice::<Box<u64>>(&bytes, Config::standard()), Ok((Box::new(300), 3)));
    assert_eq!(decode_from_slice::<Rc<u64>>(&bytes, Config::standard()), Ok((Rc::new(300), 3)));
    assert_eq!(decode_from_slice::<Arc<u64>>(&bytes, Config::standard()), Ok((Arc::new(300), 3)));
    let (cow, used) = decode_from_slice::<Cow<u64>>(&bytes, Config::standard()).unwrap();
    assert_eq!(*cow, 300);
    assert_eq!(used, 3);
}

#[test]
fn decoded_copy_on_write_value_is_owned() {
    let held = String::from("text");
    let borrowed: Cow<String> = Cow::Borrowed(&held);
    let bytes = encode_to_vec(borrowed, Config::standard()).unwrap();
    let (back, _) = decode_from_slice::<Cow<String>>(&bytes, Config::standard()).unwrap();
    assert!(matches!(back, Cow::Owned(_)));
    assert_eq!(*back, held);
}

#[test]
fn shared_pointers_decoded_twice_do_not_alias() {
    let bytes = encode_to_vec(Rc::new(vec![1u8, 2]), Config::standard()).unwrap();
    let (mut first, _) = decode_from_slice::<Rc<Vec<u8>>>(&bytes, Config::standard()).unwrap();
    let (second, _) = decode_from_slice::<Rc<Vec<u8>>>(&bytes, Config::standard()).unwrap();
    assert!(!Rc::ptr_eq(&first, &second));
    assert_eq!(Rc::strong_count(&first), 1);
    assert_eq!(Rc::strong_count(&second), 1);
    Rc::get_mut(&mut first).unwrap().push(3);
    assert_eq!(*first, vec![1u8, 2, 3]);
    assert_eq!(*second, vec![1u8, 2]);
}

#[test]
fn atomically_shared_pointers_decoded_twice_do_not_alias() {
    let bytes = encode_to_vec(Arc::new(7u64), Config::standard()).unwrap();
    let (mut first, _) = decode_from_slice::<Arc<u64>>(&bytes, Config::standard()).unwrap();
    let (second, _) = decode_from_slice::<Arc<u64>>(&bytes, Config::standard()).unwrap();
    assert!(!Arc::ptr_eq(&first, &second));
    *Arc::get_mut(&mut first).unwrap() = 8;
    assert_eq!(*first, 8);
    assert_eq!(*second, 7);
}

#[test]
fn sharing_is_not_on_the_wire() {
    let shared = Rc::new(5u8);
    let value = vec![Rc::clone(&shared), Rc::clone(&shared)];
    let bytes = encode_to_vec(value, Config::standard()).unwrap();
    assert_eq!(bytes, vec![2u8, 5, 5]);
    let (back, _) = decode_from_slice::<Vec<Rc<u8>>>(&bytes, Config::standard()).unwrap();
    assert!(!Rc::ptr_eq(&back[0], &back[1]));
}

#[test]
fn inner_failure_passes_through_the_wrapper() {
    assert_eq!(
        decode_from_slice::<Box<bool>>(&[9u8], Config::standard()),
        Err(DecodeError::InvalidBooleanValue { byte: 9 })
    );
    assert_eq!(
        decode_from_slice::<Rc<u64>>(&[], Config::standard()),
        Err(DecodeError::UnexpectedEnd { additional: 1 })
    );
    assert_eq!(
        decode_from_slice::<Arc<u64>>(&[1u8], Config::standard().with_limit(3)),
        Err(DecodeError::LimitExceeded)
    );
}

#[test]
fn room_for_one_value_can_be_had() {
    assert_eq!(ensure_room::<u64>(), Ok(()));
    assert_eq!(ensure_room::<[u8; 4096]>(), Ok(()));
    assert_eq!(ensure_room::<()>(), Ok(()));
}

#[test]
fn borrowed_text_and_slices_decode_as_owned() {
    let input = [2u8, b'h', b'i'];
    let (text, used) = decode_from_slice::<Cow<str>>(&input, Config::standard()).unwrap();
    assert!(matches!(text, Cow::Owned(_)));
    assert_eq!(text, "hi");
    assert_eq!(used, 3);
    let (items, used) = decode_from_slice::<Cow<[u64]>>(&[2u8, 7, 8], Config::standard()).unwrap();
    assert!(matches!(items, Cow::Owned(_)));
    assert_eq!(&*items, &[7u64, 8]);
    assert_eq!(used, 3);
    assert_eq!(
        decode_from_slice::<Cow<str>>(&[2u8, 0xFF, 0xFE], Config::standard()),
        Err(DecodeError::Utf8 { valid_up_to: 0 })
    );
}
