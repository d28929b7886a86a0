use compact_codec::config::{Config, Endian, IntEncoding};
use compact_codec::error::DecodeError;
use compact_codec::{decode_from_slice, encode_to_vec};

#[test]
fn pair_is_its_components_in_order() {
    let bytes = encode_to_vec((7u8, 300u64), Config::standard()).unwrap();
    assert_eq!(bytes, vec![7u8, 251, 0x2C, 0x01]);
    assert_eq!(decode_from_slice::<(u8, u64)>(&bytes, Config::standard()), Ok(((7u8, 300u64), 4)));
}

#[test]
fn pairs_nest() {
    let value = ((true, vec![1u8]), String::from("x"));
    let bytes = encode_to_vec(value.clone(), Config::standard()).unwrap();
    assert_eq!(bytes, vec![1u8, 1, 1, 1, b'x']);
    assert_eq!(
        decode_from_slice::<((bool, Vec<u8>), String)>(&bytes, Config::standard()),
        Ok((value, 5))
    );
}

#[test]
fn pair_fails_where_its_first_failing_component_fails() {
    assert_eq!(
        decode_from_slice::<(bool, bool)>(&[3u8, 4], Config::standard()),
        Err(DecodeError::InvalidBooleanValue { byte: 3 })
    );
    assert_eq!(
        decode_from_slice::<(bool, bool)>(&[1u8, 4], Config::standard()),
        Err(DecodeError::InvalidBooleanValue { byte: 4 })
    );
    assert_eq!(
        decode_from_slice::<(u8, u64)>(&[1u8], Config::standard()),
        Err(DecodeError::UnexpectedEnd { additional: 1 })
    );
}

#[test]
fn settings_are_built_step_by_step() {
    let standard = Config::standard();
    assert_eq!(standard.int_encoding, IntEncoding::Variable);
    assert_eq!(standard.endian, Endian::Little);
    assert_eq!(standard.limit, None);
    let other = standard.with_big_endian().with_fixed_int_encoding().with_limit(64);
    assert_eq!(
        other,
        Config { int_encoding: IntEncoding::Fixed, endian: Endian::Big, limit: Some(64) }
    );
    let back = other.with_little_endian().with_variable_int_encoding().with_no_limit();
    assert_eq!(back, standard);
}
