//! The element types the containers are built from: bytes, booleans and
//! 64-bit unsigned integers, and the element counts that precede a container.
use crate::config::{Config, IntEncoding};
use crate::de::{advances, claim_at, take_bytes, Cursor, Decode, Decoder, Parsed};
use crate::enc::{lemma_nothing_written, Encode, Encoder};
use crate::error::{DecodeError, EncodeError};
use crate::uint::{
    int_bytes, int_value, lemma_int_round_trip, lemma_le_value_bound, lemma_pow256_values, put_uint,
    uint_from_bytes,
};
use vstd::prelude::*;
use vstd::slice::slice_subrange;

verus! {

/// The largest value that the variable-width form writes as a single byte.
pub const SINGLE_BYTE_MAX: u8 = 250;

/// Announces a 2-byte integer in the variable-width form.
pub const U16_MARKER: u8 = 251;

/// Announces a 4-byte integer in the variable-width form.
pub const U32_MARKER: u8 = 252;

/// Announces an 8-byte integer in the variable-width form.
pub const U64_MARKER: u8 = 253;

/// The encoding of a 64-bit unsigned integer.
pub open spec fn u64_wire(v: u64, cfg: Config) -> Seq<u8> {
    match cfg.int_encoding {
        IntEncoding::Fixed => int_bytes(v as nat, 8, cfg.endian),
        IntEncoding::Variable => if v <= SINGLE_BYTE_MAX {
            seq![v as u8]
        } else if v < 0x1_0000 {
            seq![U16_MARKER] + int_bytes(v as nat, 2, cfg.endian)
        } else if v < 0x1_0000_0000 {
            seq![U32_MARKER] + int_bytes(v as nat, 4, cfg.endian)
        } else {
            seq![U64_MARKER] + int_bytes(v as nat, 8, cfg.endian)
        },
    }
}

/// The number of bytes that follow the marker `marker` of a variable-width
/// integer, where it announces any.
pub open spec fn marker_width(marker: u8) -> Option<nat> {
    if marker == U16_MARKER {
        Some(2)
    } else if marker == U32_MARKER {
        Some(4)
    } else if marker == U64_MARKER {
        Some(8)
    } else {
        None
    }
}

/// Reads `width` bytes as one integer.
pub open spec fn parse_uint(cfg: Config, at: Cursor, width: nat) -> Parsed<u64> {
    match take_bytes(at, width) {
        Err(e) => Err(e),
        Ok((bytes, end)) => Ok((int_value(bytes, cfg.endian) as u64, end)),
    }
}

/// Decoding a 64-bit unsigned integer: eight bytes are claimed, then the
/// integer is read in the form the settings choose.
pub open spec fn parse_u64(cfg: Config, at: Cursor) -> Parsed<u64> {
    match claim_at(cfg, at, 8) {
        None => Err(DecodeError::LimitExceeded),
        Some(claimed) => match cfg.int_encoding {
            IntEncoding::Fixed => parse_uint(cfg, claimed, 8),
            IntEncoding::Variable => match take_bytes(claimed, 1) {
                Err(e) => Err(e),
                Ok((first, after)) => if first[0] <= SINGLE_BYTE_MAX {
                    Ok((first[0] as u64, after))
                } else {
                    match marker_width(first[0]) {
                        Some(width) => parse_uint(cfg, after, width),
                        None => Err(DecodeError::InvalidIntegerType { marker: first[0] }),
                    }
                },
            },
        },
    }
}

/// The encoding of an element count.
pub open spec fn len_wire(len: nat, cfg: Config) -> Seq<u8> {
    u64_wire(len as u64, cfg)
}

/// Decoding an element count: a 64-bit integer that must fit `usize`.
pub open spec fn parse_len(cfg: Config, at: Cursor) -> Parsed<usize> {
    match parse_u64(cfg, at) {
        Err(e) => Err(e),
        Ok((v, end)) => if v <= usize::MAX {
            Ok((v as usize, end))
        } else {
            Err(DecodeError::OutsideUsizeRange { count: v })
        },
    }
}

/// A decoded integer is followed by a suffix of the input it was read from,
/// and eight more bytes are claimed where claims are counted.
pub proof fn lemma_parse_u64_progress(cfg: Config, at: Cursor)
    ensures
        parse_u64(cfg, at) matches Ok((_, end)) ==> advances(cfg, at, end),
{
    if let Some(claimed) = claim_at(cfg, at, 8) {
        match cfg.int_encoding {
            IntEncoding::Fixed => {},
            IntEncoding::Variable => {
                if let Ok((first, after)) = take_bytes(claimed, 1) {
                    if first[0] > SINGLE_BYTE_MAX {
                        if let Some(width) = marker_width(first[0]) {
                            if let Ok((_, end)) = parse_uint(cfg, after, width) {
                                assert(end.input == at.input.skip(1 + width as int));
                            }
                        }
                    }
                }
            },
        }
    }
}

/// An encoded integer is read back, with what follows it left over, unless
/// the limit refuses the claim.
pub proof fn lemma_u64_round_trip(v: u64, cfg: Config, rest: Seq<u8>, claimed: nat)
    ensures
        match parse_u64(cfg, Cursor { input: u64_wire(v, cfg) + rest, claimed }) {
            Ok((m, end)) => m == v && end.input == rest && end.claimed >= claimed && (cfg.limit
                is None ==> end.claimed == claimed),
            Err(e) => e == DecodeError::LimitExceeded && cfg.limit is Some,
        },
{
    let at = Cursor { input: u64_wire(v, cfg) + rest, claimed };
    lemma_pow256_values();
    if let Some(c) = claim_at(cfg, at, 8) {
        match cfg.int_encoding {
            IntEncoding::Fixed => {
                lemma_payload_round_trip(v, 8, cfg, Seq::empty(), rest, c.claimed);
                assert(Seq::<u8>::empty() + int_bytes(v as nat, 8, cfg.endian) + rest
                    == at.input);
                assert(at.input.skip(0) == at.input);
            },
            IntEncoding::Variable => {
                if v <= SINGLE_BYTE_MAX {
                    assert(at.input.skip(1) == rest);
                } else {
                    let width: nat = if v < 0x1_0000 {
                        2
                    } else if v < 0x1_0000_0000 {
                        4
                    } else {
                        8
                    };
                    let marker = at.input[0];
                    assert(marker_width(marker) == Some(width));
                    lemma_payload_round_trip(v, width, cfg, seq![marker], rest, c.claimed);
                    assert(seq![marker] + int_bytes(v as nat, width, cfg.endian) + rest
                        == at.input);
                }
            },
        }
    }
}

/// The payload of an integer, standing behind `before` and in front of
/// `rest`, is read back as the integer.
proof fn lemma_payload_round_trip(
    v: u64,
    width: nat,
    cfg: Config,
    before: Seq<u8>,
    rest: Seq<u8>,
    claimed: nat,
)
    requires
        v < crate::uint::pow256(width),
    ensures
        parse_uint(
            cfg,
            Cursor {
                input: (before + int_bytes(v as nat, width, cfg.endian) + rest).skip(
                    before.len() as int,
                ),
                claimed,
            },
            width,
        ) == Ok::<(u64, Cursor), DecodeError>((v, Cursor { input: rest, claimed })),
{
    let payload = int_bytes(v as nat, width, cfg.endian);
    lemma_int_round_trip(v as nat, width, cfg.endian);
    let input = (before + payload + rest).skip(before.len() as int);
    assert(input == payload + rest);
    assert(input.take(width as int) == payload);
    assert(input.skip(width as int) == rest);
}

/// A decoded element count is followed by a suffix of the input it was read
/// from.
pub proof fn lemma_parse_len_progress(cfg: Config, at: Cursor)
    ensures
        parse_len(cfg, at) matches Ok((_, end)) ==> advances(cfg, at, end),
{
    lemma_parse_u64_progress(cfg, at);
}

/// Appends the encoding of `v` to the output.
pub fn encode_u64(encoder: &mut Encoder, v: u64) -> (r: Result<(), EncodeError>)
    ensures
        final(encoder).config() == old(encoder).config(),
        match r {
            Ok(()) => final(encoder)@ == old(encoder)@ + u64_wire(v, old(encoder).config()),
            Err(e) => e->inner is TryReserve && final(encoder)@ == old(encoder)@,
        },
{
    let cfg = encoder.settings();
    let mut buf = [0u8;9];
    let used: usize = match cfg.int_encoding {
        IntEncoding::Fixed => {
            put_uint(&mut buf, 0, v, 8, cfg.endian);
            8
        },
        IntEncoding::Variable => {
            if v <= SINGLE_BYTE_MAX as u64 {
                buf[0] = v as u8;
                1
            } else if v < 0x1_0000 {
                buf[0] = U16_MARKER;
                put_uint(&mut buf, 1, v, 2, cfg.endian);
                3
            } else if v < 0x1_0000_0000 {
                buf[0] = U32_MARKER;
                put_uint(&mut buf, 1, v, 4, cfg.endian);
                5
            } else {
                buf[0] = U64_MARKER;
                put_uint(&mut buf, 1, v, 8, cfg.endian);
                9
            }
        },
    };
    let bytes = slice_subrange(buf.as_slice(), 0, used);
    proof {
        let wire = u64_wire(v, cfg);
        if cfg.int_encoding is Variable && v > SINGLE_BYTE_MAX {
            assert(bytes@ == seq![bytes@[0]] + buf@.subrange(1, used as int));
        }
        assert(bytes@ == wire);
    }
    encoder.write(bytes)
}

/// Appends an element count to the output.
pub fn encode_slice_len(encoder: &mut Encoder, len: usize) -> (r: Result<(), EncodeError>)
    ensures
        final(encoder).config() == old(encoder).config(),
        match r {
            Ok(()) => final(encoder)@ == old(encoder)@ + len_wire(
                len as nat,
                old(encoder).config(),
            ),
            Err(e) => e->inner is TryReserve && final(encoder)@ == old(encoder)@,
        },
{
    encode_u64(encoder, len as u64)
}

/// Reads an element count. Nothing but the count's own eight bytes is
/// claimed, and nothing is allocated.
pub fn decode_slice_len(decoder: &mut Decoder) -> (r: Result<usize, DecodeError>)
    requires
        old(decoder).wf(),
    ensures
        final(decoder).wf(),
        final(decoder).config() == old(decoder).config(),
        match r {
            Ok(len) => parse_len(old(decoder).config(), old(decoder)@) == Ok::<
                (usize, Cursor),
                DecodeError,
            >((len, final(decoder)@)),
            Err(e) => parse_len(old(decoder).config(), old(decoder)@) == Err::<
                (usize, Cursor),
                DecodeError,
            >(e),
        },
{
    let v = u64::decode(decoder)?;
    if v <= usize::MAX as u64 {
        Ok(v as usize)
    } else {
        Err(DecodeError::OutsideUsizeRange { count: v })
    }
}

impl Encode for u8 {
    open spec fn wire(m: u8, cfg: Config) -> Seq<u8> {
        seq![m]
    }

    fn encode(&self, encoder: &mut Encoder) -> (r: Result<(), EncodeError>) {
        let buf = [*self];
        let r = encoder.write(buf.as_slice());
        proof {
            assert(buf@ == seq![*self]);
            lemma_nothing_written(old(encoder)@, seq![*self]);
        }
        r
    }
}

impl Decode for u8 {
    open spec fn parse(cfg: Config, at: Cursor) -> Parsed<u8> {
        match claim_at(cfg, at, 1) {
            None => Err(DecodeError::LimitExceeded),
            Some(claimed) => match take_bytes(claimed, 1) {
                Err(e) => Err(e),
                Ok((bytes, end)) => Ok((bytes[0], end)),
            },
        }
    }

    open spec fn may_run_out() -> bool {
        false
    }

    proof fn lemma_parse_progress(cfg: Config, at: Cursor) {
    }

    fn decode(decoder: &mut Decoder) -> (r: Result<u8, DecodeError>)
        ensures
            r matches Err(e) ==> !(e is OutOfMemory),
    {
        decoder.claim_bytes_read(1)?;
        let bytes = decoder.read(1)?;
        Ok(bytes[0])
    }
}

impl Encode for bool {
    open spec fn wire(m: bool, cfg: Config) -> Seq<u8> {
        seq![if m { 1u8 } else { 0u8 }]
    }

    fn encode(&self, encoder: &mut Encoder) -> (r: Result<(), EncodeError>) {
        let byte: u8 = if *self { 1 } else { 0 };
        let buf = [byte];
        let r = encoder.write(buf.as_slice());
        proof {
            assert(buf@ == seq![byte]);
            lemma_nothing_written(old(encoder)@, seq![byte]);
        }
        r
    }
}

impl Decode for bool {
    open spec fn parse(cfg: Config, at: Cursor) -> Parsed<bool> {
        match claim_at(cfg, at, 1) {
            None => Err(DecodeError::LimitExceeded),
            Some(claimed) => match take_bytes(claimed, 1) {
                Err(e) => Err(e),
                Ok((bytes, end)) => if bytes[0] == 0 {
                    Ok((false, end))
                } else if bytes[0] == 1 {
                    Ok((true, end))
                } else {
                    Err(DecodeError::InvalidBooleanValue { byte: bytes[0] })
                },
            },
        }
    }

    open spec fn may_run_out() -> bool {
        false
    }

    proof fn lemma_parse_progress(cfg: Config, at: Cursor) {
    }

    fn decode(decoder: &mut Decoder) -> (r: Result<bool, DecodeError>)
        ensures
            r matches Err(e) ==> !(e is OutOfMemory),
    {
        decoder.claim_bytes_read(1)?;
        let bytes = decoder.read(1)?;
        let byte = bytes[0];
        if byte == 0 {
            Ok(false)
        } else if byte == 1 {
            Ok(true)
        } else {
            Err(DecodeError::InvalidBooleanValue { byte })
        }
    }
}

impl Encode for u64 {
    open spec fn wire(m: u64, cfg: Config) -> Seq<u8> {
        u64_wire(m, cfg)
    }

    fn encode(&self, encoder: &mut Encoder) -> (r: Result<(), EncodeError>) {
        proof {
            lemma_nothing_written(encoder@, u64_wire(*self, encoder.config()));
        }
        encode_u64(encoder, *self)
    }
}

impl Decode for u64 {
    open spec fn parse(cfg: Config, at: Cursor) -> Parsed<u64> {
        parse_u64(cfg, at)
    }

    open spec fn may_run_out() -> bool {
        false
    }

    proof fn lemma_parse_progress(cfg: Config, at: Cursor) {
        lemma_parse_u64_progress(cfg, at);
    }

    fn decode(decoder: &mut Decoder) -> (r: Result<u64, DecodeError>)
        ensures
            r matches Err(e) ==> !(e is OutOfMemory),
    {
        decoder.claim_bytes_read(8)?;
        let cfg = decoder.settings();
        match cfg.int_encoding {
            IntEncoding::Fixed => {
                let bytes = decoder.read(8)?;
                proof {
                    lemma_le_value_bound(crate::uint::arrange(bytes@, cfg.endian));
                    lemma_pow256_values();
                }
                Ok(uint_from_bytes(bytes, cfg.endian))
            },
            IntEncoding::Variable => {
                let first = decoder.read(1)?;
                let marker = first[0];
                if marker <= SINGLE_BYTE_MAX {
                    Ok(marker as u64)
                } else if marker <= U64_MARKER {
                    let width: usize = if marker == U16_MARKER {
                        2
                    } else if marker == U32_MARKER {
                        4
                    } else {
                        8
                    };
                    let bytes = decoder.read(width)?;
                    proof {
                        lemma_le_value_bound(crate::uint::arrange(bytes@, cfg.endian));
                        lemma_pow256_values();
                    }
                    Ok(uint_from_bytes(bytes, cfg.endian))
                } else {
                    Err(DecodeError::InvalidIntegerType { marker })
                }
            },
        }
    }
}

} // verus!
