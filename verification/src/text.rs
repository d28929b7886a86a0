//! Owned text: a byte sequence that must be well-formed UTF-8.
use crate::config::Config;
use crate::de::{Cursor, Decode, Decoder, Parsed};
use crate::enc::{Encode, Encoder};
use crate::error::{refusal, DecodeError, EncodeError, OutOfMemory};
use crate::law::{lemma_sequence_round_trip, RoundTrip};
use crate::sequence::{
    claim_sequence, decode_sequence, encode_sequence, lemma_parse_sequence_progress, models,
    parse_sequence, sequence_wire,
};
use vstd::prelude::*;
use vstd::utf8::{decode_utf8, encode_utf8, valid_utf8};

verus! {

broadcast use vstd::utf8::group_utf8_lib;

/// The first `k` bytes of `bytes` are well-formed UTF-8 and no longer
/// prefix of `bytes` is.
pub open spec fn is_valid_up_to(bytes: Seq<u8>, k: nat) -> bool {
    &&& k <= bytes.len()
    &&& valid_utf8(bytes.take(k as int))
    &&& forall|j: int| k < j <= bytes.len() ==> !valid_utf8(#[trigger] bytes.take(j))
}

/// The length of the longest prefix of `bytes` that is well-formed UTF-8.
pub open spec fn valid_up_to(bytes: Seq<u8>) -> nat {
    choose|k: nat| is_valid_up_to(bytes, k)
}

/// Bytes taken as text: the characters they encode, or how far they are
/// well-formed.
pub open spec fn text_of(bytes: Seq<u8>) -> Result<Seq<char>, DecodeError> {
    if valid_utf8(bytes) {
        Ok(decode_utf8(bytes))
    } else {
        Err(DecodeError::Utf8 { valid_up_to: valid_up_to(bytes) as usize })
    }
}

/// Decoding text: a byte sequence is decoded, and only then are its bytes
/// held to be UTF-8.
pub open spec fn parse_text(cfg: Config, at: Cursor) -> Parsed<Seq<char>> {
    match parse_sequence::<u8>(cfg, at) {
        Err(e) => Err(e),
        Ok((bytes, end)) => match text_of(bytes) {
            Err(e) => Err(e),
            Ok(text) => Ok((text, end)),
        },
    }
}

/// There is one longest well-formed prefix.
pub proof fn lemma_valid_up_to_unique(bytes: Seq<u8>, k: nat)
    requires
        is_valid_up_to(bytes, k),
    ensures
        valid_up_to(bytes) == k,
{
    let chosen = valid_up_to(bytes);
    assert(is_valid_up_to(bytes, chosen));
    if chosen < k {
        assert(!valid_utf8(bytes.take(k as int)));
    } else if k < chosen {
        assert(!valid_utf8(bytes.take(chosen as int)));
    }
}

/// `String::from_utf8`, with `Utf8Error::valid_up_to` in place of its
/// error. Well-formed bytes become a string of exactly those bytes; of
/// others the length of the longest well-formed prefix is reported.
#[verifier::external_body]
fn string_from_utf8(bytes: Vec<u8>) -> (r: Result<String, usize>)
    ensures
        match r {
            Ok(text) => valid_utf8(bytes@) && encode_utf8(text@) == bytes@,
            Err(k) => !valid_utf8(bytes@) && is_valid_up_to(bytes@, k as nat),
        },
{
    match String::from_utf8(bytes) {
        Ok(text) => Ok(text),
        Err(e) => Err(e.utf8_error().valid_up_to()),
    }
}

/// Makes text of decoded bytes, or says how far they are well-formed.
pub fn text_from_bytes(bytes: Vec<u8>) -> (r: Result<String, DecodeError>)
    ensures
        match r {
            Ok(text) => text_of(bytes@) == Ok::<Seq<char>, DecodeError>(text@),
            Err(e) => text_of(bytes@) == Err::<Seq<char>, DecodeError>(e),
        },
{
    match string_from_utf8(bytes) {
        Ok(text) => Ok(text),
        Err(k) => {
            proof {
                lemma_valid_up_to_unique(bytes@, k as nat);
            }
            Err(DecodeError::Utf8 { valid_up_to: k })
        },
    }
}

impl Encode for String {
    open spec fn wire(m: Seq<char>, cfg: Config) -> Seq<u8> {
        sequence_wire::<u8>(encode_utf8(m), cfg)
    }

    fn encode(&self, encoder: &mut Encoder) -> (r: Result<(), EncodeError>) {
        let bytes = self.as_str().as_bytes();
        proof {
            assert(models(bytes@) == bytes@);
        }
        encode_sequence(bytes, encoder)
    }
}

impl Decode for String {
    open spec fn parse(cfg: Config, at: Cursor) -> Parsed<Seq<char>> {
        parse_text(cfg, at)
    }

    open spec fn may_run_out() -> bool {
        true
    }

    proof fn lemma_parse_progress(cfg: Config, at: Cursor) {
        lemma_parse_sequence_progress::<u8>(cfg, at);
    }

    fn decode(decoder: &mut Decoder) -> (r: Result<String, DecodeError>)
        ensures
            claim_sequence::<u8>(old(decoder).config(), old(decoder)@) matches Err(e) ==> r
                == Err::<String, DecodeError>(e),
            claim_sequence::<u8>(old(decoder).config(), old(decoder)@) matches Ok((n, _)) && n == 0
                ==> (r is Err ==> refusal(r) == Some(OutOfMemory::TryReserve { requested: 0 })),
            claim_sequence::<u8>(old(decoder).config(), old(decoder)@) matches Ok((n, _)) ==> (
            refusal(r) is Some ==> refusal(r) == Some(OutOfMemory::TryReserve { requested: n })),
    {
        let bytes = decode_sequence::<u8>(decoder)?;
        proof {
            assert(models(bytes@) == bytes@);
        }
        text_from_bytes(bytes)
    }
}

impl RoundTrip for String {
    /// The text's bytes can be counted in a `usize`, as those of every
    /// string in memory can.
    open spec fn canonical(&self) -> bool {
        encode_utf8(self@).len() <= usize::MAX
    }

    proof fn lemma_round_trip(&self, cfg: Config, rest: Seq<u8>, claimed: nat) {
        let bytes = encode_utf8(self@);
        assert(models(bytes) == bytes);
        lemma_sequence_round_trip::<u8>(bytes, cfg, rest, claimed);
    }
}

/// Well-formed UTF-8 bytes, decoded as text and encoded again, are the
/// bytes they were.
pub proof fn lemma_text_bytes_preserved(bytes: Seq<u8>, cfg: Config)
    requires
        valid_utf8(bytes),
    ensures
        text_of(bytes) matches Ok(text) && <String as Encode>::wire(text, cfg) == sequence_wire::<
            u8,
        >(bytes, cfg),
{
}

} // verus!
