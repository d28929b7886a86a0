//! A compact binary codec for heap-allocated containers.
//!
//! A container is written as its element count followed by its elements.
//! Decoding never trusts the count: before anything is allocated for a
//! container, the worst case for the announced number of elements is claimed
//! against the session's byte limit, and a count that the limit cannot pay
//! for is refused on the spot.
pub mod budget;
pub mod config;
pub mod de;
pub mod enc;
pub mod error;
pub mod heap;
pub mod law;
pub mod pair;
pub mod partial;
pub mod pointer;
pub mod primitive;
pub mod queue;
pub mod sequence;
pub mod sorted;
pub mod text;
pub mod uint;
pub mod writer;

use crate::config::Config;
use crate::de::{Cursor, Decode, Decoder};
use crate::enc::{Encode, Encoder};
use crate::error::{DecodeError, EncodeError};
use crate::writer::VecWriter;
use vstd::prelude::*;

verus! {

/// Encodes `val` into a fresh byte vector.
pub fn encode_to_vec<E: Encode>(val: E, config: Config) -> (r: Result<Vec<u8>, EncodeError>)
    ensures
        match r {
            Ok(bytes) => bytes@ == E::wire(val.deep_view(), config),
            Err(e) => e->inner is TryReserve,
        },
{
    let writer = VecWriter::default();
    let mut encoder = Encoder::new(writer, config);
    val.encode(&mut encoder)?;
    proof {
        assert(Seq::<u8>::empty() + E::wire(val.deep_view(), config) == E::wire(
            val.deep_view(),
            config,
        ));
    }
    Ok(encoder.into_writer().collect())
}

/// Decodes one value from the start of `src`, in a session of its own, and
/// says how many bytes the value took.
pub fn decode_from_slice<D: Decode>(src: &[u8], config: Config) -> (r: Result<
    (D, usize),
    DecodeError,
>)
    ensures
        match r {
            Ok((value, used)) => {
                &&& used <= src@.len()
                &&& D::parse(config, Cursor { input: src@, claimed: 0 }) matches Ok((m, end))
                &&& m == value.deep_view()
                &&& end.input == src@.skip(used as int)
            },
            Err(e) => e is OutOfMemory || D::parse(config, Cursor { input: src@, claimed: 0 })
                == Err::<(D::V, Cursor), DecodeError>(e),
        },
        r matches Err(e) ==> (e is OutOfMemory ==> D::may_run_out()),
{
    let mut decoder = Decoder::new(src, config);
    let value = D::decode(&mut decoder)?;
    proof {
        D::lemma_parse_progress(config, Cursor { input: src@, claimed: 0 });
    }
    let used = src.len() - decoder.remaining_len();
    Ok((value, used))
}

} // verus!
