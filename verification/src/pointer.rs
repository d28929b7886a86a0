//! Pointer wrappers: on the wire a wrapper is the value it holds, and a
//! decoded wrapper is always a fresh allocation of its own.
use crate::config::Config;
use crate::de::{Cursor, Decode, Decoder, Parsed};
use crate::enc::{Encode, Encoder};
use crate::error::{allocation, refusal, DecodeError, EncodeError, OutOfMemory};
use crate::law::RoundTrip;
use crate::sequence::{
    claim_sequence, decode_sequence, lemma_parse_sequence_progress, models, parse_sequence,
};
use crate::text::parse_text;
use std::borrow::Cow;
use std::rc::Rc;
use std::sync::Arc;
use vstd::layout::size_of;
use vstd::prelude::*;

verus! {

/// Makes sure, before a single value is put on the heap, that room for a
/// `T` can be had: the room is reserved in a way that can fail without
/// ending the process, and given back at once. The allocation of the
/// wrapper itself, which follows, has no way to report failure.
pub fn ensure_room<T>() -> (r: Result<(), DecodeError>)
    ensures
        r matches Err(e) ==> e == (DecodeError::OutOfMemory {
            inner: OutOfMemory::Alloc { requested: size_of::<T>() as usize },
        }),
{
    let mut probe: Vec<T> = Vec::new();
    let outcome = probe.try_reserve(1);
    match allocation(outcome, core::mem::size_of::<T>()) {
        Ok(()) => Ok(()),
        Err(inner) => Err(DecodeError::OutOfMemory { inner }),
    }
}

impl<T: Encode> Encode for Box<T> {
    open spec fn wire(m: T::V, cfg: Config) -> Seq<u8> {
        T::wire(m, cfg)
    }

    fn encode(&self, encoder: &mut Encoder) -> (r: Result<(), EncodeError>) {
        (**self).encode(encoder)
    }
}

impl<T: Decode> Decode for Box<T> {
    open spec fn parse(cfg: Config, at: Cursor) -> Parsed<T::V> {
        T::parse(cfg, at)
    }

    open spec fn may_run_out() -> bool {
        true
    }

    proof fn lemma_parse_progress(cfg: Config, at: Cursor) {
        T::lemma_parse_progress(cfg, at);
    }

    /// Where the held value's decode asks for no memory, its failures
    /// are handed on as they are, and the only refusal is that of room
    /// for the one value.
    fn decode(decoder: &mut Decoder) -> (r: Result<Box<T>, DecodeError>)
        ensures
            !T::may_run_out() ==> (T::parse(old(decoder).config(), old(decoder)@) matches Err(
                e,
            ) ==> r == Err::<Box<T>, DecodeError>(e)),
            !T::may_run_out() && refusal(r) is Some ==> refusal(r) == Some(
                OutOfMemory::Alloc { requested: size_of::<T>() as usize },
            ),
    {
        let value = T::decode(decoder)?;
        ensure_room::<T>()?;
        Ok(Box::new(value))
    }
}

impl<T: RoundTrip> RoundTrip for Box<T> {
    open spec fn canonical(&self) -> bool {
        (**self).canonical()
    }

    proof fn lemma_round_trip(&self, cfg: Config, rest: Seq<u8>, claimed: nat) {
        (**self).lemma_round_trip(cfg, rest, claimed);
    }
}

impl<T: Encode> Encode for Rc<T> {
    open spec fn wire(m: T::V, cfg: Config) -> Seq<u8> {
        T::wire(m, cfg)
    }

    fn encode(&self, encoder: &mut Encoder) -> (r: Result<(), EncodeError>) {
        (**self).encode(encoder)
    }
}

impl<T: Decode> Decode for Rc<T> {
    open spec fn parse(cfg: Config, at: Cursor) -> Parsed<T::V> {
        T::parse(cfg, at)
    }

    open spec fn may_run_out() -> bool {
        true
    }

    proof fn lemma_parse_progress(cfg: Config, at: Cursor) {
        T::lemma_parse_progress(cfg, at);
    }

    /// Where the held value's decode asks for no memory, its failures
    /// are handed on as they are, and the only refusal is that of room
    /// for the one value.
    fn decode(decoder: &mut Decoder) -> (r: Result<Rc<T>, DecodeError>)
        ensures
            !T::may_run_out() ==> (T::parse(old(decoder).config(), old(decoder)@) matches Err(
                e,
            ) ==> r == Err::<Rc<T>, DecodeError>(e)),
            !T::may_run_out() && refusal(r) is Some ==> refusal(r) == Some(
                OutOfMemory::Alloc { requested: size_of::<T>() as usize },
            ),
    {
        let value = T::decode(decoder)?;
        ensure_room::<T>()?;
        Ok(Rc::new(value))
    }
}

impl<T: RoundTrip> RoundTrip for Rc<T> {
    open spec fn canonical(&self) -> bool {
        (**self).canonical()
    }

    proof fn lemma_round_trip(&self, cfg: Config, rest: Seq<u8>, claimed: nat) {
        (**self).lemma_round_trip(cfg, rest, claimed);
    }
}

impl<T: Encode> Encode for Arc<T> {
    open spec fn wire(m: T::V, cfg: Config) -> Seq<u8> {
        T::wire(m, cfg)
    }

    fn encode(&self, encoder: &mut Encoder) -> (r: Result<(), EncodeError>) {
        (**self).encode(encoder)
    }
}

impl<T: Decode> Decode for Arc<T> {
    open spec fn parse(cfg: Config, at: Cursor) -> Parsed<T::V> {
        T::parse(cfg, at)
    }

    open spec fn may_run_out() -> bool {
        true
    }

    proof fn lemma_parse_progress(cfg: Config, at: Cursor) {
        T::lemma_parse_progress(cfg, at);
    }

    /// Where the held value's decode asks for no memory, its failures
    /// are handed on as they are, and the only refusal is that of room
    /// for the one value.
    fn decode(decoder: &mut Decoder) -> (r: Result<Arc<T>, DecodeError>)
        ensures
            !T::may_run_out() ==> (T::parse(old(decoder).config(), old(decoder)@) matches Err(
                e,
            ) ==> r == Err::<Arc<T>, DecodeError>(e)),
            !T::may_run_out() && refusal(r) is Some ==> refusal(r) == Some(
                OutOfMemory::Alloc { requested: size_of::<T>() as usize },
            ),
    {
        let value = T::decode(decoder)?;
        ensure_room::<T>()?;
        Ok(Arc::new(value))
    }
}

impl<T: RoundTrip> RoundTrip for Arc<T> {
    open spec fn canonical(&self) -> bool {
        (**self).canonical()
    }

    proof fn lemma_round_trip(&self, cfg: Config, rest: Seq<u8>, claimed: nat) {
        (**self).lemma_round_trip(cfg, rest, claimed);
    }
}

impl<'a, T: Encode + Clone> Encode for Cow<'a, T> {
    open spec fn wire(m: T::V, cfg: Config) -> Seq<u8> {
        T::wire(m, cfg)
    }

    fn encode(&self, encoder: &mut Encoder) -> (r: Result<(), EncodeError>) {
        match self {
            Cow::Borrowed(borrowed) => borrowed.encode(encoder),
            Cow::Owned(owned) => owned.encode(encoder),
        }
    }
}

impl<'a, T: Decode + Clone> Decode for Cow<'a, T> {
    open spec fn parse(cfg: Config, at: Cursor) -> Parsed<T::V> {
        T::parse(cfg, at)
    }

    open spec fn may_run_out() -> bool {
        T::may_run_out()
    }

    proof fn lemma_parse_progress(cfg: Config, at: Cursor) {
        T::lemma_parse_progress(cfg, at);
    }

    /// Whatever the encoded value was held in, the decoded one is owned.
    fn decode(decoder: &mut Decoder) -> (r: Result<Cow<'a, T>, DecodeError>)
        ensures
            r matches Ok(cow) ==> cow is Owned,
    {
        let value = T::decode(decoder)?;
        Ok(Cow::Owned(value))
    }
}

impl<'a> Decode for Cow<'a, str> {
    open spec fn parse(cfg: Config, at: Cursor) -> Parsed<Seq<char>> {
        parse_text(cfg, at)
    }

    open spec fn may_run_out() -> bool {
        true
    }

    proof fn lemma_parse_progress(cfg: Config, at: Cursor) {
        <String as Decode>::lemma_parse_progress(cfg, at);
    }

    /// Decoded text is owned text.
    fn decode(decoder: &mut Decoder) -> (r: Result<Cow<'a, str>, DecodeError>)
        ensures
            r matches Ok(cow) ==> cow is Owned,
            claim_sequence::<u8>(old(decoder).config(), old(decoder)@) matches Err(e) ==> r
                == Err::<Cow<'a, str>, DecodeError>(e),
            claim_sequence::<u8>(old(decoder).config(), old(decoder)@) matches Ok((n, _)) && n == 0
                ==> (r is Err ==> refusal(r) == Some(OutOfMemory::TryReserve { requested: 0 })),
            claim_sequence::<u8>(old(decoder).config(), old(decoder)@) matches Ok((n, _)) ==> (
            refusal(r) is Some ==> refusal(r) == Some(OutOfMemory::TryReserve { requested: n })),
    {
        let text = String::decode(decoder)?;
        Ok(Cow::Owned(text))
    }
}

impl<'a, T: Decode + Clone> Decode for Cow<'a, [T]> {
    open spec fn parse(cfg: Config, at: Cursor) -> Parsed<Seq<T::V>> {
        parse_sequence::<T>(cfg, at)
    }

    open spec fn may_run_out() -> bool {
        true
    }

    proof fn lemma_parse_progress(cfg: Config, at: Cursor) {
        lemma_parse_sequence_progress::<T>(cfg, at);
    }

    /// A decoded slice is an owned vector.
    fn decode(decoder: &mut Decoder) -> (r: Result<Cow<'a, [T]>, DecodeError>)
        ensures
            r matches Ok(cow) ==> cow is Owned,
            claim_sequence::<T>(old(decoder).config(), old(decoder)@) matches Err(e) ==> r
                == Err::<Cow<'a, [T]>, DecodeError>(e),
            claim_sequence::<T>(old(decoder).config(), old(decoder)@) matches Ok((n, _)) && n == 0
                ==> (r is Err ==> refusal(r) == Some(OutOfMemory::TryReserve { requested: 0 })),
            claim_sequence::<T>(old(decoder).config(), old(decoder)@) matches Ok((n, _)) ==> (
            !T::may_run_out() && refusal(r) is Some ==> refusal(r) == Some(
                OutOfMemory::TryReserve { requested: n },
            )),
    {
        let items = decode_sequence::<T>(decoder)?;
        proof {
            assert(items.deep_view() == models(items@));
        }
        Ok(Cow::Owned(items))
    }
}

impl<'a, T: RoundTrip + Clone> RoundTrip for Cow<'a, T> {
    open spec fn canonical(&self) -> bool {
        match self {
            Cow::Borrowed(borrowed) => borrowed.canonical(),
            Cow::Owned(owned) => owned.canonical(),
        }
    }

    proof fn lemma_round_trip(&self, cfg: Config, rest: Seq<u8>, claimed: nat) {
        match self {
            Cow::Borrowed(borrowed) => borrowed.lemma_round_trip(cfg, rest, claimed),
            Cow::Owned(owned) => owned.lemma_round_trip(cfg, rest, claimed),
        }
    }
}

} // verus!
