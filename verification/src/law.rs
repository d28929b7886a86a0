//! Decoding undoes encoding.
use crate::config::Config;
use crate::de::{claim_at, release_at, Cursor, Decode};
use crate::enc::Encode;
use crate::error::DecodeError;
use crate::primitive::{lemma_u64_round_trip, len_wire, parse_len};
use crate::sequence::{items_wire, models, parse_items, parse_sequence, sequence_wire};
use std::collections::VecDeque;
use vstd::layout::size_of;
use vstd::prelude::*;

verus! {

/// Decoding the encoding of `m`, with `rest` behind it and `claimed` bytes
/// claimed before it, gives `m` back and stops in front of `rest`; or, in a
/// session with a limit, the limit refuses a claim. Without a limit nothing
/// is claimed and nothing is refused.
pub open spec fn reads_back<T: Encode + Decode>(
    m: T::V,
    cfg: Config,
    rest: Seq<u8>,
    claimed: nat,
) -> bool {
    match T::parse(cfg, Cursor { input: T::wire(m, cfg) + rest, claimed }) {
        Ok((got, end)) => {
            &&& got == m
            &&& end.input == rest
            &&& end.claimed >= claimed
            &&& cfg.limit is None ==> end.claimed == claimed
        },
        Err(e) => e == DecodeError::LimitExceeded && cfg.limit is Some,
    }
}

/// A type whose decoding undoes its encoding.
pub trait RoundTrip: Encode + Decode {
    /// The values of the type that its own operations produce. Of these
    /// the law speaks.
    spec fn canonical(&self) -> bool;

    /// Decoding the encoding of a value gives back a value with the same
    /// model, and consumes the encoding and nothing more.
    proof fn lemma_round_trip(&self, cfg: Config, rest: Seq<u8>, claimed: nat)
        requires
            self.canonical(),
        ensures
            reads_back::<Self>(self.deep_view(), cfg, rest, claimed),
    ;
}

/// What is encoded into a buffer of its own is decoded from that buffer,
/// in a session without a limit, as the same value, and the buffer is used
/// up.
pub proof fn lemma_buffer_round_trip<T: RoundTrip>(value: &T, cfg: Config)
    requires
        value.canonical(),
        cfg.limit is None,
    ensures
        T::parse(cfg, Cursor { input: T::wire(value.deep_view(), cfg), claimed: 0 }) == Ok::<
            (T::V, Cursor),
            DecodeError,
        >((value.deep_view(), Cursor { input: Seq::empty(), claimed: 0 })),
{
    let wire = T::wire(value.deep_view(), cfg);
    assert(wire + Seq::<u8>::empty() == wire);
    value.lemma_round_trip(cfg, Seq::empty(), 0);
}

impl RoundTrip for u8 {
    open spec fn canonical(&self) -> bool {
        true
    }

    proof fn lemma_round_trip(&self, cfg: Config, rest: Seq<u8>, claimed: nat) {
        let input = seq![*self] + rest;
        assert(input.take(1)[0] == *self);
        assert(input.skip(1) == rest);
    }
}

impl RoundTrip for bool {
    open spec fn canonical(&self) -> bool {
        true
    }

    proof fn lemma_round_trip(&self, cfg: Config, rest: Seq<u8>, claimed: nat) {
        let byte = if *self { 1u8 } else { 0u8 };
        let input = seq![byte] + rest;
        assert(input.take(1)[0] == byte);
        assert(input.skip(1) == rest);
    }
}

impl RoundTrip for u64 {
    open spec fn canonical(&self) -> bool {
        true
    }

    proof fn lemma_round_trip(&self, cfg: Config, rest: Seq<u8>, claimed: nat) {
        lemma_u64_round_trip(*self, cfg, rest, claimed);
    }
}

/// Every element of `items` is one that the law speaks of.
pub open spec fn all_canonical<T: RoundTrip>(items: Seq<T>) -> bool {
    forall|i: int| 0 <= i < items.len() ==> #[trigger] items[i].canonical()
}

/// The encodings of elements, one after the other, are decoded one after
/// the other into the same elements.
pub proof fn lemma_items_round_trip<T: RoundTrip>(
    items: Seq<T>,
    cfg: Config,
    rest: Seq<u8>,
    claimed: nat,
)
    requires
        all_canonical(items),
    ensures
        match parse_items::<T>(
            cfg,
            Cursor { input: items_wire::<T>(models(items), cfg) + rest, claimed },
            items.len(),
        ) {
            Ok((got, end)) => {
                &&& got == models(items)
                &&& end.input == rest
                &&& end.claimed + items.len() * size_of::<T>() >= claimed
                &&& cfg.limit is None ==> end.claimed == claimed
            },
            Err(e) => e == DecodeError::LimitExceeded && cfg.limit is Some,
        },
    decreases items.len(),
{
    let all = models(items);
    let at = Cursor { input: items_wire::<T>(all, cfg) + rest, claimed };
    if items.len() == 0 {
        assert(at.input == rest);
        assert(all == Seq::<T::V>::empty());
    } else {
        let first = items[0];
        let tail = items.skip(1);
        assert(all[0] == first.deep_view());
        assert(all.skip(1) == models(tail));
        let behind = items_wire::<T>(models(tail), cfg) + rest;
        assert(at.input == T::wire(first.deep_view(), cfg) + behind);
        let freed = release_at(cfg, at, size_of::<T>());
        assert(first.canonical());
        first.lemma_round_trip(cfg, behind, freed.claimed);
        if let Ok((got, next)) = T::parse(cfg, freed) {
            assert(all_canonical(tail)) by {
                assert forall|i: int| 0 <= i < tail.len() implies #[trigger] tail[i].canonical(
                ) by {
                    assert(tail[i] == items[i + 1]);
                }
            }
            lemma_items_round_trip::<T>(tail, cfg, rest, next.claimed);
            assert(seq![first.deep_view()] + models(tail) == all);
            assert((items.len() - 1) * size_of::<T>() + size_of::<T>() == items.len() * size_of::<
                T,
            >()) by (nonlinear_arith);
        }
    }
}

/// The encoding of a sequence is decoded into the same sequence.
pub proof fn lemma_sequence_round_trip<T: RoundTrip>(
    items: Seq<T>,
    cfg: Config,
    rest: Seq<u8>,
    claimed: nat,
)
    requires
        all_canonical(items),
        items.len() <= usize::MAX,
    ensures
        match parse_sequence::<T>(
            cfg,
            Cursor { input: sequence_wire::<T>(models(items), cfg) + rest, claimed },
        ) {
            Ok((got, end)) => {
                &&& got == models(items)
                &&& end.input == rest
                &&& end.claimed >= claimed
                &&& cfg.limit is None ==> end.claimed == claimed
            },
            Err(e) => e == DecodeError::LimitExceeded && cfg.limit is Some,
        },
{
    let all = models(items);
    let body = items_wire::<T>(all, cfg);
    let at = Cursor { input: sequence_wire::<T>(all, cfg) + rest, claimed };
    assert(at.input == len_wire(items.len(), cfg) + (body + rest));
    lemma_u64_round_trip(items.len() as u64, cfg, body + rest, claimed);
    if let Ok((len, counted)) = parse_len(cfg, at) {
        if let Some(paid) = claim_at(cfg, counted, len as nat * size_of::<T>()) {
            lemma_items_round_trip::<T>(items, cfg, rest, paid.claimed);
        }
    }
}

impl<T: RoundTrip> RoundTrip for Vec<T> {
    open spec fn canonical(&self) -> bool {
        all_canonical(self@)
    }

    proof fn lemma_round_trip(&self, cfg: Config, rest: Seq<u8>, claimed: nat) {
        assert(self.deep_view() == models(self@));
        assert(self@.len() <= usize::MAX) by {
            assert(self.len() == self@.len());
        }
        lemma_sequence_round_trip::<T>(self@, cfg, rest, claimed);
    }
}

impl<T: RoundTrip> RoundTrip for Box<[T]> {
    open spec fn canonical(&self) -> bool {
        all_canonical(self@)
    }

    proof fn lemma_round_trip(&self, cfg: Config, rest: Seq<u8>, claimed: nat) {
        assert(self.deep_view() == models(self@));
        assert(self@.len() <= usize::MAX) by {
            assert(self.len() == self@.len());
        }
        lemma_sequence_round_trip::<T>(self@, cfg, rest, claimed);
    }
}

impl<T: RoundTrip> RoundTrip for VecDeque<T> {
    open spec fn canonical(&self) -> bool {
        all_canonical(self@)
    }

    proof fn lemma_round_trip(&self, cfg: Config, rest: Seq<u8>, claimed: nat) {
        assert(self.deep_view() == models(self@));
        assert(self@.len() <= usize::MAX) by {
            assert(self.len() == self@.len());
        }
        lemma_sequence_round_trip::<T>(self@, cfg, rest, claimed);
    }
}

} // verus!
