//! Pairs: the first component, then the second.
use crate::config::Config;
use crate::de::{lemma_rest_of_rest, Cursor, Decode, Decoder, Parsed};
use crate::enc::{lemma_partly_written, Encode, Encoder};
use crate::error::{DecodeError, EncodeError};
use crate::law::RoundTrip;
use vstd::prelude::*;

verus! {

impl<A: Encode, B: Encode> Encode for (A, B) {
    open spec fn wire(m: (A::V, B::V), cfg: Config) -> Seq<u8> {
        A::wire(m.0, cfg) + B::wire(m.1, cfg)
    }

    fn encode(&self, encoder: &mut Encoder) -> (r: Result<(), EncodeError>) {
        let ghost cfg = encoder.config();
        let ghost first = A::wire(self.0.deep_view(), cfg);
        let ghost second = B::wire(self.1.deep_view(), cfg);
        match self.0.encode(encoder) {
            Ok(()) => {},
            Err(e) => {
                proof {
                    assert(old(encoder)@ + Seq::<u8>::empty() == old(encoder)@);
                    lemma_partly_written(old(encoder)@, Seq::empty(), encoder@, first, second);
                    assert(Seq::<u8>::empty() + first + second == first + second);
                }
                return Err(e);
            },
        }
        match self.1.encode(encoder) {
            Ok(()) => {},
            Err(e) => {
                proof {
                    lemma_partly_written(old(encoder)@, first, encoder@, second, Seq::empty());
                    assert(first + second + Seq::<u8>::empty() == first + second);
                }
                return Err(e);
            },
        }
        proof {
            assert(old(encoder)@ + first + second == old(encoder)@ + (first + second));
        }
        Ok(())
    }
}

impl<A: Decode, B: Decode> Decode for (A, B) {
    open spec fn parse(cfg: Config, at: Cursor) -> Parsed<(A::V, B::V)> {
        match A::parse(cfg, at) {
            Err(e) => Err(e),
            Ok((first, between)) => match B::parse(cfg, between) {
                Err(e) => Err(e),
                Ok((second, end)) => Ok(((first, second), end)),
            },
        }
    }

    open spec fn may_run_out() -> bool {
        A::may_run_out() || B::may_run_out()
    }

    proof fn lemma_parse_progress(cfg: Config, at: Cursor) {
        A::lemma_parse_progress(cfg, at);
        if let Ok((first, between)) = A::parse(cfg, at) {
            B::lemma_parse_progress(cfg, between);
            if let Ok((second, end)) = B::parse(cfg, between) {
                lemma_rest_of_rest(end.input, between.input, at.input);
            }
        }
    }

    /// Where the first component's decode asks for no memory, its failures
    /// are handed on as they are, whatever the second would do.
    fn decode(decoder: &mut Decoder) -> (r: Result<(A, B), DecodeError>)
        ensures
            !A::may_run_out() ==> (A::parse(old(decoder).config(), old(decoder)@) matches Err(
                e,
            ) ==> r == Err::<(A, B), DecodeError>(e)),
    {
        let first = A::decode(decoder)?;
        let second = B::decode(decoder)?;
        Ok((first, second))
    }
}

impl<A: RoundTrip, B: RoundTrip> RoundTrip for (A, B) {
    open spec fn canonical(&self) -> bool {
        self.0.canonical() && self.1.canonical()
    }

    proof fn lemma_round_trip(&self, cfg: Config, rest: Seq<u8>, claimed: nat) {
        let first = A::wire(self.0.deep_view(), cfg);
        let second = B::wire(self.1.deep_view(), cfg);
        assert((first + second) + rest == first + (second + rest));
        self.0.lemma_round_trip(cfg, second + rest, claimed);
        let at = Cursor { input: first + (second + rest), claimed };
        if let Ok((_, between)) = A::parse(cfg, at) {
            self.1.lemma_round_trip(cfg, rest, between.claimed);
        }
    }
}

} // verus!
