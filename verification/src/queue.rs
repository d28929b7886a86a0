//! Double-ended queues: encoded front to back, decoded by appending at the
//! back.
use crate::config::Config;
use crate::de::{Cursor, Decode, Decoder, Parsed};
use crate::enc::{lemma_nothing_written, Encode, Encoder};
use crate::error::{refusal, reservation, DecodeError, EncodeError, OutOfMemory};
use crate::primitive::{decode_slice_len, encode_slice_len, len_wire};
use crate::sequence::{
    after_items, claim_sequence, encode_nth, items_wire, lemma_after_items_step,
    lemma_parse_sequence_progress, models, parse_items, parse_sequence, sequence_wire,
};
use std::collections::TryReserveError;
use std::collections::VecDeque;
use vstd::layout::size_of;
use vstd::prelude::*;

verus! {

/// `VecDeque::try_reserve`: whether or not room for `additional` more
/// elements could be had, the queue holds what it held.
#[verifier::external_body]
fn queue_try_reserve<T>(queue: &mut VecDeque<T>, additional: usize) -> (outcome: Result<
    (),
    TryReserveError,
>)
    ensures
        final(queue)@ == old(queue)@,
{
    queue.try_reserve(additional)
}

impl<T: Encode> Encode for VecDeque<T> {
    open spec fn wire(m: Seq<T::V>, cfg: Config) -> Seq<u8> {
        sequence_wire::<T>(m, cfg)
    }

    fn encode(&self, encoder: &mut Encoder) -> (r: Result<(), EncodeError>) {
        let ghost cfg = encoder.config();
        let ghost all = models(self@);
        let ghost whole = sequence_wire::<T>(all, cfg);
        proof {
            assert(self.deep_view() == all);
            lemma_nothing_written(encoder@, whole);
        }
        encode_slice_len(encoder, self.len())?;
        let ghost written: Seq<u8> = len_wire(self@.len(), cfg);
        let mut k: usize = 0;
        proof {
            assert(all.skip(0) == all);
        }
        while k < self.len()
            invariant
                k <= self@.len(),
                all == models(self@),
                whole == sequence_wire::<T>(all, cfg),
                encoder.config() == cfg,
                cfg == old(encoder).config(),
                encoder@ == old(encoder)@ + written,
                written + items_wire::<T>(all.skip(k as int), cfg) == whole,
            decreases self@.len() - k,
        {
            encode_nth(
                &self[k],
                encoder,
                Ghost(old(encoder)@),
                Ghost(written),
                Ghost(all),
                Ghost(k as int),
                Ghost(whole),
            )?;
            proof {
                written = written + T::wire(all[k as int], cfg);
            }
            k = k + 1;
        }
        proof {
            assert(all.skip(k as int) == Seq::<T::V>::empty());
            assert(written + Seq::<u8>::empty() == written);
        }
        Ok(())
    }
}

impl<T: Decode> Decode for VecDeque<T> {
    open spec fn parse(cfg: Config, at: Cursor) -> Parsed<Seq<T::V>> {
        parse_sequence::<T>(cfg, at)
    }

    open spec fn may_run_out() -> bool {
        true
    }

    proof fn lemma_parse_progress(cfg: Config, at: Cursor) {
        lemma_parse_sequence_progress::<T>(cfg, at);
    }

    fn decode(decoder: &mut Decoder) -> (r: Result<VecDeque<T>, DecodeError>)
        ensures
            claim_sequence::<T>(old(decoder).config(), old(decoder)@) matches Err(e) ==> r
                == Err::<VecDeque<T>, DecodeError>(e),
            claim_sequence::<T>(old(decoder).config(), old(decoder)@) matches Ok((n, _)) && n == 0
                ==> (r is Err ==> refusal(r) == Some(OutOfMemory::TryReserve { requested: 0 })),
            claim_sequence::<T>(old(decoder).config(), old(decoder)@) matches Ok((n, _)) ==> (
            !T::may_run_out() && refusal(r) is Some ==> refusal(r) == Some(
                OutOfMemory::TryReserve { requested: n },
            )),
    {
        let len = decode_slice_len(decoder)?;
        decoder.claim_container_read::<T>(len)?;
        let mut queue: VecDeque<T> = VecDeque::new();
        let outcome = queue_try_reserve(&mut queue, len);
        let r = decode_reserved(decoder, queue, outcome, len)?;
        proof {
            assert(r.deep_view() == models(r@));
        }
        Ok(r)
    }
}

/// What the decode of a queue does once the count `len` is paid for and
/// the reservation of room in the empty `queue` has come to `outcome`. A
/// refusal is reported with the count that was asked for, and nothing is
/// read. Where the room was had, `len` elements are decoded and appended
/// at the back, each after its share of the container's claim is handed
/// back; the first failure ends the decode.
pub fn decode_reserved<T: Decode>(
    decoder: &mut Decoder,
    queue: VecDeque<T>,
    outcome: Result<(), TryReserveError>,
    len: usize,
) -> (r: Result<VecDeque<T>, DecodeError>)
    requires
        old(decoder).wf(),
        queue@ == Seq::<T>::empty(),
    ensures
        final(decoder).wf(),
        final(decoder).config() == old(decoder).config(),
        match outcome {
            Err(_) => {
                &&& r == Err::<VecDeque<T>, DecodeError>(
                    DecodeError::OutOfMemory { inner: OutOfMemory::TryReserve { requested: len } },
                )
                &&& final(decoder)@ == old(decoder)@
            },
            Ok(()) => match r {
                Ok(filled) => parse_items::<T>(old(decoder).config(), old(decoder)@, len as nat)
                    == Ok::<(Seq<T::V>, Cursor), DecodeError>((models(filled@), final(decoder)@)),
                Err(e) => e is OutOfMemory || parse_items::<T>(
                    old(decoder).config(),
                    old(decoder)@,
                    len as nat,
                ) == Err::<(Seq<T::V>, Cursor), DecodeError>(e),
            },
        },
        outcome is Ok && len == 0 ==> r is Ok,
        outcome is Ok && !T::may_run_out() ==> (r matches Err(e) ==> !(e is OutOfMemory)),
{
    let ghost cfg = decoder.config();
    match reservation(outcome, len) {
        Err(inner) => {
            return Err(DecodeError::OutOfMemory { inner });
        },
        Ok(()) => {},
    }
    let mut queue = queue;
    proof {
        assert(models(queue@) + Seq::<T::V>::empty() == models(queue@));
        assert(models(queue@) == Seq::<T::V>::empty());
    }
    let mut k: usize = 0;
    while k < len
        invariant
            outcome is Ok,
            decoder.wf(),
            decoder.config() == cfg,
            cfg == old(decoder).config(),
            k <= len,
            queue@.len() == k,
            parse_items::<T>(cfg, old(decoder)@, len as nat) == after_items(
                models(queue@),
                parse_items::<T>(cfg, decoder@, (len - k) as nat),
            ),
        decreases len - k,
    {
        let ghost done = queue@;
        decoder.unclaim_bytes_read(core::mem::size_of::<T>());
        let item = T::decode(decoder)?;
        proof {
            lemma_after_items_step(
                models(done),
                item.deep_view(),
                parse_items::<T>(cfg, decoder@, (len - k - 1) as nat),
            );
            assert(models(done.push(item)) == models(done).push(item.deep_view()));
        }
        queue.push_back(item);
        k = k + 1;
    }
    proof {
        assert(models(queue@) + Seq::<T::V>::empty() == models(queue@));
    }
    Ok(queue)
}

} // verus!
