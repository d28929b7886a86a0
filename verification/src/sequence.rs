//! Sequences: an element count, then the elements in order.
use crate::config::Config;
use crate::de::{
    advances, claim_at, is_rest_of, lemma_rest_of_rest, release_at, Cursor, Decode, Decoder, Parsed,
};
use crate::enc::{lemma_nothing_written, lemma_partly_written, partly_written, Encode, Encoder};
use crate::error::{refusal, DecodeError, EncodeError, OutOfMemory};
use crate::partial::{slice_bytes, PartialBuffer};
use crate::primitive::{
    decode_slice_len, encode_slice_len, lemma_parse_len_progress, len_wire, parse_len,
};
use vstd::layout::size_of;
use vstd::prelude::*;

verus! {

/// The models of the values of `items`, in order.
pub open spec fn models<T: DeepView>(items: Seq<T>) -> Seq<T::V> {
    Seq::new(items.len(), |i: int| items[i].deep_view())
}

/// The encodings of the elements `items`, one after the other.
pub open spec fn items_wire<T: Encode>(items: Seq<T::V>, cfg: Config) -> Seq<u8>
    decreases items.len(),
{
    if items.len() == 0 {
        Seq::empty()
    } else {
        T::wire(items[0], cfg) + items_wire::<T>(items.skip(1), cfg)
    }
}

/// The encoding of a sequence: its length, then its elements.
pub open spec fn sequence_wire<T: Encode>(items: Seq<T::V>, cfg: Config) -> Seq<u8> {
    len_wire(items.len(), cfg) + items_wire::<T>(items, cfg)
}

/// Decoding `count` elements one after the other. Before each element its
/// share of the container's claim is handed back, so that the element
/// claims for itself what it needs.
pub open spec fn parse_items<T: Decode>(cfg: Config, at: Cursor, count: nat) -> Parsed<Seq<T::V>>
    decreases count,
{
    if count == 0 {
        Ok((Seq::empty(), at))
    } else {
        match T::parse(cfg, release_at(cfg, at, size_of::<T>())) {
            Err(e) => Err(e),
            Ok((first, next)) => after_items(
                seq![first],
                parse_items::<T>(cfg, next, (count - 1) as nat),
            ),
        }
    }
}

/// The outcome `rest` of decoding further elements, behind the elements
/// `done` that are decoded already.
pub open spec fn after_items<M>(done: Seq<M>, rest: Parsed<Seq<M>>) -> Parsed<Seq<M>> {
    match rest {
        Ok((more, end)) => Ok((done + more, end)),
        Err(e) => Err(e),
    }
}

/// What comes before any memory is asked for: the element count is read
/// and the worst case for that many elements of type `T` is claimed in one
/// step. A count that the limit cannot pay for is refused here.
pub open spec fn claim_sequence<T>(cfg: Config, at: Cursor) -> Parsed<usize> {
    match parse_len(cfg, at) {
        Err(e) => Err(e),
        Ok((len, counted)) => match claim_at(cfg, counted, len as nat * size_of::<T>()) {
            None => Err(DecodeError::LimitExceeded),
            Some(claimed) => Ok((len, claimed)),
        },
    }
}

/// Decoding a sequence: the count is read and paid for, and only then are
/// the elements decoded.
pub open spec fn parse_sequence<T: Decode>(cfg: Config, at: Cursor) -> Parsed<Seq<T::V>> {
    match claim_sequence::<T>(cfg, at) {
        Err(e) => Err(e),
        Ok((len, claimed)) => parse_items::<T>(cfg, claimed, len as nat),
    }
}

/// A count whose worst case the limit cannot pay for is refused where the
/// count is read: no element is looked at, and whatever follows the count
/// in the input makes no difference.
pub proof fn lemma_unpayable_count_refused<T: Decode>(cfg: Config, at: Cursor)
    requires
        cfg.limit matches Some(limit) && parse_len(cfg, at) matches Ok((len, counted))
            && counted.claimed + len * size_of::<T>() > limit,
    ensures
        claim_sequence::<T>(cfg, at) == Err::<(usize, Cursor), DecodeError>(
            DecodeError::LimitExceeded,
        ),
        parse_sequence::<T>(cfg, at) == Err::<(Seq<T::V>, Cursor), DecodeError>(
            DecodeError::LimitExceeded,
        ),
{
}

/// One more decoded element moves from the outcome still to come to the
/// elements that are done.
pub proof fn lemma_after_items_step<M>(done: Seq<M>, first: M, rest: Parsed<Seq<M>>)
    ensures
        after_items(done, after_items(seq![first], rest)) == after_items(done.push(first), rest),
{
    if let Ok((more, end)) = rest {
        assert(done + (seq![first] + more) == done.push(first) + more);
    }
}

/// Decoding `count` elements ends behind a prefix of the input, and with no
/// less claimed than was claimed beyond the elements' shares.
pub proof fn lemma_parse_items_progress<T: Decode>(cfg: Config, at: Cursor, count: nat)
    ensures
        parse_items::<T>(cfg, at, count) matches Ok((items, end)) ==> {
            &&& items.len() == count
            &&& is_rest_of(end.input, at.input)
            &&& end.claimed + count * size_of::<T>() >= at.claimed
            &&& cfg.limit is None ==> end.claimed == at.claimed
        },
    decreases count,
{
    if count == 0 {
        assert(at.input.skip(0) == at.input);
    } else {
        let freed = release_at(cfg, at, size_of::<T>());
        T::lemma_parse_progress(cfg, freed);
        if let Ok((first, next)) = T::parse(cfg, freed) {
            lemma_parse_items_progress::<T>(cfg, next, (count - 1) as nat);
            if let Ok((more, end)) = parse_items::<T>(cfg, next, (count - 1) as nat) {
                lemma_rest_of_rest(end.input, next.input, at.input);
                assert((count - 1) * size_of::<T>() + size_of::<T>() == count * size_of::<T>())
                    by (nonlinear_arith);
            }
        }
    }
}

/// A decoded sequence is followed by a suffix of the input it was read
/// from, and leaves no less claimed than it found.
pub proof fn lemma_parse_sequence_progress<T: Decode>(cfg: Config, at: Cursor)
    ensures
        parse_sequence::<T>(cfg, at) matches Ok((items, end)) ==> advances(cfg, at, end),
{
    lemma_parse_len_progress(cfg, at);
    if let Ok((len, counted)) = parse_len(cfg, at) {
        if let Some(claimed) = claim_at(cfg, counted, len as nat * size_of::<T>()) {
            lemma_parse_items_progress::<T>(cfg, claimed, len as nat);
            if let Ok((items, end)) = parse_items::<T>(cfg, claimed, len as nat) {
                lemma_rest_of_rest(end.input, counted.input, at.input);
            }
        }
    }
}

/// The encodings of the elements from place `k` on begin with that of the
/// element at `k`.
pub proof fn lemma_items_wire_step<T: Encode>(all: Seq<T::V>, k: int, cfg: Config)
    requires
        0 <= k < all.len(),
    ensures
        items_wire::<T>(all.skip(k), cfg) == T::wire(all[k], cfg) + items_wire::<T>(
            all.skip(k + 1),
            cfg,
        ),
{
    assert(all.skip(k)[0] == all[k]);
    assert(all.skip(k).skip(1) == all.skip(k + 1));
}

/// One step of a container's encode: appends the encoding of `item`, the
/// element at place `k` of the elements `all`. Of the bytes `whole` that
/// the container is to append behind `start`, `written` are there already
/// and the elements from `k` on are still to come.
pub(crate) fn encode_nth<T: Encode>(
    item: &T,
    encoder: &mut Encoder,
    Ghost(start): Ghost<Seq<u8>>,
    Ghost(written): Ghost<Seq<u8>>,
    Ghost(all): Ghost<Seq<T::V>>,
    Ghost(k): Ghost<int>,
    Ghost(whole): Ghost<Seq<u8>>,
) -> (r: Result<(), EncodeError>)
    requires
        0 <= k < all.len(),
        all[k] == item.deep_view(),
        old(encoder)@ == start + written,
        written + items_wire::<T>(all.skip(k), old(encoder).config()) == whole,
    ensures
        final(encoder).config() == old(encoder).config(),
        match r {
            Ok(()) => {
                let next = written + T::wire(all[k], old(encoder).config());
                &&& final(encoder)@ == start + next
                &&& next + items_wire::<T>(all.skip(k + 1), old(encoder).config()) == whole
            },
            Err(e) => e->inner is TryReserve && partly_written(start, final(encoder)@, whole),
        },
{
    let ghost cfg = encoder.config();
    let ghost one = T::wire(all[k], cfg);
    let ghost others = items_wire::<T>(all.skip(k + 1), cfg);
    proof {
        lemma_items_wire_step::<T>(all, k, cfg);
        assert(written + (one + others) == (written + one) + others);
    }
    match item.encode(encoder) {
        Ok(()) => {
            proof {
                assert(start + written + one == start + (written + one));
            }
            Ok(())
        },
        Err(e) => {
            proof {
                lemma_partly_written(start, written, encoder@, one, others);
            }
            Err(e)
        },
    }
}

/// Appends the encodings of the elements of `items`, in order.
pub fn encode_items<T: Encode>(items: &[T], encoder: &mut Encoder) -> (r: Result<(), EncodeError>)
    ensures
        final(encoder).config() == old(encoder).config(),
        match r {
            Ok(()) => final(encoder)@ == old(encoder)@ + items_wire::<T>(
                models(items@),
                old(encoder).config(),
            ),
            Err(e) => e->inner is TryReserve && partly_written(
                old(encoder)@,
                final(encoder)@,
                items_wire::<T>(models(items@), old(encoder).config()),
            ),
        },
{
    let ghost cfg = encoder.config();
    let ghost all = models(items@);
    let ghost whole = items_wire::<T>(all, cfg);
    let ghost written: Seq<u8> = Seq::empty();
    let mut k: usize = 0;
    proof {
        assert(all.skip(0) == all);
        assert(written + whole == whole);
        assert(old(encoder)@ + written == old(encoder)@);
    }
    while k < items.len()
        invariant
            k <= items@.len(),
            all == models(items@),
            whole == items_wire::<T>(all, cfg),
            encoder.config() == cfg,
            cfg == old(encoder).config(),
            encoder@ == old(encoder)@ + written,
            written + items_wire::<T>(all.skip(k as int), cfg) == whole,
        decreases items@.len() - k,
    {
        encode_nth(
            &items[k],
            encoder,
            Ghost(old(encoder)@),
            Ghost(written),
            Ghost(all),
            Ghost(k as int),
            Ghost(whole),
        )?;
        proof {
            written = written + T::wire(all[k as int], cfg);
        }
        k = k + 1;
    }
    proof {
        assert(all.skip(k as int) == Seq::<T::V>::empty());
        assert(written + Seq::<u8>::empty() == written);
    }
    Ok(())
}

/// Appends the encoding of the sequence `items`: its length, then its
/// elements.
pub fn encode_sequence<T: Encode>(items: &[T], encoder: &mut Encoder) -> (r: Result<
    (),
    EncodeError,
>)
    ensures
        final(encoder).config() == old(encoder).config(),
        match r {
            Ok(()) => final(encoder)@ == old(encoder)@ + sequence_wire::<T>(
                models(items@),
                old(encoder).config(),
            ),
            Err(e) => e->inner is TryReserve && partly_written(
                old(encoder)@,
                final(encoder)@,
                sequence_wire::<T>(models(items@), old(encoder).config()),
            ),
        },
{
    let ghost cfg = encoder.config();
    let ghost head = len_wire(items@.len(), cfg);
    let ghost body = items_wire::<T>(models(items@), cfg);
    proof {
        lemma_nothing_written(encoder@, head + body);
    }
    encode_slice_len(encoder, items.len())?;
    match encode_items(items, encoder) {
        Ok(()) => {},
        Err(e) => {
            proof {
                lemma_partly_written(old(encoder)@, head, encoder@, body, Seq::empty());
                assert(head + body + Seq::<u8>::empty() == head + body);
            }
            return Err(e);
        },
    }
    proof {
        assert(old(encoder)@ + head + body == old(encoder)@ + (head + body));
    }
    Ok(())
}

/// Decodes a sequence into a buffer reserved for exactly the announced
/// number of elements. The count is read, its worst case is claimed, the
/// buffer is reserved, and then each element is decoded into the next slot
/// after its share of the claim is handed back. The first failure ends the
/// decode; the elements built until then are destroyed with the buffer.
pub fn decode_sequence<T: Decode>(decoder: &mut Decoder) -> (r: Result<Vec<T>, DecodeError>)
    requires
        old(decoder).wf(),
    ensures
        final(decoder).wf(),
        final(decoder).config() == old(decoder).config(),
        match r {
            Ok(items) => parse_sequence::<T>(old(decoder).config(), old(decoder)@) == Ok::<
                (Seq<T::V>, Cursor),
                DecodeError,
            >((models(items@), final(decoder)@)),
            Err(e) => e is OutOfMemory || parse_sequence::<T>(
                old(decoder).config(),
                old(decoder)@,
            ) == Err::<(Seq<T::V>, Cursor), DecodeError>(e),
        },
        claim_sequence::<T>(old(decoder).config(), old(decoder)@) matches Err(e) ==> r == Err::<
            Vec<T>,
            DecodeError,
        >(e),
        claim_sequence::<T>(old(decoder).config(), old(decoder)@) matches Ok((n, _)) && n == 0
                ==> (r is Err ==> refusal(r) == Some(OutOfMemory::TryReserve { requested: 0 })),
        claim_sequence::<T>(old(decoder).config(), old(decoder)@) matches Ok((n, _)) ==> (
            !T::may_run_out() && refusal(r) is Some ==> refusal(r) == Some(
                OutOfMemory::TryReserve { requested: n },
            )),
{
    let len = decode_slice_len(decoder)?;
    decoder.claim_container_read::<T>(len)?;
    let reserved = PartialBuffer::reserve(len);
    decode_reserved(decoder, reserved)
}

/// What a sequence decode does once the count is paid for and the
/// reservation of the buffer has come to `reserved`. A refusal is handed on
/// as it is, and nothing is read. Into a buffer that was had, as many
/// elements are decoded as it has slots, each after its share of the
/// container's claim is handed back; the first failure ends the decode.
pub fn decode_reserved<T: Decode>(
    decoder: &mut Decoder,
    reserved: Result<PartialBuffer<T>, DecodeError>,
) -> (r: Result<Vec<T>, DecodeError>)
    requires
        old(decoder).wf(),
        reserved matches Ok(b) ==> b.wf() && b@ == Seq::<T>::empty(),
    ensures
        final(decoder).wf(),
        final(decoder).config() == old(decoder).config(),
        match reserved {
            Err(refusal) => {
                &&& r == Err::<Vec<T>, DecodeError>(refusal)
                &&& final(decoder)@ == old(decoder)@
            },
            Ok(b) => match r {
                Ok(items) => parse_items::<T>(old(decoder).config(), old(decoder)@, b.capacity())
                    == Ok::<(Seq<T::V>, Cursor), DecodeError>((models(items@), final(decoder)@)),
                Err(e) => e is OutOfMemory || parse_items::<T>(
                    old(decoder).config(),
                    old(decoder)@,
                    b.capacity(),
                ) == Err::<(Seq<T::V>, Cursor), DecodeError>(e),
            },
        },
        reserved matches Ok(b) && b.capacity() == 0 ==> r is Ok,
        reserved is Ok && !T::may_run_out() ==> (r matches Err(e) ==> !(e is OutOfMemory)),
{
    let ghost cfg = decoder.config();
    let mut buffer = match reserved {
        Ok(buffer) => buffer,
        Err(refusal) => {
            return Err(refusal);
        },
    };
    let ghost slots = buffer.capacity();
    proof {
        assert(models(buffer@) + Seq::<T::V>::empty() == models(buffer@));
        assert(models(buffer@) == Seq::<T::V>::empty());
    }
    while buffer.vacant() > 0
        invariant
            decoder.wf(),
            decoder.config() == cfg,
            cfg == old(decoder).config(),
            reserved matches Ok(b) && b.capacity() == slots,
            buffer.wf(),
            buffer.capacity() == slots,
            buffer@.len() <= slots,
            parse_items::<T>(cfg, old(decoder)@, slots) == after_items(
                models(buffer@),
                parse_items::<T>(cfg, decoder@, (slots - buffer@.len()) as nat),
            ),
        decreases slots - buffer@.len(),
    {
        let ghost done = buffer@;
        decoder.unclaim_bytes_read(core::mem::size_of::<T>());
        let item = T::decode(decoder)?;
        proof {
            lemma_after_items_step(
                models(done),
                item.deep_view(),
                parse_items::<T>(cfg, decoder@, (slots - done.len() - 1) as nat),
            );
            assert(models(done.push(item)) == models(done).push(item.deep_view()));
        }
        buffer.write(item);
    }
    let items = buffer.finish();
    proof {
        assert(models(items@) + Seq::<T::V>::empty() == models(items@));
    }
    Ok(items)
}

impl<T: Encode> Encode for Vec<T> {
    open spec fn wire(m: Seq<T::V>, cfg: Config) -> Seq<u8> {
        sequence_wire::<T>(m, cfg)
    }

    fn encode(&self, encoder: &mut Encoder) -> (r: Result<(), EncodeError>) {
        proof {
            assert(self.deep_view() == models(self@));
        }
        encode_sequence(self.as_slice(), encoder)
    }
}

impl<T: Decode> Decode for Vec<T> {
    open spec fn parse(cfg: Config, at: Cursor) -> Parsed<Seq<T::V>> {
        parse_sequence::<T>(cfg, at)
    }

    open spec fn may_run_out() -> bool {
        true
    }

    proof fn lemma_parse_progress(cfg: Config, at: Cursor) {
        lemma_parse_sequence_progress::<T>(cfg, at);
    }

    fn decode(decoder: &mut Decoder) -> (r: Result<Vec<T>, DecodeError>)
        ensures
            claim_sequence::<T>(old(decoder).config(), old(decoder)@) matches Err(e) ==> r == Err::<
                Vec<T>,
                DecodeError,
            >(e),
            claim_sequence::<T>(old(decoder).config(), old(decoder)@) matches Ok((n, _)) && n == 0
                ==> (r is Err ==> refusal(r) == Some(OutOfMemory::TryReserve { requested: 0 })),
            claim_sequence::<T>(old(decoder).config(), old(decoder)@) matches Ok((n, _)) ==> (
            !T::may_run_out() && refusal(r) is Some ==> refusal(r) == Some(
                OutOfMemory::TryReserve { requested: n },
            )),
    {
        let items = decode_sequence::<T>(decoder)?;
        proof {
            assert(items.deep_view() == models(items@));
        }
        Ok(items)
    }
}

impl<T: Encode> Encode for Box<[T]> {
    open spec fn wire(m: Seq<T::V>, cfg: Config) -> Seq<u8> {
        sequence_wire::<T>(m, cfg)
    }

    fn encode(&self, encoder: &mut Encoder) -> (r: Result<(), EncodeError>) {
        let items: &[T] = &**self;
        proof {
            assert(self.deep_view() == models(items@));
        }
        encode_sequence(items, encoder)
    }
}

impl<T: Decode> Decode for Box<[T]> {
    open spec fn parse(cfg: Config, at: Cursor) -> Parsed<Seq<T::V>> {
        parse_sequence::<T>(cfg, at)
    }

    open spec fn may_run_out() -> bool {
        true
    }

    proof fn lemma_parse_progress(cfg: Config, at: Cursor) {
        lemma_parse_sequence_progress::<T>(cfg, at);
    }

    /// The buffer is allocated as the one heap value that the boxed slice
    /// is: where it cannot be had, the failure is that of an allocation,
    /// not of a reservation.
    fn decode(decoder: &mut Decoder) -> (r: Result<Box<[T]>, DecodeError>)
        ensures
            claim_sequence::<T>(old(decoder).config(), old(decoder)@) matches Err(e) ==> r == Err::<
                Box<[T]>,
                DecodeError,
            >(e),
            claim_sequence::<T>(old(decoder).config(), old(decoder)@) matches Ok((n, _)) && n == 0
                ==> (r is Err ==> refusal(r) == Some(OutOfMemory::Alloc { requested: 0 })),
            claim_sequence::<T>(old(decoder).config(), old(decoder)@) matches Ok((n, _)) ==> (
            !T::may_run_out() && refusal(r) is Some ==> refusal(r) == Some(
                OutOfMemory::Alloc { requested: slice_bytes::<T>(n as nat) },
            )),
    {
        let len = decode_slice_len(decoder)?;
        decoder.claim_container_read::<T>(len)?;
        let reserved = PartialBuffer::allocate(len);
        proof {
            assert(0nat * size_of::<T>() == 0);
        }
        let items = decode_reserved(decoder, reserved)?;
        let boxed = into_boxed_slice(items);
        proof {
            assert(boxed.deep_view() == models(items@));
        }
        Ok(boxed)
    }
}

/// `Vec::into_boxed_slice`: the boxed slice holds the vector's elements in
/// the vector's order; only spare capacity is given up.
#[verifier::external_body]
fn into_boxed_slice<T>(items: Vec<T>) -> (boxed: Box<[T]>)
    ensures
        boxed@ == items@,
{
    items.into_boxed_slice()
}

} // verus!
