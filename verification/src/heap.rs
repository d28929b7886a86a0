//! A priority collection of 64-bit integers: a binary max-heap laid out in
//! a vector. It is encoded in the order of its layout and decoded by
//! pushing, so that the greatest element is always at the front.
use crate::config::Config;
use crate::de::{Cursor, Decode, Decoder, Parsed};
use crate::enc::{Encode, Encoder};
use crate::error::{refusal, reservation, DecodeError, EncodeError, OutOfMemory};
use crate::law::{lemma_sequence_round_trip, RoundTrip};
use crate::primitive::decode_slice_len;
use crate::sequence::{
    after_items, claim_sequence, encode_sequence, lemma_after_items_step,
    lemma_parse_sequence_progress, models, parse_items, parse_sequence, sequence_wire,
};
use vstd::layout::size_of;
use vstd::prelude::*;

verus! {

/// The place above place `i` of the layout.
pub open spec fn parent(i: int) -> int {
    (i - 1) / 2
}

/// No element is greater than the one above it.
pub open spec fn is_heap(s: Seq<u64>) -> bool {
    forall|i: int| 0 < i < s.len() ==> s[parent(i)] >= #[trigger] s[i]
}

/// `s` with the elements at `i` and `j` exchanged.
pub open spec fn swapped(s: Seq<u64>, i: int, j: int) -> Seq<u64> {
    s.update(i, s[j]).update(j, s[i])
}

/// The element at `hole` moved up for as long as it is greater than the
/// one above it.
pub open spec fn sift_up(s: Seq<u64>, hole: int) -> Seq<u64>
    decreases hole,
{
    if 0 < hole < s.len() && s[parent(hole)] < s[hole] {
        sift_up(swapped(s, parent(hole), hole), parent(hole))
    } else {
        s
    }
}

/// The layout after `x` is pushed: `x` is put behind the last element and
/// moved up to where it belongs.
pub open spec fn pushed(s: Seq<u64>, x: u64) -> Seq<u64> {
    sift_up(s.push(x), s.len() as int)
}

/// The layout after the elements of `items` are pushed, in order, into an
/// empty collection.
pub open spec fn heap_of(items: Seq<u64>) -> Seq<u64>
    decreases items.len(),
{
    if items.len() == 0 {
        Seq::empty()
    } else {
        pushed(heap_of(items.drop_last()), items.last())
    }
}

/// `s` is a heap but for the element at `hole`, which may be greater than
/// the one above it; what is below `hole` is not greater than what is above
/// it.
pub open spec fn heap_but_at(s: Seq<u64>, hole: int) -> bool {
    &&& 0 <= hole < s.len()
    &&& forall|i: int| 0 < i < s.len() && i != hole ==> s[parent(i)] >= #[trigger] s[i]
    &&& forall|i: int|
        0 < i < s.len() && parent(i) == hole && hole > 0 ==> s[parent(hole)] >= #[trigger] s[i]
}

/// Exchanging two elements changes neither the length nor the elements.
pub proof fn lemma_swapped(s: Seq<u64>, i: int, j: int)
    requires
        0 <= i < s.len(),
        0 <= j < s.len(),
    ensures
        swapped(s, i, j).len() == s.len(),
        swapped(s, i, j).to_multiset() == s.to_multiset(),
{
    broadcast use vstd::multiset::group_multiset_axioms;

    let mid = s.update(i, s[j]);
    vstd::seq_lib::to_multiset_update(s, i, s[j]);
    vstd::seq_lib::to_multiset_update(mid, j, s[i]);
    s.to_multiset_ensures();
    assert(s.contains(s[i]));
    assert(s.contains(s[j]));
    assert(swapped(s, i, j).to_multiset() =~= s.to_multiset());
}

/// One step up keeps the layout a heap but for the moved element.
pub proof fn lemma_step_up(s: Seq<u64>, hole: int)
    requires
        heap_but_at(s, hole),
        hole > 0,
        s[parent(hole)] < s[hole],
    ensures
        heap_but_at(swapped(s, parent(hole), hole), parent(hole)),
{
    let p = parent(hole);
    let t = swapped(s, p, hole);
    assert forall|i: int| 0 < i < t.len() && i != p implies t[parent(i)] >= #[trigger] t[i] by {
        if i == hole {
        } else if parent(i) == hole {
            assert(s[parent(hole)] >= s[i]);
        } else if parent(i) == p {
            assert(s[parent(i)] >= s[i]);
        } else {
            assert(s[parent(i)] >= s[i]);
        }
    }
    assert forall|i: int| 0 < i < t.len() && parent(i) == p && p > 0 implies t[parent(p)]
        >= #[trigger] t[i] by {
        assert(s[parent(p)] >= s[p]);
        if i != hole {
            assert(s[parent(i)] >= s[i]);
        }
    }
}

/// Moving the one misplaced element up makes the layout a heap of the same
/// elements.
pub proof fn lemma_sift_up(s: Seq<u64>, hole: int)
    requires
        heap_but_at(s, hole),
    ensures
        is_heap(sift_up(s, hole)),
        sift_up(s, hole).len() == s.len(),
        sift_up(s, hole).to_multiset() == s.to_multiset(),
    decreases hole,
{
    if 0 < hole && s[parent(hole)] < s[hole] {
        lemma_step_up(s, hole);
        lemma_swapped(s, parent(hole), hole);
        lemma_sift_up(swapped(s, parent(hole), hole), parent(hole));
    } else {
        assert forall|i: int| 0 < i < s.len() implies s[parent(i)] >= #[trigger] s[i] by {}
    }
}

/// Pushing into a heap gives a heap of the old elements and the new one.
pub proof fn lemma_pushed(s: Seq<u64>, x: u64)
    requires
        is_heap(s),
    ensures
        is_heap(pushed(s, x)),
        pushed(s, x).len() == s.len() + 1,
        pushed(s, x).to_multiset() == s.to_multiset().insert(x),
{
    let t = s.push(x);
    assert(heap_but_at(t, s.len() as int)) by {
        assert forall|i: int| 0 < i < t.len() && i != s.len() implies t[parent(i)]
            >= #[trigger] t[i] by {
            assert(s[parent(i)] >= s[i]);
        }
    }
    lemma_sift_up(t, s.len() as int);
    vstd::seq_lib::to_multiset_build(s, x);
}

/// Whatever is pushed, in whatever order, the layout is a heap of exactly
/// the pushed elements.
pub proof fn lemma_heap_of(items: Seq<u64>)
    ensures
        is_heap(heap_of(items)),
        heap_of(items).len() == items.len(),
        heap_of(items).to_multiset() == items.to_multiset(),
    decreases items.len(),
{
    if items.len() == 0 {
        assert(items == Seq::<u64>::empty());
    } else {
        lemma_heap_of(items.drop_last());
        lemma_pushed(heap_of(items.drop_last()), items.last());
        vstd::seq_lib::to_multiset_build(items.drop_last(), items.last());
        assert(items.drop_last().push(items.last()) == items);
    }
}

/// Pushing the elements of a heap in the order of its layout builds the
/// same layout again.
pub proof fn lemma_heap_of_heap(s: Seq<u64>)
    requires
        is_heap(s),
    ensures
        heap_of(s) == s,
    decreases s.len(),
{
    if s.len() > 0 {
        let front = s.drop_last();
        assert(is_heap(front)) by {
            assert forall|i: int| 0 < i < front.len() implies front[parent(i)]
                >= #[trigger] front[i] by {
                assert(s[parent(i)] >= s[i]);
            }
        }
        lemma_heap_of_heap(front);
        assert(front.push(s.last()) == s);
        if front.len() > 0 {
            assert(s[parent(front.len() as int)] >= s[front.len() as int]);
        }
    }
}

/// The front of a heap is its greatest element.
pub proof fn lemma_front_is_greatest(s: Seq<u64>, i: int)
    requires
        is_heap(s),
        0 <= i < s.len(),
    ensures
        s[0] >= s[i],
    decreases i,
{
    if i > 0 {
        assert(s[parent(i)] >= s[i]);
        lemma_front_is_greatest(s, parent(i));
    }
}

/// Puts `x` behind the last element of the heap `items` and moves it up to
/// where it belongs.
fn push_into(items: &mut Vec<u64>, x: u64)
    requires
        is_heap(old(items)@),
    ensures
        final(items)@ == pushed(old(items)@, x),
        is_heap(final(items)@),
{
    items.push(x);
    let mut hole: usize = items.len() - 1;
    proof {
        assert(heap_but_at(items@, hole as int)) by {
            assert forall|i: int| 0 < i < items@.len() && i != hole implies items@[parent(i)]
                >= #[trigger] items@[i] by {
                assert(old(items)@[parent(i)] >= old(items)@[i]);
            }
        }
    }
    while hole > 0 && items[(hole - 1) / 2] < items[hole]
        invariant
            heap_but_at(items@, hole as int),
            sift_up(items@, hole as int) == pushed(old(items)@, x),
        decreases hole,
    {
        let above: usize = (hole - 1) / 2;
        let small = items[above];
        let large = items[hole];
        proof {
            lemma_step_up(items@, hole as int);
        }
        items[above] = large;
        items[hole] = small;
        hole = above;
    }
    proof {
        lemma_pushed(old(items)@, x);
    }
}

/// A priority collection: the greatest element is always at the front.
#[derive(Clone, Debug, PartialEq, Eq)]
pub struct BinaryHeap {
    items: Vec<u64>,
}

impl View for BinaryHeap {
    type V = Seq<u64>;

    /// The elements in the order of the layout, which is the order in
    /// which the collection is iterated and encoded.
    closed spec fn view(&self) -> Seq<u64> {
        self.items@
    }
}

impl DeepView for BinaryHeap {
    type V = Seq<u64>;

    open spec fn deep_view(&self) -> Seq<u64> {
        self@
    }
}

impl BinaryHeap {
    /// The layout is a heap. Every collection that `new`, `push` and
    /// decoding make is one.
    pub open spec fn wf(&self) -> bool {
        is_heap(self@)
    }

    /// A collection with no elements.
    pub fn new() -> (heap: BinaryHeap)
        ensures
            heap.wf(),
            heap@ == Seq::<u64>::empty(),
    {
        BinaryHeap { items: Vec::new() }
    }

    /// The number of elements.
    pub fn len(&self) -> (n: usize)
        ensures
            n == self@.len(),
    {
        self.items.len()
    }

    /// Reserves room for `additional` more elements, so that pushing them
    /// allocates nothing.
    pub fn try_reserve(&mut self, additional: usize) -> (r: Result<(), OutOfMemory>)
        ensures
            final(self)@ == old(self)@,
            r matches Err(e) ==> e == (OutOfMemory::TryReserve { requested: additional }),
    {
        let outcome = self.items.try_reserve(additional);
        reservation(outcome, additional)
    }

    /// Adds `x` to the collection.
    pub fn push(&mut self, x: u64)
        requires
            old(self).wf(),
        ensures
            final(self).wf(),
            final(self)@ == pushed(old(self)@, x),
            final(self)@.to_multiset() == old(self)@.to_multiset().insert(x),
    {
        proof {
            lemma_pushed(self@, x);
        }
        push_into(&mut self.items, x);
    }

    /// The greatest element, if there is any.
    pub fn peek(&self) -> (front: Option<u64>)
        requires
            self.wf(),
        ensures
            match front {
                None => self@.len() == 0,
                Some(x) => self@.len() > 0 && x == self@[0] && forall|i: int|
                    0 <= i < self@.len() ==> x >= #[trigger] self@[i],
            },
    {
        if self.items.len() == 0 {
            None
        } else {
            proof {
                assert forall|i: int| 0 <= i < self@.len() implies self@[0]
                    >= #[trigger] self@[i] by {
                    lemma_front_is_greatest(self@, i);
                }
            }
            Some(self.items[0])
        }
    }

    /// The elements in the order of the layout.
    pub fn as_slice(&self) -> (items: &[u64])
        ensures
            items@ == self@,
    {
        self.items.as_slice()
    }

    /// The elements in the order of the layout, the collection given up.
    pub fn into_vec(self) -> (items: Vec<u64>)
        ensures
            items@ == self@,
    {
        self.items
    }
}

/// Decoding a priority collection: a sequence of integers is decoded, and
/// they are pushed in the order in which they were encoded.
pub open spec fn parse_heap(cfg: Config, at: Cursor) -> Parsed<Seq<u64>> {
    match parse_sequence::<u64>(cfg, at) {
        Err(e) => Err(e),
        Ok((items, end)) => Ok((heap_of(items), end)),
    }
}

impl Encode for BinaryHeap {
    open spec fn wire(m: Seq<u64>, cfg: Config) -> Seq<u8> {
        sequence_wire::<u64>(m, cfg)
    }

    fn encode(&self, encoder: &mut Encoder) -> (r: Result<(), EncodeError>) {
        let items = self.as_slice();
        proof {
            assert(models(items@) == items@);
        }
        encode_sequence(items, encoder)
    }
}

impl Decode for BinaryHeap {
    open spec fn parse(cfg: Config, at: Cursor) -> Parsed<Seq<u64>> {
        parse_heap(cfg, at)
    }

    open spec fn may_run_out() -> bool {
        true
    }

    proof fn lemma_parse_progress(cfg: Config, at: Cursor) {
        lemma_parse_sequence_progress::<u64>(cfg, at);
    }

    fn decode(decoder: &mut Decoder) -> (r: Result<BinaryHeap, DecodeError>)
        ensures
            r matches Ok(heap) ==> heap.wf(),
            claim_sequence::<u64>(old(decoder).config(), old(decoder)@) matches Err(e) ==> r
                == Err::<BinaryHeap, DecodeError>(e),
            claim_sequence::<u64>(old(decoder).config(), old(decoder)@) matches Ok((n, _)) ==> (
            refusal(r) is Some ==> refusal(r) == Some(OutOfMemory::TryReserve { requested: n })),
    {
        let len = decode_slice_len(decoder)?;
        decoder.claim_container_read::<u64>(len)?;
        let mut heap = BinaryHeap::new();
        let outcome = heap.try_reserve(len);
        decode_reserved(decoder, heap, outcome, len)
    }
}

/// What the decode of a priority collection does once the count `len` is
/// paid for and the reservation of room in the empty `heap` has come to
/// `outcome`. A refusal is handed on and nothing is read. Where the room
/// was had, `len` integers are decoded and pushed, each after its share of
/// the container's claim is handed back; nothing but the input can then
/// make the decode fail.
pub fn decode_reserved(
    decoder: &mut Decoder,
    heap: BinaryHeap,
    outcome: Result<(), OutOfMemory>,
    len: usize,
) -> (r: Result<BinaryHeap, DecodeError>)
    requires
        old(decoder).wf(),
        heap@ == Seq::<u64>::empty(),
    ensures
        final(decoder).wf(),
        final(decoder).config() == old(decoder).config(),
        match outcome {
            Err(inner) => r == Err::<BinaryHeap, DecodeError>(DecodeError::OutOfMemory { inner })
                && final(decoder)@ == old(decoder)@,
            Ok(()) => match parse_items::<u64>(old(decoder).config(), old(decoder)@, len as nat) {
                Ok((items, end)) => {
                    &&& r matches Ok(h) && h.wf() && h@ == heap_of(items)
                    &&& final(decoder)@ == end
                },
                Err(e) => r == Err::<BinaryHeap, DecodeError>(e),
            },
        },
        outcome is Ok ==> (r matches Err(e) ==> !(e is OutOfMemory)),
{
    let ghost cfg = decoder.config();
    match outcome {
        Err(inner) => {
            return Err(DecodeError::OutOfMemory { inner });
        },
        Ok(()) => {},
    }
    let mut heap = heap;
    let ghost done: Seq<u64> = Seq::empty();
    proof {
        assert(done + Seq::<u64>::empty() == done);
    }
    let mut k: usize = 0;
    while k < len
        invariant
            outcome is Ok,
            decoder.wf(),
            decoder.config() == cfg,
            cfg == old(decoder).config(),
            k <= len,
            done.len() == k,
            heap.wf(),
            heap@ == heap_of(done),
            parse_items::<u64>(cfg, old(decoder)@, len as nat) == after_items(
                done,
                parse_items::<u64>(cfg, decoder@, (len - k) as nat),
            ),
        decreases len - k,
    {
        decoder.unclaim_bytes_read(core::mem::size_of::<u64>());
        let item = match u64::decode(decoder) {
            Ok(item) => item,
            Err(e) => {
                assert(parse_items::<u64>(cfg, old(decoder)@, len as nat) == Err::<
                    (Seq<u64>, Cursor),
                    DecodeError,
                >(e));
                return Err(e);
            },
        };
        proof {
            lemma_after_items_step(
                done,
                item,
                parse_items::<u64>(cfg, decoder@, (len - k - 1) as nat),
            );
            assert(done.push(item).drop_last() == done);
            done = done.push(item);
        }
        heap.push(item);
        k = k + 1;
    }
    proof {
        assert(done + Seq::<u64>::empty() == done);
    }
    Ok(heap)
}

impl RoundTrip for BinaryHeap {
    open spec fn canonical(&self) -> bool {
        self.wf()
    }

    proof fn lemma_round_trip(&self, cfg: Config, rest: Seq<u8>, claimed: nat) {
        assert(models(self@) == self@);
        assert(self@.len() <= usize::MAX) by {
            assert(self.items.len() == self@.len());
        }
        lemma_sequence_round_trip::<u64>(self@, cfg, rest, claimed);
        lemma_heap_of_heap(self@);
    }
}

} // verus!
