//! Sorted sets and maps keyed by 64-bit integers: encoded in ascending key
//! order, decoded by inserting, so that the order of the encoded entries
//! does not show in the decoded container.
use crate::config::Config;
use crate::de::{release_at, Cursor, Decode, Decoder, Parsed};
use crate::enc::{lemma_nothing_written, lemma_partly_written, Encode, Encoder};
use crate::error::{refusal, DecodeError, EncodeError};
use crate::law::{all_canonical, lemma_sequence_round_trip, RoundTrip};
use crate::primitive::{decode_slice_len, encode_slice_len, len_wire, parse_u64};
use crate::sequence::{
    after_items, claim_sequence, encode_nth, items_wire, lemma_after_items_step,
    lemma_items_wire_step, lemma_parse_sequence_progress, parse_items, parse_sequence,
    sequence_wire,
};
use crate::sequence::models;
use std::collections::BTreeMap;
use std::collections::BTreeSet;
use vstd::layout::size_of;
use vstd::prelude::*;
use vstd::std_specs::btree::{
    increasing_seq, key_obeys_cmp_spec, spec_btree_keys_iter, spec_btree_map_iter, spec_keys_iter,
};
use vstd::std_specs::cmp::OrdSpec;
use vstd::std_specs::iter::IteratorSpec;

verus! {

/// Each element of `q` is smaller than those behind it.
pub open spec fn ascending(q: Seq<u64>) -> bool {
    forall|i: int, j: int| 0 <= i < j < q.len() ==> q[i] < q[j]
}

/// `q` lists the members of `s`, each once, smallest first.
pub open spec fn lists(q: Seq<u64>, s: Set<u64>) -> bool {
    ascending(q) && q.to_set() == s
}

/// The members of `s` in ascending order.
pub open spec fn in_order(s: Set<u64>) -> Seq<u64> {
    choose|q: Seq<u64>| lists(q, s)
}

/// Two ascending sequences with the same members are the same sequence.
pub proof fn lemma_ascending_unique(a: Seq<u64>, b: Seq<u64>)
    requires
        ascending(a),
        ascending(b),
        a.to_set() == b.to_set(),
    ensures
        a == b,
    decreases a.len(),
{
    if a.len() == 0 {
        if b.len() > 0 {
            assert(b.to_set().contains(b[0]));
            assert(a.to_set().contains(b[0]));
        }
        assert(a == b);
    } else {
        assert(a.to_set().contains(a[0]));
        assert(b.to_set().contains(a[0]));
        let j = choose|j: int| 0 <= j < b.len() && b[j] == a[0];
        assert(b.to_set().contains(b[0]));
        assert(a.to_set().contains(b[0]));
        let i = choose|i: int| 0 <= i < a.len() && a[i] == b[0];
        assert(a[0] == b[0]);
        let ta = a.skip(1);
        let tb = b.skip(1);
        assert(ta.to_set() == tb.to_set()) by {
            assert forall|x: u64| ta.to_set().contains(x) <==> tb.to_set().contains(x) by {
                if ta.to_set().contains(x) {
                    let k = choose|k: int| 0 <= k < ta.len() && ta[k] == x;
                    assert(a[k + 1] == x);
                    assert(a.to_set().contains(x));
                    assert(b.to_set().contains(x));
                    let l = choose|l: int| 0 <= l < b.len() && b[l] == x;
                    assert(l > 0);
                    assert(tb[l - 1] == x);
                }
                if tb.to_set().contains(x) {
                    let k = choose|k: int| 0 <= k < tb.len() && tb[k] == x;
                    assert(b[k + 1] == x);
                    assert(b.to_set().contains(x));
                    assert(a.to_set().contains(x));
                    let l = choose|l: int| 0 <= l < a.len() && a[l] == x;
                    assert(l > 0);
                    assert(ta[l - 1] == x);
                }
            }
        }
        assert(ascending(ta)) by {
            assert forall|i: int, j: int| 0 <= i < j < ta.len() implies ta[i] < ta[j] by {
                assert(a[i + 1] < a[j + 1]);
            }
        }
        assert(ascending(tb)) by {
            assert forall|i: int, j: int| 0 <= i < j < tb.len() implies tb[i] < tb[j] by {
                assert(b[i + 1] < b[j + 1]);
            }
        }
        lemma_ascending_unique(ta, tb);
        assert(a == seq![a[0]] + ta);
        assert(b == seq![b[0]] + tb);
    }
}

/// A sequence that lists a set's members in ascending order is the one
/// that does.
pub proof fn lemma_in_order(q: Seq<u64>, s: Set<u64>)
    requires
        lists(q, s),
    ensures
        in_order(s) == q,
{
    lemma_ascending_unique(in_order(s), q);
}

/// Integer keys are ordered as the integers are.
pub proof fn lemma_integer_keys()
    ensures
        key_obeys_cmp_spec::<u64>(),
{
    broadcast use vstd::std_specs::btree::group_btree_axioms;
    broadcast use vstd::laws_cmp::group_laws_cmp;

}

/// A sorted set is walked in ascending order, and the walk meets each
/// member once: `q`, what the set's iterator yields from first to last, is
/// the list of the set's members in order.
pub proof fn lemma_walk(set: &BTreeSet<u64>, q: Seq<u64>)
    requires
        q == spec_btree_keys_iter(set).remaining().unref(),
    ensures
        lists(q, set@),
        q.len() == set@.len(),
        in_order(set@) == q,
{
    broadcast use vstd::std_specs::btree::group_btree_axioms;
    broadcast use vstd::laws_cmp::group_laws_cmp;

    let refs = spec_btree_keys_iter(set).remaining();
    assert(increasing_seq(refs));
    assert(ascending(q)) by {
        assert forall|i: int, j: int| 0 <= i < j < q.len() implies q[i] < q[j] by {
            assert((&refs[i]).cmp_spec(&refs[j]) is Less);
        }
    }
    lemma_in_order(q, set@);
}

/// The members of a sorted set can be listed in ascending order.
pub proof fn lemma_set_in_order(set: &BTreeSet<u64>)
    ensures
        lists(in_order(set@), set@),
        in_order(set@).len() == set@.len(),
{
    let q = spec_btree_keys_iter(set).remaining().unref();
    lemma_walk(set, q);
}

/// The model of a set of integers is the set.
pub proof fn lemma_set_model(set: &BTreeSet<u64>)
    ensures
        set.deep_view() == set@,
{
    let mapped = set@.map(|x: u64| x.deep_view());
    assert forall|x: u64| mapped.contains(x) <==> set@.contains(x) by {
        if set@.contains(x) {
            assert(x.deep_view() == x);
        }
    }
    assert(mapped =~= set@);
}

/// Decoding a sorted set: a sequence of integers is decoded, and the set
/// holds every integer that occurs in it.
pub open spec fn parse_sorted_set(cfg: Config, at: Cursor) -> Parsed<Set<u64>> {
    match parse_sequence::<u64>(cfg, at) {
        Err(e) => Err(e),
        Ok((items, end)) => Ok((items.to_set(), end)),
    }
}

impl Encode for BTreeSet<u64> {
    open spec fn wire(m: Set<u64>, cfg: Config) -> Seq<u8> {
        sequence_wire::<u64>(in_order(m), cfg)
    }

    fn encode(&self, encoder: &mut Encoder) -> (r: Result<(), EncodeError>) {
        broadcast use vstd::std_specs::btree::group_btree_axioms;

        let ghost cfg = encoder.config();
        let ghost whole = sequence_wire::<u64>(in_order(self@), cfg);
        proof {
            lemma_integer_keys();
            lemma_set_model(self);
            lemma_nothing_written(encoder@, whole);
        }
        encode_slice_len(encoder, self.len())?;
        let it = self.iter();
        let ghost q = in_order(self@);
        let ghost written: Seq<u8> = len_wire(q.len(), cfg);
        let ghost k: int = 0;
        proof {
            lemma_walk(self, it.remaining().unref());
            assert(q.skip(0) == q);
        }
        for x in iter: it
            invariant
                iter.seq().unref() == q,
                k == iter.index(),
                q == in_order(self.deep_view()),
                whole == sequence_wire::<u64>(q, cfg),
                encoder.config() == cfg,
                cfg == old(encoder).config(),
                encoder@ == old(encoder)@ + written,
                written + items_wire::<u64>(q.skip(k), cfg) == whole,
        {
            encode_nth(
                x,
                encoder,
                Ghost(old(encoder)@),
                Ghost(written),
                Ghost(q),
                Ghost(k),
                Ghost(whole),
            )?;
            proof {
                written = written + crate::primitive::u64_wire(*x, cfg);
                k = k + 1;
            }
        }
        proof {
            assert(q.skip(q.len() as int) == Seq::<u64>::empty());
            assert(written + Seq::<u8>::empty() == written);
        }
        Ok(())
    }
}

impl Decode for BTreeSet<u64> {
    open spec fn parse(cfg: Config, at: Cursor) -> Parsed<Set<u64>> {
        parse_sorted_set(cfg, at)
    }

    open spec fn may_run_out() -> bool {
        false
    }

    proof fn lemma_parse_progress(cfg: Config, at: Cursor) {
        lemma_parse_sequence_progress::<u64>(cfg, at);
    }

    /// Nothing is reserved for a sorted set, and its members are plain
    /// integers: only the input decides whether the decode succeeds.
    fn decode(decoder: &mut Decoder) -> (r: Result<BTreeSet<u64>, DecodeError>)
        ensures
            claim_sequence::<u64>(old(decoder).config(), old(decoder)@) matches Err(e) ==> r
                == Err::<BTreeSet<u64>, DecodeError>(e),
            r matches Err(e) ==> !(e is OutOfMemory),
    {
        broadcast use vstd::std_specs::btree::group_btree_axioms;

        let ghost cfg = decoder.config();
        proof {
            lemma_integer_keys();
        }
        let len = decode_slice_len(decoder)?;
        decoder.claim_container_read::<u64>(len)?;
        let ghost claimed = decoder@;
        let mut set: BTreeSet<u64> = BTreeSet::new();
        let ghost done: Seq<u64> = Seq::empty();
        proof {
            assert(done + Seq::<u64>::empty() == done);
            assert(done.to_set() == Set::<u64>::empty());
        }
        let mut k: usize = 0;
        while k < len
            invariant
                decoder.wf(),
                decoder.config() == cfg,
                cfg == old(decoder).config(),
                claim_sequence::<u64>(cfg, old(decoder)@) is Ok,
                parse_sequence::<u64>(cfg, old(decoder)@) == parse_items::<u64>(
                    cfg,
                    claimed,
                    len as nat,
                ),
                k <= len,
                done.len() == k,
                set@ == done.to_set(),
                parse_items::<u64>(cfg, claimed, len as nat) == after_items(
                    done,
                    parse_items::<u64>(cfg, decoder@, (len - k) as nat),
                ),
            decreases len - k,
        {
            decoder.unclaim_bytes_read(core::mem::size_of::<u64>());
            let key = u64::decode(decoder)?;
            proof {
                lemma_after_items_step(
                    done,
                    key,
                    parse_items::<u64>(cfg, decoder@, (len - k - 1) as nat),
                );
                done.lemma_push_to_set_commute(key);
                done = done.push(key);
            }
            set.insert(key);
            k = k + 1;
        }
        proof {
            lemma_set_model(&set);
            assert(done + Seq::<u64>::empty() == done);
        }
        Ok(set)
    }
}

/// The entries of `m`, smallest key first.
pub open spec fn entries_in_order<M>(m: Map<u64, M>) -> Seq<(u64, M)> {
    in_order(m.dom()).map_values(|k: u64| (k, m[k]))
}

/// The map that inserting `pairs` one after the other gives: where a key
/// occurs more than once, its last value stays.
pub open spec fn map_of<M>(pairs: Seq<(u64, M)>) -> Map<u64, M>
    decreases pairs.len(),
{
    if pairs.len() == 0 {
        Map::empty()
    } else {
        map_of(pairs.drop_last()).insert(pairs.last().0, pairs.last().1)
    }
}

/// Decoding a sorted map: a sequence of entries is decoded, and they are
/// inserted in the order in which they were encoded.
pub open spec fn parse_sorted_map<V: Decode>(cfg: Config, at: Cursor) -> Parsed<Map<u64, V::V>> {
    match parse_sequence::<(u64, V)>(cfg, at) {
        Err(e) => Err(e),
        Ok((pairs, end)) => Ok((map_of(pairs), end)),
    }
}

/// The model of a map with integer keys has the map's keys, and under each
/// the model of the map's value.
pub proof fn lemma_map_model<V: DeepView>(map: &BTreeMap<u64, V>)
    ensures
        map.deep_view().dom() == map@.dom(),
        forall|k: u64| #[trigger]
            map@.contains_key(k) ==> map.deep_view()[k] == map@[k].deep_view(),
{
    broadcast use vstd::std_specs::btree::group_btree_axioms;

    let view_key = |k: u64| k.deep_view();
    assert(vstd::relations::injective(view_key)) by {
        assert forall|a: u64, b: u64| #[trigger] view_key(a) == #[trigger] view_key(b) implies a
            == b by {}
    }
    vstd::std_specs::btree::lemma_btree_map_deepview_dom(*map);
    vstd::std_specs::btree::lemma_btree_map_deepview_properties(*map);
    let mapped = map@.dom().map(view_key);
    assert forall|k: u64| mapped.contains(k) <==> map@.dom().contains(k) by {
        if map@.dom().contains(k) {
            assert(view_key(k) == k);
        }
    }
    assert(mapped =~= map@.dom());
    assert forall|k: u64| #[trigger] map@.contains_key(k) implies map.deep_view()[k]
        == map@[k].deep_view() by {
        assert(k.deep_view() == k);
    }
}

/// Inserting the models of pairs gives the model of what inserting the
/// pairs gives.
pub proof fn lemma_map_of_models<V: DeepView>(pairs: Seq<(u64, V)>)
    ensures
        map_of(models(pairs)).dom() == map_of(pairs).dom(),
        forall|k: u64| #[trigger]
            map_of(pairs).contains_key(k) ==> map_of(models(pairs))[k] == map_of(
                pairs,
            )[k].deep_view(),
    decreases pairs.len(),
{
    if pairs.len() > 0 {
        lemma_map_of_models(pairs.drop_last());
        assert(models(pairs).drop_last() == models(pairs.drop_last()));
        assert(models(pairs).last() == (pairs.last().0, pairs.last().1.deep_view()));
    }
}

/// The keys of a sorted map can be listed in ascending order.
pub proof fn lemma_keys_in_order<V>(map: &BTreeMap<u64, V>)
    ensures
        lists(in_order(map@.dom()), map@.dom()),
        in_order(map@.dom()).len() == map@.dom().len(),
{
    broadcast use vstd::std_specs::btree::group_btree_axioms;
    broadcast use vstd::laws_cmp::group_laws_cmp;

    let refs = spec_keys_iter(map).remaining();
    let q = refs.unref();
    assert(increasing_seq(refs));
    assert(ascending(q)) by {
        assert forall|i: int, j: int| 0 <= i < j < q.len() implies q[i] < q[j] by {
            assert((&refs[i]).cmp_spec(&refs[j]) is Less);
        }
    }
    lemma_in_order(q, map@.dom());
}

/// A sorted map is walked in ascending key order, and the walk meets each
/// entry once: what the map's iterator yields, from first to last, are the
/// map's entries in order.
pub proof fn lemma_map_walk<V: DeepView>(map: &BTreeMap<u64, V>, walked: Seq<(&u64, &V)>)
    requires
        walked == spec_btree_map_iter(map).remaining(),
        increasing_seq(walked.map_values(|kv: (&u64, &V)| *kv.0)),
    ensures
        walked.len() == map@.dom().len(),
        entries_in_order(map.deep_view()).len() == walked.len(),
        forall|i: int|
            0 <= i < walked.len() ==> #[trigger] entries_in_order(map.deep_view())[i] == (
                *walked[i].0,
                walked[i].1.deep_view(),
            ),
{
    broadcast use vstd::std_specs::btree::group_btree_axioms;
    broadcast use vstd::laws_cmp::group_laws_cmp;

    let q = walked.map_values(|kv: (&u64, &V)| *kv.0);
    assert(ascending(q)) by {
        assert forall|i: int, j: int| 0 <= i < j < q.len() implies q[i] < q[j] by {
            assert(q[i].cmp_spec(&q[j]) is Less);
        }
    }
    assert(q.to_set() == map@.dom()) by {
        assert forall|k: u64| q.to_set().contains(k) <==> map@.dom().contains(k) by {
            if q.to_set().contains(k) {
                let i = choose|i: int| 0 <= i < q.len() && q[i] == k;
                assert(map@.contains_key(*walked[i].0));
            }
            if map@.dom().contains(k) {
                assert(map@.contains_key(k));
                assert(walked.contains((&k, &map@[k])));
                let i = choose|i: int| 0 <= i < walked.len() && walked[i] == (&k, &map@[k]);
                assert(q[i] == k);
            }
        }
    }
    lemma_in_order(q, map@.dom());
    lemma_map_model(map);
    let entries = entries_in_order(map.deep_view());
    assert forall|i: int| 0 <= i < walked.len() implies #[trigger] entries[i] == (
        *walked[i].0,
        walked[i].1.deep_view(),
    ) by {
        assert(q[i] == *walked[i].0);
        assert(map@.contains_key(*walked[i].0));
        assert(map@[*walked[i].0] == *walked[i].1);
    }
}

impl<V: Encode> Encode for BTreeMap<u64, V> {
    open spec fn wire(m: Map<u64, V::V>, cfg: Config) -> Seq<u8> {
        sequence_wire::<(u64, V)>(entries_in_order(m), cfg)
    }

    fn encode(&self, encoder: &mut Encoder) -> (r: Result<(), EncodeError>) {
        broadcast use vstd::std_specs::btree::group_btree_axioms;

        let ghost cfg = encoder.config();
        let ghost entries = entries_in_order(self.deep_view());
        let ghost whole = sequence_wire::<(u64, V)>(entries, cfg);
        proof {
            lemma_integer_keys();
            lemma_nothing_written(encoder@, whole);
        }
        encode_slice_len(encoder, self.len())?;
        let it = self.iter();
        let ghost walked = it.remaining();
        let ghost written: Seq<u8> = len_wire(entries.len(), cfg);
        proof {
            lemma_map_walk(self, walked);
            assert(entries.skip(0) == entries);
        }
        for kv in iter: it
            invariant
                iter.seq() == walked,
                entries == entries_in_order(self.deep_view()),
                whole == sequence_wire::<(u64, V)>(entries, cfg),
                entries.len() == walked.len(),
                forall|i: int|
                    0 <= i < walked.len() ==> #[trigger] entries[i] == (
                        *walked[i].0,
                        walked[i].1.deep_view(),
                    ),
                encoder.config() == cfg,
                cfg == old(encoder).config(),
                encoder@ == old(encoder)@ + written,
                written + items_wire::<(u64, V)>(entries.skip(iter.index()), cfg) == whole,
        {
            let (key, value) = kv;
            let ghost first = crate::primitive::u64_wire(*key, cfg);
            let ghost second = V::wire(value.deep_view(), cfg);
            let ghost others = items_wire::<(u64, V)>(entries.skip(iter.index() + 1), cfg);
            proof {
                lemma_items_wire_step::<(u64, V)>(entries, iter.index(), cfg);
                assert(entries[iter.index()] == (*key, value.deep_view()));
                assert(written + ((first + second) + others) == written + first + (second
                    + others));
            }
            match key.encode(encoder) {
                Ok(()) => {},
                Err(e) => {
                    proof {
                        lemma_partly_written(
                            old(encoder)@,
                            written,
                            encoder@,
                            first,
                            second + others,
                        );
                    }
                    return Err(e);
                },
            }
            proof {
                assert(old(encoder)@ + written + first == old(encoder)@ + (written + first));
            }
            match value.encode(encoder) {
                Ok(()) => {},
                Err(e) => {
                    proof {
                        lemma_partly_written(
                            old(encoder)@,
                            written + first,
                            encoder@,
                            second,
                            others,
                        );
                        assert(written + first + second + others == written + first + (second
                            + others));
                    }
                    return Err(e);
                },
            }
            proof {
                assert(written + ((first + second) + others) == (written + (first + second))
                    + others);
                assert(old(encoder)@ + (written + first) + second == old(encoder)@ + (written
                    + (first + second)));
                written = written + (first + second);
            }
        }
        proof {
            assert(entries.skip(entries.len() as int) == Seq::<(u64, V::V)>::empty());
            assert(written + Seq::<u8>::empty() == written);
        }
        Ok(())
    }
}

impl<V: Decode> Decode for BTreeMap<u64, V> {
    open spec fn parse(cfg: Config, at: Cursor) -> Parsed<Map<u64, V::V>> {
        parse_sorted_map::<V>(cfg, at)
    }

    open spec fn may_run_out() -> bool {
        V::may_run_out()
    }

    proof fn lemma_parse_progress(cfg: Config, at: Cursor) {
        lemma_parse_sequence_progress::<(u64, V)>(cfg, at);
    }

    /// Nothing is reserved for a sorted map: a failure for lack of memory
    /// can only be one that the decode of a value reports, and a map
    /// without entries is always decoded.
    fn decode(decoder: &mut Decoder) -> (r: Result<BTreeMap<u64, V>, DecodeError>)
        ensures
            claim_sequence::<(u64, V)>(old(decoder).config(), old(decoder)@) matches Err(e) ==> r
                == Err::<BTreeMap<u64, V>, DecodeError>(e),
            claim_sequence::<(u64, V)>(old(decoder).config(), old(decoder)@) matches Ok((n, _))
                && n == 0 ==> r is Ok,
            claim_sequence::<(u64, V)>(old(decoder).config(), old(decoder)@) matches Ok((n, paid))
                ==> (n > 0 ==> (parse_u64(
                old(decoder).config(),
                release_at(old(decoder).config(), paid, size_of::<(u64, V)>()),
            ) matches Err(e) ==> r == Err::<BTreeMap<u64, V>, DecodeError>(e))),
            !V::may_run_out() ==> refusal(r) is None,
    {
        broadcast use vstd::std_specs::btree::group_btree_axioms;

        let ghost cfg = decoder.config();
        proof {
            lemma_integer_keys();
        }
        let len = decode_slice_len(decoder)?;
        decoder.claim_container_read::<(u64, V)>(len)?;
        let ghost claimed = decoder@;
        let mut map: BTreeMap<u64, V> = BTreeMap::new();
        let ghost done: Seq<(u64, V)> = Seq::empty();
        proof {
            assert(models(done) + Seq::<(u64, V::V)>::empty() == models(done));
        }
        let mut k: usize = 0;
        while k < len
            invariant
                decoder.wf(),
                decoder.config() == cfg,
                cfg == old(decoder).config(),
                claim_sequence::<(u64, V)>(cfg, old(decoder)@) matches Ok((n, paid)) && n == len
                    && paid == claimed,
                k == 0 ==> decoder@ == claimed,
                k > 0 ==> parse_u64(cfg, release_at(cfg, claimed, size_of::<(u64, V)>())) is Ok,
                parse_sequence::<(u64, V)>(cfg, old(decoder)@) == parse_items::<(u64, V)>(
                    cfg,
                    claimed,
                    len as nat,
                ),
                k <= len,
                done.len() == k,
                map@ == map_of(done),
                parse_items::<(u64, V)>(cfg, claimed, len as nat) == after_items(
                    models(done),
                    parse_items::<(u64, V)>(cfg, decoder@, (len - k) as nat),
                ),
            decreases len - k,
        {
            decoder.unclaim_bytes_read(core::mem::size_of::<(u64, V)>());
            let key = u64::decode(decoder)?;
            let value = V::decode(decoder)?;
            proof {
                lemma_after_items_step(
                    models(done),
                    (key, value.deep_view()),
                    parse_items::<(u64, V)>(cfg, decoder@, (len - k - 1) as nat),
                );
                assert(models(done.push((key, value))) == models(done).push(
                    (key, value.deep_view()),
                ));
                assert(done.push((key, value)).drop_last() == done);
                done = done.push((key, value));
            }
            map.insert(key, value);
            k = k + 1;
        }
        proof {
            lemma_map_model(&map);
            lemma_map_of_models(done);
            assert(map.deep_view() =~= map_of(models(done)));
            assert(models(done) + Seq::<(u64, V::V)>::empty() == models(done));
        }
        Ok(map)
    }
}

impl RoundTrip for BTreeSet<u64> {
    open spec fn canonical(&self) -> bool {
        true
    }

    proof fn lemma_round_trip(&self, cfg: Config, rest: Seq<u8>, claimed: nat) {
        broadcast use vstd::std_specs::btree::group_btree_axioms;

        lemma_integer_keys();
        lemma_set_model(self);
        lemma_set_in_order(self);
        let q = in_order(self@);
        assert(models(q) == q);
        assert(q.len() <= usize::MAX) by {
            assert(self.len() == self@.len());
        }
        lemma_sequence_round_trip::<u64>(q, cfg, rest, claimed);
    }
}

/// Inserting the entries of a map, listed by its keys, gives the map.
pub proof fn lemma_map_of_listing<M>(q: Seq<u64>, m: Map<u64, M>)
    ensures
        map_of(q.map_values(|k: u64| (k, m[k]))).dom() == q.to_set(),
        forall|k: u64| #[trigger]
            q.to_set().contains(k) ==> map_of(q.map_values(|k: u64| (k, m[k])))[k] == m[k],
    decreases q.len(),
{
    let pairs = q.map_values(|k: u64| (k, m[k]));
    if q.len() == 0 {
        assert(q.to_set() =~= Set::<u64>::empty());
    } else {
        let front = q.drop_last();
        lemma_map_of_listing(front, m);
        assert(pairs.drop_last() == front.map_values(|k: u64| (k, m[k])));
        assert(pairs.last() == (q.last(), m[q.last()]));
        assert(q == front.push(q.last()));
        front.lemma_push_to_set_commute(q.last());
        assert(q.to_set() == front.to_set().insert(q.last()));
    }
}

impl<V: RoundTrip> RoundTrip for BTreeMap<u64, V> {
    open spec fn canonical(&self) -> bool {
        forall|k: u64| #[trigger] self@.contains_key(k) ==> self@[k].canonical()
    }

    proof fn lemma_round_trip(&self, cfg: Config, rest: Seq<u8>, claimed: nat) {
        broadcast use vstd::std_specs::btree::group_btree_axioms;

        lemma_integer_keys();
        lemma_map_model(self);
        lemma_keys_in_order(self);
        let model = self.deep_view();
        let q = in_order(self@.dom());
        let held = q.map_values(|k: u64| (k, self@[k]));
        let entries = entries_in_order(model);
        assert(models(held) == entries) by {
            assert forall|i: int| 0 <= i < q.len() implies models(held)[i] == entries[i] by {
                assert(q.to_set().contains(q[i]));
                assert(self@.contains_key(q[i]));
            }
        }
        assert(all_canonical(held)) by {
            assert forall|i: int| 0 <= i < held.len() implies #[trigger] held[i].canonical() by {
                assert(q.to_set().contains(q[i]));
                assert(self@.contains_key(q[i]));
            }
        }
        assert(held.len() <= usize::MAX) by {
            assert(self.len() == self@.len());
        }
        lemma_sequence_round_trip::<(u64, V)>(held, cfg, rest, claimed);
        lemma_map_of_listing(q, model);
        assert(map_of(entries) =~= model);
    }
}

} // verus!
