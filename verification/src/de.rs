//! The decoding session and the contract of a decodable type.
use crate::budget::{claim_spec, release_spec, Budget};
use crate::config::Config;
use crate::error::DecodeError;
use vstd::prelude::*;
use vstd::slice::slice_subrange;

verus! {

/// Where a decode stands: the input not yet consumed and the bytes claimed.
pub struct Cursor {
    pub input: Seq<u8>,
    pub claimed: nat,
}

/// The outcome of decoding one value: its model and where the decode stands
/// after it, or the first failure.
pub type Parsed<M> = Result<(M, Cursor), DecodeError>;

/// The cursor after `amount` more bytes are claimed.
pub open spec fn claim_at(cfg: Config, at: Cursor, amount: nat) -> Option<Cursor> {
    match claim_spec(cfg.limit, at.claimed, amount) {
        Some(c) => Some(Cursor { input: at.input, claimed: c }),
        None => None,
    }
}

/// The cursor after `amount` claimed bytes are handed back.
pub open spec fn release_at(cfg: Config, at: Cursor, amount: nat) -> Cursor {
    Cursor { input: at.input, claimed: release_spec(cfg.limit, at.claimed, amount) }
}

/// Takes the next `n` bytes off the input.
pub open spec fn take_bytes(at: Cursor, n: nat) -> Parsed<Seq<u8>> {
    if n <= at.input.len() {
        Ok(
            (
                at.input.take(n as int),
                Cursor { input: at.input.skip(n as int), claimed: at.claimed },
            ),
        )
    } else {
        Err(DecodeError::UnexpectedEnd { additional: (n - at.input.len()) as usize })
    }
}

/// `rest` is what is left of `input` when some of its first bytes are gone.
pub open spec fn is_rest_of(rest: Seq<u8>, input: Seq<u8>) -> bool {
    rest.len() <= input.len() && rest == input.skip(input.len() - rest.len())
}

/// The cursor `end` is where a decode that began at `at` can end: behind a
/// prefix of the input, with no less claimed than before, and with the same
/// where claims are not counted.
pub open spec fn advances(cfg: Config, at: Cursor, end: Cursor) -> bool {
    &&& is_rest_of(end.input, at.input)
    &&& end.claimed >= at.claimed
    &&& cfg.limit is None ==> end.claimed == at.claimed
}

/// What is left of what is left of an input is left of that input.
pub proof fn lemma_rest_of_rest(a: Seq<u8>, b: Seq<u8>, c: Seq<u8>)
    requires
        is_rest_of(a, b),
        is_rest_of(b, c),
    ensures
        is_rest_of(a, c),
{
    assert(c.skip(c.len() - b.len()).skip(b.len() - a.len()) == c.skip(c.len() - a.len()));
}

/// A decode session over a byte slice.
#[derive(Debug)]
pub struct Decoder<'a> {
    input: &'a [u8],
    pos: usize,
    config: Config,
    budget: Budget,
}

impl<'a> View for Decoder<'a> {
    type V = Cursor;

    closed spec fn view(&self) -> Cursor {
        Cursor { input: self.input@.skip(self.pos as int), claimed: self.budget.claimed() }
    }
}

impl<'a> Decoder<'a> {
    /// The settings the session was opened with.
    pub closed spec fn config(&self) -> Config {
        self.config
    }

    /// The session's position is inside its input, and its ledger is sound
    /// and bounded as the settings say.
    pub closed spec fn wf(&self) -> bool {
        &&& self.pos <= self.input@.len()
        &&& self.budget.wf()
        &&& self.budget.limit() == self.config.limit
    }

    /// What a session has claimed is within its limit.
    pub proof fn lemma_within_limit(&self)
        requires
            self.wf(),
        ensures
            self.config().limit matches Some(limit) ==> self@.claimed <= limit,
    {
        self.budget.lemma_within_limit();
    }

    /// Opens a session at the start of `input` with nothing claimed.
    pub fn new(input: &'a [u8], config: Config) -> (d: Decoder<'a>)
        ensures
            d.wf(),
            d.config() == config,
            d@ == (Cursor { input: input@, claimed: 0 }),
    {
        assert(input@.skip(0) == input@);
        Decoder { input, pos: 0, config, budget: Budget::new(config.limit) }
    }

    /// The settings of the session.
    pub fn settings(&self) -> (c: Config)
        ensures
            c == self.config(),
    {
        self.config
    }

    /// The number of input bytes not yet consumed.
    pub fn remaining_len(&self) -> (n: usize)
        requires
            self.wf(),
        ensures
            n == self@.input.len(),
    {
        self.input.len() - self.pos
    }

    /// Claims `amount` bytes against the session's limit.
    pub fn claim_bytes_read(&mut self, amount: usize) -> (r: Result<(), DecodeError>)
        requires
            old(self).wf(),
        ensures
            final(self).wf(),
            final(self).config() == old(self).config(),
            match claim_at(old(self).config(), old(self)@, amount as nat) {
                Some(c) => r is Ok && final(self)@ == c,
                None => r == Err::<(), DecodeError>(DecodeError::LimitExceeded) && final(self)@
                    == old(self)@,
            },
    {
        self.budget.claim(amount)
    }

    /// Claims the worst case for `count` elements of type `T` before any of
    /// them is decoded or any memory is reserved for them.
    pub fn claim_container_read<T>(&mut self, count: usize) -> (r: Result<(), DecodeError>)
        requires
            old(self).wf(),
        ensures
            final(self).wf(),
            final(self).config() == old(self).config(),
            match claim_at(
                old(self).config(),
                old(self)@,
                count as nat * vstd::layout::size_of::<T>(),
            ) {
                Some(c) => r is Ok && final(self)@ == c,
                None => r == Err::<(), DecodeError>(DecodeError::LimitExceeded) && final(self)@
                    == old(self)@,
            },
    {
        self.budget.claim_container(count, core::mem::size_of::<T>())
    }

    /// Hands back `amount` claimed bytes, so that what is decoded next can
    /// claim for itself.
    pub fn unclaim_bytes_read(&mut self, amount: usize)
        requires
            old(self).wf(),
        ensures
            final(self).wf(),
            final(self).config() == old(self).config(),
            final(self)@ == release_at(old(self).config(), old(self)@, amount as nat),
    {
        self.budget.release(amount)
    }

    /// Consumes the next `n` bytes of the input, or none where fewer are left.
    pub fn read(&mut self, n: usize) -> (r: Result<&'a [u8], DecodeError>)
        requires
            old(self).wf(),
        ensures
            final(self).wf(),
            final(self).config() == old(self).config(),
            match take_bytes(old(self)@, n as nat) {
                Ok((bytes, after)) => r is Ok && r->Ok_0@ == bytes && final(self)@ == after,
                Err(e) => r == Err::<&'a [u8], DecodeError>(e) && final(self)@ == old(self)@,
            },
    {
        let available = self.input.len() - self.pos;
        if n <= available {
            let bytes = slice_subrange(self.input, self.pos, self.pos + n);
            proof {
                assert(bytes@ == self.input@.skip(self.pos as int).take(n as int));
                assert(self.input@.skip(self.pos as int).skip(n as int) == self.input@.skip(
                    self.pos + n,
                ));
            }
            self.pos = self.pos + n;
            Ok(bytes)
        } else {
            Err(DecodeError::UnexpectedEnd { additional: n - available })
        }
    }
}

/// A type that can be read back from its encoding.
pub trait Decode: DeepView + Sized {
    /// What decoding gives at a cursor: the value's model and the cursor
    /// behind it, or the failure.
    spec fn parse(cfg: Config, at: Cursor) -> Parsed<Self::V>;

    /// Whether decoding a value of this type asks for memory in a way that
    /// can be refused. Where it does not, a decode never fails for lack of
    /// memory.
    spec fn may_run_out() -> bool;

    /// A successful decode consumes a prefix of the input and never leaves
    /// less claimed than it found.
    proof fn lemma_parse_progress(cfg: Config, at: Cursor)
        ensures
            Self::parse(cfg, at) matches Ok((_, end)) ==> advances(cfg, at, end),
    ;

    /// Decodes one value. The only failure that the input does not decide is
    /// a refused allocation, and that only where the type may ask for one.
    fn decode(decoder: &mut Decoder) -> (r: Result<Self, DecodeError>)
        requires
            old(decoder).wf(),
        ensures
            final(decoder).wf(),
            final(decoder).config() == old(decoder).config(),
            match r {
                Ok(v) => Self::parse(old(decoder).config(), old(decoder)@) == Ok::<
                    (Self::V, Cursor),
                    DecodeError,
                >((v.deep_view(), final(decoder)@)),
                Err(e) => e is OutOfMemory || Self::parse(old(decoder).config(), old(decoder)@)
                    == Err::<(Self::V, Cursor), DecodeError>(e),
            },
            r matches Err(e) ==> (e is OutOfMemory ==> Self::may_run_out()),
    ;
}

} // verus!
