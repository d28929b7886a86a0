//! The encoding session and the contract of an encodable type.
use crate::config::Config;
use crate::error::{EncodeError, OutOfMemory};
use crate::writer::VecWriter;
use vstd::prelude::*;

verus! {

/// An encode session: a writer and the settings to encode with.
#[derive(Debug)]
pub struct Encoder {
    writer: VecWriter,
    config: Config,
}

impl View for Encoder {
    type V = Seq<u8>;

    closed spec fn view(&self) -> Seq<u8> {
        self.writer@
    }
}

impl Encoder {
    /// The settings the session was opened with.
    pub closed spec fn config(&self) -> Config {
        self.config
    }

    /// Opens a session that appends to `writer`.
    pub fn new(writer: VecWriter, config: Config) -> (e: Encoder)
        ensures
            e@ == writer@,
            e.config() == config,
    {
        Encoder { writer, config }
    }

    /// The settings of the session.
    pub fn settings(&self) -> (c: Config)
        ensures
            c == self.config(),
    {
        self.config
    }

    /// Appends `bytes` to the output, all or none of them.
    pub fn write(&mut self, bytes: &[u8]) -> (r: Result<(), EncodeError>)
        ensures
            final(self).config() == old(self).config(),
            match r {
                Ok(()) => final(self)@ == old(self)@ + bytes@,
                Err(e) => final(self)@ == old(self)@ && e == (EncodeError::OutOfMemory {
                    inner: OutOfMemory::TryReserve { requested: bytes@.len() as usize },
                }),
            },
    {
        self.writer.write(bytes)
    }

    /// Ends the session and hands the writer back.
    pub fn into_writer(self) -> (w: VecWriter)
        ensures
            w@ == self@,
    {
        self.writer
    }
}

/// What an encode that could not be completed leaves behind: the output
/// as it was, followed by some first part of `whole`.
pub open spec fn partly_written(before: Seq<u8>, after: Seq<u8>, whole: Seq<u8>) -> bool {
    before.is_prefix_of(after) && after.is_prefix_of(before + whole)
}

/// Nothing is a first part of everything.
pub proof fn lemma_nothing_written(before: Seq<u8>, whole: Seq<u8>)
    ensures
        partly_written(before, before, whole),
{
    assert((before + whole).take(before.len() as int) == before);
}

/// A part that is partly written, behind parts that are written, leaves
/// the whole partly written.
pub proof fn lemma_partly_written(
    before: Seq<u8>,
    done: Seq<u8>,
    after: Seq<u8>,
    piece: Seq<u8>,
    behind: Seq<u8>,
)
    requires
        partly_written(before + done, after, piece),
    ensures
        partly_written(before, after, done + piece + behind),
{
    let whole = before + (done + piece + behind);
    assert(whole.take(after.len() as int) == (before + done + piece).take(after.len() as int));
    assert(after.take(before.len() as int) == (before + done).take(before.len() as int));
}

/// A type that can be written as bytes.
pub trait Encode: DeepView {
    /// The bytes that stand for a value with the model `m`.
    spec fn wire(m: Self::V, cfg: Config) -> Seq<u8>;

    /// Appends the value's encoding to the session's output. The only
    /// failure is a refused reservation of output room; what was written
    /// before the call is then still there, followed by as much of the
    /// encoding as was written before the failure.
    fn encode(&self, encoder: &mut Encoder) -> (r: Result<(), EncodeError>)
        ensures
            final(encoder).config() == old(encoder).config(),
            match r {
                Ok(()) => final(encoder)@ == old(encoder)@ + Self::wire(
                    self.deep_view(),
                    old(encoder).config(),
                ),
                Err(e) => e->inner is TryReserve && partly_written(
                    old(encoder)@,
                    final(encoder)@,
                    Self::wire(self.deep_view(), old(encoder).config()),
                ),
            },
    ;
}

} // verus!
