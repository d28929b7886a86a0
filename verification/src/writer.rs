//! The growable byte buffer that encoding writes into.
use crate::error::{reservation, EncodeError, OutOfMemory};
use std::collections::TryReserveError;
use vstd::prelude::*;

verus! {

/// An append-only byte sink that grows as needed and reports, rather than
/// aborts, when it cannot.
#[derive(Debug)]
pub struct VecWriter {
    inner: Vec<u8>,
}

impl View for VecWriter {
    type V = Seq<u8>;

    closed spec fn view(&self) -> Seq<u8> {
        self.inner@
    }
}

impl VecWriter {
    /// A sink with nothing written.
    pub fn new() -> (w: VecWriter)
        ensures
            w@ == Seq::<u8>::empty(),
    {
        VecWriter { inner: Vec::new() }
    }

    /// The bytes written, in the order they were written.
    pub fn collect(self) -> (bytes: Vec<u8>)
        ensures
            bytes@ == self@,
    {
        self.inner
    }

    /// The number of bytes written.
    pub fn len(&self) -> (n: usize)
        ensures
            n == self@.len(),
    {
        self.inner.len()
    }

    /// Appends `bytes`: all of them, or, where room for them cannot be
    /// reserved, none.
    pub fn write(&mut self, bytes: &[u8]) -> (r: Result<(), EncodeError>)
        ensures
            match r {
                Ok(()) => final(self)@ == old(self)@ + bytes@,
                Err(e) => final(self)@ == old(self)@ && e == (EncodeError::OutOfMemory {
                    inner: OutOfMemory::TryReserve { requested: bytes@.len() as usize },
                }),
            },
    {
        let outcome = self.inner.try_reserve(bytes.len());
        self.append_reserved(outcome, bytes)
    }

    /// What `write` does once the reservation of room for `bytes` has come
    /// to `outcome`: where the room was had, the bytes are appended; where
    /// it was refused, nothing is written and the refusal is reported with
    /// the number of bytes that were to be written.
    pub fn append_reserved(&mut self, outcome: Result<(), TryReserveError>, bytes: &[u8]) -> (r:
        Result<(), EncodeError>)
        ensures
            outcome is Ok ==> r is Ok && final(self)@ == old(self)@ + bytes@,
            outcome is Err ==> final(self)@ == old(self)@ && r == Err::<(), EncodeError>(
                EncodeError::OutOfMemory {
                    inner: OutOfMemory::TryReserve { requested: bytes@.len() as usize },
                },
            ),
    {
        match reservation(outcome, bytes.len()) {
            Err(inner) => Err(EncodeError::OutOfMemory { inner }),
            Ok(()) => {
                self.inner.extend_from_slice(bytes);
                assert(self.inner@ == old(self).inner@ + bytes@);
                Ok(())
            },
        }
    }
}

impl Default for VecWriter {
    fn default() -> (w: VecWriter)
        ensures
            w@ == Seq::<u8>::empty(),
    {
        VecWriter::new()
    }
}

} // verus!
