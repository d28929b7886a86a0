//! The failures that encoding and decoding report.
use std::collections::TryReserveError;
use vstd::prelude::*;

verus! {

/// Where a failed allocation was asked for.
#[derive(Clone, Copy, Debug, PartialEq, Eq, Structural)]
pub enum OutOfMemory {
    /// Room for `requested` further elements of a growable buffer could not be reserved.
    TryReserve { requested: usize },
    /// A single heap value of `requested` bytes could not be allocated.
    Alloc { requested: usize },
}

/// Why a decode stopped.
#[derive(Clone, Copy, Debug, PartialEq, Eq, Structural)]
pub enum DecodeError {
    /// The input ended while `additional` more bytes were needed.
    UnexpectedEnd { additional: usize },
    /// A claim would have taken the session past its byte limit.
    LimitExceeded,
    /// The first byte of a variable-width integer announces a width that is
    /// too wide for the integer asked for, or is reserved.
    InvalidIntegerType { marker: u8 },
    /// A boolean was encoded as a byte other than 0 or 1.
    InvalidBooleanValue { byte: u8 },
    /// An element count does not fit the platform's `usize`.
    OutsideUsizeRange { count: u64 },
    /// The bytes of a string are not UTF-8; the first `valid_up_to` of them are.
    Utf8 { valid_up_to: usize },
    /// Memory for the decoded value could not be had.
    OutOfMemory { inner: OutOfMemory },
}

/// Why an encode stopped.
#[derive(Clone, Copy, Debug, PartialEq, Eq, Structural)]
pub enum EncodeError {
    /// The output buffer could not grow.
    OutOfMemory { inner: OutOfMemory },
}

/// The refusal of memory that `r` reports, if it reports one.
pub open spec fn refusal<R>(r: Result<R, DecodeError>) -> Option<OutOfMemory> {
    match r {
        Err(DecodeError::OutOfMemory { inner }) => Some(inner),
        _ => None,
    }
}

/// What a reservation of room for `requested` elements came to.
pub fn reservation(outcome: Result<(), TryReserveError>, requested: usize) -> (r: Result<
    (),
    OutOfMemory,
>)
    ensures
        outcome is Ok ==> r is Ok,
        outcome is Err ==> r == Err::<(), OutOfMemory>(OutOfMemory::TryReserve { requested }),
{
    match outcome {
        Ok(()) => Ok(()),
        Err(_) => Err(OutOfMemory::TryReserve { requested }),
    }
}

/// What an attempt to get room for a single value of `requested` bytes
/// came to.
pub fn allocation(outcome: Result<(), TryReserveError>, requested: usize) -> (r: Result<
    (),
    OutOfMemory,
>)
    ensures
        outcome is Ok ==> r is Ok,
        outcome is Err ==> r == Err::<(), OutOfMemory>(OutOfMemory::Alloc { requested }),
{
    match outcome {
        Ok(()) => Ok(()),
        Err(_) => Err(OutOfMemory::Alloc { requested }),
    }
}

} // verus!
