//! Storage that a decode fills slot by slot and hands over only when every
//! slot is filled.
use crate::error::{allocation, reservation, DecodeError, OutOfMemory};
use vstd::layout::size_of;
use vstd::prelude::*;

verus! {

/// The bytes that `count` elements of type `T` take, or `usize::MAX` where
/// they are more than a `usize` can count.
pub open spec fn slice_bytes<T>(count: nat) -> usize {
    if count * size_of::<T>() <= usize::MAX {
        (count * size_of::<T>()) as usize
    } else {
        usize::MAX
    }
}

/// Reserved room for `capacity` elements, of which a prefix holds values.
///
/// While it is being filled the buffer owns the values written so far and
/// nothing else: dropping it destroys exactly those, in whatever state the
/// decode left off. `finish` ends the filling and gives the values to the
/// finished container.
#[derive(Debug)]
pub struct PartialBuffer<T> {
    slots: Vec<T>,
    capacity: usize,
}

impl<T> View for PartialBuffer<T> {
    type V = Seq<T>;

    /// The values written so far, in slot order.
    closed spec fn view(&self) -> Seq<T> {
        self.slots@
    }
}

impl<T> PartialBuffer<T> {
    /// The number of slots that were reserved.
    pub closed spec fn capacity(&self) -> nat {
        self.capacity as nat
    }

    /// No more slots are filled than were reserved.
    pub closed spec fn wf(&self) -> bool {
        self.slots@.len() <= self.capacity
    }

    /// Reserves room for `capacity` elements and fills none of them.
    pub fn reserve(capacity: usize) -> (r: Result<PartialBuffer<T>, DecodeError>)
        ensures
            match r {
                Ok(b) => b.wf() && b.capacity() == capacity && b@ == Seq::<T>::empty(),
                Err(e) => e == (DecodeError::OutOfMemory {
                    inner: OutOfMemory::TryReserve { requested: capacity },
                }),
            },
    {
        let mut slots: Vec<T> = Vec::new();
        let outcome = slots.try_reserve(capacity);
        match reservation(outcome, capacity) {
            Err(inner) => Err(DecodeError::OutOfMemory { inner }),
            Ok(()) => Ok(PartialBuffer { slots, capacity }),
        }
    }

    /// Allocates room for `capacity` elements as the one heap value that a
    /// boxed slice is, and fills none of them. A refusal is reported as a
    /// failed allocation of all the bytes of that value.
    pub fn allocate(capacity: usize) -> (r: Result<PartialBuffer<T>, DecodeError>)
        ensures
            match r {
                Ok(b) => b.wf() && b.capacity() == capacity && b@ == Seq::<T>::empty(),
                Err(e) => e == (DecodeError::OutOfMemory {
                    inner: OutOfMemory::Alloc { requested: slice_bytes::<T>(capacity as nat) },
                }),
            },
    {
        let bytes = match capacity.checked_mul(core::mem::size_of::<T>()) {
            Some(bytes) => bytes,
            None => usize::MAX,
        };
        let mut slots: Vec<T> = Vec::new();
        let outcome = slots.try_reserve(capacity);
        match allocation(outcome, bytes) {
            Err(inner) => Err(DecodeError::OutOfMemory { inner }),
            Ok(()) => Ok(PartialBuffer { slots, capacity }),
        }
    }

    /// The number of slots that hold a value.
    pub fn initialized(&self) -> (k: usize)
        ensures
            k == self@.len(),
    {
        self.slots.len()
    }

    /// The number of slots that do not hold a value yet.
    pub fn vacant(&self) -> (n: usize)
        requires
            self.wf(),
        ensures
            n == self.capacity() - self@.len(),
    {
        self.capacity - self.slots.len()
    }

    /// Puts `value` into the first vacant slot.
    pub fn write(&mut self, value: T)
        requires
            old(self).wf(),
            old(self)@.len() < old(self).capacity(),
        ensures
            final(self).wf(),
            final(self).capacity() == old(self).capacity(),
            final(self)@ == old(self)@.push(value),
    {
        self.slots.push(value);
    }

    /// Ends the filling: the buffer, with every slot filled, becomes the
    /// finished sequence.
    pub fn finish(self) -> (items: Vec<T>)
        requires
            self.wf(),
            self@.len() == self.capacity(),
        ensures
            items@ == self@,
    {
        self.slots
    }
}

} // verus!
