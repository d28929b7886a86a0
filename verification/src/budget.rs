//! The decode budget: a pessimistic ledger of the bytes a decode may have
//! provisionally reserved before it has seen the input that pays for them.
use crate::error::DecodeError;
use vstd::prelude::*;

verus! {

/// What is claimed after `amount` more bytes are claimed, or `None` where
/// that would pass the limit. Without a limit nothing is counted.
pub open spec fn claim_spec(limit: Option<usize>, claimed: nat, amount: nat) -> Option<nat> {
    match limit {
        None => Some(claimed),
        Some(l) => if claimed + amount <= l {
            Some(claimed + amount)
        } else {
            None
        },
    }
}

/// What is claimed after `amount` bytes are handed back: never less than
/// nothing.
pub open spec fn release_spec(limit: Option<usize>, claimed: nat, amount: nat) -> nat {
    match limit {
        None => claimed,
        Some(_) => if amount <= claimed {
            (claimed - amount) as nat
        } else {
            0
        },
    }
}

/// The ledger of one decode session.
#[derive(Clone, Copy, Debug)]
pub struct Budget {
    limit: Option<usize>,
    claimed: usize,
}

impl Budget {
    /// The ceiling on outstanding claims, if the session has one.
    pub closed spec fn limit(&self) -> Option<usize> {
        self.limit
    }

    /// The bytes claimed and not yet handed back.
    pub closed spec fn claimed(&self) -> nat {
        self.claimed as nat
    }

    /// Outstanding claims never exceed the ceiling.
    pub closed spec fn wf(&self) -> bool {
        self.limit matches Some(l) ==> self.claimed <= l
    }

    /// Outstanding claims are within the ceiling.
    pub proof fn lemma_within_limit(&self)
        requires
            self.wf(),
        ensures
            self.limit() matches Some(limit) ==> self.claimed() <= limit,
    {
    }

    /// A ledger with nothing claimed.
    pub fn new(limit: Option<usize>) -> (b: Budget)
        ensures
            b.wf(),
            b.limit() == limit,
            b.claimed() == 0,
    {
        Budget { limit, claimed: 0 }
    }

    /// Claims `amount` bytes. A claim that would pass the ceiling is refused
    /// and leaves the ledger as it was.
    pub fn claim(&mut self, amount: usize) -> (r: Result<(), DecodeError>)
        requires
            old(self).wf(),
        ensures
            final(self).wf(),
            final(self).limit() == old(self).limit(),
            match claim_spec(old(self).limit(), old(self).claimed(), amount as nat) {
                Some(c) => r is Ok && final(self).claimed() == c,
                None => r == Err::<(), DecodeError>(DecodeError::LimitExceeded)
                    && final(self).claimed() == old(self).claimed(),
            },
    {
        match self.limit {
            None => Ok(()),
            Some(l) => {
                if amount <= l - self.claimed {
                    self.claimed = self.claimed + amount;
                    Ok(())
                } else {
                    Err(DecodeError::LimitExceeded)
                }
            },
        }
    }

    /// Claims room for `count` elements of `element_size` bytes each, in one
    /// step and before anything is allocated.
    pub fn claim_container(&mut self, count: usize, element_size: usize) -> (r: Result<
        (),
        DecodeError,
    >)
        requires
            old(self).wf(),
        ensures
            final(self).wf(),
            final(self).limit() == old(self).limit(),
            match claim_spec(
                old(self).limit(),
                old(self).claimed(),
                (count * element_size) as nat,
            ) {
                Some(c) => r is Ok && final(self).claimed() == c,
                None => r == Err::<(), DecodeError>(DecodeError::LimitExceeded)
                    && final(self).claimed() == old(self).claimed(),
            },
    {
        match self.limit {
            None => Ok(()),
            Some(_) => match count.checked_mul(element_size) {
                None => Err(DecodeError::LimitExceeded),
                Some(total) => self.claim(total),
            },
        }
    }

    /// Hands `amount` claimed bytes back. No more can be handed back than is
    /// claimed: a greater amount leaves nothing claimed.
    pub fn release(&mut self, amount: usize)
        requires
            old(self).wf(),
        ensures
            final(self).wf(),
            final(self).limit() == old(self).limit(),
            final(self).claimed() == release_spec(
                old(self).limit(),
                old(self).claimed(),
                amount as nat,
            ),
    {
        if self.limit.is_some() {
            if amount <= self.claimed {
                self.claimed = self.claimed - amount;
            } else {
                self.claimed = 0;
            }
        }
    }

    /// The bytes that may still be claimed, or `None` without a ceiling.
    pub fn remaining(&self) -> (r: Option<usize>)
        requires
            self.wf(),
        ensures
            match self.limit() {
                None => r is None,
                Some(l) => r == Some((l - self.claimed()) as usize),
            },
    {
        match self.limit {
            None => None,
            Some(l) => Some(l - self.claimed),
        }
    }
}

} // verus!
