//! Lockouts: a vote for a slot commits the validator for `2^confirmation_count`
//! slots; the commitment doubles each time the vote gains a confirmation.

use vstd::arithmetic::power2::pow2;
use vstd::bits::lemma_u64_pow2_no_overflow;
use vstd::bits::lemma_u64_shl_is_mul;
use vstd::prelude::*;

verus! {

/// Maximum number of votes kept in the tower.
pub const MAX_LOCKOUT_HISTORY: usize = 31;

/// Base of the exponential lockout growth.
pub const INITIAL_LOCKOUT: usize = 2;

/// Maximum number of epoch-credit records kept.
pub const MAX_EPOCH_CREDITS_HISTORY: usize = 64;

/// Frequency, in slots, at which timestamps ride along with votes.
pub const TIMESTAMP_SLOT_INTERVAL: u64 = 4500;

#[derive(PartialEq, Eq, Structural, Clone, Copy, Debug)]
pub struct Lockout {
    pub slot: u64,
    pub confirmation_count: u32,
}

/// The number of slots a vote with the given confirmation count is locked
/// out for: `INITIAL_LOCKOUT ^ confirmation_count`.
pub open spec fn spec_lockout(confirmation_count: u32) -> nat {
    pow2(confirmation_count as nat)
}

/// The first slot at which the lockout has passed.
pub open spec fn spec_expiration_slot(l: Lockout) -> int {
    l.slot + spec_lockout(l.confirmation_count)
}

/// Whether the lockout has expired by `slot`: its expiration slot lies
/// strictly below `slot`.
pub open spec fn spec_is_expired(l: Lockout, slot: u64) -> bool {
    spec_expiration_slot(l) < slot
}

impl Lockout {
    pub fn new(slot: u64) -> (r: Lockout)
        ensures
            r == (Lockout { slot, confirmation_count: 1 }),
    {
        Lockout { slot, confirmation_count: 1 }
    }

    /// The number of slots this vote is locked out for.
    pub fn lockout(&self) -> (r: u64)
        requires
            self.confirmation_count < 64,
        ensures
            r == spec_lockout(self.confirmation_count),
    {
        proof {
            lemma_u64_pow2_no_overflow(self.confirmation_count as nat);
            lemma_u64_shl_is_mul(1u64, self.confirmation_count as u64);
        }
        1u64 << (self.confirmation_count as u64)
    }

    /// The slot at which this vote expires: no conflicting slot below it
    /// may be voted for.
    pub fn expiration_slot(&self) -> (r: u64)
        requires
            self.confirmation_count < 64,
            self.slot + spec_lockout(self.confirmation_count) <= u64::MAX,
        ensures
            r == spec_expiration_slot(*self),
    {
        self.slot + self.lockout()
    }

    pub fn is_expired(&self, slot: u64) -> (r: bool)
        requires
            self.confirmation_count < 64,
        ensures
            r == spec_is_expired(*self, slot),
    {
        let lk = self.lockout();
        // `slot > self.slot + lk` phrased without overflow.
        slot > self.slot && slot - self.slot > lk
    }
}

} // verus!
