//! Error taxonomy: vote-specific failures and the instruction-level surface
//! they are reported through.

use vstd::prelude::*;

verus! {

/// Why a vote, timestamp, authorization or slash request was rejected.
#[derive(PartialEq, Eq, Structural, Clone, Copy, Debug)]
pub enum VoteError {
    /// The vote references only slots at or below the newest existing vote,
    /// or the witness is empty.
    VoteTooOld,
    /// The vote's slots are not a suffix of the slot-hashes witness in the
    /// expected order.
    SlotsMismatch,
    /// A slot matched but its hash did not.
    SlotHashMismatch,
    /// The vote carries no slots.
    EmptySlots,
    /// The proposed `(slot, timestamp)` pair is not monotonic against the
    /// last recorded one.
    TimestampTooOld,
    /// Voter re-authorization attempted within the same epoch.
    TooSoonToReauthorize,
    /// A slash instruction's transaction fails signature or reference
    /// verification.
    InvalidSlashTransaction,
}

/// The error code a `VoteError` is reported under at the instruction level.
pub open spec fn spec_vote_error_code(e: VoteError) -> u32 {
    match e {
        VoteError::VoteTooOld => 0,
        VoteError::SlotsMismatch => 1,
        VoteError::SlotHashMismatch => 2,
        VoteError::EmptySlots => 3,
        VoteError::TimestampTooOld => 4,
        VoteError::TooSoonToReauthorize => 5,
        VoteError::InvalidSlashTransaction => 6,
    }
}

/// Errors surfaced by the account-level entry points.
#[derive(PartialEq, Eq, Structural, Clone, Copy, Debug)]
pub enum InstructionError {
    MissingRequiredSignature,
    UninitializedAccount,
    AccountAlreadyInitialized,
    InsufficientFunds,
    InvalidAccountData,
    AccountDataTooSmall,
    GenericError,
    CustomError(u32),
}

impl From<VoteError> for InstructionError {
    /// A vote error surfaces as the custom instruction error carrying its
    /// code.
    fn from(e: VoteError) -> (r: InstructionError)
        ensures
            r == InstructionError::CustomError(spec_vote_error_code(e)),
    {
        InstructionError::CustomError(vote_error_code(e))
    }
}

impl vstd::std_specs::convert::FromSpecImpl<VoteError> for InstructionError {
    open spec fn obeys_from_spec() -> bool {
        true
    }

    open spec fn from_spec(e: VoteError) -> InstructionError {
        InstructionError::CustomError(spec_vote_error_code(e))
    }
}

/// The numeric code of a vote error.
pub fn vote_error_code(e: VoteError) -> (r: u32)
    ensures
        r == spec_vote_error_code(e),
{
    match e {
        VoteError::VoteTooOld => 0,
        VoteError::SlotsMismatch => 1,
        VoteError::SlotHashMismatch => 2,
        VoteError::EmptySlots => 3,
        VoteError::TimestampTooOld => 4,
        VoteError::TooSoonToReauthorize => 5,
        VoteError::InvalidSlashTransaction => 6,
    }
}

} // verus!
