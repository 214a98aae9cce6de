//! The account-level entry points: authorization, withdrawal, vote
//! submission and slashing, all acting on a vote account's serialized
//! state.

use crate::errors::spec_vote_error_code;
use crate::errors::InstructionError;
use crate::errors::VoteError;
use crate::keys::HashValue;
use crate::keys::Pubkey;
use crate::lockout::Lockout;
use crate::lockout::MAX_LOCKOUT_HISTORY;
use crate::slashing::spec_slashable_slots_core;
use crate::vote_state::seq_max;
use crate::vote_state::spec_apply_slots;
use crate::vote_state::spec_check_result;
use crate::vote_state::spec_timestamp_rejected;
use crate::vote_state::BlockTimestamp;
use crate::slashing::keys_contain;
use crate::slashing::SlotCheck;
use crate::slashing::SlotHistory;
use crate::vote_codec::model_of;
use crate::vote_codec::parse_state;
use crate::vote_codec::ser_model;
use crate::vote_codec::spec_ser_state;
use crate::vote_codec::StateModel;
use crate::vote_state::confs_bounded;
use crate::vote_state::credits_pairs_wf;
use crate::vote_state::slots_ascending;
use crate::vote_state::Clock;
use crate::vote_state::Vote;
use crate::vote_state::VoteAuthorize;
use crate::vote_state::VoteInit;
use crate::vote_state::VoteState;
use crate::vote_state::MAX_ITEMS;
use vstd::prelude::*;

verus! {

/// The key the vote program answers to.
pub fn id() -> (r: Pubkey)
    ensures
        r == spec_id(),
{
    Pubkey { w0: 2, w1: 0, w2: 0, w3: 0 }
}

pub open spec fn spec_id() -> Pubkey {
    Pubkey { w0: 2, w1: 0, w2: 0, w3: 0 }
}

/// An account: a balance, a byte buffer holding serialized state, and the
/// key of the program that owns it.
#[derive(PartialEq, Eq, Clone, Debug)]
pub struct Account {
    pub lamports: u64,
    pub data: Vec<u8>,
    pub owner: Pubkey,
}

impl Account {
    /// A fresh account with `space` bytes of zeroed data.
    pub fn new(lamports: u64, space: usize, owner: &Pubkey) -> (r: Account)
        ensures
            r.lamports == lamports,
            r.data@ == Seq::new(space as nat, |i: int| 0u8),
            r.owner == *owner,
    {
        let mut data: Vec<u8> = Vec::new();
        while data.len() < space
            invariant
                data@.len() <= space,
                forall|i: int| 0 <= i < data@.len() ==> data@[i] == 0u8,
            decreases space - data@.len(),
        {
            data.push(0);
        }
        proof {
            assert(data@ =~= Seq::new(space as nat, |i: int| 0u8));
        }
        Account { lamports, data, owner: *owner }
    }
}

/// An account together with the key it is addressed by and whether its
/// owner signed the current transaction.
#[derive(PartialEq, Eq, Clone, Debug)]
pub struct KeyedAccount {
    pub key: Pubkey,
    pub is_signer: bool,
    pub account: Account,
}

/// Whether a parsed state is structurally sound enough to process.
pub open spec fn model_wf(m: StateModel) -> bool {
    &&& slots_ascending(m.votes)
    &&& confs_bounded(m.votes)
    &&& m.votes.len() <= MAX_LOCKOUT_HISTORY
    &&& (m.root_slot matches Some(r) ==> (m.votes.len() > 0 ==> r < m.votes[0].slot))
    &&& (m.votes.len() == 0 ==> m.root_slot is None)
    &&& credits_pairs_wf(m.epoch_credits)
    &&& m.prior_voters.len() == MAX_ITEMS
    &&& m.prior_idx < MAX_ITEMS
}

impl VoteState {
    /// Whether this state satisfies the tower invariant, decided at run
    /// time; a state decoded from foreign bytes need not.
    pub fn check_well_formed(&self) -> (r: bool)
        ensures
            r == self.wf(),
    {
        let nv = self.votes.len();
        if nv > MAX_LOCKOUT_HISTORY {
            return false;
        }
        let mut i: usize = 0;
        while i < nv
            invariant
                i <= nv,
                nv == self.votes@.len(),
                nv <= MAX_LOCKOUT_HISTORY,
                forall|j: int, k: int| 0 <= j < k < i ==> self.votes@[j].slot < self.votes@[k].slot,
                forall|j: int|
                    0 <= j < i ==> 1 <= #[trigger] self.votes@[j].confirmation_count
                        <= MAX_LOCKOUT_HISTORY - j,
            decreases nv - i,
        {
            let v = self.votes[i];
            if v.confirmation_count < 1 || (v.confirmation_count as usize) > MAX_LOCKOUT_HISTORY
                - i {
                return false;
            }
            if i > 0 && self.votes[i - 1].slot >= v.slot {
                proof {
                    assert(!slots_ascending(self.votes@));
                }
                return false;
            }
            proof {
                assert forall|j: int, k: int|
                    0 <= j < k < i + 1 implies self.votes@[j].slot < self.votes@[k].slot by {
                    if k == i as int {
                        if j < i - 1 {
                            assert(self.votes@[j].slot < self.votes@[i - 1].slot);
                        }
                    }
                }
            }
            i = i + 1;
        }
        match self.root_slot {
            Some(r) => {
                if nv == 0 {
                    return false;
                }
                if r >= self.votes[0].slot {
                    return false;
                }
            },
            None => {},
        }
        let nc = self.epoch_credits.len();
        if nc > crate::lockout::MAX_EPOCH_CREDITS_HISTORY {
            return false;
        }
        let mut c: usize = 0;
        while c < nc
            invariant
                c <= nc,
                nc == self.epoch_credits@.len(),
                forall|j: int| 0 <= j < c ==> (#[trigger] self.epoch_credits@[j]).1
                    >= self.epoch_credits@[j].2,
            decreases nc - c,
        {
            let e = self.epoch_credits[c];
            if e.1 < e.2 {
                return false;
            }
            c = c + 1;
        }
        if self.prior_voters.buf.len() != MAX_ITEMS || self.prior_voters.idx >= MAX_ITEMS {
            return false;
        }
        proof {
            assert(slots_ascending(self.votes@));
            assert(confs_bounded(self.votes@));
        }
        true
    }
}

impl KeyedAccount {
    /// Decode this account's state.
    pub fn state(&self) -> (r: Result<VoteState, InstructionError>)
        ensures
            r is Ok <==> parse_state(self.account.data@) is Some,
            r matches Ok(s) ==> model_of(&s) == parse_state(self.account.data@).unwrap().0,
            r is Err ==> r == Err::<VoteState, InstructionError>(
                InstructionError::InvalidAccountData,
            ),
    {
        VoteState::deserialize(self.account.data.as_slice())
    }

    /// Write a state back into this account's data.
    pub fn set_state(&mut self, state: &VoteState) -> (r: Result<(), InstructionError>)
        ensures
            r is Ok <==> spec_ser_state(state).len() <= old(self).account.data@.len(),
            r is Ok ==> final(self).account.data@ == spec_ser_state(state) + old(self).account.data@.skip(spec_ser_state(state).len() as int),
            r is Err ==> final(self).account.data@ == old(self).account.data@ && r == Err::<
                (),
                InstructionError,
            >(InstructionError::AccountDataTooSmall),
            final(self).account.lamports == old(self).account.lamports,
            final(self).account.owner == old(self).account.owner,
            final(self).key == old(self).key,
            final(self).is_signer == old(self).is_signer,
    {
        state.serialize(&mut self.account.data)
    }
}

/// The signature guard: the authorized key must be among the signers.
pub fn verify_authorized_signer(authorized: &Pubkey, signers: &Vec<Pubkey>) -> (r: Result<
    (),
    InstructionError,
>)
    ensures
        r is Ok <==> signers@.contains(*authorized),
        r is Err ==> r == Err::<(), InstructionError>(InstructionError::MissingRequiredSignature),
{
    if keys_contain(signers, authorized) {
        Ok(())
    } else {
        Err(InstructionError::MissingRequiredSignature)
    }
}

/// The index of the ring buffer's next write.
pub open spec fn spec_next_idx(idx: u64) -> u64 {
    (((idx as int) + 1) % (MAX_ITEMS as int)) as u64
}

/// What authorizing a new voter or withdrawer does to a sound state.
pub open spec fn spec_authorize_result(
    m: StateModel,
    authorized: Pubkey,
    vote_authorize: VoteAuthorize,
    signers: Seq<Pubkey>,
    clock: Clock,
) -> Result<StateModel, InstructionError> {
    match vote_authorize {
        VoteAuthorize::Voter => {
            if !signers.contains(m.authorized_voter) {
                Err(InstructionError::MissingRequiredSignature)
            } else if m.authorized_voter_epoch == clock.epoch {
                Err(
                    InstructionError::CustomError(
                        spec_vote_error_code(VoteError::TooSoonToReauthorize),
                    ),
                )
            } else {
                let ni = spec_next_idx(m.prior_idx);
                Ok(
                    StateModel {
                        prior_voters: m.prior_voters.update(
                            ni as int,
                            (
                                m.authorized_voter,
                                m.authorized_voter_epoch,
                                clock.epoch,
                                clock.slot,
                            ),
                        ),
                        prior_idx: ni,
                        authorized_voter: authorized,
                        authorized_voter_epoch: clock.epoch,
                        ..m
                    },
                )
            }
        },
        VoteAuthorize::Withdrawer => {
            if !signers.contains(m.authorized_withdrawer) {
                Err(InstructionError::MissingRequiredSignature)
            } else {
                Ok(StateModel { authorized_withdrawer: authorized, ..m })
            }
        },
    }
}

/// Shared guard of the state-updating entry points: the new state must
/// fit back into the account's buffer.
pub open spec fn spec_update_outcome(
    data: Seq<u8>,
    logic: Result<StateModel, InstructionError>,
) -> Result<StateModel, InstructionError> {
    match logic {
        Err(e) => Err(e),
        Ok(m2) => if ser_model(m2).len() <= data.len() {
            Ok(m2)
        } else {
            Err(InstructionError::AccountDataTooSmall)
        },
    }
}

/// The parsed, sound state of the account's data, if there is one.
pub open spec fn spec_sound_state(data: Seq<u8>) -> Option<StateModel> {
    match parse_state(data) {
        None => None,
        Some((m, _)) => if model_wf(m) {
            Some(m)
        } else {
            None
        },
    }
}

/// Authorize a new voter or withdrawer; the currently authorized signer
/// must have signed, and a voter hand-over is allowed at most once per
/// epoch, the outgoing voter being remembered in the prior-voters ring.
pub fn authorize(
    vote_account: &mut KeyedAccount,
    authorized: &Pubkey,
    vote_authorize: VoteAuthorize,
    signers: &Vec<Pubkey>,
    clock: &Clock,
) -> (r: Result<(), InstructionError>)
    ensures
        match spec_sound_state(old(vote_account).account.data@) {
            None => (r == Err::<(), InstructionError>(InstructionError::InvalidAccountData)
                && final(vote_account).account.data@ == old(vote_account).account.data@),
            Some(m) => match spec_update_outcome(
                old(vote_account).account.data@,
                spec_authorize_result(m, *authorized, vote_authorize, signers@, *clock),
            ) {
                Err(e) => (r == Err::<(), InstructionError>(e) && final(vote_account).account.data@ == old(vote_account).account.data@),
                Ok(m2) => (r is Ok && final(vote_account).account.data@ == ser_model(m2) + old(vote_account).account.data@.skip(ser_model(m2).len() as int)),
            },
        },
        final(vote_account).account.lamports == old(vote_account).account.lamports,
{
    let st = vote_account.state();
    let mut vote_state = match st {
        Ok(v) => v,
        Err(_) => {
            return Err(InstructionError::InvalidAccountData);
        },
    };
    if !vote_state.check_well_formed() {
        return Err(InstructionError::InvalidAccountData);
    }
    match vote_authorize {
        VoteAuthorize::Voter => {
            match verify_authorized_signer(&vote_state.authorized_voter, signers) {
                Err(e) => {
                    return Err(e);
                },
                Ok(_) => {},
            }
            if vote_state.authorized_voter_epoch == clock.epoch {
                return Err(InstructionError::from(VoteError::TooSoonToReauthorize));
            }
            vote_state.prior_voters.append(
                (
                    vote_state.authorized_voter,
                    vote_state.authorized_voter_epoch,
                    clock.epoch,
                    clock.slot,
                ),
            );
            vote_state.authorized_voter = *authorized;
            vote_state.authorized_voter_epoch = clock.epoch;
        },
        VoteAuthorize::Withdrawer => {
            match verify_authorized_signer(&vote_state.authorized_withdrawer, signers) {
                Err(e) => {
                    return Err(e);
                },
                Ok(_) => {},
            }
            vote_state.authorized_withdrawer = *authorized;
        },
    }
    let n = vote_account.account.data.len();
    let enc = vote_state.serialize_to_vec();
    if enc.len() > n {
        return Err(InstructionError::AccountDataTooSmall);
    }
    let r = vote_account.set_state(&vote_state);
    proof {
        assert(r is Ok);
    }
    Ok(())
}

/// Point the account at a new validator node; the authorized voter must
/// have signed.
pub fn update_node(
    vote_account: &mut KeyedAccount,
    node_pubkey: &Pubkey,
    signers: &Vec<Pubkey>,
) -> (r: Result<(), InstructionError>)
    ensures
        match spec_sound_state(old(vote_account).account.data@) {
            None => (r == Err::<(), InstructionError>(InstructionError::InvalidAccountData)
                && final(vote_account).account.data@ == old(vote_account).account.data@),
            Some(m) => match spec_update_outcome(
                old(vote_account).account.data@,
                if !signers@.contains(m.authorized_voter) {
                    Err(InstructionError::MissingRequiredSignature)
                } else {
                    Ok(StateModel { node_pubkey: *node_pubkey, ..m })
                },
            ) {
                Err(e) => (r == Err::<(), InstructionError>(e) && final(vote_account).account.data@ == old(vote_account).account.data@),
                Ok(m2) => (r is Ok && final(vote_account).account.data@ == ser_model(m2) + old(vote_account).account.data@.skip(ser_model(m2).len() as int)),
            },
        },
        final(vote_account).account.lamports == old(vote_account).account.lamports,
{
    let st = vote_account.state();
    let mut vote_state = match st {
        Ok(v) => v,
        Err(_) => {
            return Err(InstructionError::InvalidAccountData);
        },
    };
    if !vote_state.check_well_formed() {
        return Err(InstructionError::InvalidAccountData);
    }
    match verify_authorized_signer(&vote_state.authorized_voter, signers) {
        Err(e) => {
            return Err(e);
        },
        Ok(_) => {},
    }
    vote_state.node_pubkey = *node_pubkey;
    let n = vote_account.account.data.len();
    let enc = vote_state.serialize_to_vec();
    if enc.len() > n {
        return Err(InstructionError::AccountDataTooSmall);
    }
    let r = vote_account.set_state(&vote_state);
    proof {
        assert(r is Ok);
    }
    Ok(())
}

/// Move lamports out of the vote account; the authorized withdrawer must
/// have signed and the balance must cover the amount.
pub fn withdraw(
    vote_account: &mut KeyedAccount,
    lamports: u64,
    to_account: &mut KeyedAccount,
    signers: &Vec<Pubkey>,
) -> (r: Result<(), InstructionError>)
    requires
        old(to_account).account.lamports + lamports <= u64::MAX,
    ensures
        final(vote_account).account.data@ == old(vote_account).account.data@,
        final(to_account).account.data@ == old(to_account).account.data@,
        match spec_sound_state(old(vote_account).account.data@) {
            None => (r == Err::<(), InstructionError>(InstructionError::InvalidAccountData)
                && final(vote_account).account.lamports == old(vote_account).account.lamports
                && final(to_account).account.lamports == old(to_account).account.lamports),
            Some(m) => if !signers@.contains(m.authorized_withdrawer) {
                (r == Err::<(), InstructionError>(InstructionError::MissingRequiredSignature)
                    && final(vote_account).account.lamports == old(vote_account).account.lamports && final(to_account).account.lamports == old(to_account).account.lamports)
            } else if old(vote_account).account.lamports < lamports {
                (r == Err::<(), InstructionError>(InstructionError::InsufficientFunds) && final(vote_account).account.lamports == old(vote_account).account.lamports && final(to_account).account.lamports == old(to_account).account.lamports)
            } else {
                (r is Ok && final(vote_account).account.lamports == old(vote_account).account.lamports - lamports && final(to_account).account.lamports == old(to_account).account.lamports + lamports)
            },
        },
{
    let st = vote_account.state();
    let vote_state = match st {
        Ok(v) => v,
        Err(_) => {
            return Err(InstructionError::InvalidAccountData);
        },
    };
    if !vote_state.check_well_formed() {
        return Err(InstructionError::InvalidAccountData);
    }
    match verify_authorized_signer(&vote_state.authorized_withdrawer, signers) {
        Err(e) => {
            return Err(e);
        },
        Ok(_) => {},
    }
    if vote_account.account.lamports < lamports {
        return Err(InstructionError::InsufficientFunds);
    }
    vote_account.account.lamports = vote_account.account.lamports - lamports;
    to_account.account.lamports = to_account.account.lamports + lamports;
    Ok(())
}

/// The model of a freshly initialized state.
pub open spec fn spec_fresh_model(vote_init: VoteInit, clock: Clock) -> StateModel {
    StateModel {
        node_pubkey: vote_init.node_pubkey,
        authorized_voter: vote_init.authorized_voter,
        authorized_voter_epoch: clock.epoch,
        prior_voters: Seq::new(
            MAX_ITEMS as nat,
            |i: int| (Pubkey::spec_default(), 0u64, 0u64, 0u64),
        ),
        prior_idx: (MAX_ITEMS - 1) as u64,
        authorized_withdrawer: vote_init.authorized_withdrawer,
        commission: vote_init.commission,
        votes: Seq::empty(),
        root_slot: None,
        epoch_credits: Seq::empty(),
        last_timestamp_slot: 0,
        last_timestamp: 0,
        has_been_slashed: false,
    }
}

/// Initialize a blank vote account; an account whose voter is already set
/// cannot be initialized again.
pub fn initialize_account(
    vote_account: &mut KeyedAccount,
    vote_init: &VoteInit,
    clock: &Clock,
) -> (r: Result<(), InstructionError>)
    ensures
        match parse_state(old(vote_account).account.data@) {
            None => (r == Err::<(), InstructionError>(InstructionError::InvalidAccountData)
                && final(vote_account).account.data@ == old(vote_account).account.data@),
            Some((m, unused)) => if m.authorized_voter != Pubkey::spec_default() {
                (r == Err::<(), InstructionError>(InstructionError::AccountAlreadyInitialized)
                    && final(vote_account).account.data@ == old(vote_account).account.data@)
            } else {
                match spec_update_outcome(
                    old(vote_account).account.data@,
                    Ok(spec_fresh_model(*vote_init, *clock)),
                ) {
                    Err(e) => (r == Err::<(), InstructionError>(e) && final(vote_account).account.data@ == old(vote_account).account.data@),
                    Ok(m2) => (r is Ok && final(vote_account).account.data@ == ser_model(m2)
                        + old(vote_account).account.data@.skip(ser_model(m2).len() as int)),
                }
            },
        },
        final(vote_account).account.lamports == old(vote_account).account.lamports,
{
    let st = vote_account.state();
    let vote_state = match st {
        Ok(v) => v,
        Err(_) => {
            return Err(InstructionError::InvalidAccountData);
        },
    };
    if !(vote_state.authorized_voter == Pubkey::default_key()) {
        return Err(InstructionError::AccountAlreadyInitialized);
    }
    let fresh = VoteState::new(vote_init, clock);
    proof {
        assert(model_of(&fresh) =~= spec_fresh_model(*vote_init, *clock));
    }
    let n = vote_account.account.data.len();
    let enc = fresh.serialize_to_vec();
    if enc.len() > n {
        return Err(InstructionError::AccountDataTooSmall);
    }
    let r = vote_account.set_state(&fresh);
    proof {
        assert(r is Ok);
    }
    Ok(())
}

/// A funded, initialized vote account, as the runtime creates one.
pub fn create_account(
    vote_pubkey: &Pubkey,
    node_pubkey: &Pubkey,
    commission: u8,
    lamports: u64,
) -> (r: Account)
    ensures
        r.lamports == lamports,
        r.owner == spec_id(),
        parse_state(r.data@) is Some,
        parse_state(r.data@).unwrap().0 == spec_fresh_model(
            VoteInit {
                node_pubkey: *node_pubkey,
                authorized_voter: *vote_pubkey,
                authorized_withdrawer: *vote_pubkey,
                commission,
            },
            Clock { epoch: 0, slot: 0, unix_timestamp: 0 },
        ),
{
    let program_id = id();
    let space = VoteState::size_of();
    let account = Account::new(lamports, space, &program_id);
    let mut keyed = KeyedAccount { key: *vote_pubkey, is_signer: false, account };
    let init = VoteInit {
        node_pubkey: *node_pubkey,
        authorized_voter: *vote_pubkey,
        authorized_withdrawer: *vote_pubkey,
        commission,
    };
    let clock = Clock { epoch: 0, slot: 0, unix_timestamp: 0 };
    let fresh = VoteState::new(&init, &clock);
    proof {
        crate::vote_codec::lemma_ser_model_len(model_of(&fresh));
        assert(model_of(&fresh) =~= spec_fresh_model(init, clock));
    }
    let r = keyed.set_state(&fresh);
    proof {
        assert(r is Ok);
        crate::vote_codec::lemma_serialize_round_trip(
            &fresh,
            keyed.account.data@.skip(spec_ser_state(&fresh).len() as int),
        );
        assert(spec_ser_state(&fresh) + keyed.account.data@.skip(
            spec_ser_state(&fresh).len() as int,
        ) =~= keyed.account.data@);
    }
    keyed.account
}

impl VoteState {
    /// Decode a state from an account, if its data parses.
    pub fn from(account: &Account) -> (r: Option<VoteState>)
        ensures
            r is Some <==> parse_state(account.data@) is Some,
            r matches Some(s) ==> model_of(&s) == parse_state(account.data@).unwrap().0,
    {
        match VoteState::deserialize(account.data.as_slice()) {
            Ok(s) => Some(s),
            Err(_) => None,
        }
    }

    /// Write this state into an account, if it fits.
    pub fn to(&self, account: &mut Account) -> (r: Option<()>)
        ensures
            r is Some <==> spec_ser_state(self).len() <= old(account).data@.len(),
            r is Some ==> final(account).data@ == spec_ser_state(self) + old(account).data@.skip(spec_ser_state(self).len() as int),
            r is None ==> final(account).data@ == old(account).data@,
            final(account).lamports == old(account).lamports,
            final(account).owner == old(account).owner,
    {
        match self.serialize(&mut account.data) {
            Ok(_) => Some(()),
            Err(_) => None,
        }
    }

    /// The credits recorded in an account's state, if its data parses.
    pub fn credits_from(account: &Account) -> (r: Option<u64>)
        ensures
            r is Some <==> parse_state(account.data@) is Some,
            r matches Some(c) ==> ({
                let ec = parse_state(account.data@).unwrap().0.epoch_credits;
                c == if ec.len() == 0 {
                    0u64
                } else {
                    ec.last().1
                }
            }),
    {
        match VoteState::from(account) {
            Some(s) => Some(s.credits()),
            None => None,
        }
    }
}

/// The newest voted slot of a parsed state.
pub open spec fn spec_model_last_voted(votes: Seq<Lockout>) -> Option<u64> {
    if votes.len() == 0 {
        None
    } else {
        Some(votes.last().slot)
    }
}

/// What submitting a vote does to a sound state: the signer guard, the
/// witness check, the tower transition, and the timestamp rule.
pub open spec fn spec_process_vote_logic(
    m: StateModel,
    slot_hashes: Seq<(u64, HashValue)>,
    clock: Clock,
    vote: &Vote,
    signers: Seq<Pubkey>,
) -> Result<StateModel, InstructionError> {
    if m.authorized_voter == Pubkey::spec_default() {
        Err(InstructionError::UninitializedAccount)
    } else if !signers.contains(m.authorized_voter) {
        Err(InstructionError::MissingRequiredSignature)
    } else if spec_model_credits(m.epoch_credits) + vote.slots@.len() > u64::MAX {
        Err(InstructionError::GenericError)
    } else if vote.slots@.len() == 0 {
        Err(InstructionError::CustomError(spec_vote_error_code(VoteError::EmptySlots)))
    } else {
        match spec_check_result(
            spec_model_last_voted(m.votes),
            vote.slots@,
            slot_hashes,
            vote.hash,
        ) {
            Err(e) => Err(InstructionError::CustomError(spec_vote_error_code(e))),
            Ok(u) => {
                let applied = spec_apply_slots(
                    m.votes,
                    m.root_slot,
                    m.epoch_credits,
                    vote.slots@,
                    clock.epoch,
                );
                let m1 = StateModel {
                    votes: applied.0,
                    root_slot: applied.1,
                    epoch_credits: applied.2,
                    ..m
                };
                match vote.timestamp {
                    None => Ok(m1),
                    Some(ts) => {
                        let maxs = seq_max(vote.slots@);
                        if spec_timestamp_rejected(
                            BlockTimestamp {
                                slot: m.last_timestamp_slot,
                                timestamp: m.last_timestamp,
                            },
                            maxs,
                            ts,
                        ) {
                            Err(
                                InstructionError::CustomError(
                                    spec_vote_error_code(VoteError::TimestampTooOld),
                                ),
                            )
                        } else {
                            Ok(
                                StateModel {
                                    last_timestamp_slot: maxs,
                                    last_timestamp: ts,
                                    ..m1
                                },
                            )
                        }
                    },
                }
            },
        }
    }
}

/// The credits of a parsed credit history.
pub open spec fn spec_model_credits(ec: Seq<crate::vote_state::EpochCredit>) -> u64 {
    if ec.len() == 0 {
        0
    } else {
        ec.last().1
    }
}

/// Submit a vote against the slot-hashes witness: verify the signer,
/// check the slots, apply them to the tower, and record the timestamp
/// riding along, if any.
pub fn process_vote(
    vote_account: &mut KeyedAccount,
    slot_hashes: &[(u64, HashValue)],
    clock: &Clock,
    vote: &Vote,
    signers: &Vec<Pubkey>,
) -> (r: Result<(), InstructionError>)
    ensures
        match spec_sound_state(old(vote_account).account.data@) {
            None => (r == Err::<(), InstructionError>(InstructionError::InvalidAccountData)
                && final(vote_account).account.data@ == old(vote_account).account.data@),
            Some(m) => match spec_update_outcome(
                old(vote_account).account.data@,
                spec_process_vote_logic(m, slot_hashes@, *clock, vote, signers@),
            ) {
                Err(e) => (r == Err::<(), InstructionError>(e) && final(vote_account).account.data@ == old(vote_account).account.data@),
                Ok(m2) => (r is Ok && final(vote_account).account.data@ == ser_model(m2) + old(vote_account).account.data@.skip(ser_model(m2).len() as int)),
            },
        },
        final(vote_account).account.lamports == old(vote_account).account.lamports,
{
    let st = vote_account.state();
    let mut vote_state = match st {
        Ok(v) => v,
        Err(_) => {
            return Err(InstructionError::InvalidAccountData);
        },
    };
    if !vote_state.check_well_formed() {
        return Err(InstructionError::InvalidAccountData);
    }
    if vote_state.authorized_voter == Pubkey::default_key() {
        return Err(InstructionError::UninitializedAccount);
    }
    match verify_authorized_signer(&vote_state.authorized_voter, signers) {
        Err(e) => {
            return Err(e);
        },
        Ok(_) => {},
    }
    let credits_now = vote_state.credits();
    if vote.slots.len() as u64 > u64::MAX - credits_now {
        return Err(InstructionError::GenericError);
    }
    match vote_state.process_vote(vote, slot_hashes, clock.epoch) {
        Err(e) => {
            if vote.slots.len() == 0 {
                return Err(InstructionError::from(VoteError::EmptySlots));
            }
            return Err(InstructionError::from(e));
        },
        Ok(_) => {},
    }
    match vote.timestamp {
        Some(ts) => {
            // A successful vote leaves the largest submitted slot as the
            // newest entry of the stack.
            let nv = vote_state.votes.len();
            let max_slot = vote_state.votes[nv - 1].slot;
            match vote_state.process_timestamp(max_slot, ts) {
                Err(e2) => {
                    return Err(InstructionError::from(e2));
                },
                Ok(_) => {},
            }
        },
        None => {},
    }
    let n = vote_account.account.data.len();
    let enc = vote_state.serialize_to_vec();
    if enc.len() > n {
        return Err(InstructionError::AccountDataTooSmall);
    }
    let r = vote_account.set_state(&vote_state);
    proof {
        assert(r is Ok);
    }
    Ok(())
}

/// One instruction of a slash transaction, in decoded form: its target
/// program, the first account it names, and the vote it carries if it is
/// a vote instruction.
#[derive(PartialEq, Eq, Clone, Debug)]
pub struct SlashInstruction {
    pub program_id: Pubkey,
    pub first_key: Option<Pubkey>,
    pub vote: Option<Vote>,
}

/// A transaction submitted as slashing evidence, with its reference and
/// signature checks already performed by the runtime.
#[derive(PartialEq, Eq, Clone, Debug)]
pub struct SlashTransaction {
    /// Whether the transaction's account references verify.
    pub refs_ok: bool,
    /// Whether the transaction's signatures verify.
    pub sig_ok: bool,
    /// The keys the transaction names; the first `num_signatures` signed.
    pub account_keys: Vec<Pubkey>,
    pub num_signatures: usize,
    pub instructions: Vec<SlashInstruction>,
}

/// Whether an instruction accuses this vote account.
pub open spec fn spec_ix_applies(ix: SlashInstruction, program_id: Pubkey, key: Pubkey) -> bool {
    ix.program_id == program_id && ix.vote is Some && ix.first_key == Some(key)
}

/// Whether any slot of the sequence triggers slashing against the tower.
pub open spec fn spec_slots_trigger(
    tower: Seq<Lockout>,
    root: Option<u64>,
    history: &SlotHistory,
    slots: Seq<u64>,
) -> bool
    decreases slots.len(),
{
    if slots.len() == 0 {
        false
    } else {
        (history.spec_check(slots[0]) == SlotCheck::NotFound && spec_slashable_slots_core(
            tower,
            root,
            seq![slots[0]],
        ).len() > 0) || spec_slots_trigger(tower, root, history, slots.drop_first())
    }
}

/// Whether any applicable instruction of the batch triggers slashing.
pub open spec fn spec_ixs_trigger(
    tower: Seq<Lockout>,
    root: Option<u64>,
    history: &SlotHistory,
    ixs: Seq<SlashInstruction>,
    program_id: Pubkey,
    key: Pubkey,
) -> bool
    decreases ixs.len(),
{
    if ixs.len() == 0 {
        false
    } else {
        (spec_ix_applies(ixs[0], program_id, key) && spec_slots_trigger(
            tower,
            root,
            history,
            ixs[0].vote.unwrap().slots@,
        )) || spec_ixs_trigger(tower, root, history, ixs.drop_first(), program_id, key)
    }
}

/// The signers of a slash transaction: the first `num_signatures` keys.
pub open spec fn spec_tx_signers(tx: &SlashTransaction) -> Seq<Pubkey> {
    tx.account_keys@.take(
        if tx.num_signatures <= tx.account_keys@.len() {
            tx.num_signatures as int
        } else {
            tx.account_keys@.len() as int
        },
    )
}

/// What slashing evidence does to a sound state: if the transaction
/// verifies, was not signed by this account's own voters, and carries a
/// vote for a slot off this fork that this tower would not have produced,
/// the slashing flag latches.
pub open spec fn spec_slash_logic(
    m: StateModel,
    history: &SlotHistory,
    program_id: Pubkey,
    tx: &SlashTransaction,
    key: Pubkey,
) -> Result<StateModel, InstructionError> {
    if !tx.refs_ok || !tx.sig_ok {
        Err(InstructionError::CustomError(spec_vote_error_code(VoteError::InvalidSlashTransaction)))
    } else {
        let own_signer = spec_tx_signers(tx).contains(m.authorized_voter) || (exists|i: int|
            0 <= i < m.prior_voters.len() && (#[trigger] m.prior_voters[i]).0
                != Pubkey::spec_default() && spec_tx_signers(tx).contains(m.prior_voters[i].0));
        let flag = m.has_been_slashed || (!own_signer && spec_ixs_trigger(
            m.votes,
            m.root_slot,
            history,
            tx.instructions@,
            program_id,
            key,
        ));
        Ok(StateModel { has_been_slashed: flag, ..m })
    }
}

/// Process slashing evidence against this vote account.
pub fn slash_state(
    vote_account: &mut KeyedAccount,
    slot_history: &SlotHistory,
    program_id: &Pubkey,
    tx: &SlashTransaction,
) -> (r: Result<(), InstructionError>)
    ensures
        match spec_sound_state(old(vote_account).account.data@) {
            None => (r == Err::<(), InstructionError>(InstructionError::InvalidAccountData)
                && final(vote_account).account.data@ == old(vote_account).account.data@),
            Some(m) => match spec_update_outcome(
                old(vote_account).account.data@,
                spec_slash_logic(m, slot_history, *program_id, tx, old(vote_account).key),
            ) {
                Err(e) => (r == Err::<(), InstructionError>(e) && final(vote_account).account.data@ == old(vote_account).account.data@),
                Ok(m2) => (r is Ok && final(vote_account).account.data@ == ser_model(m2) + old(vote_account).account.data@.skip(ser_model(m2).len() as int)),
            },
        },
        final(vote_account).account.lamports == old(vote_account).account.lamports,
{
    let st = vote_account.state();
    let mut vote_state = match st {
        Ok(v) => v,
        Err(_) => {
            return Err(InstructionError::InvalidAccountData);
        },
    };
    if !vote_state.check_well_formed() {
        return Err(InstructionError::InvalidAccountData);
    }
    if !tx.refs_ok {
        return Err(InstructionError::from(VoteError::InvalidSlashTransaction));
    }
    if !tx.sig_ok {
        return Err(InstructionError::from(VoteError::InvalidSlashTransaction));
    }
    // The transaction's signers: the first `num_signatures` keys.
    let take = if tx.num_signatures <= tx.account_keys.len() {
        tx.num_signatures
    } else {
        tx.account_keys.len()
    };
    let mut signers: Vec<Pubkey> = Vec::new();
    let mut k: usize = 0;
    while k < take
        invariant
            k <= take,
            take <= tx.account_keys@.len(),
            signers@ == tx.account_keys@.take(take as int).take(k as int),
        decreases take - k,
    {
        signers.push(tx.account_keys[k]);
        proof {
            assert(signers@ =~= tx.account_keys@.take(take as int).take(k as int + 1));
        }
        k = k + 1;
    }
    proof {
        assert(tx.account_keys@.take(take as int).take(take as int) =~= tx.account_keys@.take(
            take as int,
        ));
        assert(signers@ == spec_tx_signers(tx));
    }
    let own_signer = vote_state.previous_signer(&signers);
    let ghost st0 = vote_state;
    let ghost vs0 = vote_state.votes@;
    let ghost root0 = vote_state.root_slot;
    let ghost flag0 = vote_state.has_been_slashed;
    let ni = tx.instructions.len();
    let mut i: usize = 0;
    while i < ni
        invariant
            i <= ni,
            ni == tx.instructions@.len(),
            vote_state.wf(),
            vote_state.votes@ == vs0,
            vote_state.root_slot == root0,
            *vote_account == *old(vote_account),
            vote_state == (VoteState { has_been_slashed: vote_state.has_been_slashed, ..st0 }),
            own_signer == (spec_tx_signers(tx).contains(vote_state.authorized_voter) || (
            exists|q: int|
                0 <= q < vote_state.prior_voters.buf@.len() && (
                #[trigger] vote_state.prior_voters.buf@[q]).0 != Pubkey::spec_default()
                    && spec_tx_signers(tx).contains(vote_state.prior_voters.buf@[q].0))),
            vote_state.has_been_slashed == (flag0 || (!own_signer && spec_ixs_trigger(
                vs0,
                root0,
                slot_history,
                tx.instructions@.take(i as int),
                *program_id,
                old(vote_account).key,
            ))),
        decreases ni - i,
    {
        let ix = &tx.instructions[i];
        if ix.program_id == *program_id {
            match &ix.vote {
                Some(v) => {
                    let applies = match &ix.first_key {
                        Some(fk) => *fk == vote_account.key,
                        None => false,
                    };
                    if applies && !own_signer {
                        let ns = v.slots.len();
                        let ghost pre_flag = vote_state.has_been_slashed;
                        let mut t: usize = 0;
                        while t < ns
                            invariant
                                t <= ns,
                                ns == v.slots@.len(),
                                vote_state.wf(),
                                vote_state.votes@ == vs0,
                                vote_state.root_slot == root0,
                                *vote_account == *old(vote_account),
                                vote_state == (VoteState {
                                    has_been_slashed: vote_state.has_been_slashed,
                                    ..st0
                                }),
                                vote_state.has_been_slashed == (pre_flag || spec_slots_trigger(
                                    vs0,
                                    root0,
                                    slot_history,
                                    v.slots@.take(t as int),
                                )),
                            decreases ns - t,
                        {
                            proof {
                                lemma_slots_trigger_step(
                                    vs0,
                                    root0,
                                    slot_history,
                                    v.slots@,
                                    t as int,
                                );
                            }
                            vote_state.slash(slot_history, v.slots[t]);
                            t = t + 1;
                        }
                        proof {
                            assert(v.slots@.take(ns as int) =~= v.slots@);
                        }
                    }
                },
                None => {},
            }
        }
        proof {
            assert(tx.instructions@.take(i as int + 1).drop_last() =~= tx.instructions@.take(
                i as int,
            ));
            assert(tx.instructions@.take(i as int + 1).last() == tx.instructions@[i as int]);
            lemma_ixs_trigger_take(
                vs0,
                root0,
                slot_history,
                tx.instructions@,
                *program_id,
                old(vote_account).key,
                i as int,
            );
        }
        i = i + 1;
    }
    proof {
        assert(tx.instructions@.take(ni as int) =~= tx.instructions@);
    }
    let n = vote_account.account.data.len();
    let enc = vote_state.serialize_to_vec();
    if enc.len() > n {
        return Err(InstructionError::AccountDataTooSmall);
    }
    let r = vote_account.set_state(&vote_state);
    proof {
        assert(r is Ok);
    }
    Ok(())
}

/// One step of the per-slot trigger fold.
proof fn lemma_slots_trigger_step(
    tower: Seq<Lockout>,
    root: Option<u64>,
    history: &SlotHistory,
    slots: Seq<u64>,
    t: int,
)
    requires
        0 <= t < slots.len(),
    ensures
        spec_slots_trigger(tower, root, history, slots.take(t + 1)) == (spec_slots_trigger(
            tower,
            root,
            history,
            slots.take(t),
        ) || (history.spec_check(slots[t]) == SlotCheck::NotFound && spec_slashable_slots_core(
            tower,
            root,
            seq![slots[t]],
        ).len() > 0)),
    decreases t,
{
    if t == 0 {
        assert(slots.take(1)[0] == slots[0]);
        assert(slots.take(1).drop_first() =~= Seq::<u64>::empty());
        assert(slots.take(0) =~= Seq::<u64>::empty());
    } else {
        assert(slots.take(t + 1)[0] == slots[0]);
        assert(slots.take(t + 1).drop_first() =~= slots.drop_first().take(t));
        assert(slots.take(t)[0] == slots[0]);
        assert(slots.take(t).drop_first() =~= slots.drop_first().take(t - 1));
        assert(slots.drop_first()[t - 1] == slots[t]);
        lemma_slots_trigger_step(tower, root, history, slots.drop_first(), t - 1);
    }
}

/// One step of the per-instruction trigger fold.
proof fn lemma_ixs_trigger_take(
    tower: Seq<Lockout>,
    root: Option<u64>,
    history: &SlotHistory,
    ixs: Seq<SlashInstruction>,
    program_id: Pubkey,
    key: Pubkey,
    i: int,
)
    requires
        0 <= i < ixs.len(),
    ensures
        spec_ixs_trigger(tower, root, history, ixs.take(i + 1), program_id, key) == (
        spec_ixs_trigger(tower, root, history, ixs.take(i), program_id, key) || (
        spec_ix_applies(ixs[i], program_id, key) && spec_slots_trigger(
            tower,
            root,
            history,
            ixs[i].vote.unwrap().slots@,
        ))),
    decreases i,
{
    if i == 0 {
        assert(ixs.take(1)[0] == ixs[0]);
        assert(ixs.take(1).drop_first() =~= Seq::<SlashInstruction>::empty());
        assert(ixs.take(0) =~= Seq::<SlashInstruction>::empty());
    } else {
        assert(ixs.take(i + 1)[0] == ixs[0]);
        assert(ixs.take(i + 1).drop_first() =~= ixs.drop_first().take(i));
        assert(ixs.take(i)[0] == ixs[0]);
        assert(ixs.take(i).drop_first() =~= ixs.drop_first().take(i - 1));
        assert(ixs.drop_first()[i - 1] == ixs[i]);
        lemma_ixs_trigger_take(tower, root, history, ixs.drop_first(), program_id, key, i - 1);
    }
}


} // verus!
