use validator_core::accounts::authorize;
use validator_core::accounts::create_account;
use validator_core::accounts::initialize_account;
use validator_core::accounts::process_vote;
use validator_core::accounts::update_node;
use validator_core::accounts::withdraw;
use validator_core::accounts::Account;
use validator_core::accounts::KeyedAccount;
use validator_core::errors::vote_error_code;
use validator_core::errors::InstructionError;
use validator_core::errors::VoteError;
use validator_core::keys::HashValue;
use validator_core::keys::Pubkey;
use validator_core::lockout::Lockout;
use validator_core::lockout::INITIAL_LOCKOUT;
use validator_core::lockout::MAX_EPOCH_CREDITS_HISTORY;
use validator_core::lockout::MAX_LOCKOUT_HISTORY;
use validator_core::vote_state::Clock;
use validator_core::vote_state::Vote;
use validator_core::vote_state::VoteAuthorize;
use validator_core::vote_state::VoteInit;
use validator_core::vote_state::VoteState;

const MAX_RECENT_VOTES: usize = 16;

fn pk(n: u64) -> Pubkey {
    Pubkey::new(n, n.wrapping_mul(7), n ^ 0xabcd, n + 1)
}

fn custom(e: VoteError) -> InstructionError {
    InstructionError::CustomError(vote_error_code(e))
}

fn new_for_test(auth_pubkey: &Pubkey) -> VoteState {
    VoteState::new(
        &VoteInit {
            node_pubkey: pk(990001),
            authorized_voter: *auth_pubkey,
            authorized_withdrawer: *auth_pubkey,
            commission: 0,
        },
        &Clock::default(),
    )
}

fn create_test_account() -> (Pubkey, KeyedAccount) {
    let vote_pubkey = pk(77);
    let account = create_account(&vote_pubkey, &pk(78), 0, 100);
    (
        vote_pubkey,
        KeyedAccount {
            key: vote_pubkey,
            is_signer: true,
            account,
        },
    )
}

fn signers_of(keyed: &KeyedAccount) -> Vec<Pubkey> {
    if keyed.is_signer {
        vec![keyed.key]
    } else {
        vec![]
    }
}

fn simulate_process_vote(
    keyed: &mut KeyedAccount,
    vote: &Vote,
    slot_hashes: &[(u64, HashValue)],
    epoch: u64,
) -> Result<VoteState, InstructionError> {
    let signers = signers_of(keyed);
    process_vote(
        keyed,
        slot_hashes,
        &Clock {
            epoch,
            ..Clock::default()
        },
        &vote.clone(),
        &signers,
    )?;
    keyed.state()
}

fn simulate_process_vote_unchecked(
    keyed: &mut KeyedAccount,
    vote: &Vote,
) -> Result<VoteState, InstructionError> {
    let hashes = vec![(*vote.slots.last().unwrap(), vote.hash)];
    simulate_process_vote(keyed, vote, &hashes, 0)
}

#[test]
fn test_initialize_vote_account() {
    let vote_account_pubkey = pk(11);
    let account = Account::new(100, VoteState::size_of(), &pk(12));
    let node_pubkey = pk(13);

    let mut keyed = KeyedAccount {
        key: vote_account_pubkey,
        is_signer: false,
        account,
    };
    // The blank account data does not parse, so initialize it by writing a
    // default state first, as account creation does.
    let res = keyed.set_state(&VoteState::default());
    assert_eq!(res, Ok(()));

    let res = initialize_account(
        &mut keyed,
        &VoteInit {
            node_pubkey,
            authorized_voter: vote_account_pubkey,
            authorized_withdrawer: vote_account_pubkey,
            commission: 0,
        },
        &Clock::default(),
    );
    assert_eq!(res, Ok(()));

    // Reinitialization must fail.
    let res = initialize_account(
        &mut keyed,
        &VoteInit {
            node_pubkey,
            authorized_voter: vote_account_pubkey,
            authorized_withdrawer: vote_account_pubkey,
            commission: 0,
        },
        &Clock::default(),
    );
    assert_eq!(res, Err(InstructionError::AccountAlreadyInitialized));
}

#[test]
fn test_vote_serialize() {
    let mut buffer: Vec<u8> = vec![0; VoteState::size_of()];
    let mut vote_state = VoteState::default();
    while vote_state.votes.len() < MAX_LOCKOUT_HISTORY {
        vote_state.votes.push(Lockout {
            slot: 0,
            confirmation_count: 0,
        });
    }
    let mut small = vec![0u8; 4];
    assert!(vote_state.serialize(&mut small).is_err());
    vote_state.serialize(&mut buffer).unwrap();
    assert_eq!(VoteState::deserialize(&buffer).unwrap(), vote_state);
}

#[test]
fn test_voter_registration() {
    let (vote_pubkey, keyed) = create_test_account();
    let vote_state = keyed.state().unwrap();
    assert_eq!(vote_state.authorized_voter, vote_pubkey);
    assert!(vote_state.votes.is_empty());
}

#[test]
fn test_vote() {
    let (_vote_pubkey, mut keyed) = create_test_account();
    let vote = Vote::new(vec![1], HashValue::default_hash());
    let vote_state = simulate_process_vote_unchecked(&mut keyed, &vote).unwrap();
    assert_eq!(vote_state.votes, vec![Lockout::new(*vote.slots.last().unwrap())]);
    assert_eq!(vote_state.credits(), 0);
}

#[test]
fn test_vote_slot_hashes() {
    let (_vote_pubkey, mut keyed) = create_test_account();

    let hash = HashValue::new(1, 2, 3, 4);
    let vote = Vote::new(vec![0], hash);

    // Wrong hash.
    assert_eq!(
        simulate_process_vote(&mut keyed, &vote, &[(0, HashValue::default_hash())], 0),
        Err(custom(VoteError::SlotHashMismatch))
    );

    // Wrong slot.
    assert_eq!(
        simulate_process_vote(&mut keyed, &vote, &[(1, hash)], 0),
        Err(custom(VoteError::SlotsMismatch))
    );

    // Empty slot hashes.
    assert_eq!(
        simulate_process_vote(&mut keyed, &vote, &[], 0),
        Err(custom(VoteError::VoteTooOld))
    );
}

#[test]
fn test_vote_update_node_id() {
    let (vote_pubkey, mut keyed) = create_test_account();
    let node_pubkey = pk(31);

    keyed.is_signer = false;
    let signers = signers_of(&keyed);
    let res = update_node(&mut keyed, &node_pubkey, &signers);
    assert_eq!(res, Err(InstructionError::MissingRequiredSignature));
    let vote_state = keyed.state().unwrap();
    assert!(vote_state.node_pubkey != node_pubkey);

    keyed.is_signer = true;
    let signers = signers_of(&keyed);
    let res = update_node(&mut keyed, &node_pubkey, &signers);
    assert_eq!(res, Ok(()));
    let vote_state = keyed.state().unwrap();
    assert_eq!(vote_state.node_pubkey, node_pubkey);
    let _ = vote_pubkey;
}

#[test]
fn test_vote_signature() {
    let (vote_pubkey, mut keyed) = create_test_account();
    let vote = Vote::new(vec![1], HashValue::default_hash());

    // Unsigned.
    keyed.is_signer = false;
    let signers = signers_of(&keyed);
    let res = process_vote(
        &mut keyed,
        &[(*vote.slots.last().unwrap(), vote.hash)],
        &Clock::default(),
        &vote,
        &signers,
    );
    assert_eq!(res, Err(InstructionError::MissingRequiredSignature));

    // Signed.
    keyed.is_signer = true;
    let signers = signers_of(&keyed);
    let res = process_vote(
        &mut keyed,
        &[(*vote.slots.last().unwrap(), vote.hash)],
        &Clock::default(),
        &vote,
        &signers,
    );
    assert_eq!(res, Ok(()));

    // Another voter, unsigned.
    keyed.is_signer = false;
    let signers = signers_of(&keyed);
    let authorized_voter_pubkey = pk(41);
    let res = authorize(
        &mut keyed,
        &authorized_voter_pubkey,
        VoteAuthorize::Voter,
        &signers,
        &Clock {
            epoch: 1,
            ..Clock::default()
        },
    );
    assert_eq!(res, Err(InstructionError::MissingRequiredSignature));

    // Same epoch as initialization: too soon.
    keyed.is_signer = true;
    let signers = signers_of(&keyed);
    let res = authorize(
        &mut keyed,
        &authorized_voter_pubkey,
        VoteAuthorize::Voter,
        &signers,
        &Clock::default(),
    );
    assert_eq!(res, Err(custom(VoteError::TooSoonToReauthorize)));

    let res = authorize(
        &mut keyed,
        &authorized_voter_pubkey,
        VoteAuthorize::Voter,
        &signers,
        &Clock {
            epoch: 1,
            ..Clock::default()
        },
    );
    assert_eq!(res, Ok(()));

    // The new voter can re-authorize itself.
    let signers = vec![authorized_voter_pubkey];
    let res = authorize(
        &mut keyed,
        &authorized_voter_pubkey,
        VoteAuthorize::Voter,
        &signers,
        &Clock::default(),
    );
    assert_eq!(res, Ok(()));

    // Authorize a withdrawer.
    let signers = vec![vote_pubkey];
    let authorized_withdrawer_pubkey = pk(42);
    let res = authorize(
        &mut keyed,
        &authorized_withdrawer_pubkey,
        VoteAuthorize::Withdrawer,
        &signers,
        &Clock::default(),
    );
    assert_eq!(res, Ok(()));

    // The withdrawer can re-authorize itself.
    let signers = vec![authorized_withdrawer_pubkey];
    let res = authorize(
        &mut keyed,
        &authorized_withdrawer_pubkey,
        VoteAuthorize::Withdrawer,
        &signers,
        &Clock::default(),
    );
    assert_eq!(res, Ok(()));

    // Not signed by the authorized voter.
    let signers = vec![vote_pubkey];
    let vote = Vote::new(vec![2], HashValue::default_hash());
    let res = process_vote(
        &mut keyed,
        &[(*vote.slots.last().unwrap(), vote.hash)],
        &Clock::default(),
        &vote,
        &signers,
    );
    assert_eq!(res, Err(InstructionError::MissingRequiredSignature));

    // Signed by the authorized voter.
    let signers = vec![authorized_voter_pubkey];
    let vote = Vote::new(vec![2], HashValue::default_hash());
    let res = process_vote(
        &mut keyed,
        &[(*vote.slots.last().unwrap(), vote.hash)],
        &Clock::default(),
        &vote,
        &signers,
    );
    assert_eq!(res, Ok(()));
}

#[test]
fn test_vote_without_initialization() {
    let vote_pubkey = pk(51);
    let mut keyed = KeyedAccount {
        key: vote_pubkey,
        is_signer: true,
        account: Account::new(100, VoteState::size_of(), &pk(52)),
    };
    keyed.set_state(&VoteState::default()).unwrap();
    let res =
        simulate_process_vote_unchecked(&mut keyed, &Vote::new(vec![1], HashValue::default_hash()));
    assert_eq!(res, Err(InstructionError::UninitializedAccount));
}

#[test]
fn test_vote_lockout() {
    let (_vote_pubkey, keyed) = create_test_account();
    let mut vote_state = keyed.state().unwrap();

    for i in 0..(MAX_LOCKOUT_HISTORY + 1) {
        vote_state.process_slot_vote_unchecked((INITIAL_LOCKOUT * i) as u64);
    }

    // The oldest vote fell off the bottom and became the root.
    assert_eq!(vote_state.votes.len(), MAX_LOCKOUT_HISTORY);
    assert_eq!(vote_state.root_slot, Some(0));
    check_lockouts(&vote_state);

    // One more vote that confirms the entire stack: the root moves to the
    // next oldest vote.
    let top_vote = vote_state.votes[0].slot;
    let expire = vote_state.votes.last().unwrap().expiration_slot();
    vote_state.process_slot_vote_unchecked(expire);
    assert_eq!(Some(top_vote), vote_state.root_slot);

    // Expire everything except the first vote.
    let expire_all = vote_state.votes[0].expiration_slot();
    vote_state.process_slot_vote_unchecked(expire_all);
    assert_eq!(vote_state.votes.len(), 2);
}

#[test]
fn test_vote_double_lockout_after_expiration() {
    let voter_pubkey = pk(61);
    let mut vote_state = new_for_test(&voter_pubkey);

    for i in 0..3 {
        vote_state.process_slot_vote_unchecked(i as u64);
    }

    check_lockouts(&vote_state);

    // Expire the third vote (which was a vote for slot 2); the stack
    // height is unchanged, so no lockout doubles.
    vote_state.process_slot_vote_unchecked((2 + INITIAL_LOCKOUT + 1) as u64);
    check_lockouts(&vote_state);

    // Vote again: the stack deepens, so the votes double.
    vote_state.process_slot_vote_unchecked((2 + INITIAL_LOCKOUT + 2) as u64);
    check_lockouts(&vote_state);

    vote_state.process_slot_vote_unchecked((2 + INITIAL_LOCKOUT + 3) as u64);
    check_lockouts(&vote_state);
}

#[test]
fn test_expire_multiple_votes() {
    let voter_pubkey = pk(62);
    let mut vote_state = new_for_test(&voter_pubkey);

    for i in 0..3 {
        vote_state.process_slot_vote_unchecked(i as u64);
    }

    assert_eq!(vote_state.votes[0].confirmation_count, 3);

    // Expire the second and third votes.
    let expire_slot = vote_state.votes[1].slot + vote_state.votes[1].lockout() + 1;
    vote_state.process_slot_vote_unchecked(expire_slot);
    assert_eq!(vote_state.votes.len(), 2);

    // The old votes expired.
    assert_eq!(vote_state.votes[0].slot, 0);
    assert_eq!(vote_state.votes[1].slot, expire_slot);

    // Process one more vote.
    vote_state.process_slot_vote_unchecked(expire_slot + 1);

    // The confirmation count of the older first vote stands.
    assert_eq!(vote_state.votes[0].confirmation_count, 3);

    // Later votes still carry increasing confirmation counts.
    assert_eq!(vote_state.votes[1].confirmation_count, 2);
    assert_eq!(vote_state.votes[2].confirmation_count, 1);
}

#[test]
fn test_vote_credits() {
    let voter_pubkey = pk(63);
    let mut vote_state = new_for_test(&voter_pubkey);

    for i in 0..MAX_LOCKOUT_HISTORY {
        vote_state.process_slot_vote_unchecked(i as u64);
    }

    assert_eq!(vote_state.credits(), 0);

    vote_state.process_slot_vote_unchecked(MAX_LOCKOUT_HISTORY as u64 + 1);
    assert_eq!(vote_state.credits(), 1);
    vote_state.process_slot_vote_unchecked(MAX_LOCKOUT_HISTORY as u64 + 2);
    assert_eq!(vote_state.credits(), 2);
    vote_state.process_slot_vote_unchecked(MAX_LOCKOUT_HISTORY as u64 + 3);
    assert_eq!(vote_state.credits(), 3);
}

#[test]
fn test_duplicate_vote() {
    let voter_pubkey = pk(64);
    let mut vote_state = new_for_test(&voter_pubkey);
    vote_state.process_slot_vote_unchecked(0);
    vote_state.process_slot_vote_unchecked(1);
    vote_state.process_slot_vote_unchecked(0);
    assert_eq!(vote_state.nth_recent_vote(0).unwrap().slot, 1);
    assert_eq!(vote_state.nth_recent_vote(1).unwrap().slot, 0);
    assert!(vote_state.nth_recent_vote(2).is_none());
}

#[test]
fn test_nth_recent_vote() {
    let voter_pubkey = pk(65);
    let mut vote_state = new_for_test(&voter_pubkey);
    for i in 0..MAX_LOCKOUT_HISTORY {
        vote_state.process_slot_vote_unchecked(i as u64);
    }
    for i in 0..(MAX_LOCKOUT_HISTORY - 1) {
        assert_eq!(
            vote_state.nth_recent_vote(i).unwrap().slot as usize,
            MAX_LOCKOUT_HISTORY - i - 1,
        );
    }
    assert!(vote_state.nth_recent_vote(MAX_LOCKOUT_HISTORY).is_none());
}

fn check_lockouts(vote_state: &VoteState) {
    for (i, vote) in vote_state.votes.iter().enumerate() {
        let num_votes = vote_state.votes.len() - i;
        assert_eq!(vote.lockout(), (INITIAL_LOCKOUT as u64).pow(num_votes as u32));
    }
}

fn recent_votes(vote_state: &VoteState) -> Vec<Vote> {
    let start = vote_state.votes.len().saturating_sub(MAX_RECENT_VOTES);
    (start..vote_state.votes.len())
        .map(|i| Vote::new(vec![vote_state.votes[i].slot], HashValue::default_hash()))
        .collect()
}

#[test]
fn test_process_missed_votes() {
    let account_a = pk(66);
    let mut vote_state_a = new_for_test(&account_a);
    let account_b = pk(67);
    let mut vote_state_b = new_for_test(&account_b);

    // Process some votes on account a.
    for i in 0..5 {
        vote_state_a.process_slot_vote_unchecked(i as u64);
    }
    assert_ne!(recent_votes(&vote_state_a), recent_votes(&vote_state_b));

    // As long as b has missed fewer than the recent window, one submission
    // brings both accounts to the same state.
    let slots = (0u64..MAX_RECENT_VOTES as u64).collect();
    let vote = Vote::new(slots, HashValue::default_hash());
    let slot_hashes: Vec<_> = vote.slots.iter().rev().map(|x| (*x, vote.hash)).collect();

    assert_eq!(vote_state_a.process_vote(&vote, &slot_hashes, 0), Ok(()));
    assert_eq!(vote_state_b.process_vote(&vote, &slot_hashes, 0), Ok(()));
    assert_eq!(recent_votes(&vote_state_a), recent_votes(&vote_state_b));
}

#[test]
fn test_process_vote_skips_old_vote() {
    let mut vote_state = VoteState::default();

    let vote = Vote::new(vec![0], HashValue::default_hash());
    let slot_hashes: Vec<_> = vec![(0, vote.hash)];
    assert_eq!(vote_state.process_vote(&vote, &slot_hashes, 0), Ok(()));
    let recent = recent_votes(&vote_state);
    assert_eq!(
        vote_state.process_vote(&vote, &slot_hashes, 0),
        Err(VoteError::VoteTooOld)
    );
    assert_eq!(recent, recent_votes(&vote_state));
}

#[test]
fn test_check_slots_are_valid_vote_empty_slot_hashes() {
    let vote_state = VoteState::default();
    let vote = Vote::new(vec![0], HashValue::default_hash());
    assert_eq!(
        vote_state.check_slots_are_valid(&vote, &[]),
        Err(VoteError::VoteTooOld)
    );
}

#[test]
fn test_check_slots_are_valid_new_vote() {
    let vote_state = VoteState::default();
    let vote = Vote::new(vec![0], HashValue::default_hash());
    let slot_hashes: Vec<_> = vec![(*vote.slots.last().unwrap(), vote.hash)];
    assert_eq!(vote_state.check_slots_are_valid(&vote, &slot_hashes), Ok(()));
}

#[test]
fn test_check_slots_are_valid_bad_hash() {
    let vote_state = VoteState::default();
    let vote = Vote::new(vec![0], HashValue::default_hash());
    let slot_hashes: Vec<_> = vec![(*vote.slots.last().unwrap(), HashValue::new(9, 9, 9, 9))];
    assert_eq!(
        vote_state.check_slots_are_valid(&vote, &slot_hashes),
        Err(VoteError::SlotHashMismatch)
    );
}

#[test]
fn test_check_slots_are_valid_bad_slot() {
    let vote_state = VoteState::default();
    let vote = Vote::new(vec![1], HashValue::default_hash());
    let slot_hashes: Vec<_> = vec![(0, vote.hash)];
    assert_eq!(
        vote_state.check_slots_are_valid(&vote, &slot_hashes),
        Err(VoteError::SlotsMismatch)
    );
}

#[test]
fn test_check_slots_are_valid_duplicate_vote() {
    let mut vote_state = VoteState::default();
    let vote = Vote::new(vec![0], HashValue::default_hash());
    let slot_hashes: Vec<_> = vec![(*vote.slots.last().unwrap(), vote.hash)];
    assert_eq!(vote_state.process_vote(&vote, &slot_hashes, 0), Ok(()));
    assert_eq!(
        vote_state.check_slots_are_valid(&vote, &slot_hashes),
        Err(VoteError::VoteTooOld)
    );
}

#[test]
fn test_check_slots_are_valid_next_vote() {
    let mut vote_state = VoteState::default();

    let vote = Vote::new(vec![0], HashValue::default_hash());
    let slot_hashes: Vec<_> = vec![(*vote.slots.last().unwrap(), vote.hash)];
    assert_eq!(vote_state.process_vote(&vote, &slot_hashes, 0), Ok(()));

    let vote = Vote::new(vec![0, 1], HashValue::default_hash());
    let slot_hashes: Vec<_> = vec![(1, vote.hash), (0, vote.hash)];
    assert_eq!(vote_state.check_slots_are_valid(&vote, &slot_hashes), Ok(()));
}

#[test]
fn test_check_slots_are_valid_next_vote_only() {
    let mut vote_state = VoteState::default();

    let vote = Vote::new(vec![0], HashValue::default_hash());
    let slot_hashes: Vec<_> = vec![(*vote.slots.last().unwrap(), vote.hash)];
    assert_eq!(vote_state.process_vote(&vote, &slot_hashes, 0), Ok(()));

    let vote = Vote::new(vec![1], HashValue::default_hash());
    let slot_hashes: Vec<_> = vec![(1, vote.hash), (0, vote.hash)];
    assert_eq!(vote_state.check_slots_are_valid(&vote, &slot_hashes), Ok(()));
}

#[test]
fn test_process_vote_empty_slots() {
    let mut vote_state = VoteState::default();
    let vote = Vote::new(vec![], HashValue::default_hash());
    assert_eq!(vote_state.process_vote(&vote, &[], 0), Err(VoteError::EmptySlots));
}

#[test]
fn test_vote_state_withdraw() {
    let (vote_pubkey, mut keyed) = create_test_account();

    // Unsigned request.
    keyed.is_signer = false;
    let signers = signers_of(&keyed);
    let mut to_keyed = KeyedAccount {
        key: pk(81),
        is_signer: false,
        account: Account::new(0, 0, &pk(82)),
    };
    let res = withdraw(&mut keyed, 0, &mut to_keyed, &signers);
    assert_eq!(res, Err(InstructionError::MissingRequiredSignature));

    // Insufficient funds.
    keyed.is_signer = true;
    let signers = signers_of(&keyed);
    let res = withdraw(&mut keyed, 101, &mut to_keyed, &signers);
    assert_eq!(res, Err(InstructionError::InsufficientFunds));

    // All good.
    let lamports = keyed.account.lamports;
    let res = withdraw(&mut keyed, lamports, &mut to_keyed, &signers);
    assert_eq!(res, Ok(()));
    assert_eq!(keyed.account.lamports, 0);
    assert_eq!(to_keyed.account.lamports, lamports);

    // Reset the balance and verify that an authorized withdrawer works.
    keyed.account.lamports = lamports;
    let authorized_withdrawer_pubkey = pk(83);
    let signers = vec![vote_pubkey];
    let res = authorize(
        &mut keyed,
        &authorized_withdrawer_pubkey,
        VoteAuthorize::Withdrawer,
        &signers,
        &Clock::default(),
    );
    assert_eq!(res, Ok(()));

    let mut withdrawer_keyed = KeyedAccount {
        key: authorized_withdrawer_pubkey,
        is_signer: true,
        account: Account::new(0, 0, &pk(84)),
    };
    let signers = vec![authorized_withdrawer_pubkey];
    let res = withdraw(&mut keyed, lamports, &mut withdrawer_keyed, &signers);
    assert_eq!(res, Ok(()));
    assert_eq!(keyed.account.lamports, 0);
    assert_eq!(withdrawer_keyed.account.lamports, lamports);
}

#[test]
fn test_vote_state_epoch_credits() {
    let mut vote_state = VoteState::default();

    assert_eq!(vote_state.credits(), 0);
    assert_eq!(vote_state.epoch_credits().clone(), vec![]);

    let mut expected = vec![];
    let mut credits = 0;
    let epochs = (MAX_EPOCH_CREDITS_HISTORY + 2) as u64;
    for epoch in 0..epochs {
        for _j in 0..epoch {
            vote_state.increment_credits(epoch);
            credits += 1;
        }
        expected.push((epoch, credits, credits - epoch));
    }

    while expected.len() > MAX_EPOCH_CREDITS_HISTORY {
        expected.remove(0);
    }

    assert_eq!(vote_state.credits(), credits);
    assert_eq!(vote_state.epoch_credits().clone(), expected);
}

#[test]
fn test_vote_state_epoch0_no_credits() {
    let mut vote_state = VoteState::default();

    assert_eq!(vote_state.epoch_credits().len(), 0);
    vote_state.increment_credits(1);
    assert_eq!(vote_state.epoch_credits().len(), 1);

    vote_state.increment_credits(2);
    assert_eq!(vote_state.epoch_credits().len(), 2);
}

#[test]
fn test_vote_state_increment_credits() {
    let mut vote_state = VoteState::default();

    let credits = (MAX_EPOCH_CREDITS_HISTORY + 2) as u64;
    for i in 0..credits {
        vote_state.increment_credits(i);
    }
    assert_eq!(vote_state.credits(), credits);
    assert!(vote_state.epoch_credits().len() <= MAX_EPOCH_CREDITS_HISTORY);
}

#[test]
fn test_vote_process_timestamp() {
    let (slot, timestamp) = (15u64, 1_575_412_285i64);
    let mut vote_state = VoteState::default();
    vote_state.last_timestamp = validator_core::vote_state::BlockTimestamp { slot, timestamp };

    assert_eq!(
        vote_state.process_timestamp(slot - 1, timestamp + 1),
        Err(VoteError::TimestampTooOld)
    );
    assert_eq!(
        vote_state.last_timestamp,
        validator_core::vote_state::BlockTimestamp { slot, timestamp }
    );
    assert_eq!(
        vote_state.process_timestamp(slot + 1, timestamp - 1),
        Err(VoteError::TimestampTooOld)
    );
    assert_eq!(
        vote_state.process_timestamp(slot + 1, timestamp),
        Err(VoteError::TimestampTooOld)
    );
    assert_eq!(
        vote_state.process_timestamp(slot, timestamp + 1),
        Err(VoteError::TimestampTooOld)
    );
    assert_eq!(vote_state.process_timestamp(slot, timestamp), Ok(()));
    assert_eq!(
        vote_state.last_timestamp,
        validator_core::vote_state::BlockTimestamp { slot, timestamp }
    );
    assert_eq!(vote_state.process_timestamp(slot + 1, timestamp + 1), Ok(()));
    assert_eq!(
        vote_state.last_timestamp,
        validator_core::vote_state::BlockTimestamp {
            slot: slot + 1,
            timestamp: timestamp + 1
        }
    );

    // The initial write is accepted.
    vote_state.last_timestamp = validator_core::vote_state::BlockTimestamp { slot: 0, timestamp: 0 };
    assert_eq!(vote_state.process_timestamp(0, timestamp), Ok(()));
}

#[test]
fn test_vote_state_older() {
    let s = VoteState::default();
    assert!(s.same_or_older(&s.slots()));

    let mut s1 = VoteState::default();
    s1.process_slot_vote_unchecked(1);
    assert!(s1.same_or_older(&s1.slots()));
    assert!(s.same_or_older(&s1.slots()));
    assert!(!s1.same_or_older(&s.slots()));

    let mut s2 = VoteState::default();
    s2.process_slot_vote_unchecked(1);
    s2.votes.clear();
    s2.root_slot = Some(1);
    assert!(s1.same_or_older(&s2.slots()));
    assert!(s2.same_or_older(&s1.slots()));

    let mut s3 = VoteState::default();
    s3.process_slot_vote_unchecked(2);
    s3.votes.clear();
    s3.root_slot = Some(2);
    assert!(!s3.same_or_older(&s2.slots()));
    assert!(s2.same_or_older(&s3.slots()));
    assert!(s1.same_or_older(&s3.slots()));
    assert!(s.same_or_older(&s3.slots()));
}

#[test]
fn test_slashable_slots() {
    let s1 = VoteState::default();
    let s2 = VoteState::default();
    assert!(s1.slashable_slots(&s2.slots()).is_empty());
    assert!(s2.slashable_slots(&s1.slots()).is_empty());
}

#[test]
fn test_slashable_slots_same_slots() {
    let mut s1 = VoteState::default();
    s1.process_slot_vote_unchecked(1);
    assert!(s1.slashable_slots(&[1].to_vec()).is_empty());
}

#[test]
fn process_vote_rejects_credit_overflow() {
    let (_vote_pubkey, mut keyed) = create_test_account();
    // A credit history already at the counter's ceiling cannot absorb
    // another vote.
    let mut state = keyed.state().unwrap();
    state.epoch_credits.push((0, u64::MAX, u64::MAX));
    keyed.set_state(&state).unwrap();
    let vote = Vote::new(vec![1], HashValue::default_hash());
    let signers = signers_of(&keyed);
    let res = process_vote(
        &mut keyed,
        &[(1, vote.hash)],
        &Clock::default(),
        &vote,
        &signers,
    );
    assert_eq!(res, Err(InstructionError::GenericError));
}

#[test]
fn repeat_vote_is_too_old() {
    // A vote for slots 0 and 1 against a fresh tower passes; the very same
    // vote resubmitted is rejected as too old.
    let mut vote_state = VoteState::default();
    let h = HashValue::new(4, 3, 2, 1);
    let vote = Vote::new(vec![0, 1], h);
    let slot_hashes = vec![(1, h), (0, h)];
    assert_eq!(vote_state.process_vote(&vote, &slot_hashes, 0), Ok(()));
    assert_eq!(vote_state.votes.len(), 2);
    assert_eq!(
        vote_state.process_vote(&vote, &slot_hashes, 0),
        Err(VoteError::VoteTooOld)
    );
}
