use validator_core::accounts::slash_state;
use validator_core::accounts::Account;
use validator_core::accounts::KeyedAccount;
use validator_core::accounts::SlashInstruction;
use validator_core::accounts::SlashTransaction;
use validator_core::errors::vote_error_code;
use validator_core::errors::InstructionError;
use validator_core::errors::VoteError;
use validator_core::fast_hasher::FastHasher;
use validator_core::keys::HashValue;
use validator_core::keys::Pubkey;
use validator_core::slashing::SlotCheck;
use validator_core::slashing::SlotHistory;
use validator_core::storage_program::StorageProgram;
use validator_core::vote_state::Vote;
use validator_core::vote_state::VoteState;

fn pk(n: u64) -> Pubkey {
    Pubkey::new(n, 0, 0, n)
}

#[test]
fn serialize_fresh_state_round_trips() {
    let state = VoteState::default();
    let bytes = state.serialize_to_vec();
    let back = VoteState::deserialize(&bytes).unwrap();
    assert_eq!(back, state);
}

#[test]
fn serialize_busy_state_round_trips() {
    let mut state = VoteState::default();
    for i in 0..40u64 {
        state.process_slot_vote_unchecked(i * 3);
    }
    state.process_timestamp(120, 99).unwrap();
    state.has_been_slashed = true;
    let bytes = state.serialize_to_vec();
    let back = VoteState::deserialize(&bytes).unwrap();
    assert_eq!(back, state);
}

#[test]
fn deserialize_rejects_garbage() {
    assert!(VoteState::deserialize(&[1, 2, 3]).is_err());
    assert_eq!(
        VoteState::deserialize(&[0u8; 10]),
        Err(InstructionError::InvalidAccountData)
    );
}

#[test]
fn account_state_round_trips() {
    let state = VoteState::default();
    let mut account = Account::new(5, VoteState::size_of(), &pk(1));
    assert_eq!(state.to(&mut account), Some(()));
    let back = VoteState::from(&account).unwrap();
    assert_eq!(back, state);
    assert_eq!(VoteState::credits_from(&account), Some(0));
}

#[test]
fn size_of_bounds_every_encoding() {
    // The busiest state the tower can reach still fits.
    let mut state = VoteState::default();
    for i in 0..2000u64 {
        state.process_slot_vote_unchecked(i);
    }
    assert!(state.serialize_to_vec().len() <= VoteState::size_of());
}

#[test]
fn fresh_tower_scenario_roots_first_slot() {
    // Thirty-one votes at even slots, then one more: the first slot
    // becomes the root and one credit is earned.
    let mut state = VoteState::default();
    for i in 0..31u64 {
        state.process_slot_vote_unchecked(i * 2);
    }
    assert_eq!(state.votes.len(), 31);
    assert_eq!(state.root_slot, None);
    assert_eq!(state.credits(), 0);
    state.process_slot_vote_unchecked(62);
    assert_eq!(state.votes.len(), 31);
    assert_eq!(state.root_slot, Some(0));
    assert_eq!(state.credits(), 1);
}

#[test]
fn fast_hasher_is_deterministic_per_seed() {
    let mut h = FastHasher::new();
    let input = [7u8; 32];
    h.write(&input);
    let first = h.finish();
    h.write(&input);
    assert_eq!(h.finish(), first);
    let other = [9u8; 32];
    h.write(&other);
    let _ = h.finish();
    h.write(&input);
    assert_eq!(h.finish(), first);
}

#[test]
fn fast_hasher_hashes_words_too() {
    let mut h = FastHasher::new();
    h.write(&[1, 2, 3, 4, 5, 6, 7, 8]);
    let a = h.finish();
    h.write(&[1, 2, 3, 4, 5, 6, 7, 8]);
    assert_eq!(h.finish(), a);
}

#[test]
fn storage_program_checks_its_id() {
    assert!(StorageProgram::check_id(&StorageProgram::id()));
    assert!(!StorageProgram::check_id(&pk(3)));
}

#[test]
fn storage_program_decodes_proofs() {
    let mut userdata = vec![0u8];
    userdata.extend_from_slice(&[5u8; 32]);
    let keys: Vec<Pubkey> = vec![];
    let mut accounts: Vec<Account> = vec![];
    let r = StorageProgram::process_transaction(&keys, &mut accounts, &userdata).unwrap();
    let StorageProgram::SubmitMiningProof { sha_state } = r;
    assert_eq!(sha_state, vec![5u8; 32]);

    assert!(StorageProgram::process_transaction(&keys, &mut accounts, &vec![1u8; 33]).is_err());
    assert!(StorageProgram::process_transaction(&keys, &mut accounts, &vec![0u8; 5]).is_err());
}

#[test]
fn storage_program_reads_balances() {
    let account = Account::new(17, 0, &pk(4));
    assert_eq!(StorageProgram::get_balance(&account), 17);
}

#[test]
fn slot_history_answers_all_cases() {
    let mut history = SlotHistory::new();
    history.add(5);
    history.add(7);
    assert_eq!(history.check(9), SlotCheck::Future);
    assert_eq!(history.check(5), SlotCheck::Found);
    assert_eq!(history.check(6), SlotCheck::NotFound);
    history.oldest = 3;
    assert_eq!(history.check(1), SlotCheck::TooOld);
}

#[test]
fn slash_latches_on_foreign_slot() {
    // The tower voted 10 and 12; the accusing vote is for 11, which is not
    // an ancestor: slashable.
    let mut state = VoteState::default();
    state.process_slot_vote_unchecked(10);
    state.process_slot_vote_unchecked(12);
    let mut history = SlotHistory::new();
    history.add(10);
    history.add(12);
    assert!(!state.has_been_slashed);
    state.slash(&history, 11);
    assert!(state.has_been_slashed);

    // The flag latches: an innocent slot does not reset it.
    state.slash(&history, 12);
    assert!(state.has_been_slashed);
}

#[test]
fn slash_ignores_ancestors() {
    let mut state = VoteState::default();
    state.process_slot_vote_unchecked(10);
    let mut history = SlotHistory::new();
    history.add(10);
    state.slash(&history, 10);
    assert!(!state.has_been_slashed);
}

#[test]
fn slash_state_rejects_unverified_transactions() {
    let vote_pubkey = pk(21);
    let account = validator_core::accounts::create_account(&vote_pubkey, &pk(22), 0, 100);
    let mut keyed = KeyedAccount {
        key: vote_pubkey,
        is_signer: false,
        account,
    };
    let history = SlotHistory::new();
    let program = validator_core::accounts::id();
    let tx = SlashTransaction {
        refs_ok: false,
        sig_ok: true,
        account_keys: vec![],
        num_signatures: 0,
        instructions: vec![],
    };
    assert_eq!(
        slash_state(&mut keyed, &history, &program, &tx),
        Err(InstructionError::CustomError(vote_error_code(
            VoteError::InvalidSlashTransaction
        )))
    );
}

#[test]
fn slash_state_latches_on_evidence() {
    let vote_pubkey = pk(31);
    let account = validator_core::accounts::create_account(&vote_pubkey, &pk(32), 0, 100);
    let mut keyed = KeyedAccount {
        key: vote_pubkey,
        is_signer: false,
        account,
    };
    // This account voted 10 and 12.
    let mut state = keyed.state().unwrap();
    state.process_slot_vote_unchecked(10);
    state.process_slot_vote_unchecked(12);
    keyed.set_state(&state).unwrap();

    let mut history = SlotHistory::new();
    history.add(10);
    history.add(12);
    let program = validator_core::accounts::id();
    // Evidence: a vote for slot 11, signed by a stranger.
    let tx = SlashTransaction {
        refs_ok: true,
        sig_ok: true,
        account_keys: vec![pk(33)],
        num_signatures: 1,
        instructions: vec![SlashInstruction {
            program_id: program,
            first_key: Some(vote_pubkey),
            vote: Some(Vote::new(vec![11], HashValue::default_hash())),
        }],
    };
    assert_eq!(slash_state(&mut keyed, &history, &program, &tx), Ok(()));
    let after = keyed.state().unwrap();
    assert!(after.has_been_slashed);
}

#[test]
fn slash_state_spares_own_signers() {
    let vote_pubkey = pk(41);
    let account = validator_core::accounts::create_account(&vote_pubkey, &pk(42), 0, 100);
    let mut keyed = KeyedAccount {
        key: vote_pubkey,
        is_signer: false,
        account,
    };
    let mut state = keyed.state().unwrap();
    state.process_slot_vote_unchecked(10);
    keyed.set_state(&state).unwrap();

    let history = SlotHistory::new();
    let program = validator_core::accounts::id();
    // The account's own authorized voter signed: no slashing.
    let tx = SlashTransaction {
        refs_ok: true,
        sig_ok: true,
        account_keys: vec![vote_pubkey],
        num_signatures: 1,
        instructions: vec![SlashInstruction {
            program_id: program,
            first_key: Some(vote_pubkey),
            vote: Some(Vote::new(vec![11], HashValue::default_hash())),
        }],
    };
    assert_eq!(slash_state(&mut keyed, &history, &program, &tx), Ok(()));
    let after = keyed.state().unwrap();
    assert!(!after.has_been_slashed);
}

#[test]
fn previous_signer_skips_empty_ring_entries() {
    let state = VoteState::default();
    // The default key sits in every empty ring slot; a signer set holding
    // only the default key matches the default authorized voter, while a
    // stranger matches nothing.
    assert!(!state.previous_signer(&vec![pk(51)]));
}
