//! The storage program: receives mining proofs from miners and rewards
//! good ones; here, the proof submission is decoded and acknowledged.

use crate::accounts::Account;
use crate::keys::Pubkey;
use vstd::prelude::*;

verus! {

/// The limb pattern of the storage program's fixed id: thirty-two bytes
/// of one.
pub const STORAGE_PROGRAM_ID_LIMB: u64 = 0x0101_0101_0101_0101;

/// A request to the storage program.
#[derive(PartialEq, Eq, Clone, Debug)]
pub enum StorageProgram {
    /// A mining proof: the hash state the miner arrived at.
    SubmitMiningProof { sha_state: Vec<u8> },
}

/// The decoded request: a one-byte selector followed by the 32-byte hash
/// state.
pub open spec fn spec_decode_storage(s: Seq<u8>) -> Option<Seq<u8>> {
    if s.len() == 33 && s[0] == 0u8 {
        Some(s.skip(1))
    } else {
        None
    }
}

impl StorageProgram {
    /// Whether a program key is the storage program's.
    pub fn check_id(program_id: &Pubkey) -> (r: bool)
        ensures
            r == (*program_id == StorageProgram::spec_id()),
    {
        program_id.w0 == STORAGE_PROGRAM_ID_LIMB && program_id.w1 == STORAGE_PROGRAM_ID_LIMB
            && program_id.w2 == STORAGE_PROGRAM_ID_LIMB && program_id.w3
            == STORAGE_PROGRAM_ID_LIMB
    }

    pub open spec fn spec_id() -> Pubkey {
        Pubkey {
            w0: STORAGE_PROGRAM_ID_LIMB,
            w1: STORAGE_PROGRAM_ID_LIMB,
            w2: STORAGE_PROGRAM_ID_LIMB,
            w3: STORAGE_PROGRAM_ID_LIMB,
        }
    }

    /// The storage program's key.
    pub fn id() -> (r: Pubkey)
        ensures
            r == StorageProgram::spec_id(),
    {
        Pubkey {
            w0: STORAGE_PROGRAM_ID_LIMB,
            w1: STORAGE_PROGRAM_ID_LIMB,
            w2: STORAGE_PROGRAM_ID_LIMB,
            w3: STORAGE_PROGRAM_ID_LIMB,
        }
    }

    /// The balance the storage program sees in an account.
    pub fn get_balance(account: &Account) -> (r: u64)
        ensures
            r == account.lamports,
    {
        account.lamports
    }

    /// Process a request: decode the proof and acknowledge it; malformed
    /// requests are rejected.
    pub fn process_transaction(
        _keys: &Vec<Pubkey>,
        accounts: &mut Vec<Account>,
        userdata: &Vec<u8>,
    ) -> (r: Result<StorageProgram, ()>)
        ensures
            final(accounts)@ == old(accounts)@,
            r is Ok <==> spec_decode_storage(userdata@) is Some,
            r matches Ok(p) ==> (p matches StorageProgram::SubmitMiningProof { sha_state } &&
            sha_state@ == spec_decode_storage(userdata@).unwrap()),
    {
        if userdata.len() != 33 {
            return Err(());
        }
        if userdata[0] != 0 {
            return Err(());
        }
        let mut sha_state: Vec<u8> = Vec::new();
        let mut i: usize = 1;
        while i < 33
            invariant
                1 <= i <= 33,
                userdata@.len() == 33,
                sha_state@ == userdata@.skip(1).take(i - 1),
            decreases 33 - i,
        {
            sha_state.push(userdata[i]);
            proof {
                assert(sha_state@ =~= userdata@.skip(1).take(i as int));
            }
            i = i + 1;
        }
        proof {
            assert(userdata@.skip(1).take(32) =~= userdata@.skip(1));
        }
        Ok(StorageProgram::SubmitMiningProof { sha_state })
    }
}

} // verus!
