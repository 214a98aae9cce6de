//! Plain-value key and hash types shared by the vote tower and the page
//! engine: 256-bit public keys and content hashes, held as four 64-bit
//! limbs so that equality and serialization are ordinary field operations.

use vstd::prelude::*;

verus! {

/// A 256-bit public key, least-significant limb first.
#[derive(PartialEq, Eq, Structural, Clone, Copy, Debug)]
pub struct Pubkey {
    pub w0: u64,
    pub w1: u64,
    pub w2: u64,
    pub w3: u64,
}

impl Pubkey {
    pub fn new(w0: u64, w1: u64, w2: u64, w3: u64) -> (r: Pubkey)
        ensures
            r == (Pubkey { w0, w1, w2, w3 }),
    {
        Pubkey { w0, w1, w2, w3 }
    }

    /// The all-zero key: the default owner, the default contract tag, and
    /// the empty sentinel of the prior-voters ring buffer.
    pub fn default_key() -> (r: Pubkey)
        ensures
            r == Pubkey::spec_default(),
    {
        Pubkey { w0: 0, w1: 0, w2: 0, w3: 0 }
    }

    pub open spec fn spec_default() -> Pubkey {
        Pubkey { w0: 0, w1: 0, w2: 0, w3: 0 }
    }
}

/// A 256-bit content hash, same layout as `Pubkey`.
#[derive(PartialEq, Eq, Structural, Clone, Copy, Debug)]
pub struct HashValue {
    pub w0: u64,
    pub w1: u64,
    pub w2: u64,
    pub w3: u64,
}

impl HashValue {
    pub fn new(w0: u64, w1: u64, w2: u64, w3: u64) -> (r: HashValue)
        ensures
            r == (HashValue { w0, w1, w2, w3 }),
    {
        HashValue { w0, w1, w2, w3 }
    }

    pub fn default_hash() -> (r: HashValue)
        ensures
            r == HashValue::spec_default(),
    {
        HashValue { w0: 0, w1: 0, w2: 0, w3: 0 }
    }

    pub open spec fn spec_default() -> HashValue {
        HashValue { w0: 0, w1: 0, w2: 0, w3: 0 }
    }
}

/// A 512-bit signature carried alongside a call's keys; the engine only
/// stores it, proof checking being outside this library's scope.
#[derive(PartialEq, Eq, Structural, Clone, Copy, Debug)]
pub struct Signature {
    pub s0: u64,
    pub s1: u64,
    pub s2: u64,
    pub s3: u64,
    pub s4: u64,
    pub s5: u64,
    pub s6: u64,
    pub s7: u64,
}

impl Signature {
    pub fn default_signature() -> (r: Signature)
        ensures
            r == (Signature { s0: 0, s1: 0, s2: 0, s3: 0, s4: 0, s5: 0, s6: 0, s7: 0 }),
    {
        Signature { s0: 0, s1: 0, s2: 0, s3: 0, s4: 0, s5: 0, s6: 0, s7: 0 }
    }
}

} // verus!
