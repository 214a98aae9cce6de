//! The engine's fast hasher: bytes of a key are plucked at positions
//! drawn at random once per set, giving per-process unpredictability
//! without cryptographic strength.

use rand::seq::SliceRandom;
use vstd::prelude::*;

verus! {

/// Eight distinct positions drawn from `0..size`, in random order.
///
/// Relies on rand's slice shuffle: it permutes the pool in place, picking
/// the permutation uniformly, so the first eight entries are distinct
/// members of `0..size` whatever the randomness did.
#[verifier::external_body]
fn shuffled_indices(size: usize) -> (r: Vec<usize>)
    requires
        8 <= size,
    ensures
        r@.len() == 8,
        forall|i: int| 0 <= i < 8 ==> #[trigger] r@[i] < size,
        forall|i: int, j: int| 0 <= i < j < 8 ==> r@[i] != r@[j],
{
    let mut pool: Vec<usize> = (0..size).collect();
    pool.as_mut_slice().shuffle(&mut rand::rng());
    pool.truncate(8);
    pool
}

/// The value the hasher yields: the eight plucked bytes glued into a
/// 64-bit word, low byte first.
pub open spec fn spec_glue(data: Seq<u8>, seed: Seq<usize>) -> u64 {
    (data[seed[0] as int] as u64) | ((data[seed[1] as int] as u64) << 8u64) | ((data[seed[2] as int]
        as u64) << 16u64) | ((data[seed[3] as int] as u64) << 24u64) | ((data[seed[4] as int]
        as u64) << 32u64) | ((data[seed[5] as int] as u64) << 40u64) | ((data[seed[6] as int]
        as u64) << 48u64) | ((data[seed[7] as int] as u64) << 56u64)
}

/// A non-cryptographic hasher over 32-byte keys and 8-byte words: eight
/// bytes of the input, chosen at set construction, glued into a word.
pub struct FastHasher {
    /// Positions plucked from 32-byte inputs.
    pub rand32: Vec<usize>,
    /// Positions plucked from 8-byte inputs.
    pub rand8: Vec<usize>,
    /// The bytes written so far, padded to 64.
    pub data64: Vec<u8>,
    /// How many bytes were written.
    pub len: usize,
}

impl FastHasher {
    pub open spec fn wf(&self) -> bool {
        &&& self.rand32@.len() == 8
        &&& (forall|i: int| 0 <= i < 8 ==> #[trigger] self.rand32@[i] < 32)
        &&& self.rand8@.len() == 8
        &&& (forall|i: int| 0 <= i < 8 ==> #[trigger] self.rand8@[i] < 8)
        &&& self.data64@.len() == 64
    }

    /// A fresh hasher with freshly drawn seeds.
    pub fn new() -> (r: FastHasher)
        ensures
            r.wf(),
            r.len == 0,
    {
        let rand32 = shuffled_indices(32);
        let rand8 = shuffled_indices(8);
        let mut data64: Vec<u8> = Vec::new();
        while data64.len() < 64
            invariant
                data64@.len() <= 64,
            decreases 64 - data64@.len(),
        {
            data64.push(0);
        }
        FastHasher { rand32, rand8, data64, len: 0 }
    }

    /// Record the bytes to be hashed.
    pub fn write(&mut self, bytes: &[u8])
        requires
            old(self).wf(),
            bytes@.len() < 64,
        ensures
            final(self).wf(),
            final(self).len == bytes@.len(),
            final(self).data64@ == bytes@ + old(self).data64@.skip(bytes@.len() as int),
            final(self).rand32@ == old(self).rand32@,
            final(self).rand8@ == old(self).rand8@,
    {
        let n = bytes.len();
        let mut i: usize = 0;
        while i < n
            invariant
                i <= n,
                n == bytes@.len(),
                n < 64,
                self.data64@.len() == 64,
                self.rand32@ == old(self).rand32@,
                self.rand8@ == old(self).rand8@,
                self.len == old(self).len,
                forall|j: int| 0 <= j < i ==> self.data64@[j] == bytes@[j],
                forall|j: int| i <= j < 64 ==> self.data64@[j] == old(self).data64@[j],
        decreases n - i,
        {
            self.data64[i] = bytes[i];
            i = i + 1;
        }
        self.len = n;
        proof {
            assert(self.data64@ =~= bytes@ + old(self).data64@.skip(bytes@.len() as int));
        }
    }

    /// Glue the plucked bytes into the hash value; only 8- and 32-byte
    /// inputs are ever hashed.
    pub fn finish(&self) -> (r: u64)
        requires
            self.wf(),
            self.len == 32 || self.len == 8,
        ensures
            self.len == 32 ==> r == spec_glue(self.data64@, self.rand32@),
            self.len == 8 ==> r == spec_glue(self.data64@, self.rand8@),
    {
        let seed = if self.len == 32 {
            &self.rand32
        } else {
            &self.rand8
        };
        (self.data64[seed[0]] as u64) | ((self.data64[seed[1]] as u64) << 8u64) | ((
        self.data64[seed[2]] as u64) << 16u64) | ((self.data64[seed[3]] as u64) << 24u64) | ((
        self.data64[seed[4]] as u64) << 32u64) | ((self.data64[seed[5]] as u64) << 40u64) | ((
        self.data64[seed[6]] as u64) << 48u64) | ((self.data64[seed[7]] as u64) << 56u64)
    }
}

} // verus!
