//! Pages and calls: the unit of account state and the external unit of
//! execution that the page engine processes.

use crate::keys::HashValue;
use crate::keys::Pubkey;
use crate::keys::Signature;
use vstd::prelude::*;

verus! {

/// The default contract tag: a page carrying it may be reassigned once.
pub open spec fn spec_default_contract() -> Pubkey {
    Pubkey::spec_default()
}

/// The mathematical image of a page.
#[verifier::ext_equal]
pub ghost struct PageModel {
    pub owner: Pubkey,
    pub contract: Pubkey,
    pub balance: u64,
    pub version: u64,
    pub memhash: HashValue,
    pub memory: Seq<u8>,
}

/// A process-addressable unit of account state.
#[derive(PartialEq, Eq, Debug)]
pub struct Page {
    /// Key that indexes this page; ownership of it is proved to spend.
    pub owner: Pubkey,
    /// Contract that owns this page and may write its memory.
    pub contract: Pubkey,
    /// Balance that belongs to the owner.
    pub balance: u64,
    /// Monotonic counter: advances on each successful debit.
    pub version: u64,
    /// Hash of the page data.
    pub memhash: HashValue,
    /// The page's memory.
    pub memory: Vec<u8>,
}

/// An exact copy of a byte vector.
pub fn copy_bytes(src: &Vec<u8>) -> (r: Vec<u8>)
    ensures
        r@ == src@,
{
    let mut out: Vec<u8> = Vec::new();
    let n = src.len();
    let mut i: usize = 0;
    while i < n
        invariant
            i <= n,
            n == src@.len(),
            out@ == src@.take(i as int),
        decreases n - i,
    {
        out.push(src[i]);
        proof {
            assert(out@ =~= src@.take(i + 1));
        }
        i = i + 1;
    }
    proof {
        assert(src@.take(n as int) =~= src@);
    }
    out
}

/// An exact copy of a key vector.
pub fn copy_keys(src: &Vec<Pubkey>) -> (r: Vec<Pubkey>)
    ensures
        r@ == src@,
{
    let mut out: Vec<Pubkey> = Vec::new();
    let n = src.len();
    let mut i: usize = 0;
    while i < n
        invariant
            i <= n,
            n == src@.len(),
            out@ == src@.take(i as int),
        decreases n - i,
    {
        out.push(src[i]);
        proof {
            assert(out@ =~= src@.take(i + 1));
        }
        i = i + 1;
    }
    proof {
        assert(src@.take(n as int) =~= src@);
    }
    out
}

/// An exact copy of a proof vector.
pub fn copy_proofs(src: &Vec<Option<Signature>>) -> (r: Vec<Option<Signature>>)
    ensures
        r@ == src@,
{
    let mut out: Vec<Option<Signature>> = Vec::new();
    let n = src.len();
    let mut i: usize = 0;
    while i < n
        invariant
            i <= n,
            n == src@.len(),
            out@ == src@.take(i as int),
        decreases n - i,
    {
        out.push(src[i]);
        proof {
            assert(out@ =~= src@.take(i + 1));
        }
        i = i + 1;
    }
    proof {
        assert(src@.take(n as int) =~= src@);
    }
    out
}

impl View for Page {
    type V = PageModel;

    open spec fn view(&self) -> PageModel {
        PageModel {
            owner: self.owner,
            contract: self.contract,
            balance: self.balance,
            version: self.version,
            memhash: self.memhash,
            memory: self.memory@,
        }
    }
}

impl Clone for Page {
    fn clone(&self) -> (r: Page)
        ensures
            r@ == self@,
    {
        let r = Page {
            owner: self.owner,
            contract: self.contract,
            balance: self.balance,
            version: self.version,
            memhash: self.memhash,
            memory: copy_bytes(&self.memory),
        };
        proof {
            assert(r@ =~= self@);
        }
        r
    }
}

impl Default for Page {
    /// An unowned page: zero keys, zero balance, no memory.
    fn default() -> (r: Page)
        ensures
            r.owner == Pubkey::spec_default(),
            r.contract == Pubkey::spec_default(),
            r.balance == 0,
            r.version == 0,
            r.memhash == HashValue::spec_default(),
            r.memory@ == Seq::<u8>::empty(),
    {
        Page {
            owner: Pubkey::default_key(),
            contract: Pubkey::default_key(),
            balance: 0,
            version: 0,
            memhash: HashValue::default_hash(),
            memory: Vec::new(),
        }
    }
}

/// The mathematical image of a call.
#[verifier::ext_equal]
pub ghost struct CallModel {
    pub proofs: Seq<Option<Signature>>,
    pub inkeys: Seq<Pubkey>,
    pub last_id: u64,
    pub last_hash: HashValue,
    pub contract: Pubkey,
    pub amount: u64,
    pub fee: u64,
    pub version: u64,
    pub method: u8,
    pub user_data: Seq<u8>,
}

/// The external unit of execution: an authorized request to run `method`
/// of `contract` against a set of keyed pages.
#[derive(PartialEq, Eq, Debug)]
pub struct Call {
    /// Proofs of ownership, one per key; `proofs[0]` authorizes the
    /// caller.
    pub proofs: Vec<Option<Signature>>,
    /// Keys of the pages the call touches; `inkeys[0]` is the caller,
    /// `inkeys[1]` the destination.
    pub inkeys: Vec<Pubkey>,
    /// Last id observed in the proof-of-history stream.
    pub last_id: u64,
    /// Last hash observed in the proof-of-history stream.
    pub last_hash: HashValue,
    /// The contract to call.
    pub contract: Pubkey,
    /// Tokens moved from the caller to the destination.
    pub amount: u64,
    /// Scheduling fee, debited from the caller before execution.
    pub fee: u64,
    /// Spend version: the call is rejected unless it exceeds the caller
    /// page's version.
    pub version: u64,
    /// Method selector: 0-127 are system methods, 128 and up belong to the
    /// contract.
    pub method: u8,
    /// Opaque bytes decoded by the method.
    pub user_data: Vec<u8>,
}

impl View for Call {
    type V = CallModel;

    open spec fn view(&self) -> CallModel {
        CallModel {
            proofs: self.proofs@,
            inkeys: self.inkeys@,
            last_id: self.last_id,
            last_hash: self.last_hash,
            contract: self.contract,
            amount: self.amount,
            fee: self.fee,
            version: self.version,
            method: self.method,
            user_data: self.user_data@,
        }
    }
}

impl Clone for Call {
    fn clone(&self) -> (r: Call)
        ensures
            r@ == self@,
    {
        let r = Call {
            proofs: copy_proofs(&self.proofs),
            inkeys: copy_keys(&self.inkeys),
            last_id: self.last_id,
            last_hash: self.last_hash,
            contract: self.contract,
            amount: self.amount,
            fee: self.fee,
            version: self.version,
            method: self.method,
            user_data: copy_bytes(&self.user_data),
        };
        proof {
            assert(r@ =~= self@);
        }
        r
    }
}

impl Call {
    /// A simple two-key transfer: move `amount` from `from` to `to` under
    /// the default contract's move method.
    pub fn new_tx(
        from: Pubkey,
        last_id: u64,
        last_hash: HashValue,
        amount: u64,
        fee: u64,
        version: u64,
        to: Pubkey,
    ) -> (r: Call)
        ensures
            r.proofs@ == Seq::<Option<Signature>>::empty(),
            r.inkeys@ == seq![from, to],
            r.last_id == last_id,
            r.last_hash == last_hash,
            r.contract == spec_default_contract(),
            r.amount == amount,
            r.fee == fee,
            r.version == version,
            r.method == 128,
            r.user_data@ == Seq::<u8>::empty(),
    {
        let mut inkeys: Vec<Pubkey> = Vec::new();
        inkeys.push(from);
        inkeys.push(to);
        proof {
            assert(inkeys@ =~= seq![from, to]);
        }
        Call {
            proofs: Vec::new(),
            inkeys,
            last_id,
            last_hash,
            contract: Pubkey::default_key(),
            amount,
            fee,
            version,
            method: 128,
            user_data: Vec::new(),
        }
    }

}

impl CallModel {
    /// The caller's key.
    pub open spec fn caller(&self) -> Pubkey {
        self.inkeys[0]
    }

    /// The destination's key.
    pub open spec fn destination(&self) -> Pubkey {
        self.inkeys[1]
    }
}

} // verus!
