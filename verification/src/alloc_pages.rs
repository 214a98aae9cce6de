//! The key-to-index directory of the page table: stable integer indices
//! for public keys, with freed indices reused before the high-water mark
//! grows.

use crate::keys::Pubkey;
use vstd::prelude::*;

verus! {

/// The first index holding `key`, scanning from `i`.
pub open spec fn spec_find_from(s: Seq<Option<Pubkey>>, key: Pubkey, i: int) -> Option<int>
    decreases s.len() - i,
    when 0 <= i <= s.len()
{
    if i >= s.len() {
        None
    } else if s[i] == Some(key) {
        Some(i)
    } else {
        spec_find_from(s, key, i + 1)
    }
}

/// What the scan returns: the index it names holds the key, or no index
/// does.
pub proof fn lemma_find_props(s: Seq<Option<Pubkey>>, key: Pubkey, i: int)
    requires
        0 <= i <= s.len(),
    ensures
        match spec_find_from(s, key, i) {
            Some(ix) => i <= ix < s.len() && s[ix] == Some(key),
            None => forall|j: int| i <= j < s.len() ==> s[j] != Some(key),
        },
    decreases s.len() - i,
{
    if i < s.len() && s[i] != Some(key) {
        lemma_find_props(s, key, i + 1);
    }
}

/// Indexed pool of page slots keyed by public key. A slot is either owned
/// by a key or sits on the free list.
pub struct AllocatedPages {
    /// High-water mark: every index ever handed out is below it.
    pub max: usize,
    /// Owner of each slot below the high-water mark, `None` for freed
    /// slots.
    pub allocated: Vec<Option<Pubkey>>,
    /// Freed slots, reused newest first.
    pub free: Vec<usize>,
}

impl AllocatedPages {
    pub open spec fn wf(&self) -> bool {
        &&& self.max == self.allocated@.len()
        &&& (forall|a: int, b: int|
            0 <= a < b < self.free@.len() ==> self.free@[a] != self.free@[b])
        &&& (forall|a: int|
            0 <= a < self.free@.len() ==> (#[trigger] self.free@[a]) < self.max
                && self.allocated@[self.free@[a] as int] is None)
        &&& (forall|ix: int|
            0 <= ix < self.allocated@.len() && self.allocated@[ix] is None
                ==> self.free@.contains(ix as usize))
        &&& (forall|a: int, b: int|
            0 <= a < b < self.allocated@.len() ==> !((#[trigger] self.allocated@[a])
                is Some && self.allocated@[a] == #[trigger] self.allocated@[b]))
    }

    /// The index a key maps to, if any.
    pub open spec fn spec_lookup(&self, key: Pubkey) -> Option<int> {
        spec_find_from(self.allocated@, key, 0)
    }

    pub fn new() -> (r: AllocatedPages)
        ensures
            r.wf(),
            r.max == 0,
            r.allocated@ == Seq::<Option<Pubkey>>::empty(),
            r.free@ == Seq::<usize>::empty(),
    {
        AllocatedPages { max: 0, allocated: Vec::new(), free: Vec::new() }
    }

    pub fn lookup(&self, key: &Pubkey) -> (r: Option<usize>)
        ensures
            r == match self.spec_lookup(*key) {
                Some(ix) => Some(ix as usize),
                None => None::<usize>,
            },
    {
        let n = self.allocated.len();
        let mut i: usize = 0;
        while i < n
            invariant
                i <= n,
                n == self.allocated@.len(),
                spec_find_from(self.allocated@, *key, i as int) == self.spec_lookup(*key),
            decreases n - i,
        {
            match self.allocated[i] {
                Some(k) => {
                    if k == *key {
                        return Some(i);
                    }
                },
                None => {},
            }
            i = i + 1;
        }
        None
    }

    /// Free a key's slot: its index joins the free list and the mapping is
    /// removed.
    pub fn free(&mut self, key: &Pubkey)
        requires
            old(self).wf(),
            old(self).spec_lookup(*key) is Some,
        ensures
            final(self).wf(),
            final(self).max == old(self).max,
            final(self).allocated@ == old(self).allocated@.update(
                old(self).spec_lookup(*key).unwrap(),
                None::<Pubkey>,
            ),
            final(self).free@ == old(self).free@.push(
                old(self).spec_lookup(*key).unwrap() as usize,
            ),
            final(self).spec_lookup(*key) is None,
    {
        proof {
            lemma_find_props(self.allocated@, *key, 0);
        }
        let ghost pre = *self;
        let page = self.lookup(key).unwrap();
        self.free.push(page);
        self.allocated[page] = None;
        proof {
            let s = self.allocated@;
            let ghost ix = pre.spec_lookup(*key).unwrap();
            assert(pre.allocated@[ix] == Some(*key));
            // The freed index was not on the free list: it was mapped.
            assert forall|a: int, b: int| 0 <= a < b < self.free@.len() implies self.free@[a]
                != self.free@[b] by {
                if b == self.free@.len() - 1 {
                    assert(self.free@[a] == pre.free@[a]);
                    if pre.free@[a] == page {
                        assert(pre.allocated@[page as int] is None);
                        assert(false);
                    }
                }
            }
            assert forall|jx: int|
                0 <= jx < s.len() && s[jx] is None implies self.free@.contains(
                jx as usize,
            ) by {
                if jx == ix {
                    assert(self.free@[self.free@.len() - 1] == page);
                } else {
                    assert(pre.allocated@[jx] is None);
                    assert(pre.free@.contains(jx as usize));
                    let a = choose|a: int|
                        0 <= a < pre.free@.len() && pre.free@[a] == jx as usize;
                    assert(self.free@[a] == jx as usize);
                }
            }
            lemma_find_props(s, *key, 0);
            if let Some(ix2) = spec_find_from(s, *key, 0) {
                assert(0 <= ix2 < s.len() && s[ix2] == Some(*key));
                assert(false);
            }
        }
    }

    /// Hand the key a slot: the newest freed one if any, else a fresh one
    /// above every slot handed out so far.
    pub fn allocate(&mut self, key: Pubkey) -> (r: usize)
        requires
            old(self).wf(),
            old(self).spec_lookup(key) is None,
            old(self).free@.len() > 0 || old(self).max < usize::MAX,
        ensures
            final(self).wf(),
            r < final(self).max,
            final(self).allocated@[r as int] == Some(key),
            final(self).spec_lookup(key) == Some(r as int),
            // The slot comes off the free list, or is brand new.
            old(self).free@.len() > 0 ==> (r == old(self).free@.last()
                && final(self).max == old(self).max
                && final(self).allocated@ == old(self).allocated@.update(r as int, Some(key))
                && final(self).free@ == old(self).free@.drop_last()),
            old(self).free@.len() == 0 ==> (r == old(self).max
                && final(self).max == old(self).max + 1
                && final(self).allocated@ == old(self).allocated@.push(Some(key))
                && final(self).free@ == old(self).free@),
            // No other key's mapping moves.
            forall|k2: Pubkey|
                k2 != key ==> #[trigger] final(self).spec_lookup(k2) == old(self).spec_lookup(k2),
    {
        proof {
            lemma_find_props(self.allocated@, key, 0);
        }
        let ghost pre = *self;
        let page: usize;
        match self.free.pop() {
            Some(p) => {
                page = p;
                self.allocated[page] = Some(key);
                proof {
                    assert(pre.free@[pre.free@.len() - 1] == p);
                    assert(self.free@ =~= pre.free@.drop_last());
                }
            },
            None => {
                page = self.max;
                self.max = self.max + 1;
                self.allocated.push(Some(key));
            },
        }
        proof {
            let s = self.allocated@;
            // Uniqueness of keys still holds: `key` was nowhere before.
            assert forall|a: int, b: int| 0 <= a < b < s.len() implies !((#[trigger] s[a])
                is Some && s[a] == #[trigger] s[b]) by {
                if a != page && b != page {
                    assert(s[a] == pre.allocated@[a]);
                }
            }
            // Freed slots still point at empty entries.
            assert forall|a: int| 0 <= a < self.free@.len() implies (#[trigger] self.free@[a])
                < self.max && self.allocated@[self.free@[a] as int] is None by {
                if pre.free@.len() > 0 {
                    assert(self.free@[a] == pre.free@[a]);
                    if pre.free@[a] == page {
                        assert(pre.free@[pre.free@.len() - 1] == page);
                        assert(false);
                    }
                }
            }
            // Every empty slot is still on the free list.
            assert forall|jx: int|
                0 <= jx < s.len() && s[jx] is None implies self.free@.contains(
                jx as usize,
            ) by {
                assert(pre.allocated@[jx] is None);
                assert(pre.free@.contains(jx as usize));
                let a = choose|a: int| 0 <= a < pre.free@.len() && pre.free@[a] == jx as usize;
                if pre.free@.len() > 0 {
                    assert(a < pre.free@.len() - 1);
                    assert(self.free@[a] == jx as usize);
                } else {
                    assert(self.free@[a] == jx as usize);
                }
            }
            lemma_find_props(s, key, 0);
            if spec_find_from(s, key, 0) is None {
                assert(s[page as int] == Some(key));
                assert(false);
            }
            let ix = spec_find_from(s, key, 0).unwrap();
            if ix != page {
                assert(s[ix] == Some(key));
                assert(pre.allocated@[ix] == Some(key));
                lemma_find_props(pre.allocated@, key, 0);
                assert(false);
            }
            assert forall|k2: Pubkey| k2 != key implies #[trigger] self.spec_lookup(k2) == pre.spec_lookup(
                k2,
            ) by {
                lemma_find_props(s, k2, 0);
                lemma_find_props(pre.allocated@, k2, 0);
                match pre.spec_lookup(k2) {
                    Some(j) => {
                        assert(s[j] == Some(k2));
                        match self.spec_lookup(k2) {
                            Some(j2) => {
                                assert(s[j2] == Some(k2));
                                if j != j2 {
                                    assert(false);
                                }
                            },
                            None => {
                                assert(false);
                            },
                        }
                    },
                    None => {
                        if let Some(j2) = self.spec_lookup(k2) {
                            assert(s[j2] == Some(k2));
                            assert(j2 != page);
                            assert(pre.allocated@[j2] == Some(k2));
                            assert(false);
                        }
                    },
                }
            }
        }
        page
    }
}

} // verus!
