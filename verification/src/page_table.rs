//! The page engine: a six-stage batch processor over a page-addressed
//! memory. Locks are acquired per key, debits validated under a read view,
//! destinations allocated under a write view, and calls executed with
//! strict balance-conservation checks.

use crate::alloc_pages::spec_find_from;
use crate::alloc_pages::AllocatedPages;
use crate::codec::le_value;
use crate::keys::Pubkey;
use crate::page::spec_default_contract;
use crate::page::Call;
use crate::page::CallModel;
use crate::page::Page;
use crate::page::PageModel;
use vstd::prelude::*;

verus! {

/// No key occurs twice.
pub open spec fn keys_distinct(s: Seq<Pubkey>) -> bool {
    forall|i: int, j: int| 0 <= i < j < s.len() ==> s[i] != s[j]
}

/// A call collides when one of its keys is already locked, or when its own
/// keys overlap: overlapping keys would alias pages during execution.
pub open spec fn spec_call_collides(locks: Seq<Pubkey>, c: CallModel) -> bool {
    !keys_distinct(c.inkeys) || exists|k: int|
        0 <= k < c.inkeys.len() && locks.contains(#[trigger] c.inkeys[k])
}

/// Locks acquired per call, in batch order, and the lock set left behind.
pub open spec fn spec_acquire(locks: Seq<Pubkey>, calls: Seq<CallModel>) -> (Seq<bool>, Seq<
    Pubkey,
>)
    decreases calls.len(),
{
    if calls.len() == 0 {
        (Seq::empty(), locks)
    } else {
        let collides = spec_call_collides(locks, calls[0]);
        let locks1 = if collides {
            locks
        } else {
            locks + calls[0].inkeys
        };
        let rest = spec_acquire(locks1, calls.drop_first());
        (seq![!collides] + rest.0, rest.1)
    }
}

/// The lock set with the first occurrence of `key` removed.
pub open spec fn spec_remove_key(locks: Seq<Pubkey>, key: Pubkey) -> Seq<Pubkey>
    decreases locks.len(),
{
    if locks.len() == 0 {
        locks
    } else if locks[0] == key {
        locks.drop_first()
    } else {
        seq![locks[0]] + spec_remove_key(locks.drop_first(), key)
    }
}

/// The lock set after removing all of a call's keys.
pub open spec fn spec_remove_keys(locks: Seq<Pubkey>, keys: Seq<Pubkey>) -> Seq<Pubkey>
    decreases keys.len(),
{
    if keys.len() == 0 {
        locks
    } else {
        spec_remove_keys(spec_remove_key(locks, keys[0]), keys.drop_first())
    }
}

/// The lock set after releasing every acquired call of the batch.
pub open spec fn spec_release(locks: Seq<Pubkey>, calls: Seq<CallModel>, acq: Seq<bool>) -> Seq<
    Pubkey,
>
    decreases calls.len(),
{
    if calls.len() == 0 || acq.len() == 0 {
        locks
    } else {
        let locks1 = if acq[0] {
            spec_remove_keys(locks, calls[0].inkeys)
        } else {
            locks
        };
        spec_release(locks1, calls.drop_first(), acq.drop_first())
    }
}

/// Whether the directory maps a call's caller to a page it may debit.
pub open spec fn spec_validate_one(
    dir: Seq<Option<Pubkey>>,
    pages: Seq<PageModel>,
    c: CallModel,
    acq: bool,
) -> Option<usize> {
    if !acq || c.inkeys.len() != 2 {
        None
    } else {
        match spec_find_from(dir, c.caller(), 0) {
            Some(ix) => if 0 <= ix < pages.len() && pages[ix].version < c.version
                && pages[ix].contract == c.contract && pages[ix].balance >= c.fee + c.amount {
                Some(ix as usize)
            } else {
                None
            },
            None => None,
        }
    }
}

/// The destination index of a call whose debit validated.
pub open spec fn spec_find_one(
    dir: Seq<Option<Pubkey>>,
    c: CallModel,
    from: Option<usize>,
) -> Option<usize> {
    if from is None {
        None
    } else {
        match spec_find_from(dir, c.destination(), 0) {
            Some(ix) => Some(ix as usize),
            None => None,
        }
    }
}

/// Sum of all page balances.
pub open spec fn spec_balance_sum(pages: Seq<PageModel>) -> int
    decreases pages.len(),
{
    if pages.len() == 0 {
        0
    } else {
        spec_balance_sum(pages.drop_last()) + pages.last().balance
    }
}

/// The views of the batch's calls.
pub open spec fn calls_view(packet: Seq<Call>) -> Seq<CallModel> {
    packet.map_values(|c: Call| c@)
}

/// The page engine's state: the pages, the key directory, and the set of
/// keys locked by batches in flight.
pub struct PageTable {
    /// Entries of pages.
    pub page_table: Vec<Page>,
    /// Map from page public keys to indexes into the page table.
    pub allocated_pages: AllocatedPages,
    /// Locked keys of batches currently being processed.
    pub mem_locks: Vec<Pubkey>,
}

impl PageTable {
    /// The mathematical image of the pages.
    pub open spec fn pages(&self) -> Seq<PageModel> {
        self.page_table@.map_values(|p: Page| p@)
    }

    /// The key directory.
    pub open spec fn dir(&self) -> Seq<Option<Pubkey>> {
        self.allocated_pages.allocated@
    }

    pub open spec fn wf(&self) -> bool {
        &&& self.allocated_pages.wf()
        &&& self.page_table@.len() == self.allocated_pages.max
        &&& (forall|ix: int|
            0 <= ix < self.dir().len() && (#[trigger] self.dir()[ix]) is Some
                ==> self.pages()[ix].owner == self.dir()[ix].unwrap())
        &&& keys_distinct(self.mem_locks@)
    }

    pub fn new() -> (r: PageTable)
        ensures
            r.wf(),
            r.pages() == Seq::<PageModel>::empty(),
            r.dir() == Seq::<Option<Pubkey>>::empty(),
            r.mem_locks@ == Seq::<Pubkey>::empty(),
    {
        let r = PageTable {
            page_table: Vec::new(),
            allocated_pages: AllocatedPages::new(),
            mem_locks: Vec::new(),
        };
        proof {
            assert(r.pages() =~= Seq::<PageModel>::empty());
        }
        r
    }

    /// Whether `key` is currently locked.
    fn is_locked(&self, key: &Pubkey) -> (r: bool)
        ensures
            r == self.mem_locks@.contains(*key),
    {
        let n = self.mem_locks.len();
        let mut i: usize = 0;
        while i < n
            invariant
                i <= n,
                n == self.mem_locks@.len(),
                forall|j: int| 0 <= j < i ==> self.mem_locks@[j] != *key,
            decreases n - i,
        {
            if self.mem_locks[i] == *key {
                return true;
            }
            i = i + 1;
        }
        false
    }

    /// Stage 1: for each call in order, if none of its keys are locked and
    /// they do not overlap each other, lock them all and mark the call
    /// acquired; otherwise the call loses.
    pub fn acquire_memory_lock(&mut self, packet: &Vec<Call>, acquired_memory: &mut Vec<bool>)
        requires
            old(self).wf(),
            old(acquired_memory)@.len() == packet@.len(),
        ensures
            final(self).wf(),
            final(acquired_memory)@ == spec_acquire(old(self).mem_locks@, calls_view(packet@)).0,
            final(self).mem_locks@ == spec_acquire(old(self).mem_locks@, calls_view(packet@)).1,
            final(self).page_table@ == old(self).page_table@,
            final(self).allocated_pages == old(self).allocated_pages,
    {
        let ghost calls = calls_view(packet@);
        let ghost full = spec_acquire(old(self).mem_locks@, calls);
        proof {
            lemma_acquire_len(old(self).mem_locks@, calls);
            assert(calls.skip(0) =~= calls);
            assert(full.0.skip(0) =~= full.0);
            assert(full.0.take(0) + old(acquired_memory)@.skip(0) =~= old(acquired_memory)@);
        }
        let n = packet.len();
        let mut i: usize = 0;
        while i < n
            invariant
                i <= n,
                n == packet@.len(),
                calls == calls_view(packet@),
                full == spec_acquire(old(self).mem_locks@, calls),
                spec_acquire(self.mem_locks@, calls.skip(i as int)) == (
                full.0.skip(i as int),
                full.1,
                ),
                acquired_memory@.len() == n,
                old(acquired_memory)@.len() == n,
                acquired_memory@ == full.0.take(i as int) + old(acquired_memory)@.skip(i as int),
                full.0.len() == n,
                keys_distinct(self.mem_locks@),
                self.page_table@ == old(self).page_table@,
                self.allocated_pages == old(self).allocated_pages,
                self.wf(),
            decreases n - i,
        {
            proof {
                assert(calls.skip(i as int)[0] == calls[i as int]);
                assert(calls.skip(i as int).drop_first() =~= calls.skip(i as int + 1));
                lemma_acquire_len(old(self).mem_locks@, calls);
            }
            let tx = &packet[i];
            let nk = tx.inkeys.len();
            let ghost pre_locks = self.mem_locks@;
            let ghost hold = acquired_memory@;
            // Does any key collide with the locks or with an earlier key of
            // the same call?
            let mut collision = false;
            let mut k: usize = 0;
            while k < nk
                invariant
                    k <= nk,
                    nk == tx.inkeys@.len(),
                    self.mem_locks@ == pre_locks,
                    acquired_memory@ == hold,
                    self.page_table@ == old(self).page_table@,
                    self.allocated_pages == old(self).allocated_pages,
                    collision ==> spec_call_collides(pre_locks, tx@),
                    !collision ==> (forall|a: int|
                        0 <= a < k ==> !pre_locks.contains(#[trigger] tx.inkeys@[a])),
                    !collision ==> (forall|a: int, b: int|
                        0 <= a < b < k ==> tx.inkeys@[a] != tx.inkeys@[b]),
                decreases nk - k,
            {
                if self.is_locked(&tx.inkeys[k]) {
                    collision = true;
                } else {
                    let mut a: usize = 0;
                    while a < k
                        invariant
                            a <= k,
                            k < nk,
                            nk == tx.inkeys@.len(),
                            self.mem_locks@ == pre_locks,
                            acquired_memory@ == hold,
                            collision ==> spec_call_collides(pre_locks, tx@),
                            !collision ==> (forall|b: int|
                                0 <= b < a ==> tx.inkeys@[b] != tx.inkeys@[k as int]),
                            !collision ==> (forall|a2: int|
                                0 <= a2 < k ==> !pre_locks.contains(#[trigger] tx.inkeys@[a2])),
                            !collision ==> (forall|a2: int, b: int|
                                0 <= a2 < b < k ==> tx.inkeys@[a2] != tx.inkeys@[b]),
                        decreases k - a,
                    {
                        if tx.inkeys[a] == tx.inkeys[k] {
                            collision = true;
                            proof {
                                assert(!keys_distinct(tx@.inkeys));
                            }
                        }
                        a = a + 1;
                    }
                }
                k = k + 1;
            }
            proof {
                if !collision {
                    assert(keys_distinct(tx@.inkeys));
                    assert(!spec_call_collides(pre_locks, tx@)) by {
                        if exists|q: int|
                            0 <= q < tx@.inkeys.len() && pre_locks.contains(
                                #[trigger] tx@.inkeys[q],
                            ) {
                            let q = choose|q: int|
                                0 <= q < tx@.inkeys.len() && pre_locks.contains(
                                    #[trigger] tx@.inkeys[q],
                                );
                            assert(false);
                        }
                    }
                }
                assert(collision == spec_call_collides(pre_locks, tx@));
                assert(tx@ == calls[i as int]);
            }
            if !collision {
                let mut k2: usize = 0;
                while k2 < nk
                    invariant
                        k2 <= nk,
                        nk == tx.inkeys@.len(),
                        acquired_memory@ == hold,
                        self.mem_locks@ == pre_locks + tx.inkeys@.take(k2 as int),
                        keys_distinct(pre_locks),
                        keys_distinct(tx.inkeys@),
                        forall|a: int|
                            0 <= a < nk ==> !pre_locks.contains(#[trigger] tx.inkeys@[a]),
                        self.page_table@ == old(self).page_table@,
                        self.allocated_pages == old(self).allocated_pages,
                    decreases nk - k2,
                {
                    self.mem_locks.push(tx.inkeys[k2]);
                    proof {
                        assert(self.mem_locks@ =~= pre_locks + tx.inkeys@.take(k2 as int + 1));
                    }
                    k2 = k2 + 1;
                }
                proof {
                    assert(tx.inkeys@.take(nk as int) =~= tx.inkeys@);
                    assert(self.mem_locks@ == pre_locks + tx@.inkeys);
                    // The appended keys are fresh and mutually distinct.
                    assert forall|a: int, b: int|
                        0 <= a < b < self.mem_locks@.len() implies self.mem_locks@[a]
                        != self.mem_locks@[b] by {
                        let m = pre_locks.len() as int;
                        if b >= m {
                            if a >= m {
                                assert(tx.inkeys@[a - m] != tx.inkeys@[b - m]);
                            } else {
                                if pre_locks[a] == tx.inkeys@[b - m] {
                                    assert(pre_locks.contains(tx.inkeys@[b - m]));
                                    assert(false);
                                }
                            }
                        }
                    }
                }
            }
            acquired_memory[i] = !collision;
            proof {
                let ghost locks1 = if collision {
                    pre_locks
                } else {
                    pre_locks + calls[i as int].inkeys
                };
                assert(self.mem_locks@ == locks1);
                let rest = spec_acquire(locks1, calls.skip(i as int + 1));
                assert(spec_acquire(pre_locks, calls.skip(i as int)) == (
                seq![!collision] + rest.0,
                rest.1,
                ));
                assert(full.0.skip(i as int) == seq![!collision] + rest.0);
                assert(full.0.skip(i as int)[0] == full.0[i as int]);
                assert(full.0[i as int] == !collision);
                assert(rest.0 =~= full.0.skip(i as int).drop_first());
                assert(full.0.skip(i as int).drop_first() =~= full.0.skip(i as int + 1));
                assert(rest.1 == full.1);
                assert(full.0.len() == n);
                assert(hold == full.0.take(i as int) + old(acquired_memory)@.skip(i as int));
                assert(acquired_memory@ == hold.update(i as int, !collision));
                assert(hold.len() == n);
                assert(full.0.take(i as int).len() == i as int);
                assert(old(acquired_memory)@.skip(i as int).len() == n - i);
                let upd = hold.update(i as int, !collision);
                assert forall|j: int|
                    0 <= j < n implies #[trigger] upd[j] == (full.0.take(i as int + 1) + old(acquired_memory)@.skip(i as int + 1))[j] by {
                    if j < i as int {
                        assert(hold[j] == full.0[j]);
                    } else if j == i as int {
                        assert(full.0[i as int] == !collision);
                    } else {
                        assert(hold[j] == old(acquired_memory)@.skip(i as int)[j - i]);
                        assert(old(acquired_memory)@.skip(i as int)[j - i] == old(acquired_memory)@[j]);
                    }
                }
                assert(acquired_memory@ =~= full.0.take(i as int + 1) + old(acquired_memory)@.skip(i as int + 1));
            }
            i = i + 1;
        }
        proof {
            assert(acquired_memory@ =~= full.0);
            assert(calls.skip(n as int) =~= Seq::<CallModel>::empty());
        }
    }

    /// Stage 6: unlock every acquired call's keys.
    pub fn release_memory_lock(&mut self, packet: &Vec<Call>, lock: &Vec<bool>)
        requires
            old(self).wf(),
            lock@.len() == packet@.len(),
        ensures
            final(self).wf(),
            final(self).mem_locks@ == spec_release(
                old(self).mem_locks@,
                calls_view(packet@),
                lock@,
            ),
            final(self).page_table@ == old(self).page_table@,
            final(self).allocated_pages == old(self).allocated_pages,
    {
        let ghost calls = calls_view(packet@);
        let ghost full = spec_release(old(self).mem_locks@, calls, lock@);
        proof {
            assert(calls.skip(0) =~= calls);
            assert(lock@.skip(0) =~= lock@);
        }
        let n = packet.len();
        let mut i: usize = 0;
        while i < n
            invariant
                i <= n,
                n == packet@.len(),
                n == lock@.len(),
                calls == calls_view(packet@),
                spec_release(self.mem_locks@, calls.skip(i as int), lock@.skip(i as int)) == full,
                keys_distinct(self.mem_locks@),
                self.page_table@ == old(self).page_table@,
                self.allocated_pages == old(self).allocated_pages,
                self.wf(),
            decreases n - i,
        {
            proof {
                assert(calls.skip(i as int)[0] == calls[i as int]);
                assert(calls.skip(i as int).drop_first() =~= calls.skip(i as int + 1));
                assert(lock@.skip(i as int)[0] == lock@[i as int]);
                assert(lock@.skip(i as int).drop_first() =~= lock@.skip(i as int + 1));
            }
            if lock[i] {
                let tx = &packet[i];
                let nk = tx.inkeys.len();
                let ghost entry_locks = self.mem_locks@;
                proof {
                    assert(tx.inkeys@.skip(0) =~= tx.inkeys@);
                }
                let mut k: usize = 0;
                while k < nk
                    invariant
                        k <= nk,
                        nk == tx.inkeys@.len(),
                        keys_distinct(self.mem_locks@),
                        spec_remove_keys(self.mem_locks@, tx.inkeys@.skip(k as int))
                            == spec_remove_keys(entry_locks, tx.inkeys@),
                        self.page_table@ == old(self).page_table@,
                        self.allocated_pages == old(self).allocated_pages,
                    decreases nk - k,
                {
                    proof {
                        assert(tx.inkeys@.skip(k as int)[0] == tx.inkeys@[k as int]);
                        assert(tx.inkeys@.skip(k as int).drop_first() =~= tx.inkeys@.skip(
                            k as int + 1,
                        ));
                    }
                    self.remove_lock(&tx.inkeys[k]);
                    k = k + 1;
                }
                proof {
                    assert(tx.inkeys@.skip(nk as int) =~= Seq::<Pubkey>::empty());
                    assert(tx.inkeys@.skip(0) =~= tx.inkeys@);
                }
            }
            i = i + 1;
        }
        proof {
            assert(calls.skip(n as int) =~= Seq::<CallModel>::empty());
        }
    }

    /// Remove one key from the lock set.
    fn remove_lock(&mut self, key: &Pubkey)
        requires
            keys_distinct(old(self).mem_locks@),
        ensures
            final(self).mem_locks@ == spec_remove_key(old(self).mem_locks@, *key),
            keys_distinct(final(self).mem_locks@),
            final(self).page_table@ == old(self).page_table@,
            final(self).allocated_pages == old(self).allocated_pages,
    {
        let n = self.mem_locks.len();
        let mut i: usize = 0;
        while i < n
            invariant
                i <= n,
                n == self.mem_locks@.len(),
                keys_distinct(self.mem_locks@),
                forall|j: int| 0 <= j < i ==> self.mem_locks@[j] != *key,
                *self == *old(self),
            decreases n - i,
        {
            if self.mem_locks[i] == *key {
                let ghost pre = self.mem_locks@;
                self.mem_locks.remove(i);
                proof {
                    lemma_remove_key_at(pre, *key, i as int);
                    assert(self.mem_locks@ =~= pre.take(i as int) + pre.skip(i as int + 1));
                    assert(keys_distinct(pre));
                    assert forall|a: int, b: int|
                        0 <= a < b < self.mem_locks@.len() implies self.mem_locks@[a]
                        != self.mem_locks@[b] by {
                        let pa: int = if a < i { a } else { a + 1 };
                        let pb: int = if b < i { b } else { b + 1 };
                        assert(self.mem_locks@[a] == pre[pa]);
                        assert(self.mem_locks@[b] == pre[pb]);
                        lemma_distinct_index(pre, pa, pb);
                    }
                }
                return ;
            }
            i = i + 1;
        }
        proof {
            lemma_remove_key_absent(self.mem_locks@, *key);
        }
    }

    /// The balance of the page `key` maps to.
    pub fn get_balance(&self, key: &Pubkey) -> (r: Option<u64>)
        requires
            self.wf(),
        ensures
            r == match spec_find_from(self.dir(), *key, 0) {
                Some(ix) => Some(self.pages()[ix].balance),
                None => None::<u64>,
            },
    {
        proof {
            crate::alloc_pages::lemma_find_props(self.dir(), *key, 0);
        }
        match self.allocated_pages.lookup(key) {
            Some(dx) => Some(self.page_table[dx].balance),
            None => None,
        }
    }

    /// The spend version of the page `key` maps to.
    pub fn get_version(&self, key: &Pubkey) -> (r: Option<u64>)
        requires
            self.wf(),
        ensures
            r == match spec_find_from(self.dir(), *key, 0) {
                Some(ix) => Some(self.pages()[ix].version),
                None => None::<u64>,
            },
    {
        proof {
            crate::alloc_pages::lemma_find_props(self.dir(), *key, 0);
        }
        match self.allocated_pages.lookup(key) {
            Some(dx) => Some(self.page_table[dx].version),
            None => None,
        }
    }
}

/// The acquisition vector is as long as the batch.
pub proof fn lemma_acquire_len(locks: Seq<Pubkey>, calls: Seq<CallModel>)
    ensures
        spec_acquire(locks, calls).0.len() == calls.len(),
    decreases calls.len(),
{
    if calls.len() > 0 {
        let collides = spec_call_collides(locks, calls[0]);
        let locks1 = if collides {
            locks
        } else {
            locks + calls[0].inkeys
        };
        lemma_acquire_len(locks1, calls.drop_first());
    }
}

/// Removing a key present at `i` (and nowhere before) drops exactly that
/// entry.
proof fn lemma_remove_key_at(locks: Seq<Pubkey>, key: Pubkey, i: int)
    requires
        0 <= i < locks.len(),
        locks[i] == key,
        forall|j: int| 0 <= j < i ==> locks[j] != key,
    ensures
        spec_remove_key(locks, key) == locks.take(i) + locks.skip(i + 1),
    decreases i,
{
    if i == 0 {
        assert(spec_remove_key(locks, key) == locks.drop_first());
        assert(locks.drop_first() =~= locks.take(0) + locks.skip(1));
    } else {
        lemma_remove_key_at(locks.drop_first(), key, i - 1);
        assert(locks.drop_first().take(i - 1) =~= locks.take(i).drop_first());
        assert(locks.drop_first().skip(i) =~= locks.skip(i + 1));
        assert(seq![locks[0]] + (locks.drop_first().take(i - 1) + locks.drop_first().skip(i))
            =~= locks.take(i) + locks.skip(i + 1));
    }
}

/// Removing an absent key changes nothing.
proof fn lemma_remove_key_absent(locks: Seq<Pubkey>, key: Pubkey)
    requires
        forall|j: int| 0 <= j < locks.len() ==> locks[j] != key,
    ensures
        spec_remove_key(locks, key) == locks,
    decreases locks.len(),
{
    if locks.len() > 0 {
        lemma_remove_key_absent(locks.drop_first(), key);
        assert(seq![locks[0]] + locks.drop_first() =~= locks);
    }
}

/// Two positions of a duplicate-free sequence hold different keys.
proof fn lemma_distinct_index(s: Seq<Pubkey>, a: int, b: int)
    requires
        keys_distinct(s),
        0 <= a < b < s.len(),
    ensures
        s[a] != s[b],
{
}


/// Sum of the balances of the mapped pages among the first `n` slots:
/// slots on the free list hold stale content and do not count.
pub open spec fn spec_mapped_sum_upto(
    dir: Seq<Option<Pubkey>>,
    pages: Seq<PageModel>,
    n: int,
) -> int
    decreases n,
{
    if n <= 0 {
        0
    } else {
        spec_mapped_sum_upto(dir, pages, n - 1) + (if 0 <= n - 1 < dir.len() && n - 1
            < pages.len() && dir[n - 1] is Some {
            pages[n - 1].balance as int
        } else {
            0
        })
    }
}

/// Total balance held by live pages.
pub open spec fn spec_mapped_sum(dir: Seq<Option<Pubkey>>, pages: Seq<PageModel>) -> int {
    spec_mapped_sum_upto(dir, pages, pages.len() as int)
}

/// Updating one slot moves the mapped sum by the balance difference at
/// that slot (counting a slot only while it is mapped).
pub proof fn lemma_mapped_sum_update(
    dir: Seq<Option<Pubkey>>,
    pages: Seq<PageModel>,
    ix: int,
    p: PageModel,
    n: int,
)
    requires
        0 <= ix < pages.len(),
        dir.len() == pages.len(),
    ensures
        spec_mapped_sum_upto(dir, pages.update(ix, p), n) == spec_mapped_sum_upto(dir, pages, n)
            + (if ix < n && dir[ix] is Some {
            p.balance - pages[ix].balance
        } else {
            0
        }),
    decreases n,
{
    if n > 0 {
        lemma_mapped_sum_update(dir, pages, ix, p, n - 1);
    }
}

/// Appending a freshly mapped slot adds its balance to the mapped sum.
pub proof fn lemma_mapped_sum_push(
    dir: Seq<Option<Pubkey>>,
    pages: Seq<PageModel>,
    key: Pubkey,
    p: PageModel,
    n: int,
)
    requires
        dir.len() == pages.len(),
        n <= pages.len(),
    ensures
        spec_mapped_sum_upto(dir.push(Some(key)), pages.push(p), n) == spec_mapped_sum_upto(
            dir,
            pages,
            n,
        ),
    decreases n,
{
    if n > 0 {
        lemma_mapped_sum_push(dir, pages, key, p, n - 1);
    }
}

/// Remapping a free slot to a zero-balance page leaves the mapped sum as
/// it was.
pub proof fn lemma_mapped_sum_remap(
    dir: Seq<Option<Pubkey>>,
    pages: Seq<PageModel>,
    ix: int,
    key: Pubkey,
    p: PageModel,
    n: int,
)
    requires
        0 <= ix < pages.len(),
        dir.len() == pages.len(),
        dir[ix] is None,
        p.balance == 0,
    ensures
        spec_mapped_sum_upto(dir.update(ix, Some(key)), pages.update(ix, p), n)
            == spec_mapped_sum_upto(dir, pages, n),
    decreases n,
{
    if n > 0 {
        lemma_mapped_sum_remap(dir, pages, ix, key, p, n - 1);
    }
}

/// The directory, free list, pages and destination vector after the
/// allocation stage has handled calls `i` onward.
pub open spec fn spec_allocate_batch(
    dir: Seq<Option<Pubkey>>,
    free: Seq<usize>,
    pages: Seq<PageModel>,
    calls: Seq<CallModel>,
    from: Seq<Option<usize>>,
    to: Seq<Option<usize>>,
    i: int,
) -> (Seq<Option<Pubkey>>, Seq<usize>, Seq<PageModel>, Seq<Option<usize>>)
    decreases calls.len() - i,
    when 0 <= i <= calls.len() && to.len() == calls.len() && from.len() == calls.len()
{
    if i >= calls.len() {
        (dir, free, pages, to)
    } else if from[i] is Some && to[i] is None {
        let dest = calls[i].destination();
        let np = PageModel {
            owner: dest,
            contract: calls[i].contract,
            balance: 0,
            version: 0,
            memhash: crate::keys::HashValue::spec_default(),
            memory: Seq::empty(),
        };
        if free.len() > 0 {
            spec_allocate_batch(
                dir.update(free.last() as int, Some(dest)),
                free.drop_last(),
                pages.update(free.last() as int, np),
                calls,
                from,
                to.update(i, Some(free.last())),
                i + 1,
            )
        } else {
            spec_allocate_batch(
                dir.push(Some(dest)),
                free,
                pages.push(np),
                calls,
                from,
                to.update(i, Some(dir.len() as usize)),
                i + 1,
            )
        }
    } else {
        spec_allocate_batch(dir, free, pages, calls, from, to, i + 1)
    }
}

impl PageTable {
    /// Stage 2: under a read view of the directory, record the caller
    /// page of every acquired call that may spend: the page must belong to
    /// the caller and the call's contract, carry a newer version, and
    /// cover fee plus amount.
    pub fn validate_debits(
        &mut self,
        packet: &Vec<Call>,
        acquired_memory: &Vec<bool>,
        from_pages: &mut Vec<Option<usize>>,
    )
        requires
            old(self).wf(),
            acquired_memory@.len() == packet@.len(),
            old(from_pages)@.len() == packet@.len(),
        ensures
            *final(self) == *old(self),
            final(from_pages)@.len() == packet@.len(),
            forall|i: int|
                0 <= i < packet@.len() ==> final(from_pages)@[i] == spec_validate_one(
                    old(self).dir(),
                    old(self).pages(),
                    calls_view(packet@)[i],
                    acquired_memory@[i],
                ),
    {
        let ghost calls = calls_view(packet@);
        let n = packet.len();
        let mut i: usize = 0;
        while i < n
            invariant
                i <= n,
                n == packet@.len(),
                calls == calls_view(packet@),
                acquired_memory@.len() == n,
                from_pages@.len() == n,
                self.wf(),
                *self == *old(self),
                forall|j: int|
                    0 <= j < i ==> from_pages@[j] == spec_validate_one(
                        old(self).dir(),
                        old(self).pages(),
                        calls[j],
                        acquired_memory@[j],
                    ),
            decreases n - i,
        {
            let tx = &packet[i];
            from_pages[i] = None;
            proof {
                assert(calls[i as int] == tx@);
            }
            if acquired_memory[i] && tx.inkeys.len() == 2 {
                proof {
                    crate::alloc_pages::lemma_find_props(self.dir(), tx@.caller(), 0);
                }
                match self.allocated_pages.lookup(&tx.inkeys[0]) {
                    Some(memix) => {
                        let page = &self.page_table[memix];
                        assert(page@ == self.pages()[memix as int]);
                        assert(page.owner == tx.inkeys@[0]);
                        if page.version < tx.version && page.contract == tx.contract
                            && page.balance >= tx.fee && page.balance - tx.fee >= tx.amount {
                            from_pages[i] = Some(memix);
                        }
                    },
                    None => {},
                }
            }
            i = i + 1;
        }
    }

    /// Stage 3: resolve the destination of every call whose debit
    /// validated; destinations not yet present stay `None`.
    pub fn find_new_keys(
        &mut self,
        packet: &Vec<Call>,
        from_pages: &Vec<Option<usize>>,
        to_pages: &mut Vec<Option<usize>>,
    )
        requires
            old(self).wf(),
            from_pages@.len() == packet@.len(),
            old(to_pages)@.len() == packet@.len(),
            forall|i: int|
                0 <= i < packet@.len() && (#[trigger] from_pages@[i]) is Some ==> calls_view(
                    packet@,
                )[i].inkeys.len() == 2,
        ensures
            *final(self) == *old(self),
            final(to_pages)@.len() == packet@.len(),
            forall|i: int|
                0 <= i < packet@.len() ==> final(to_pages)@[i] == spec_find_one(
                    old(self).dir(),
                    calls_view(packet@)[i],
                    from_pages@[i],
                ),
    {
        let ghost calls = calls_view(packet@);
        let n = packet.len();
        let mut i: usize = 0;
        while i < n
            invariant
                i <= n,
                n == packet@.len(),
                calls == calls_view(packet@),
                from_pages@.len() == n,
                to_pages@.len() == n,
                self.wf(),
                *self == *old(self),
                forall|j: int|
                    0 <= j < n && (#[trigger] from_pages@[j]) is Some ==> calls[j].inkeys.len()
                        == 2,
                forall|j: int|
                    0 <= j < i ==> to_pages@[j] == spec_find_one(
                        old(self).dir(),
                        calls[j],
                        from_pages@[j],
                    ),
            decreases n - i,
        {
            let tx = &packet[i];
            to_pages[i] = None;
            proof {
                assert(calls[i as int] == tx@);
            }
            if from_pages[i].is_some() {
                to_pages[i] = self.allocated_pages.lookup(&tx.inkeys[1]);
            }
            i = i + 1;
        }
    }

    /// Consistency check: every recorded caller or destination page is
    /// owned by the matching key of its call.
    pub fn check_pages(
        &self,
        txs: &Vec<Call>,
        from_pages: &Vec<Option<usize>>,
        to_pages: &Vec<Option<usize>>,
    )
        requires
            self.wf(),
            from_pages@.len() == txs@.len(),
            to_pages@.len() == txs@.len(),
            forall|i: int|
                0 <= i < txs@.len() && (#[trigger] from_pages@[i]) is Some ==> calls_view(
                    txs@,
                )[i].inkeys.len() == 2 && from_pages@[i].unwrap() < self.pages().len()
                    && self.pages()[from_pages@[i].unwrap() as int].owner == calls_view(
                    txs@,
                )[i].caller(),
            forall|i: int|
                0 <= i < txs@.len() && (#[trigger] to_pages@[i]) is Some ==> calls_view(
                    txs@,
                )[i].inkeys.len() == 2 && to_pages@[i].unwrap() < self.pages().len()
                    && self.pages()[to_pages@[i].unwrap() as int].owner == calls_view(
                    txs@,
                )[i].destination(),
    {
        let n = txs.len();
        let mut i: usize = 0;
        while i < n
            invariant
                i <= n,
                n == txs@.len(),
                from_pages@.len() == n,
                to_pages@.len() == n,
                self.wf(),
                forall|j: int|
                    0 <= j < n && (#[trigger] from_pages@[j]) is Some ==> calls_view(
                        txs@,
                    )[j].inkeys.len() == 2 && from_pages@[j].unwrap() < self.pages().len()
                        && self.pages()[from_pages@[j].unwrap() as int].owner == calls_view(
                        txs@,
                    )[j].caller(),
                forall|j: int|
                    0 <= j < n && (#[trigger] to_pages@[j]) is Some ==> calls_view(
                        txs@,
                    )[j].inkeys.len() == 2 && to_pages@[j].unwrap() < self.pages().len()
                        && self.pages()[to_pages@[j].unwrap() as int].owner == calls_view(
                        txs@,
                    )[j].destination(),
            decreases n - i,
        {
            let tx = &txs[i];
            proof {
                assert(calls_view(txs@)[i as int] == tx@);
            }
            match from_pages[i] {
                Some(f) => {
                    assert(tx.inkeys@[0] == self.page_table@[f as int]@.owner);
                },
                None => {},
            }
            match to_pages[i] {
                Some(t) => {
                    assert(tx.inkeys@[1] == self.page_table@[t as int]@.owner);
                },
                None => {},
            }
            i = i + 1;
        }
    }
}


/// The directory, free list and pages after force-allocating a page per
/// call, keyed by caller or destination, each holding `amount`.
pub open spec fn spec_force_batch(
    dir: Seq<Option<Pubkey>>,
    free: Seq<usize>,
    pages: Seq<PageModel>,
    calls: Seq<CallModel>,
    owner: bool,
    amount: u64,
    i: int,
) -> (Seq<Option<Pubkey>>, Seq<usize>, Seq<PageModel>)
    decreases calls.len() - i,
    when 0 <= i <= calls.len()
{
    if i >= calls.len() {
        (dir, free, pages)
    } else {
        let key = if owner {
            calls[i].caller()
        } else {
            calls[i].destination()
        };
        let np = PageModel {
            owner: key,
            contract: calls[i].contract,
            balance: amount,
            version: 0,
            memhash: crate::keys::HashValue::spec_default(),
            memory: Seq::empty(),
        };
        if free.len() > 0 {
            spec_force_batch(
                dir.update(free.last() as int, Some(key)),
                free.drop_last(),
                pages.update(free.last() as int, np),
                calls,
                owner,
                amount,
                i + 1,
            )
        } else {
            spec_force_batch(dir.push(Some(key)), free, pages.push(np), calls, owner, amount, i + 1)
        }
    }
}

impl PageTable {
    /// Map `key` to a slot holding a fresh page.
    fn alloc_page(&mut self, key: Pubkey, contract: Pubkey, balance: u64) -> (ix: usize)
        requires
            old(self).wf(),
            spec_find_from(old(self).dir(), key, 0) is None,
            old(self).allocated_pages.free@.len() > 0 || old(self).allocated_pages.max
                < usize::MAX,
        ensures
            final(self).wf(),
            final(self).mem_locks@ == old(self).mem_locks@,
            ({
                let np = PageModel {
                    owner: key,
                    contract: contract,
                    balance: balance,
                    version: 0,
                    memhash: crate::keys::HashValue::spec_default(),
                    memory: Seq::empty(),
                };
                if old(self).allocated_pages.free@.len() > 0 {
                    ix == old(self).allocated_pages.free@.last() && final(self).dir() == old(self).dir().update(ix as int, Some(key)) && final(self).pages() == old(self).pages().update(ix as int, np) && final(self).allocated_pages.free@ == old(self).allocated_pages.free@.drop_last() && final(self).allocated_pages.max == old(self).allocated_pages.max
                } else {
                    ix == old(self).allocated_pages.max && final(self).dir() == old(self).dir().push(Some(key)) && final(self).pages() == old(self).pages().push(np)
                        && final(self).allocated_pages.free@ == old(self).allocated_pages.free@
                        && final(self).allocated_pages.max == old(self).allocated_pages.max + 1
                }
            }),
            forall|k2: Pubkey|
                k2 != key ==> #[trigger] final(self).allocated_pages.spec_lookup(k2) == old(self).allocated_pages.spec_lookup(k2),
    {
        let ghost pre = *self;
        let ix = self.allocated_pages.allocate(key);
        let page = Page {
            owner: key,
            contract,
            balance,
            version: 0,
            memhash: crate::keys::HashValue::default_hash(),
            memory: Vec::new(),
        };
        if ix == self.page_table.len() {
            self.page_table.push(page);
            proof {
                assert(self.pages() =~= pre.pages().push(
                    PageModel {
                        owner: key,
                        contract: contract,
                        balance: balance,
                        version: 0,
                        memhash: crate::keys::HashValue::spec_default(),
                        memory: Seq::empty(),
                    },
                ));
            }
        } else {
            self.page_table[ix] = page;
            proof {
                assert(self.pages() =~= pre.pages().update(
                    ix as int,
                    PageModel {
                        owner: key,
                        contract: contract,
                        balance: balance,
                        version: 0,
                        memhash: crate::keys::HashValue::spec_default(),
                        memory: Seq::empty(),
                    },
                ));
            }
        }
        proof {
            assert forall|jx: int|
                0 <= jx < self.dir().len() && (#[trigger] self.dir()[jx]) is Some implies self.pages()[jx].owner
                == self.dir()[jx].unwrap() by {
                if jx != ix {
                    assert(pre.dir()[jx] == self.dir()[jx]);
                    assert(self.pages()[jx] == pre.pages()[jx]);
                }
            }
        }
        ix
    }

    /// Seed the table: allocate a page per call, keyed by the caller
    /// (`owner` true) or the destination, holding `amount`.
    pub fn force_allocate(&mut self, packet: &Vec<Call>, owner: bool, amount: u64)
        requires
            old(self).wf(),
            forall|i: int|
                0 <= i < packet@.len() ==> (#[trigger] calls_view(packet@)[i]).inkeys.len() == 2,
            forall|i: int|
                0 <= i < packet@.len() ==> spec_find_from(
                    old(self).dir(),
                    spec_force_key(calls_view(packet@)[i], owner),
                    0,
                ) is None,
            forall|i: int, j: int|
                0 <= i < j < packet@.len() ==> spec_force_key(calls_view(packet@)[i], owner)
                    != spec_force_key(calls_view(packet@)[j], owner),
            old(self).allocated_pages.max + packet@.len() <= usize::MAX,
        ensures
            final(self).wf(),
            (final(self).dir(), final(self).allocated_pages.free@, final(self).pages())
                == spec_force_batch(
                old(self).dir(),
                old(self).allocated_pages.free@,
                old(self).pages(),
                calls_view(packet@),
                owner,
                amount,
                0,
            ),
            final(self).mem_locks@ == old(self).mem_locks@,
    {
        let ghost calls = calls_view(packet@);
        let ghost full = spec_force_batch(
            old(self).dir(),
            old(self).allocated_pages.free@,
            old(self).pages(),
            calls,
            owner,
            amount,
            0,
        );
        let n = packet.len();
        let mut i: usize = 0;
        while i < n
            invariant
                i <= n,
                n == packet@.len(),
                calls == calls_view(packet@),
                self.wf(),
                self.mem_locks@ == old(self).mem_locks@,
                self.allocated_pages.max <= old(self).allocated_pages.max + i,
                old(self).allocated_pages.max + n <= usize::MAX,
                forall|j: int| 0 <= j < n ==> (#[trigger] calls[j]).inkeys.len() == 2,
                forall|j: int|
                    i <= j < n ==> spec_find_from(
                        self.dir(),
                        spec_force_key(calls[j], owner),
                        0,
                    ) is None,
                forall|j: int, j2: int|
                    0 <= j < j2 < n ==> spec_force_key(calls[j], owner) != spec_force_key(
                        calls[j2],
                        owner,
                    ),
                spec_force_batch(
                    self.dir(),
                    self.allocated_pages.free@,
                    self.pages(),
                    calls,
                    owner,
                    amount,
                    i as int,
                ) == full,
            decreases n - i,
        {
            let tx = &packet[i];
            proof {
                assert(calls[i as int] == tx@);
            }
            let key = if owner {
                tx.inkeys[0]
            } else {
                tx.inkeys[1]
            };
            proof {
                assert(key == spec_force_key(calls[i as int], owner));
            }
            let ghost pre = *self;
            let ix = self.alloc_page(key, tx.contract, amount);
            proof {
                assert forall|j: int|
                    i + 1 <= j < n implies spec_find_from(
                    self.dir(),
                    spec_force_key(calls[j], owner),
                    0,
                ) is None by {
                    assert(spec_force_key(calls[j], owner) != key);
                    crate::alloc_pages::lemma_find_props(
                        pre.dir(),
                        spec_force_key(calls[j], owner),
                        0,
                    );
                    crate::alloc_pages::lemma_find_props(
                        self.dir(),
                        spec_force_key(calls[j], owner),
                        0,
                    );
                }
            }
            i = i + 1;
        }
    }
}

/// The key a forced allocation is made under.
pub open spec fn spec_force_key(c: CallModel, owner: bool) -> Pubkey {
    if owner {
        c.caller()
    } else {
        c.destination()
    }
}


impl PageTable {
    /// Stage 4: under the write view, give every validated call whose
    /// destination is missing a fresh zero-balance page owned by that
    /// destination and tagged with the call's contract.
    pub fn allocate_keys(
        &mut self,
        packet: &Vec<Call>,
        from_pages: &Vec<Option<usize>>,
        to_pages: &mut Vec<Option<usize>>,
    )
        requires
            old(self).wf(),
            from_pages@.len() == packet@.len(),
            old(to_pages)@.len() == packet@.len(),
            forall|i: int|
                0 <= i < packet@.len() && (#[trigger] from_pages@[i]) is Some ==> calls_view(
                    packet@,
                )[i].inkeys.len() == 2,
            // The destination vector is stage 3's answer: a missing entry
            // means the key is absent from the directory.
            forall|i: int|
                0 <= i < packet@.len() && (#[trigger] from_pages@[i]) is Some && old(to_pages)@[i] is None ==> spec_find_from(
                    old(self).dir(),
                    calls_view(packet@)[i].destination(),
                    0,
                ) is None,
            // Destinations to be created are pairwise distinct.
            forall|i: int, j: int|
                0 <= i < j < packet@.len() && (#[trigger] from_pages@[i]) is Some && (
                #[trigger] from_pages@[j]) is Some && old(to_pages)@[i] is None && old(to_pages)@[j] is None ==> calls_view(packet@)[i].destination() != calls_view(
                    packet@,
                )[j].destination(),
            old(self).allocated_pages.max + packet@.len() <= usize::MAX,
        ensures
            final(self).wf(),
            (final(self).dir(), final(self).allocated_pages.free@, final(self).pages(), final(to_pages)@) == spec_allocate_batch(
                old(self).dir(),
                old(self).allocated_pages.free@,
                old(self).pages(),
                calls_view(packet@),
                from_pages@,
                old(to_pages)@,
                0,
            ),
            final(self).mem_locks@ == old(self).mem_locks@,
            final(to_pages)@.len() == packet@.len(),
            // Every validated call now has a destination page.
            forall|i: int|
                0 <= i < packet@.len() && (#[trigger] from_pages@[i]) is Some ==> final(to_pages)@[i] is Some,
            forall|i: int|
                0 <= i < packet@.len() && (#[trigger] from_pages@[i]) is None ==> final(to_pages)@[i] == old(to_pages)@[i],
            // Pages that were already mapped are untouched.
            forall|ix: int|
                0 <= ix < old(self).dir().len() && (#[trigger] old(self).dir()[ix]) is Some
                    ==> final(self).dir()[ix] == old(self).dir()[ix] && final(self).pages()[ix]
                    == old(self).pages()[ix],
            // New pages hold no balance: the total over live pages stands.
            spec_mapped_sum(final(self).dir(), final(self).pages()) == spec_mapped_sum(
                old(self).dir(),
                old(self).pages(),
            ),
    {
        let ghost calls = calls_view(packet@);
        let ghost full = spec_allocate_batch(
            old(self).dir(),
            old(self).allocated_pages.free@,
            old(self).pages(),
            calls,
            from_pages@,
            old(to_pages)@,
            0,
        );
        let n = packet.len();
        let mut i: usize = 0;
        while i < n
            invariant
                i <= n,
                n == packet@.len(),
                calls == calls_view(packet@),
                from_pages@.len() == n,
                to_pages@.len() == n,
                self.wf(),
                self.mem_locks@ == old(self).mem_locks@,
                self.allocated_pages.max <= old(self).allocated_pages.max + i,
                old(self).allocated_pages.max + n <= usize::MAX,
                forall|j: int|
                    0 <= j < n && (#[trigger] from_pages@[j]) is Some ==> calls[j].inkeys.len()
                        == 2,
                forall|j: int| i <= j < n ==> to_pages@[j] == old(to_pages)@[j],
                forall|j: int|
                    i <= j < n && (#[trigger] from_pages@[j]) is Some && to_pages@[j] is None
                        ==> spec_find_from(self.dir(), calls[j].destination(), 0) is None,
                forall|j: int, j2: int|
                    i <= j < j2 < n && (#[trigger] from_pages@[j]) is Some && (
                    #[trigger] from_pages@[j2]) is Some && to_pages@[j] is None
                        && to_pages@[j2] is None ==> calls[j].destination()
                        != calls[j2].destination(),
                forall|j: int|
                    0 <= j < i && (#[trigger] from_pages@[j]) is Some ==> to_pages@[j] is Some,
                forall|j: int|
                    0 <= j < i && (#[trigger] from_pages@[j]) is None ==> to_pages@[j] == old(to_pages)@[j],
                forall|ix: int|
                    0 <= ix < old(self).dir().len() && (#[trigger] old(self).dir()[ix]) is Some
                        ==> self.dir()[ix] == old(self).dir()[ix] && self.pages()[ix] == old(self).pages()[ix],
                old(self).dir().len() <= self.dir().len(),
                old(self).pages().len() <= self.pages().len(),
                spec_mapped_sum(self.dir(), self.pages()) == spec_mapped_sum(
                    old(self).dir(),
                    old(self).pages(),
                ),
                spec_allocate_batch(
                    self.dir(),
                    self.allocated_pages.free@,
                    self.pages(),
                    calls,
                    from_pages@,
                    to_pages@,
                    i as int,
                ) == full,
            decreases n - i,
        {
            let tx = &packet[i];
            proof {
                assert(calls[i as int] == tx@);
            }
            if from_pages[i].is_some() && to_pages[i].is_none() {
                let dest = tx.inkeys[1];
                proof {
                    assert(dest == calls[i as int].destination());
                }
                let ghost pre = *self;
                let ghost pre_to = to_pages@;
                let ix = self.alloc_page(dest, tx.contract, 0);
                to_pages[i] = Some(ix);
                proof {
                    let np = PageModel {
                        owner: dest,
                        contract: tx@.contract,
                        balance: 0,
                        version: 0,
                        memhash: crate::keys::HashValue::spec_default(),
                        memory: Seq::empty(),
                    };
                    // The mapped sum stands: the new page holds nothing.
                    if pre.allocated_pages.free@.len() > 0 {
                        assert(pre.dir()[ix as int] is None);
                        lemma_mapped_sum_remap(
                            pre.dir(),
                            pre.pages(),
                            ix as int,
                            dest,
                            np,
                            pre.pages().len() as int,
                        );
                    } else {
                        lemma_mapped_sum_push(
                            pre.dir(),
                            pre.pages(),
                            dest,
                            np,
                            pre.pages().len() as int,
                        );
                        assert(spec_mapped_sum_upto(
                            self.dir(),
                            self.pages(),
                            self.pages().len() as int,
                        ) == spec_mapped_sum_upto(
                            self.dir(),
                            self.pages(),
                            pre.pages().len() as int,
                        ) + np.balance);
                    }
                    // Remaining fresh destinations stay absent.
                    assert forall|j: int|
                        i + 1 <= j < n && (#[trigger] from_pages@[j]) is Some && to_pages@[j]
                            is None implies spec_find_from(
                        self.dir(),
                        calls[j].destination(),
                        0,
                    ) is None by {
                        assert(to_pages@[j] == pre_to[j]);
                        assert(calls[j].destination() != dest);
                        crate::alloc_pages::lemma_find_props(pre.dir(), calls[j].destination(), 0);
                        crate::alloc_pages::lemma_find_props(self.dir(), calls[j].destination(), 0);
                    }
                }
            }
            i = i + 1;
        }
    }
}


/// The decoded 64-bit argument of a call: exactly 8 little-endian bytes.
pub open spec fn spec_decode_u64(s: Seq<u8>) -> Option<u64> {
    if s.len() == 8 {
        Some(le_value(s) as u64)
    } else {
        None
    }
}

/// The decoded key argument of a call: exactly 32 little-endian bytes.
pub open spec fn spec_decode_key(s: Seq<u8>) -> Option<Pubkey> {
    if s.len() == 32 {
        Some(
            Pubkey {
                w0: le_value(s.subrange(0, 8)) as u64,
                w1: le_value(s.subrange(8, 16)) as u64,
                w2: le_value(s.subrange(16, 24)) as u64,
                w3: le_value(s.subrange(24, 32)) as u64,
            },
        )
    } else {
        None
    }
}

/// A byte string's value fits in as many bytes as it has.
pub proof fn lemma_le_value_bound(s: Seq<u8>)
    ensures
        le_value(s) < crate::codec::pow256(s.len()),
    decreases s.len(),
{
    if s.len() == 0 {
    } else {
        lemma_le_value_bound(s.drop_first());
        assert(le_value(s.drop_first()) <= crate::codec::pow256((s.len() - 1) as nat) - 1);
        assert(s[0] + 256 * le_value(s.drop_first()) <= 255 + 256 * (crate::codec::pow256(
            (s.len() - 1) as nat,
        ) - 1)) by (nonlinear_arith)
            requires
                s[0] <= 255,
                le_value(s.drop_first()) <= crate::codec::pow256((s.len() - 1) as nat) - 1,
        ;
    }
}

fn decode_u64_arg(b: &Vec<u8>) -> (r: Option<u64>)
    ensures
        r == spec_decode_u64(b@),
{
    if b.len() == 8 {
        proof {
            crate::codec::lemma_pow256_values();
            lemma_le_value_bound(b@);
            assert(b@.subrange(0, 8) =~= b@);
        }
        Some(crate::codec::read_u64(b.as_slice(), 0))
    } else {
        None
    }
}

fn decode_key_arg(b: &Vec<u8>) -> (r: Option<Pubkey>)
    ensures
        r == spec_decode_key(b@),
{
    if b.len() == 32 {
        proof {
            crate::codec::lemma_pow256_values();
            lemma_le_value_bound(b@.subrange(0, 8));
            lemma_le_value_bound(b@.subrange(8, 16));
            lemma_le_value_bound(b@.subrange(16, 24));
            lemma_le_value_bound(b@.subrange(24, 32));
        }
        let s = b.as_slice();
        let w0 = crate::codec::read_u64(s, 0);
        let w1 = crate::codec::read_u64(s, 8);
        let w2 = crate::codec::read_u64(s, 16);
        let w3 = crate::codec::read_u64(s, 24);
        Some(Pubkey { w0, w1, w2, w3 })
    } else {
        None
    }
}

/// Bytes resized to `sz`: truncated, or padded with zeros.
pub open spec fn spec_resize_bytes(m: Seq<u8>, sz: nat) -> Seq<u8> {
    if sz <= m.len() {
        m.take(sz as int)
    } else {
        m + Seq::new((sz - m.len()) as nat, |j: int| 0u8)
    }
}

fn resize_bytes(v: &mut Vec<u8>, sz: usize)
    ensures
        final(v)@ == spec_resize_bytes(old(v)@, sz as nat),
{
    if sz <= v.len() {
        v.truncate(sz);
    } else {
        let ghost pre = v@;
        while v.len() < sz
            invariant
                pre.len() <= v@.len() <= sz,
                v@ == pre + Seq::new((v@.len() - pre.len()) as nat, |j: int| 0u8),
            decreases sz - v@.len(),
        {
            v.push(0);
            proof {
                assert(v@ =~= pre + Seq::new((v@.len() - pre.len()) as nat, |j: int| 0u8));
            }
        }
    }
}

/// What dispatching a call does to its two pages: resize the caller's
/// memory, assign a default page to a contract, or move funds under the
/// default contract; anything else is a no-op.
pub open spec fn spec_dispatch(c: CallModel, p0: PageModel, p1: PageModel) -> (PageModel,
    PageModel,
) {
    if c.method == 0 {
        match spec_decode_u64(c.user_data) {
            Some(sz) => if sz <= usize::MAX {
                (PageModel { memory: spec_resize_bytes(p0.memory, sz as nat), ..p0 }, p1)
            } else {
                (p0, p1)
            },
            None => (p0, p1),
        }
    } else if c.method == 1 {
        if c.contract == spec_default_contract() && p0.contract == spec_default_contract() {
            match spec_decode_key(c.user_data) {
                Some(k) => (PageModel { contract: k, ..p0 }, p1),
                None => (p0, p1),
            }
        } else {
            (p0, p1)
        }
    } else if c.contract == spec_default_contract() && c.method == 128 {
        if p0.balance >= c.amount && p1.balance + c.amount <= u64::MAX {
            (
                PageModel { balance: (p0.balance - c.amount) as u64, ..p0 },
                PageModel { balance: (p1.balance + c.amount) as u64, ..p1 },
            )
        } else {
            (p0, p1)
        }
    } else {
        (p0, p1)
    }
}

/// The pages of one executed call: the fee is debited and the version
/// advanced up front; the dispatched writes are kept only if they created
/// no value and moved none across the contract boundary.
pub open spec fn spec_exec_one(pages: Seq<PageModel>, c: CallModel, f: int, t: int) -> Seq<
    PageModel,
> {
    let pf = pages[f];
    let debited = PageModel { balance: (pf.balance - c.fee) as u64, version: c.version, ..pf };
    let pages1 = pages.update(f, debited);
    let d = spec_dispatch(c, pages1[f], pages1[t]);
    let pre_total = pages1[f].balance + pages1[t].balance;
    let post_total = d.0.balance + d.1.balance;
    let pre_spend = spec_spendable(c, pages1[f]) + spec_spendable(c, pages1[t]);
    let post_spend = spec_spendable(c, d.0) + spec_spendable(c, d.1);
    if post_total == pre_total && post_spend == pre_spend {
        pages1.update(f, d.0).update(t, d.1)
    } else {
        pages1
    }
}

/// A page's balance as far as the call may spend it: counted only when
/// the page belongs to the call's contract.
pub open spec fn spec_spendable(c: CallModel, p: PageModel) -> int {
    if p.contract == c.contract {
        p.balance as int
    } else {
        0
    }
}

/// The complement: balance the call must not touch.
pub open spec fn spec_unspendable(c: CallModel, p: PageModel) -> int {
    if p.contract == c.contract {
        0
    } else {
        p.balance as int
    }
}

/// Whether call `i` reaches execution: its debit validated and its
/// destination resolved.
pub open spec fn spec_loaded(from: Seq<Option<usize>>, to: Seq<Option<usize>>, i: int) -> bool {
    from[i] is Some && to[i] is Some
}

/// The pages after executing calls `i` onward.
pub open spec fn spec_exec_batch(
    pages: Seq<PageModel>,
    calls: Seq<CallModel>,
    from: Seq<Option<usize>>,
    to: Seq<Option<usize>>,
    i: int,
) -> Seq<PageModel>
    decreases calls.len() - i,
    when 0 <= i <= calls.len() && from.len() == calls.len() && to.len() == calls.len()
{
    if i >= calls.len() {
        pages
    } else if spec_loaded(from, to, i) {
        spec_exec_batch(
            spec_exec_one(pages, calls[i], from[i].unwrap() as int, to[i].unwrap() as int),
            calls,
            from,
            to,
            i + 1,
        )
    } else {
        spec_exec_batch(pages, calls, from, to, i + 1)
    }
}

/// The fees of the calls from `i` onward that reach execution.
pub open spec fn spec_loaded_fees(
    calls: Seq<CallModel>,
    from: Seq<Option<usize>>,
    to: Seq<Option<usize>>,
    i: int,
) -> int
    decreases calls.len() - i,
    when 0 <= i <= calls.len() && from.len() == calls.len() && to.len() == calls.len()
{
    if i >= calls.len() {
        0
    } else {
        (if spec_loaded(from, to, i) {
            calls[i].fee as int
        } else {
            0
        }) + spec_loaded_fees(calls, from, to, i + 1)
    }
}

/// Dispatch a call against its two pages.
fn exec_dispatch(c: &Call, p0: Page, p1: Page) -> (r: (Page, Page))
    ensures
        (r.0@, r.1@) == spec_dispatch(c@, p0@, p1@),
{
    let mut q0 = p0;
    let mut q1 = p1;
    if c.method == 0 {
        match decode_u64_arg(&c.user_data) {
            Some(sz) => {
                if sz <= (usize::MAX as u64) {
                    resize_bytes(&mut q0.memory, sz as usize);
                }
            },
            None => {},
        }
    } else if c.method == 1 {
        let d = Pubkey::default_key();
        if c.contract == d && q0.contract == d {
            match decode_key_arg(&c.user_data) {
                Some(k) => {
                    q0.contract = k;
                },
                None => {},
            }
        }
    } else if c.contract == Pubkey::default_key() && c.method == 128 {
        if q0.balance >= c.amount && q1.balance <= u64::MAX - c.amount {
            q0.balance = q0.balance - c.amount;
            q1.balance = q1.balance + c.amount;
        }
    }
    (q0, q1)
}


/// Executing one call touches only its two pages and never changes an
/// owner.
pub proof fn lemma_exec_one_frame(pages: Seq<PageModel>, c: CallModel, f: int, t: int)
    requires
        0 <= f < pages.len(),
        0 <= t < pages.len(),
        f != t,
    ensures
        spec_exec_one(pages, c, f, t).len() == pages.len(),
        forall|ix: int|
            0 <= ix < pages.len() && ix != f && ix != t ==> spec_exec_one(pages, c, f, t)[ix]
                == pages[ix],
        spec_exec_one(pages, c, f, t)[f].owner == pages[f].owner,
        spec_exec_one(pages, c, f, t)[t].owner == pages[t].owner,
{
    let pf = pages[f];
    let debited = PageModel { balance: (pf.balance - c.fee) as u64, version: c.version, ..pf };
    let pages1 = pages.update(f, debited);
    let d = spec_dispatch(c, pages1[f], pages1[t]);
    assert(d.0.owner == pages1[f].owner);
    assert(d.1.owner == pages1[t].owner);
}

/// Executing one call burns exactly its fee from the live total.
pub proof fn lemma_exec_one_sum(
    dir: Seq<Option<Pubkey>>,
    pages: Seq<PageModel>,
    c: CallModel,
    f: int,
    t: int,
)
    requires
        0 <= f < pages.len(),
        0 <= t < pages.len(),
        f != t,
        dir.len() == pages.len(),
        dir[f] is Some,
        dir[t] is Some,
        pages[f].balance >= c.fee,
    ensures
        spec_mapped_sum(dir, spec_exec_one(pages, c, f, t)) == spec_mapped_sum(dir, pages)
            - c.fee,
{
    let pf = pages[f];
    let debited = PageModel { balance: (pf.balance - c.fee) as u64, version: c.version, ..pf };
    let pages1 = pages.update(f, debited);
    let n = pages.len() as int;
    lemma_mapped_sum_update(dir, pages, f, debited, n);
    let d = spec_dispatch(c, pages1[f], pages1[t]);
    let pre_total = pages1[f].balance + pages1[t].balance;
    let post_total = d.0.balance + d.1.balance;
    let pre_spend = spec_spendable(c, pages1[f]) + spec_spendable(c, pages1[t]);
    let post_spend = spec_spendable(c, d.0) + spec_spendable(c, d.1);
    if post_total == pre_total && post_spend == pre_spend {
        let pages2 = pages1.update(f, d.0);
        lemma_mapped_sum_update(dir, pages1, f, d.0, n);
        lemma_mapped_sum_update(dir, pages2, t, d.1, n);
        assert(pages2[t] == pages1[t]);
    }
}

/// Balance the call's contract does not own is conserved exactly, and the
/// contract's own balance drops by exactly the fee, for every executed
/// call, committed or rolled back.
pub proof fn lemma_exec_one_conserves(pages: Seq<PageModel>, c: CallModel, f: int, t: int)
    requires
        0 <= f < pages.len(),
        0 <= t < pages.len(),
        f != t,
        pages[f].contract == c.contract,
        pages[f].balance >= c.fee,
    ensures
        spec_unspendable(c, spec_exec_one(pages, c, f, t)[f]) + spec_unspendable(
            c,
            spec_exec_one(pages, c, f, t)[t],
        ) == spec_unspendable(c, pages[f]) + spec_unspendable(c, pages[t]),
        spec_spendable(c, spec_exec_one(pages, c, f, t)[f]) + spec_spendable(
            c,
            spec_exec_one(pages, c, f, t)[t],
        ) == spec_spendable(c, pages[f]) + spec_spendable(c, pages[t]) - c.fee,
{
    let pf = pages[f];
    let debited = PageModel { balance: (pf.balance - c.fee) as u64, version: c.version, ..pf };
    let pages1 = pages.update(f, debited);
    let d = spec_dispatch(c, pages1[f], pages1[t]);
    let pre_total = pages1[f].balance + pages1[t].balance;
    let post_total = d.0.balance + d.1.balance;
    let pre_spend = spec_spendable(c, pages1[f]) + spec_spendable(c, pages1[t]);
    let post_spend = spec_spendable(c, d.0) + spec_spendable(c, d.1);
    if post_total == pre_total && post_spend == pre_spend {
        let r = pages1.update(f, d.0).update(t, d.1);
        assert(r[f] == d.0);
        assert(r[t] == d.1);
        assert(spec_unspendable(c, d.0) + spec_unspendable(c, d.1) == post_total - post_spend);
        assert(spec_unspendable(c, pages1[f]) + spec_unspendable(c, pages1[t]) == pre_total
            - pre_spend);
    }
}

/// A call whose caller page already carries its version can no longer
/// validate: this is what makes a re-run of a batch a no-op.
pub proof fn lemma_revalidate_executed(
    dir: Seq<Option<Pubkey>>,
    pages: Seq<PageModel>,
    c: CallModel,
    acq: bool,
    ix: int,
)
    requires
        spec_find_from(dir, c.caller(), 0) == Some(ix),
        0 <= ix < pages.len(),
        pages[ix].version >= c.version,
    ensures
        spec_validate_one(dir, pages, c, acq) is None,
{
}

/// With no validated call, the allocation stage changes nothing.
pub proof fn lemma_allocate_stage_noop(
    dir: Seq<Option<Pubkey>>,
    free: Seq<usize>,
    pages: Seq<PageModel>,
    calls: Seq<CallModel>,
    from: Seq<Option<usize>>,
    to: Seq<Option<usize>>,
    i: int,
)
    requires
        0 <= i <= calls.len(),
        from.len() == calls.len(),
        to.len() == calls.len(),
        forall|j: int| 0 <= j < calls.len() ==> (#[trigger] from[j]) is None,
    ensures
        spec_allocate_batch(dir, free, pages, calls, from, to, i) == (dir, free, pages, to),
    decreases calls.len() - i,
{
    if i < calls.len() {
        lemma_allocate_stage_noop(dir, free, pages, calls, from, to, i + 1);
    }
}

/// With no validated call, the execution stage changes nothing.
pub proof fn lemma_exec_stage_noop(
    pages: Seq<PageModel>,
    calls: Seq<CallModel>,
    from: Seq<Option<usize>>,
    to: Seq<Option<usize>>,
    i: int,
)
    requires
        0 <= i <= calls.len(),
        from.len() == calls.len(),
        to.len() == calls.len(),
        forall|j: int| 0 <= j < calls.len() ==> (#[trigger] from[j]) is None,
    ensures
        spec_exec_batch(pages, calls, from, to, i) == pages,
    decreases calls.len() - i,
{
    if i < calls.len() {
        lemma_exec_stage_noop(pages, calls, from, to, i + 1);
    }
}

impl PageTable {
    /// Stage 5: execute every call whose debit validated and whose
    /// destination resolved. The fee is debited and the caller's version
    /// advanced up front; the call's writes are committed only if they
    /// created no value and moved no balance across the contract boundary.
    pub fn load_and_execute(
        &mut self,
        packet: &Vec<Call>,
        from_pages: &Vec<Option<usize>>,
        to_pages: &Vec<Option<usize>>,
    )
        requires
            old(self).wf(),
            from_pages@.len() == packet@.len(),
            to_pages@.len() == packet@.len(),
            // Each executed call's pages: in bounds, distinct, mapped, and
            // able to pay.
            forall|i: int|
                0 <= i < packet@.len() && #[trigger] spec_loaded(from_pages@, to_pages@, i) ==> ({
                    let c = calls_view(packet@)[i];
                    let f = from_pages@[i].unwrap() as int;
                    let t = to_pages@[i].unwrap() as int;
                    &&& c.inkeys.len() == 2
                    &&& 0 <= f < old(self).pages().len()
                    &&& 0 <= t < old(self).pages().len()
                    &&& f != t
                    &&& old(self).dir()[f] is Some
                    &&& old(self).dir()[t] is Some
                    &&& old(self).pages()[f].owner == c.caller()
                    &&& old(self).pages()[f].contract == c.contract
                    &&& old(self).pages()[f].balance >= c.fee + c.amount
                    &&& old(self).pages()[f].version < c.version
                }),
            // Executed calls touch pairwise disjoint pages.
            forall|i: int, j: int|
                0 <= i < j < packet@.len() && #[trigger] spec_loaded(from_pages@, to_pages@, i)
                    && #[trigger] spec_loaded(from_pages@, to_pages@, j) ==> from_pages@[i]
                    != from_pages@[j] && from_pages@[i] != to_pages@[j] && to_pages@[i]
                    != from_pages@[j] && to_pages@[i] != to_pages@[j],
        ensures
            final(self).wf(),
            final(self).pages() == spec_exec_batch(
                old(self).pages(),
                calls_view(packet@),
                from_pages@,
                to_pages@,
                0,
            ),
            final(self).dir() == old(self).dir(),
            final(self).allocated_pages == old(self).allocated_pages,
            final(self).mem_locks@ == old(self).mem_locks@,
            // The live total drops by exactly the fees of the executed
            // calls: no call creates or destroys value beyond its fee.
            spec_mapped_sum(final(self).dir(), final(self).pages()) == spec_mapped_sum(
                old(self).dir(),
                old(self).pages(),
            ) - spec_loaded_fees(calls_view(packet@), from_pages@, to_pages@, 0),
            // Every executed call leaves its version on the caller page,
            // so re-validating it fails.
            forall|i: int|
                0 <= i < packet@.len() && #[trigger] spec_loaded(from_pages@, to_pages@, i)
                    ==> final(self).pages()[from_pages@[i].unwrap() as int].version
                    == calls_view(packet@)[i].version,
    {
        let ghost calls = calls_view(packet@);
        let ghost pages0 = old(self).pages();
        let ghost full = spec_exec_batch(pages0, calls, from_pages@, to_pages@, 0);
        let ghost total_fees = spec_loaded_fees(calls, from_pages@, to_pages@, 0);
        let n = packet.len();
        let mut i: usize = 0;
        while i < n
            invariant
                i <= n,
                n == packet@.len(),
                calls == calls_view(packet@),
                from_pages@.len() == n,
                to_pages@.len() == n,
                self.wf(),
                self.dir() == old(self).dir(),
                self.allocated_pages == old(self).allocated_pages,
                self.mem_locks@ == old(self).mem_locks@,
                self.pages().len() == pages0.len(),
                spec_exec_batch(self.pages(), calls, from_pages@, to_pages@, i as int) == full,
                spec_mapped_sum(self.dir(), self.pages()) == spec_mapped_sum(
                    old(self).dir(),
                    pages0,
                ) - (total_fees - spec_loaded_fees(calls, from_pages@, to_pages@, i as int)),
                total_fees == spec_loaded_fees(calls, from_pages@, to_pages@, 0),
                // Pages of calls not yet executed are untouched.
                forall|j: int|
                    i <= j < n && #[trigger] spec_loaded(from_pages@, to_pages@, j) ==> self.pages()[from_pages@[j].unwrap() as int]
                        == pages0[from_pages@[j].unwrap() as int] && self.pages()[to_pages@[j].unwrap() as int]
                        == pages0[to_pages@[j].unwrap() as int],
                // Executed calls carry their version.
                forall|j: int|
                    0 <= j < i && #[trigger] spec_loaded(from_pages@, to_pages@, j) ==> self.pages()[from_pages@[j].unwrap() as int].version
                        == calls[j].version,
                // The stage preconditions, restated over the start state.
                forall|j: int|
                    0 <= j < n && #[trigger] spec_loaded(from_pages@, to_pages@, j) ==> ({
                        let c = calls[j];
                        let f = from_pages@[j].unwrap() as int;
                        let t = to_pages@[j].unwrap() as int;
                        &&& c.inkeys.len() == 2
                        &&& 0 <= f < pages0.len()
                        &&& 0 <= t < pages0.len()
                        &&& f != t
                        &&& old(self).dir()[f] is Some
                        &&& old(self).dir()[t] is Some
                        &&& pages0[f].contract == c.contract
                        &&& pages0[f].balance >= c.fee + c.amount
                        &&& pages0[f].version < c.version
                    }),
                forall|j: int, j2: int|
                    0 <= j < j2 < n && #[trigger] spec_loaded(from_pages@, to_pages@, j)
                        && #[trigger] spec_loaded(from_pages@, to_pages@, j2) ==> from_pages@[j]
                        != from_pages@[j2] && from_pages@[j] != to_pages@[j2] && to_pages@[j]
                        != from_pages@[j2] && to_pages@[j] != to_pages@[j2],
            decreases n - i,
        {
            let tx = &packet[i];
            proof {
                assert(calls[i as int] == tx@);
            }
            if from_pages[i].is_some() && to_pages[i].is_some() {
                let f = from_pages[i].unwrap();
                let t = to_pages[i].unwrap();
                proof {
                    assert(spec_loaded(from_pages@, to_pages@, i as int));
                }
                let ghost pre = self.pages();
                // Debit the fee and advance the version on the caller's
                // page; these stick whether or not the call commits.
                let caller_page = &self.page_table[f];
                let debited = Page {
                    owner: caller_page.owner,
                    contract: caller_page.contract,
                    balance: caller_page.balance - tx.fee,
                    version: tx.version,
                    memhash: caller_page.memhash,
                    memory: crate::page::copy_bytes(&caller_page.memory),
                };
                self.page_table[f] = debited;
                proof {
                    assert(self.pages() =~= pre.update(
                        f as int,
                        PageModel {
                            balance: (pre[f as int].balance - tx@.fee) as u64,
                            version: tx@.version,
                            ..pre[f as int]
                        },
                    ));
                }
                let p0 = self.page_table[f].clone();
                let p1 = self.page_table[t].clone();
                let (q0, q1) = exec_dispatch(tx, p0, p1);
                let pre_b0 = self.page_table[f].balance;
                let pre_b1 = self.page_table[t].balance;
                let pre_c0 = self.page_table[f].contract;
                let pre_c1 = self.page_table[t].contract;
                let pre_total: u128 = (pre_b0 as u128) + (pre_b1 as u128);
                let post_total: u128 = (q0.balance as u128) + (q1.balance as u128);
                let pre_spend: u128 = (if pre_c0 == tx.contract {
                    pre_b0 as u128
                } else {
                    0
                }) + (if pre_c1 == tx.contract {
                    pre_b1 as u128
                } else {
                    0
                });
                let post_spend: u128 = (if q0.contract == tx.contract {
                    q0.balance as u128
                } else {
                    0
                }) + (if q1.contract == tx.contract {
                    q1.balance as u128
                } else {
                    0
                });
                let ghost pages1 = self.pages();
                if post_total == pre_total && post_spend == pre_spend {
                    self.page_table[f] = q0;
                    proof {
                        assert(self.pages() =~= pages1.update(f as int, q0@));
                    }
                    self.page_table[t] = q1;
                    proof {
                        assert(self.pages() =~= pages1.update(f as int, q0@).update(
                            t as int,
                            q1@,
                        ));
                    }
                }
                proof {
                    assert(self.pages() == spec_exec_one(pre, tx@, f as int, t as int));
                    lemma_exec_one_frame(pre, tx@, f as int, t as int);
                    lemma_exec_one_sum(self.dir(), pre, tx@, f as int, t as int);
                    assert(spec_loaded_fees(calls, from_pages@, to_pages@, i as int) == tx@.fee
                        + spec_loaded_fees(calls, from_pages@, to_pages@, i as int + 1));
                    // The dir-to-owner invariant survives: owners do not
                    // move.
                    assert forall|ix: int|
                        0 <= ix < self.dir().len() && (#[trigger] self.dir()[ix])
                            is Some implies self.pages()[ix].owner == self.dir()[ix].unwrap() by {
                        if ix != f as int && ix != t as int {
                            assert(self.pages()[ix] == pre[ix]);
                        }
                    }
                }
            } else {
                proof {
                    assert(spec_loaded_fees(calls, from_pages@, to_pages@, i as int)
                        == spec_loaded_fees(calls, from_pages@, to_pages@, i as int + 1));
                }
            }
            i = i + 1;
        }
    }
}


/// The blob and fill cursor after copying in executable calls, stopping
/// when the blob is full.
pub open spec fn spec_fill(
    calls: Seq<CallModel>,
    from: Seq<Option<usize>>,
    to: Seq<Option<usize>>,
    blob: Seq<CallModel>,
    filled: int,
    i: int,
) -> (Seq<CallModel>, int)
    decreases calls.len() - i,
    when 0 <= i <= calls.len()
{
    if i >= calls.len() || filled >= blob.len() {
        (blob, filled)
    } else if from[i] is Some && to[i] is Some {
        spec_fill(calls, from, to, blob.update(filled, calls[i]), filled + 1, i + 1)
    } else {
        spec_fill(calls, from, to, blob, filled, i + 1)
    }
}

impl PageTable {
    /// Copy the calls that reached execution into `blob`, from position
    /// `filled` on, until the blob is full.
    pub fn fill_blob(
        packet: &Vec<Call>,
        from_pages: &Vec<Option<usize>>,
        to_pages: &Vec<Option<usize>>,
        blob: &mut Vec<Call>,
        filled: &mut usize,
    )
        requires
            from_pages@.len() == packet@.len(),
            to_pages@.len() == packet@.len(),
            *old(filled) <= old(blob)@.len(),
        ensures
            (calls_view(final(blob)@), *final(filled) as int) == spec_fill(
                calls_view(packet@),
                from_pages@,
                to_pages@,
                calls_view(old(blob)@),
                *old(filled) as int,
                0,
            ),
            final(blob)@.len() == old(blob)@.len(),
    {
        let ghost calls = calls_view(packet@);
        let ghost full = spec_fill(
            calls,
            from_pages@,
            to_pages@,
            calls_view(old(blob)@),
            *old(filled) as int,
            0,
        );
        let n = packet.len();
        let cap = blob.len();
        let mut i: usize = 0;
        while i < n && *filled < cap
            invariant
                i <= n,
                n == packet@.len(),
                calls == calls_view(packet@),
                from_pages@.len() == n,
                to_pages@.len() == n,
                cap == blob@.len(),
                *filled <= cap,
                spec_fill(
                    calls,
                    from_pages@,
                    to_pages@,
                    calls_view(blob@),
                    *filled as int,
                    i as int,
                ) == full,
            decreases n - i,
        {
            let tx = &packet[i];
            proof {
                assert(calls[i as int] == tx@);
            }
            if from_pages[i].is_some() && to_pages[i].is_some() {
                let ghost preblob = calls_view(blob@);
                blob[*filled] = tx.clone();
                proof {
                    assert(calls_view(blob@) =~= preblob.update(*filled as int, tx@));
                }
                *filled = *filled + 1;
            }
            i = i + 1;
        }
    }
}


/// A batch whose calls carry no fee burns nothing: with the exact
/// accounting of the execution stage, the live total is conserved.
pub proof fn lemma_zero_fee_batch_conserves(
    calls: Seq<CallModel>,
    from: Seq<Option<usize>>,
    to: Seq<Option<usize>>,
    i: int,
)
    requires
        0 <= i <= calls.len(),
        from.len() == calls.len(),
        to.len() == calls.len(),
        forall|j: int| 0 <= j < calls.len() ==> (#[trigger] calls[j]).fee == 0,
    ensures
        spec_loaded_fees(calls, from, to, i) == 0,
    decreases calls.len() - i,
{
    if i < calls.len() {
        lemma_zero_fee_batch_conserves(calls, from, to, i + 1);
    }
}

/// A call that failed validation keeps failing on any table whose caller
/// page it maps to is unchanged: together with the executed calls'
/// version bumps, a re-run of a batch validates nothing.
pub proof fn lemma_unvalidated_stays_invalid(
    dir: Seq<Option<Pubkey>>,
    pages: Seq<PageModel>,
    pages2: Seq<PageModel>,
    c: CallModel,
    acq: bool,
)
    requires
        spec_validate_one(dir, pages, c, acq) is None,
        pages2.len() == pages.len(),
        (match spec_find_from(dir, c.caller(), 0) {
            Some(ix) => 0 <= ix < pages.len() ==> pages2[ix] == pages[ix],
            None => true,
        }),
    ensures
        spec_validate_one(dir, pages2, c, acq) is None,
{
}


/// Removing a key absent from a prefix reaches past it.
proof fn lemma_remove_key_skip_prefix(prefix: Seq<Pubkey>, rest: Seq<Pubkey>, key: Pubkey)
    requires
        !prefix.contains(key),
    ensures
        spec_remove_key(prefix + rest, key) == prefix + spec_remove_key(rest, key),
    decreases prefix.len(),
{
    if prefix.len() == 0 {
        assert(prefix + rest =~= rest);
        assert(prefix + spec_remove_key(rest, key) =~= spec_remove_key(rest, key));
    } else {
        assert((prefix + rest)[0] == prefix[0]);
        assert(prefix[0] != key) by {
            assert(prefix.contains(prefix[0]));
        }
        assert(prefix.drop_first().contains(key) ==> prefix.contains(key)) by {
            if prefix.drop_first().contains(key) {
                let w = choose|w: int|
                    0 <= w < prefix.drop_first().len() && prefix.drop_first()[w] == key;
                assert(prefix[w + 1] == key);
            }
        }
        lemma_remove_key_skip_prefix(prefix.drop_first(), rest, key);
        assert((prefix + rest).drop_first() =~= prefix.drop_first() + rest);
        assert(seq![prefix[0]] + (prefix.drop_first() + spec_remove_key(rest, key)) =~= prefix
            + spec_remove_key(rest, key));
    }
}

/// Removing a block of fresh keys that sits right after a prefix cuts it
/// out exactly.
proof fn lemma_remove_keys_block(prefix: Seq<Pubkey>, keys: Seq<Pubkey>, suffix: Seq<Pubkey>)
    requires
        keys_distinct(keys),
        forall|k: int| 0 <= k < keys.len() ==> !prefix.contains(#[trigger] keys[k]),
        forall|k: int| 0 <= k < keys.len() ==> !suffix.contains(#[trigger] keys[k]),
    ensures
        spec_remove_keys(prefix + keys + suffix, keys) == prefix + suffix,
    decreases keys.len(),
{
    if keys.len() == 0 {
        assert(prefix + keys + suffix =~= prefix + suffix);
    } else {
        let k0 = keys[0];
        assert(prefix + keys + suffix =~= prefix + (keys + suffix));
        lemma_remove_key_skip_prefix(prefix, keys + suffix, k0);
        assert((keys + suffix)[0] == k0);
        assert(spec_remove_key(keys + suffix, k0) == (keys + suffix).drop_first());
        assert((keys + suffix).drop_first() =~= keys.drop_first() + suffix);
        assert(spec_remove_key(prefix + keys + suffix, k0) == prefix + (keys.drop_first()
            + suffix));
        assert(prefix + (keys.drop_first() + suffix) =~= prefix + keys.drop_first() + suffix);
        assert forall|k: int|
            0 <= k < keys.drop_first().len() implies !prefix.contains(
            #[trigger] keys.drop_first()[k],
        ) && !suffix.contains(keys.drop_first()[k]) by {
            assert(keys.drop_first()[k] == keys[k + 1]);
        }
        assert forall|a: int, b: int|
            0 <= a < b < keys.drop_first().len() implies keys.drop_first()[a]
            != keys.drop_first()[b] by {
            assert(keys[a + 1] != keys[b + 1]);
        }
        lemma_remove_keys_block(prefix, keys.drop_first(), suffix);
        assert(spec_remove_keys(prefix + keys + suffix, keys) == spec_remove_keys(
            prefix + keys.drop_first() + suffix,
            keys.drop_first(),
        ));
    }
}

/// An acquisition's final lock set stays duplicate-free.
proof fn lemma_acquire_distinct(locks: Seq<Pubkey>, calls: Seq<CallModel>)
    requires
        keys_distinct(locks),
    ensures
        keys_distinct(spec_acquire(locks, calls).1),
    decreases calls.len(),
{
    if calls.len() > 0 {
        let collides = spec_call_collides(locks, calls[0]);
        if collides {
            lemma_acquire_distinct(locks, calls.drop_first());
        } else {
            let locks1 = locks + calls[0].inkeys;
            assert forall|a: int, b: int| 0 <= a < b < locks1.len() implies locks1[a]
                != locks1[b] by {
                let m = locks.len() as int;
                if b >= m {
                    if a >= m {
                        assert(calls[0].inkeys[a - m] != calls[0].inkeys[b - m]);
                    } else {
                        if locks[a] == calls[0].inkeys[b - m] {
                            assert(locks.contains(calls[0].inkeys[b - m]));
                            assert(false);
                        }
                    }
                }
            }
            lemma_acquire_distinct(locks1, calls.drop_first());
        }
    }
}


/// The keys the acquired calls of a batch locked, in batch order.
pub open spec fn spec_added_keys(calls: Seq<CallModel>, acq: Seq<bool>) -> Seq<Pubkey>
    decreases calls.len(),
{
    if calls.len() == 0 || acq.len() == 0 {
        Seq::empty()
    } else {
        (if acq[0] {
            calls[0].inkeys
        } else {
            Seq::empty()
        }) + spec_added_keys(calls.drop_first(), acq.drop_first())
    }
}

/// What an acquisition leaves behind: the old locks followed by the keys
/// of each acquired call.
proof fn lemma_acquire_adds(locks: Seq<Pubkey>, calls: Seq<CallModel>)
    ensures
        spec_acquire(locks, calls).1 == locks + spec_added_keys(
            calls,
            spec_acquire(locks, calls).0,
        ),
    decreases calls.len(),
{
    lemma_acquire_len(locks, calls);
    if calls.len() == 0 {
        assert(locks + spec_added_keys(calls, spec_acquire(locks, calls).0) =~= locks);
    } else {
        let collides = spec_call_collides(locks, calls[0]);
        let locks1 = if collides {
            locks
        } else {
            locks + calls[0].inkeys
        };
        let rest = spec_acquire(locks1, calls.drop_first());
        let acq = spec_acquire(locks, calls).0;
        assert(acq[0] == !collides);
        assert(acq.drop_first() =~= rest.0);
        lemma_acquire_adds(locks1, calls.drop_first());
        if collides {
            assert(locks + spec_added_keys(calls, acq) =~= locks1 + spec_added_keys(
                calls.drop_first(),
                rest.0,
            ));
        } else {
            assert(locks + spec_added_keys(calls, acq) =~= locks1 + spec_added_keys(
                calls.drop_first(),
                rest.0,
            ));
        }
    }
}

/// Releasing the batch removes exactly the keys it added.
proof fn lemma_release_gen(prefix: Seq<Pubkey>, calls: Seq<CallModel>, acq: Seq<bool>)
    requires
        acq.len() == calls.len(),
        keys_distinct(prefix + spec_added_keys(calls, acq)),
    ensures
        spec_release(prefix + spec_added_keys(calls, acq), calls, acq) == prefix,
    decreases calls.len(),
{
    if calls.len() == 0 {
        assert(prefix + spec_added_keys(calls, acq) =~= prefix);
    } else {
        let added = spec_added_keys(calls, acq);
        let rest_added = spec_added_keys(calls.drop_first(), acq.drop_first());
        if !acq[0] {
            assert(added =~= rest_added);
            lemma_release_gen(prefix, calls.drop_first(), acq.drop_first());
        } else {
            let block = calls[0].inkeys;
            assert(added =~= block + rest_added);
            let whole = prefix + added;
            assert(whole =~= prefix + block + rest_added);
            let m = prefix.len() as int;
            let nk = block.len() as int;
            assert forall|a: int, b: int| 0 <= a < b < nk implies block[a] != block[b] by {
                assert(whole[m + a] != whole[m + b]);
            }
            assert forall|k: int| 0 <= k < nk implies !prefix.contains(#[trigger] block[k]) by {
                if prefix.contains(block[k]) {
                    let w = choose|w: int| 0 <= w < prefix.len() && prefix[w] == block[k];
                    assert(whole[w] == whole[m + k]);
                    assert(false);
                }
            }
            assert forall|k: int| 0 <= k < nk implies !rest_added.contains(
                #[trigger] block[k],
            ) by {
                if rest_added.contains(block[k]) {
                    let w = choose|w: int|
                        0 <= w < rest_added.len() && rest_added[w] == block[k];
                    assert(whole[m + nk + w] == whole[m + k]);
                    assert(false);
                }
            }
            lemma_remove_keys_block(prefix, block, rest_added);
            assert(spec_remove_keys(prefix + block + rest_added, block) == prefix + rest_added);
            assert(spec_remove_keys(whole, block) == prefix + rest_added);
            assert forall|a: int, b: int|
                0 <= a < b < (prefix + rest_added).len() implies (prefix + rest_added)[a] != (
            prefix + rest_added)[b] by {
                let pa: int = if a < m {
                    a
                } else {
                    a + nk
                };
                let pb: int = if b < m {
                    b
                } else {
                    b + nk
                };
                assert((prefix + rest_added)[a] == whole[pa]);
                assert((prefix + rest_added)[b] == whole[pb]);
                assert(whole[pa] != whole[pb]);
            }
            lemma_release_gen(prefix, calls.drop_first(), acq.drop_first());
        }
    }
}

/// Releasing what a batch acquired restores the lock set exactly: stage 6
/// undoes stage 1, so a dropped batch leaves no key behind.
pub proof fn lemma_release_undoes_acquire(locks: Seq<Pubkey>, calls: Seq<CallModel>)
    requires
        keys_distinct(locks),
    ensures
        spec_release(spec_acquire(locks, calls).1, calls, spec_acquire(locks, calls).0) == locks,
{
    lemma_acquire_len(locks, calls);
    lemma_acquire_adds(locks, calls);
    lemma_acquire_distinct(locks, calls);
    lemma_release_gen(locks, calls, spec_acquire(locks, calls).0);
}

} // verus!
