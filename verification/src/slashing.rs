//! Slashing detection: replay the union of this tower's slots with a
//! candidate vote into a fresh tower and report the slots the candidate
//! would have added that this tower did not.

use crate::keys::Pubkey;
use crate::lockout::Lockout;
use crate::vote_state::spec_process_slot_credits;
use crate::vote_state::spec_process_slot_root;
use crate::vote_state::spec_process_slot_votes;
use crate::vote_state::EpochCredit;
use crate::vote_state::VoteState;
use vstd::prelude::*;

verus! {

/// Strictly ascending, hence duplicate-free.
pub open spec fn sorted_unique(s: Seq<u64>) -> bool {
    forall|i: int, j: int| 0 <= i < j < s.len() ==> s[i] < s[j]
}

/// `x` inserted into a sorted duplicate-free sequence.
pub open spec fn spec_sorted_insert(s: Seq<u64>, x: u64) -> Seq<u64>
    decreases s.len(),
{
    if s.len() == 0 {
        seq![x]
    } else if x < s[0] {
        seq![x] + s
    } else if x == s[0] {
        s
    } else {
        seq![s[0]] + spec_sorted_insert(s.drop_first(), x)
    }
}

/// The sorted duplicate-free sequence of a sequence's elements.
pub open spec fn spec_sorted_set(s: Seq<u64>) -> Seq<u64>
    decreases s.len(),
{
    if s.len() == 0 {
        Seq::empty()
    } else {
        spec_sorted_insert(spec_sorted_set(s.drop_last()), s.last())
    }
}

/// Inserting into a sorted duplicate-free sequence keeps it so, and the
/// result either is the input (when present) or has the element placed at
/// its position.
pub proof fn lemma_sorted_insert(s: Seq<u64>, x: u64)
    requires
        sorted_unique(s),
    ensures
        sorted_unique(spec_sorted_insert(s, x)),
        s.contains(x) ==> spec_sorted_insert(s, x) == s,
        !s.contains(x) ==> spec_sorted_insert(s, x).len() == s.len() + 1,
    decreases s.len(),
{
    if s.len() == 0 {
    } else if x < s[0] {
        let r = seq![x] + s;
        assert forall|i: int, j: int| 0 <= i < j < r.len() implies r[i] < r[j] by {
            if i > 0 {
                assert(s[i - 1] < s[j - 1]);
            } else {
                if j > 1 {
                    assert(s[0] < s[j - 1]);
                }
            }
        }
        if s.contains(x) {
            let w = choose|w: int| 0 <= w < s.len() && s[w] == x;
            if w > 0 {
                assert(s[0] < s[w]);
            }
            assert(false);
        }
    } else if x == s[0] {
        assert(s.contains(x)) by {
            assert(s[0] == x);
        }
    } else {
        assert forall|i: int, j: int|
            0 <= i < j < s.drop_first().len() implies s.drop_first()[i] < s.drop_first()[j] by {
            assert(s[i + 1] < s[j + 1]);
        }
        lemma_sorted_insert(s.drop_first(), x);
        let tail = spec_sorted_insert(s.drop_first(), x);
        let r = seq![s[0]] + tail;
        // Everything in the new tail is above the head.
        assert forall|j: int| 0 <= j < tail.len() implies s[0] < tail[j] by {
            lemma_sorted_insert_elems(s.drop_first(), x, j);
            if tail[j] != x {
                let w = choose|w: int| 0 <= w < s.drop_first().len() && s.drop_first()[w]
                    == tail[j];
                assert(s[0] < s[w + 1]);
            }
        }
        assert forall|i: int, j: int| 0 <= i < j < r.len() implies r[i] < r[j] by {
            if i > 0 {
                assert(tail[i - 1] < tail[j - 1]);
            }
        }
        if s.contains(x) {
            let w = choose|w: int| 0 <= w < s.len() && s[w] == x;
            assert(s.drop_first()[w - 1] == x);
            assert(s.drop_first().contains(x));
            assert(r =~= s);
        } else {
            if s.drop_first().contains(x) {
                let w = choose|w: int| 0 <= w < s.drop_first().len() && s.drop_first()[w] == x;
                assert(s[w + 1] == x);
                assert(false);
            }
        }
    }
}

/// Every element of an insertion's result is the inserted element or one
/// of the originals.
pub proof fn lemma_sorted_insert_elems(s: Seq<u64>, x: u64, j: int)
    requires
        0 <= j < spec_sorted_insert(s, x).len(),
    ensures
        spec_sorted_insert(s, x)[j] == x || s.contains(spec_sorted_insert(s, x)[j]),
    decreases s.len(),
{
    if s.len() == 0 {
    } else if x < s[0] {
        if j > 0 {
            assert(s.contains(s[j - 1]));
        }
    } else if x == s[0] {
        assert(s.contains(s[j]));
    } else {
        if j > 0 {
            lemma_sorted_insert_elems(s.drop_first(), x, j - 1);
            let v = spec_sorted_insert(s, x)[j];
            if v != x {
                let w = choose|w: int| 0 <= w < s.drop_first().len() && s.drop_first()[w] == v;
                assert(s[w + 1] == v);
                assert(s.contains(v));
            }
        } else {
            assert(s.contains(s[0]));
        }
    }
}

/// Insert a slot into a sorted duplicate-free vector.
fn sorted_insert(v: &mut Vec<u64>, x: u64)
    requires
        sorted_unique(old(v)@),
        old(v)@.len() < usize::MAX,
    ensures
        final(v)@ == spec_sorted_insert(old(v)@, x),
        sorted_unique(final(v)@),
{
    proof {
        lemma_sorted_insert(old(v)@, x);
    }
    let n = v.len();
    let mut p: usize = 0;
    while p < n && v[p] < x
        invariant
            p <= n,
            n == v@.len(),
            v@ == old(v)@,
            forall|k: int| 0 <= k < p ==> v@[k] < x,
        decreases n - p,
    {
        p = p + 1;
    }
    if p < n && v[p] == x {
        proof {
            assert(v@.contains(x));
        }
        return ;
    }
    proof {
        if v@.contains(x) {
            let w = choose|w: int| 0 <= w < v@.len() && v@[w] == x;
            if w < p {
                assert(v@[w] < x);
            } else {
                if p < n {
                    assert(v@[p as int] < v@[w] || p == w);
                }
            }
            assert(false);
        }
    }
    v.insert(p, x);
    proof {
        lemma_sorted_insert_position(old(v)@, x, p as int);
        assert(v@ =~= old(v)@.take(p as int) + seq![x] + old(v)@.skip(p as int));
    }
}

/// Where the insertion lands: before the first element at or above `x`.
proof fn lemma_sorted_insert_position(s: Seq<u64>, x: u64, p: int)
    requires
        sorted_unique(s),
        0 <= p <= s.len(),
        forall|k: int| 0 <= k < p ==> s[k] < x,
        p < s.len() ==> s[p] > x,
    ensures
        spec_sorted_insert(s, x) == s.take(p) + seq![x] + s.skip(p),
    decreases p,
{
    if s.len() == 0 {
        assert(spec_sorted_insert(s, x) =~= s.take(0) + seq![x] + s.skip(0));
    } else if p == 0 {
        assert(x < s[0] || x == s[0] || x > s[0]);
        assert(s[0] > x);
        assert(spec_sorted_insert(s, x) =~= s.take(0) + seq![x] + s.skip(0));
    } else {
        assert(s[0] < x);
        assert forall|i: int, j: int|
            0 <= i < j < s.drop_first().len() implies s.drop_first()[i] < s.drop_first()[j] by {
            assert(s[i + 1] < s[j + 1]);
        }
        assert forall|k: int| 0 <= k < p - 1 implies s.drop_first()[k] < x by {
            assert(s[k + 1] < x);
        }
        lemma_sorted_insert_position(s.drop_first(), x, p - 1);
        assert(seq![s[0]] + (s.drop_first().take(p - 1) + seq![x] + s.drop_first().skip(p - 1))
            =~= s.take(p) + seq![x] + s.skip(p));
    }
}

/// The slots of a tower's lockout stack.
pub open spec fn spec_vote_slots(vs: Seq<Lockout>) -> Seq<u64> {
    vs.map_values(|l: Lockout| l.slot)
}

/// The root followed by the stack's slots.
pub open spec fn spec_state_slots(s: &VoteState) -> Seq<u64> {
    (match s.root_slot {
        Some(r) => seq![r],
        None => Seq::empty(),
    }) + spec_vote_slots(s.votes@)
}

/// A fresh tower replayed over a slot sequence, each slot processed under
/// the then-current epoch.
pub open spec fn spec_replay(
    vs: Seq<Lockout>,
    root: Option<u64>,
    ec: Seq<EpochCredit>,
    slots: Seq<u64>,
) -> (Seq<Lockout>, Option<u64>, Seq<EpochCredit>)
    decreases slots.len(),
{
    if slots.len() == 0 {
        (vs, root, ec)
    } else {
        let e = if ec.len() == 0 {
            0u64
        } else {
            ec.last().0
        };
        spec_replay(
            spec_process_slot_votes(vs, slots[0]),
            spec_process_slot_root(vs, root, slots[0]),
            spec_process_slot_credits(vs, ec, slots[0], e),
            slots.drop_first(),
        )
    }
}

/// The candidate prefix-matches the tower's root-and-slots sequence.
pub open spec fn spec_equal(state_slots: Seq<u64>, other: Seq<u64>) -> bool {
    forall|i: int|
        0 <= i < other.len() && i < state_slots.len() ==> other[i] == #[trigger] state_slots[i]
}

/// The tower's newest vote (or root, or zero) is no newer than the
/// candidate's last slot (or zero).
pub open spec fn spec_same_or_older_core(
    tower: Seq<Lockout>,
    root: Option<u64>,
    other: Seq<u64>,
) -> bool {
    (if tower.len() > 0 {
        tower.last().slot
    } else {
        match root {
            Some(r) => r,
            None => 0u64,
        }
    }) <= (if other.len() > 0 {
        other.last()
    } else {
        0u64
    })
}

/// The same, phrased over a state.
pub open spec fn spec_same_or_older(s: &VoteState, other: Seq<u64>) -> bool {
    spec_same_or_older_core(s.votes@, s.root_slot, other)
}

/// The elements of `s`, in order, that `excl` does not contain.
pub open spec fn spec_diff(s: Seq<u64>, excl: Seq<u64>) -> Seq<u64>
    decreases s.len(),
{
    if s.len() == 0 {
        Seq::empty()
    } else {
        spec_diff(s.drop_last(), excl) + (if excl.contains(s.last()) {
            Seq::empty()
        } else {
            seq![s.last()]
        })
    }
}

/// What `slashable_slots` reports, over the tower's stack and root alone:
/// empty when the candidate is consistent with the tower, otherwise the
/// replayed tower's slots not in this tower followed by those not in the
/// candidate.
pub open spec fn spec_slashable_slots_core(
    tower: Seq<Lockout>,
    root: Option<u64>,
    votes: Seq<u64>,
) -> Seq<u64> {
    let union = spec_sorted_set(spec_vote_slots(tower) + votes);
    let replayed = spec_replay(Seq::empty(), None, Seq::empty(), union);
    let test_slots = (match replayed.1 {
        Some(r) => seq![r],
        None => Seq::empty(),
    }) + spec_vote_slots(replayed.0);
    if spec_equal(test_slots, votes) || spec_same_or_older_core(tower, root, votes) {
        Seq::empty()
    } else {
        spec_diff(spec_vote_slots(replayed.0), spec_vote_slots(tower)) + spec_diff(
            spec_vote_slots(replayed.0),
            votes,
        )
    }
}

/// The same, phrased over a state.
pub open spec fn spec_slashable_slots(s: &VoteState, votes: Seq<u64>) -> Seq<u64> {
    spec_slashable_slots_core(s.votes@, s.root_slot, votes)
}

/// Whether a slot sequence contains `x`.
fn slots_contain(v: &Vec<u64>, x: u64) -> (r: bool)
    ensures
        r == v@.contains(x),
{
    let n = v.len();
    let mut i: usize = 0;
    while i < n
        invariant
            i <= n,
            n == v@.len(),
            forall|j: int| 0 <= j < i ==> v@[j] != x,
        decreases n - i,
    {
        if v[i] == x {
            return true;
        }
        i = i + 1;
    }
    false
}

impl VoteState {
    /// The root (if any) followed by every voted slot, oldest first.
    pub fn slots(&self) -> (r: Vec<u64>)
        ensures
            r@ == spec_state_slots(self),
    {
        let mut out: Vec<u64> = Vec::new();
        match self.root_slot {
            Some(r) => {
                out.push(r);
            },
            None => {},
        }
        let ghost prefix = out@;
        let n = self.votes.len();
        let mut i: usize = 0;
        while i < n
            invariant
                i <= n,
                n == self.votes@.len(),
                out@ == prefix + spec_vote_slots(self.votes@).take(i as int),
            decreases n - i,
        {
            out.push(self.votes[i].slot);
            proof {
                assert(out@ =~= prefix + spec_vote_slots(self.votes@).take(i as int + 1));
            }
            i = i + 1;
        }
        proof {
            assert(out@ =~= spec_state_slots(self));
        }
        out
    }

    /// One-sided comparison: the candidate agrees with this tower's
    /// root-and-slots sequence on their common prefix.
    pub fn equal(&self, other: &Vec<u64>) -> (r: bool)
        ensures
            r == spec_equal(spec_state_slots(self), other@),
    {
        let ss = self.slots();
        let n = if ss.len() < other.len() {
            ss.len()
        } else {
            other.len()
        };
        let mut i: usize = 0;
        while i < n
            invariant
                i <= n,
                ss@ == spec_state_slots(self),
                n <= ss@.len(),
                n <= other@.len(),
                n == if ss@.len() < other@.len() {
                    ss@.len() as int
                } else {
                    other@.len() as int
                },
                forall|j: int| 0 <= j < i ==> other@[j] == spec_state_slots(self)[j],
            decreases n - i,
        {
            if other[i] != ss[i] {
                return false;
            }
            i = i + 1;
        }
        true
    }

    /// Whether this tower's newest commitment is no newer than the
    /// candidate's last slot.
    pub fn same_or_older(&self, other: &Vec<u64>) -> (r: bool)
        ensures
            r == spec_same_or_older(self, other@),
    {
        let nv = self.votes.len();
        let mine = if nv > 0 {
            self.votes[nv - 1].slot
        } else {
            match self.root_slot {
                Some(r) => r,
                None => 0,
            }
        };
        let theirs = if other.len() > 0 {
            other[other.len() - 1]
        } else {
            0
        };
        mine <= theirs
    }

    /// The slots that would be slashable given a candidate vote sequence
    /// (sorted oldest to newest): empty when the candidate is consistent
    /// with this tower.
    pub fn slashable_slots(&self, votes: &Vec<u64>) -> (r: Vec<u64>)
        requires
            self.wf(),
            self.votes@.len() + votes@.len() < usize::MAX,
        ensures
            r@ == spec_slashable_slots(self, votes@),
    {
        // Sorted, duplicate-free union of this tower's slots with the
        // candidate's.
        let mut union: Vec<u64> = Vec::new();
        let ghost all = spec_vote_slots(self.votes@) + votes@;
        let nv = self.votes.len();
        let mut i: usize = 0;
        while i < nv
            invariant
                i <= nv,
                nv == self.votes@.len(),
                sorted_unique(union@),
                union@ == spec_sorted_set(all.take(i as int)),
                union@.len() <= i,
                all == spec_vote_slots(self.votes@) + votes@,
                nv + votes@.len() < usize::MAX,
            decreases nv - i,
        {
            proof {
                assert(all.take(i as int + 1).drop_last() =~= all.take(i as int));
                assert(all.take(i as int + 1).last() == all[i as int]);
                assert(all[i as int] == self.votes@[i as int].slot);
                lemma_sorted_insert(union@, self.votes@[i as int].slot);
            }
            sorted_insert(&mut union, self.votes[i].slot);
            i = i + 1;
        }
        let nc = votes.len();
        let mut k: usize = 0;
        while k < nc
            invariant
                k <= nc,
                nc == votes@.len(),
                nv == self.votes@.len(),
                sorted_unique(union@),
                union@ == spec_sorted_set(all.take(nv + k)),
                union@.len() <= nv + k,
                all == spec_vote_slots(self.votes@) + votes@,
                nv + votes@.len() < usize::MAX,
            decreases nc - k,
        {
            proof {
                assert(all.take(nv + k + 1).drop_last() =~= all.take(nv + k));
                assert(all.take(nv + k + 1).last() == all[nv + k]);
                assert(all[nv + k] == votes@[k as int]);
                lemma_sorted_insert(union@, votes@[k as int]);
            }
            sorted_insert(&mut union, votes[k]);
            k = k + 1;
        }
        proof {
            assert(all.take(all.len() as int) =~= all);
        }
        // Replay the union into a fresh tower.
        let mut test = VoteState::default();
        proof {
            assert(union@.skip(0) =~= union@);
        }
        let nu = union.len();
        let mut u: usize = 0;
        while u < nu
            invariant
                u <= nu,
                nu == union@.len(),
                test.wf(),
                test.spec_credits() <= u,
                nu < usize::MAX,
                spec_replay(test.votes@, test.root_slot, test.epoch_credits@, union@.skip(u as int))
                    == spec_replay(Seq::empty(), None, Seq::empty(), union@),
            decreases nu - u,
        {
            proof {
                assert(union@.skip(u as int)[0] == union@[u as int]);
                assert(union@.skip(u as int).drop_first() =~= union@.skip(u as int + 1));
            }
            test.process_slot_vote_unchecked(union[u]);
            u = u + 1;
        }
        proof {
            assert(union@.skip(nu as int) =~= Seq::<u64>::empty());
        }
        let mut retval: Vec<u64> = Vec::new();
        let consistent_first = test.equal(votes) || self.same_or_older(votes);
        if !consistent_first {
            let ghost tslots = spec_vote_slots(test.votes@);
            let self_slot_vec = self.vote_slot_vec();
            let nt = test.votes.len();
            let mut t: usize = 0;
            while t < nt
                invariant
                    t <= nt,
                    nt == test.votes@.len(),
                    tslots == spec_vote_slots(test.votes@),
                    self_slot_vec@ == spec_vote_slots(self.votes@),
                    retval@ == spec_diff(tslots.take(t as int), spec_vote_slots(self.votes@)),
                decreases nt - t,
            {
                proof {
                    assert(tslots.take(t as int + 1).drop_last() =~= tslots.take(t as int));
                    assert(tslots.take(t as int + 1).last() == test.votes@[t as int].slot);
                }
                let slot = test.votes[t].slot;
                if !slots_contain(&self_slot_vec, slot) {
                    retval.push(slot);
                    proof {
                        assert(retval@ =~= spec_diff(
                            tslots.take(t as int),
                            spec_vote_slots(self.votes@),
                        ) + seq![slot]);
                    }
                }
                t = t + 1;
            }
            let mut t2: usize = 0;
            let ghost first_part = retval@;
            while t2 < nt
                invariant
                    t2 <= nt,
                    nt == test.votes@.len(),
                    tslots == spec_vote_slots(test.votes@),
                    retval@ == first_part + spec_diff(tslots.take(t2 as int), votes@),
                decreases nt - t2,
            {
                proof {
                    assert(tslots.take(t2 as int + 1).drop_last() =~= tslots.take(t2 as int));
                    assert(tslots.take(t2 as int + 1).last() == test.votes@[t2 as int].slot);
                }
                let slot = test.votes[t2].slot;
                if !slots_contain(votes, slot) {
                    retval.push(slot);
                    proof {
                        assert(retval@ =~= first_part + (spec_diff(tslots.take(t2 as int), votes@)
                            + seq![slot]));
                    }
                }
                t2 = t2 + 1;
            }
            proof {
                assert(tslots.take(nt as int) =~= tslots);
            }
        }
        proof {
            let union_spec = spec_sorted_set(spec_vote_slots(self.votes@) + votes@);
            let replayed = spec_replay(Seq::empty(), None, Seq::empty(), union_spec);
            assert(test.votes@ == replayed.0);
            assert(test.root_slot == replayed.1);
            assert((match replayed.1 {
                Some(r) => seq![r],
                None => Seq::<u64>::empty(),
            }) + spec_vote_slots(replayed.0) =~= spec_state_slots(&test));
        }
        retval
    }

    /// The stack's slots as a vector.
    fn vote_slot_vec(&self) -> (r: Vec<u64>)
        ensures
            r@ == spec_vote_slots(self.votes@),
    {
        let mut out: Vec<u64> = Vec::new();
        let n = self.votes.len();
        let mut i: usize = 0;
        while i < n
            invariant
                i <= n,
                n == self.votes@.len(),
                out@ == spec_vote_slots(self.votes@).take(i as int),
            decreases n - i,
        {
            out.push(self.votes[i].slot);
            proof {
                assert(out@ =~= spec_vote_slots(self.votes@).take(i as int + 1));
            }
            i = i + 1;
        }
        proof {
            assert(spec_vote_slots(self.votes@).take(n as int) =~= spec_vote_slots(self.votes@));
        }
        out
    }
}


/// What the ancestry record says about a slot.
#[derive(PartialEq, Eq, Structural, Clone, Copy, Debug)]
pub enum SlotCheck {
    /// Beyond the newest recorded slot.
    Future,
    /// Below the window of recorded slots.
    TooOld,
    /// Recorded as an ancestor.
    Found,
    /// In the window but not an ancestor.
    NotFound,
}

/// A queryable ancestry: the slots of the chosen fork within a window.
#[derive(PartialEq, Eq, Clone, Debug)]
pub struct SlotHistory {
    /// Ancestor slots inside the window.
    pub slots: Vec<u64>,
    /// Newest slot recorded.
    pub newest: u64,
    /// Oldest slot still inside the window.
    pub oldest: u64,
}

impl SlotHistory {
    /// A fresh history: slot zero is recorded.
    pub fn new() -> (r: SlotHistory)
        ensures
            r.slots@ == seq![0u64],
            r.newest == 0,
            r.oldest == 0,
    {
        let mut slots: Vec<u64> = Vec::new();
        slots.push(0);
        proof {
            assert(slots@ =~= seq![0u64]);
        }
        SlotHistory { slots, newest: 0, oldest: 0 }
    }

    /// Record a slot as an ancestor.
    pub fn add(&mut self, slot: u64)
        ensures
            final(self).slots@ == old(self).slots@.push(slot),
            final(self).newest == (if slot > old(self).newest {
                slot
            } else {
                old(self).newest
            }),
            final(self).oldest == old(self).oldest,
    {
        self.slots.push(slot);
        if slot > self.newest {
            self.newest = slot;
        }
    }

    /// Where `slot` stands relative to this ancestry.
    pub fn check(&self, slot: u64) -> (r: SlotCheck)
        ensures
            r == self.spec_check(slot),
    {
        if slot > self.newest {
            SlotCheck::Future
        } else if slot < self.oldest {
            SlotCheck::TooOld
        } else if slots_contain(&self.slots, slot) {
            SlotCheck::Found
        } else {
            SlotCheck::NotFound
        }
    }

    pub open spec fn spec_check(&self, slot: u64) -> SlotCheck {
        if slot > self.newest {
            SlotCheck::Future
        } else if slot < self.oldest {
            SlotCheck::TooOld
        } else if self.slots@.contains(slot) {
            SlotCheck::Found
        } else {
            SlotCheck::NotFound
        }
    }
}

impl VoteState {
    /// Latch the slashing flag if `slashable_slot` is not an ancestor of
    /// the current fork and this tower would report it slashable. The flag
    /// never resets.
    pub fn slash(&mut self, slot_history: &SlotHistory, slashable_slot: u64)
        requires
            old(self).wf(),
            old(self).votes@.len() + 1 < usize::MAX,
        ensures
            final(self).wf(),
            *final(self) == (VoteState {
                has_been_slashed: final(self).has_been_slashed,
                ..*old(self)
            }),
            final(self).has_been_slashed == (old(self).has_been_slashed || (
            slot_history.spec_check(slashable_slot) == SlotCheck::NotFound
                && spec_slashable_slots(old(self), seq![slashable_slot]).len() > 0)),
    {
        if !matches!(self.check_history(slot_history, slashable_slot), SlotCheck::NotFound) {
            return ;
        }
        let mut candidate: Vec<u64> = Vec::new();
        candidate.push(slashable_slot);
        proof {
            assert(candidate@ =~= seq![slashable_slot]);
        }
        let slashable = self.slashable_slots(&candidate);
        self.has_been_slashed = self.has_been_slashed || slashable.len() > 0;
    }

    /// Query the ancestry; split out so the borrow of `self` stays clean.
    fn check_history(&self, slot_history: &SlotHistory, slot: u64) -> (r: SlotCheck)
        ensures
            r == slot_history.spec_check(slot),
    {
        slot_history.check(slot)
    }

    /// Whether the signers include the current authorized voter or any
    /// recorded prior voter.
    pub fn previous_signer(&self, signers: &Vec<Pubkey>) -> (r: bool)
        requires
            self.prior_voters.wf(),
        ensures
            r == (signers@.contains(self.authorized_voter) || exists|i: int|
                0 <= i < self.prior_voters.buf@.len() && (#[trigger] self.prior_voters.buf@[i]).0
                    != Pubkey::spec_default() && signers@.contains(self.prior_voters.buf@[i].0)),
    {
        if keys_contain(signers, &self.authorized_voter) {
            return true;
        }
        let n = self.prior_voters.buf.len();
        let mut i: usize = 0;
        while i < n
            invariant
                i <= n,
                n == self.prior_voters.buf@.len(),
                forall|j: int|
                    0 <= j < i ==> !((#[trigger] self.prior_voters.buf@[j]).0
                        != Pubkey::spec_default() && signers@.contains(
                        self.prior_voters.buf@[j].0,
                    )),
            decreases n - i,
        {
            let entry = &self.prior_voters.buf[i];
            if !(entry.0 == Pubkey::default_key()) && keys_contain(signers, &entry.0) {
                return true;
            }
            i = i + 1;
        }
        false
    }
}

/// Whether a key vector contains `k`.
pub fn keys_contain(v: &Vec<Pubkey>, k: &Pubkey) -> (r: bool)
    ensures
        r == v@.contains(*k),
{
    let n = v.len();
    let mut i: usize = 0;
    while i < n
        invariant
            i <= n,
            n == v@.len(),
            forall|j: int| 0 <= j < i ==> v@[j] != *k,
        decreases n - i,
    {
        if v[i] == *k {
            return true;
        }
        i = i + 1;
    }
    false
}

} // verus!
