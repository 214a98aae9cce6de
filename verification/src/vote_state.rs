//! The vote tower: a bounded stack of lockouts with exponentially growing
//! confirmation weights, a committed root slot, per-epoch credits, prior
//! authorized voters, vote timestamps and a latching slashing flag.

use crate::keys::HashValue;
use crate::keys::Pubkey;
use crate::lockout::Lockout;
use crate::lockout::spec_is_expired;
use crate::errors::VoteError;
use crate::lockout::MAX_EPOCH_CREDITS_HISTORY;
use crate::lockout::MAX_LOCKOUT_HISTORY;
use vstd::prelude::*;

verus! {

/// Capacity of the prior-voters ring buffer.
pub const MAX_ITEMS: usize = 32;

/// A vote submitted by a validator: the slots it confirms, the bank hash
/// of the newest of them, and an optional processing timestamp.
#[derive(PartialEq, Eq, Clone, Debug)]
pub struct Vote {
    /// A stack of votes starting with the oldest vote.
    pub slots: Vec<u64>,
    /// Signature of the bank's state at the last slot.
    pub hash: HashValue,
    /// Processing timestamp of the last slot.
    pub timestamp: Option<i64>,
}

impl Vote {
    pub fn new(slots: Vec<u64>, hash: HashValue) -> (r: Vote)
        ensures
            r.slots@ == slots@,
            r.hash == hash,
            r.timestamp is None,
    {
        Vote { slots, hash, timestamp: None }
    }
}

/// Parameters of a fresh vote account.
#[derive(PartialEq, Eq, Structural, Clone, Copy, Debug)]
pub struct VoteInit {
    pub node_pubkey: Pubkey,
    pub authorized_voter: Pubkey,
    pub authorized_withdrawer: Pubkey,
    pub commission: u8,
}

/// Which authorization a signer wants to hand over.
#[derive(PartialEq, Eq, Structural, Clone, Copy, Debug)]
pub enum VoteAuthorize {
    Voter,
    Withdrawer,
}

/// The newest `(slot, timestamp)` pair submitted with a vote.
#[derive(PartialEq, Eq, Structural, Clone, Copy, Debug)]
pub struct BlockTimestamp {
    pub slot: u64,
    pub timestamp: i64,
}

/// A fixed-capacity circular log; the next write lands at `idx + 1`.
#[derive(PartialEq, Eq, Clone, Debug)]
pub struct CircBuf<I> {
    pub buf: Vec<I>,
    /// Position of the most recent write.
    pub idx: usize,
}

impl<I> CircBuf<I> {
    pub open spec fn wf(&self) -> bool {
        &&& self.buf@.len() == MAX_ITEMS
        &&& self.idx < MAX_ITEMS
    }

    pub fn append(&mut self, item: I)
        requires
            old(self).wf(),
        ensures
            final(self).wf(),
            final(self).idx == (old(self).idx + 1) % (MAX_ITEMS as int),
            final(self).buf@ == old(self).buf@.update(final(self).idx as int, item),
    {
        self.idx = (self.idx + 1) % MAX_ITEMS;
        self.buf[self.idx] = item;
    }
}

/// A prior authorized voter: its key, the epoch range it was active for,
/// and the slot at which it was replaced.
pub type PriorVoter = (Pubkey, u64, u64, u64);

/// The per-epoch credit record `(epoch, credits, prev_credits)`.
pub type EpochCredit = (u64, u64, u64);

pub open spec fn slots_ascending(vs: Seq<Lockout>) -> bool {
    forall|i: int, j: int| 0 <= i < j < vs.len() ==> vs[i].slot < vs[j].slot
}

pub open spec fn confs_bounded(vs: Seq<Lockout>) -> bool {
    forall|i: int|
        0 <= i < vs.len() ==> 1 <= #[trigger] vs[i].confirmation_count <= MAX_LOCKOUT_HISTORY - i
}

pub open spec fn credits_pairs_wf(ec: Seq<EpochCredit>) -> bool {
    &&& ec.len() <= MAX_EPOCH_CREDITS_HISTORY
    &&& forall|i: int| 0 <= i < ec.len() ==> (#[trigger] ec[i]).1 >= ec[i].2
}

/// Epochs of the credit history never decrease.
pub open spec fn credits_epochs_sorted(ec: Seq<EpochCredit>) -> bool {
    forall|i: int, j: int| 0 <= i < j < ec.len() ==> (#[trigger] ec[i]).0 <= (#[trigger] ec[j]).0
}

/// The per-validator vote account state.
#[derive(PartialEq, Eq, Clone, Debug)]
pub struct VoteState {
    /// The node that votes in this account.
    pub node_pubkey: Pubkey,
    /// The signer for vote transactions.
    pub authorized_voter: Pubkey,
    /// When the authorized voter was set or initialized.
    pub authorized_voter_epoch: u64,
    /// History of prior authorized voters and the epoch ranges for which
    /// they were set.
    pub prior_voters: CircBuf<PriorVoter>,
    /// The signer for withdrawals.
    pub authorized_withdrawer: Pubkey,
    /// Percentage (0-100) of a rewards payout owed to this account.
    pub commission: u8,
    /// Lockout stack, oldest vote first.
    pub votes: Vec<Lockout>,
    /// The newest slot popped off the front of a full stack.
    pub root_slot: Option<u64>,
    /// How many credits were earned by the end of each epoch.
    pub epoch_credits: Vec<EpochCredit>,
    /// Most recent timestamp submitted with a vote.
    pub last_timestamp: BlockTimestamp,
    /// Latching flag: set once slashable behavior is detected.
    pub has_been_slashed: bool,
}

impl VoteState {
    /// Structural invariant of the tower.
    pub open spec fn wf(&self) -> bool {
        &&& slots_ascending(self.votes@)
        &&& confs_bounded(self.votes@)
        &&& self.votes@.len() <= MAX_LOCKOUT_HISTORY
        &&& (self.root_slot matches Some(r) ==> (self.votes@.len() > 0 ==> r
            < self.votes@[0].slot))
        &&& (self.votes@.len() == 0 ==> self.root_slot is None)
        &&& credits_pairs_wf(self.epoch_credits@)
        &&& self.prior_voters.wf()
    }

    /// The credits recorded so far: the newest tuple's `credits`.
    pub open spec fn spec_credits(&self) -> u64 {
        if self.epoch_credits@.len() == 0 {
            0
        } else {
            self.epoch_credits@.last().1
        }
    }

    /// The epoch of the newest credit record.
    pub open spec fn spec_current_epoch(&self) -> u64 {
        if self.epoch_credits@.len() == 0 {
            0
        } else {
            self.epoch_credits@.last().0
        }
    }

    /// The newest voted slot, if any.
    pub open spec fn spec_last_voted_slot(&self) -> Option<u64> {
        if self.votes@.len() == 0 {
            None
        } else {
            Some(self.votes@.last().slot)
        }
    }
}

pub fn new_prior_voters() -> (r: CircBuf<PriorVoter>)
    ensures
        r.wf(),
        r.idx == MAX_ITEMS - 1,
        r.buf@ == Seq::new(MAX_ITEMS as nat, |i: int| (Pubkey::spec_default(), 0u64, 0u64, 0u64)),
{
    let mut buf: Vec<PriorVoter> = Vec::new();
    let entry: PriorVoter = (Pubkey::default_key(), 0, 0, 0);
    while buf.len() < MAX_ITEMS
        invariant
            buf@.len() <= MAX_ITEMS,
            forall|i: int| 0 <= i < buf@.len() ==> buf@[i] == entry,
            entry == (Pubkey::spec_default(), 0u64, 0u64, 0u64),
        decreases MAX_ITEMS - buf@.len(),
    {
        buf.push(entry);
    }
    proof {
        assert(buf@ =~= Seq::new(
            MAX_ITEMS as nat,
            |i: int| (Pubkey::spec_default(), 0u64, 0u64, 0u64),
        ));
    }
    CircBuf { buf, idx: MAX_ITEMS - 1 }
}

impl Default for VoteState {
    /// The blank state: zero keys, no votes, no root, no credit history,
    /// the zero timestamp, not slashed.
    fn default() -> (r: VoteState)
        ensures
            r.wf(),
            r.node_pubkey == Pubkey::spec_default(),
            r.authorized_voter == Pubkey::spec_default(),
            r.authorized_voter_epoch == 0,
            r.authorized_withdrawer == Pubkey::spec_default(),
            r.commission == 0,
            r.votes@ == Seq::<Lockout>::empty(),
            r.root_slot is None,
            r.epoch_credits@ == Seq::<EpochCredit>::empty(),
            r.last_timestamp == (BlockTimestamp { slot: 0, timestamp: 0 }),
            !r.has_been_slashed,
            r.prior_voters.idx == MAX_ITEMS - 1,
            r.prior_voters.buf@ == Seq::new(
                MAX_ITEMS as nat,
                |i: int| (Pubkey::spec_default(), 0u64, 0u64, 0u64),
            ),
    {
        VoteState {
            node_pubkey: Pubkey::default_key(),
            authorized_voter: Pubkey::default_key(),
            authorized_voter_epoch: 0,
            prior_voters: new_prior_voters(),
            authorized_withdrawer: Pubkey::default_key(),
            commission: 0,
            votes: Vec::new(),
            root_slot: None,
            epoch_credits: Vec::new(),
            last_timestamp: BlockTimestamp { slot: 0, timestamp: 0 },
            has_been_slashed: false,
        }
    }
}

/// The lockout stack after dropping expired votes from the back.
pub open spec fn spec_pop_expired(vs: Seq<Lockout>, slot: u64) -> Seq<Lockout>
    decreases vs.len(),
{
    if vs.len() > 0 && spec_is_expired(vs.last(), slot) {
        spec_pop_expired(vs.drop_last(), slot)
    } else {
        vs
    }
}

/// One doubling pass: every vote deeper than its own confirmation count
/// gains a confirmation.
pub open spec fn spec_double_lockouts(vs: Seq<Lockout>) -> Seq<Lockout> {
    Seq::new(
        vs.len(),
        |i: int|
            if vs.len() > i + vs[i].confirmation_count {
                Lockout {
                    slot: vs[i].slot,
                    confirmation_count: (vs[i].confirmation_count + 1) as u32,
                }
            } else {
                vs[i]
            },
    )
}

/// The credit history after recording one more credit for `epoch`.
pub open spec fn spec_increment_credits(ec: Seq<EpochCredit>, epoch: u64) -> Seq<EpochCredit> {
    let rolled = if ec.len() == 0 {
        seq![(epoch, 0u64, 0u64)]
    } else if ec.last().0 != epoch {
        let l = ec.last();
        let pushed = if l.1 != l.2 {
            ec.push((epoch, l.1, l.1))
        } else {
            ec.update(ec.len() - 1, (epoch, l.1, l.2))
        };
        if pushed.len() > MAX_EPOCH_CREDITS_HISTORY {
            pushed.subrange(1, pushed.len() as int)
        } else {
            pushed
        }
    } else {
        ec
    };
    rolled.update(
        rolled.len() - 1,
        (rolled.last().0, (rolled.last().1 + 1) as u64, rolled.last().2),
    )
}

/// Whether `process_slot` ignores `slot`: a vote for it already stands.
pub open spec fn spec_slot_ignored(vs: Seq<Lockout>, slot: u64) -> bool {
    vs.len() > 0 && vs.last().slot >= slot
}

/// Whether processing `slot` commits a root: the stack is still full after
/// expiration pops.
pub open spec fn spec_slot_roots(vs: Seq<Lockout>, slot: u64) -> bool {
    !spec_slot_ignored(vs, slot) && spec_pop_expired(vs, slot).len() == MAX_LOCKOUT_HISTORY
}

/// The lockout stack after processing `slot`.
pub open spec fn spec_process_slot_votes(vs: Seq<Lockout>, slot: u64) -> Seq<Lockout> {
    if spec_slot_ignored(vs, slot) {
        vs
    } else {
        let popped = spec_pop_expired(vs, slot);
        let trimmed = if popped.len() == MAX_LOCKOUT_HISTORY {
            popped.subrange(1, popped.len() as int)
        } else {
            popped
        };
        spec_double_lockouts(trimmed.push(Lockout { slot, confirmation_count: 1 }))
    }
}

/// The root slot after processing `slot`.
pub open spec fn spec_process_slot_root(vs: Seq<Lockout>, root: Option<u64>, slot: u64) -> Option<
    u64,
> {
    if spec_slot_roots(vs, slot) {
        Some(spec_pop_expired(vs, slot)[0].slot)
    } else {
        root
    }
}

/// The credit history after processing `slot`.
pub open spec fn spec_process_slot_credits(
    vs: Seq<Lockout>,
    ec: Seq<EpochCredit>,
    slot: u64,
    epoch: u64,
) -> Seq<EpochCredit> {
    if spec_slot_roots(vs, slot) {
        spec_increment_credits(ec, epoch)
    } else {
        ec
    }
}

impl VoteState {
    fn pop_expired_votes(&mut self, slot: u64)
        requires
            confs_bounded(old(self).votes@),
        ensures
            final(self).votes@ == spec_pop_expired(old(self).votes@, slot),
            *final(self) == (VoteState { votes: final(self).votes, ..*old(self) }),
    {
        loop
            invariant
                confs_bounded(self.votes@),
                spec_pop_expired(self.votes@, slot) == spec_pop_expired(old(self).votes@, slot),
                *self == (VoteState { votes: self.votes, ..*old(self) }),
            ensures
                self.votes@ == spec_pop_expired(old(self).votes@, slot),
                *self == (VoteState { votes: self.votes, ..*old(self) }),
            decreases self.votes@.len(),
        {
            let n = self.votes.len();
            if n == 0 {
                break ;
            }
            let back = self.votes[n - 1];
            assert(back.confirmation_count < 64);
            if back.is_expired(slot) {
                assert(self.votes@.last() == back);
                let ghost pre = self.votes@;
                self.votes.pop();
                assert(self.votes@ =~= pre.drop_last());
            } else {
                break ;
            }
        }
    }

    fn double_lockouts(&mut self)
        requires
            confs_bounded(old(self).votes@),
            old(self).votes@.len() <= MAX_LOCKOUT_HISTORY,
        ensures
            final(self).votes@ == spec_double_lockouts(old(self).votes@),
            *final(self) == (VoteState { votes: final(self).votes, ..*old(self) }),
    {
        let stack_depth = self.votes.len();
        let ghost orig = self.votes@;
        let mut i: usize = 0;
        while i < stack_depth
            invariant
                stack_depth == orig.len(),
                orig.len() <= MAX_LOCKOUT_HISTORY,
                confs_bounded(orig),
                i <= stack_depth,
                self.votes@.len() == orig.len(),
                forall|j: int| i <= j < orig.len() ==> self.votes@[j] == orig[j],
                forall|j: int|
                    0 <= j < i ==> self.votes@[j] == #[trigger] spec_double_lockouts(orig)[j],
                *self == (VoteState { votes: self.votes, ..*old(self) }),
            decreases stack_depth - i,
        {
            let v = self.votes[i];
            proof {
                assert(v == orig[i as int]);
                assert(orig[i as int].confirmation_count <= MAX_LOCKOUT_HISTORY - i);
            }
            if stack_depth > i + (v.confirmation_count as usize) {
                self.votes[i] =
                Lockout { slot: v.slot, confirmation_count: v.confirmation_count + 1 };
            }
            i = i + 1;
        }
        proof {
            assert(self.votes@ =~= spec_double_lockouts(orig));
        }
    }

    /// Record one credit for `epoch`, opening a new epoch record or rolling
    /// the newest one forward as needed, and trimming the history to its
    /// bounded length.
    pub fn increment_credits(&mut self, epoch: u64)
        requires
            credits_pairs_wf(old(self).epoch_credits@),
            old(self).spec_credits() < u64::MAX,
        ensures
            final(self).epoch_credits@ == spec_increment_credits(old(self).epoch_credits@, epoch),
            *final(self) == (VoteState { epoch_credits: final(self).epoch_credits, ..*old(self) }),
            credits_pairs_wf(final(self).epoch_credits@),
            final(self).spec_credits() == old(self).spec_credits() + 1,
            credits_epochs_sorted(old(self).epoch_credits@) && epoch >= old(
                self,
            ).spec_current_epoch() ==> credits_epochs_sorted(final(self).epoch_credits@),
    {
        let n = self.epoch_credits.len();
        if n == 0 {
            self.epoch_credits.push((epoch, 0, 0));
        } else if self.epoch_credits[n - 1].0 != epoch {
            let last = self.epoch_credits[n - 1];
            if last.1 != last.2 {
                self.epoch_credits.push((epoch, last.1, last.1));
            } else {
                self.epoch_credits[n - 1] = (epoch, last.1, last.2);
            }
            if self.epoch_credits.len() > MAX_EPOCH_CREDITS_HISTORY {
                self.epoch_credits.remove(0);
            }
        }
        let m = self.epoch_credits.len();
        let newest = self.epoch_credits[m - 1];
        self.epoch_credits[m - 1] = (newest.0, newest.1 + 1, newest.2);
    }

    /// Number of credits owed to this account.
    pub fn credits(&self) -> (r: u64)
        ensures
            r == self.spec_credits(),
    {
        let n = self.epoch_credits.len();
        if n == 0 {
            0
        } else {
            self.epoch_credits[n - 1].1
        }
    }

    /// The epoch of the newest credit record.
    fn current_epoch(&self) -> (r: u64)
        ensures
            r == self.spec_current_epoch(),
    {
        let n = self.epoch_credits.len();
        if n == 0 {
            0
        } else {
            self.epoch_credits[n - 1].0
        }
    }

    /// The per-epoch credit history, newest record last.
    pub fn epoch_credits(&self) -> (r: &Vec<EpochCredit>)
        ensures
            r@ == self.epoch_credits@,
    {
        &self.epoch_credits
    }

    /// The `position`-th vote counted from the newest.
    pub fn nth_recent_vote(&self, position: usize) -> (r: Option<&Lockout>)
        ensures
            match r {
                Some(l) => position < self.votes@.len() && *l == self.votes@[self.votes@.len() - 1
                    - position],
                None => position >= self.votes@.len(),
            },
    {
        if position < self.votes.len() {
            let pos = self.votes.len() - 1 - position;
            Some(&self.votes[pos])
        } else {
            None
        }
    }

    /// Process one slot: ignore stale slots, expire newer-but-unlocked
    /// votes, commit the oldest vote to the root when the stack is full
    /// (earning a credit for `epoch`), push the new vote, and double the
    /// lockouts that gained a confirmation.
    pub fn process_slot(&mut self, slot: u64, epoch: u64)
        requires
            old(self).wf(),
            old(self).spec_credits() < u64::MAX,
        ensures
            final(self).wf(),
            final(self).votes@ == spec_process_slot_votes(old(self).votes@, slot),
            final(self).root_slot == spec_process_slot_root(
                old(self).votes@,
                old(self).root_slot,
                slot,
            ),
            final(self).epoch_credits@ == spec_process_slot_credits(
                old(self).votes@,
                old(self).epoch_credits@,
                slot,
                epoch,
            ),
            *final(self) == (VoteState {
                votes: final(self).votes,
                root_slot: final(self).root_slot,
                epoch_credits: final(self).epoch_credits,
                ..*old(self)
            }),
            // A stale slot is a no-op.
            spec_slot_ignored(old(self).votes@, slot) ==> *final(self) == *old(self),
            // Otherwise the new slot becomes the newest vote.
            !spec_slot_ignored(old(self).votes@, slot) ==> final(self).spec_last_voted_slot()
                == Some(slot),
            // The root never goes back.
            old(self).root_slot matches Some(r) ==> final(self).root_slot matches Some(r2) && r2
                >= r,
            // Credits grow by at most one, exactly when a root is committed.
            final(self).spec_credits() == if spec_slot_roots(old(self).votes@, slot) {
                old(self).spec_credits() + 1
            } else {
                old(self).spec_credits() as int
            },
    {
        let n = self.votes.len();
        if n > 0 && self.votes[n - 1].slot >= slot {
            return ;
        }
        let ghost vs0 = self.votes@;
        let ghost root0 = self.root_slot;
        self.pop_expired_votes(slot);
        proof {
            lemma_pop_expired_properties(vs0, slot);
            let popped = spec_pop_expired(vs0, slot);
            // Whatever remains after the pops sits strictly below `slot`.
            if popped.len() > 0 {
                assert(popped[popped.len() - 1] == vs0[popped.len() - 1]);
                if popped.len() < vs0.len() {
                    assert(vs0[popped.len() - 1].slot < vs0[vs0.len() - 1].slot);
                }
                assert(popped.last().slot < slot);
            }
        }
        if self.votes.len() == MAX_LOCKOUT_HISTORY {
            let popped_front = self.votes.remove(0);
            self.root_slot = Some(popped_front.slot);
            self.increment_credits(epoch);
            assert(self.votes@ =~= spec_pop_expired(vs0, slot).subrange(
                1,
                spec_pop_expired(vs0, slot).len() as int,
            ));
        }
        let ghost trimmed = self.votes@;
        let ghost pushed = trimmed.push(Lockout { slot, confirmation_count: 1 });
        proof {
            let popped = spec_pop_expired(vs0, slot);
            // The pushed stack is ascending and its confirmations are in
            // bounds, so the doubling lemma applies.
            assert forall|i: int, j: int| 0 <= i < j < pushed.len() implies pushed[i].slot
                < pushed[j].slot by {
                if j < pushed.len() - 1 {
                    if trimmed == popped {
                        assert(popped[i].slot < popped[j].slot);
                    } else {
                        assert(popped[i + 1].slot < popped[j + 1].slot);
                    }
                } else {
                    // Every remaining slot is below the pushed one.
                    if trimmed == popped {
                        assert(trimmed[i].slot <= popped.last().slot);
                    } else {
                        assert(trimmed[i] == popped[i + 1]);
                        assert(popped[i + 1].slot <= popped.last().slot);
                    }
                }
            }
            assert forall|i: int| 0 <= i < pushed.len() - 1 implies #[trigger] pushed[i].confirmation_count
                <= MAX_LOCKOUT_HISTORY - i by {
                if trimmed == popped {
                    assert(popped[i].confirmation_count <= MAX_LOCKOUT_HISTORY - i);
                } else {
                    assert(pushed[i] == popped[i + 1]);
                    assert(popped[i + 1].confirmation_count <= MAX_LOCKOUT_HISTORY - (i + 1));
                }
            }
            assert forall|i: int| 0 <= i < pushed.len() implies 1 <= #[trigger] pushed[i].confirmation_count by {
                if i < pushed.len() - 1 {
                    if trimmed == popped {
                        assert(1 <= popped[i].confirmation_count);
                    } else {
                        assert(1 <= popped[i + 1].confirmation_count);
                    }
                }
            }
        }
        self.votes.push(Lockout { slot, confirmation_count: 1 });
        self.double_lockouts();
        proof {
            lemma_double_preserves_wf(pushed);
            let popped = spec_pop_expired(vs0, slot);
            let doubled = spec_double_lockouts(pushed);
            assert(self.votes@ == doubled);
            // The root, when freshly committed or carried over, stays below
            // the oldest remaining vote.
            if let Some(r) = self.root_slot {
                assert(doubled[0].slot == pushed[0].slot);
                if popped.len() == MAX_LOCKOUT_HISTORY {
                    assert(r == popped[0].slot);
                    assert(pushed[0] == popped[1]);
                    assert(popped[0].slot < popped[1].slot);
                } else {
                    assert(root0 == Some(r));
                    assert(vs0.len() > 0);
                    assert(r < vs0[0].slot);
                    if popped.len() > 0 {
                        assert(pushed[0] == popped[0]);
                        assert(popped[0] == vs0[0]);
                    } else {
                        assert(pushed[0].slot == slot);
                        if vs0.len() > 1 {
                            assert(vs0[0].slot < vs0[vs0.len() - 1].slot);
                        }
                        assert(vs0[0].slot < slot);
                    }
                }
            }
        }
    }
}

/// Dropping expired votes keeps a prefix of the stack: ascending slots,
/// bounded confirmations, and the last remaining slot (if any) is one of
/// the original slots.
pub proof fn lemma_pop_expired_properties(vs: Seq<Lockout>, slot: u64)
    ensures
        spec_pop_expired(vs, slot).len() <= vs.len(),
        spec_pop_expired(vs, slot) == vs.take(spec_pop_expired(vs, slot).len() as int),
        slots_ascending(vs) ==> slots_ascending(spec_pop_expired(vs, slot)),
        confs_bounded(vs) ==> confs_bounded(spec_pop_expired(vs, slot)),
    decreases vs.len(),
{
    if vs.len() > 0 && spec_is_expired(vs.last(), slot) {
        lemma_pop_expired_properties(vs.drop_last(), slot);
        assert(vs.drop_last() =~= vs.take(vs.len() - 1));
        assert(spec_pop_expired(vs, slot) =~= vs.take(spec_pop_expired(vs, slot).len() as int));
        if slots_ascending(vs) {
            assert forall|i: int, j: int|
                0 <= i < j < vs.drop_last().len() implies vs.drop_last()[i].slot
                < vs.drop_last()[j].slot by {
                assert(vs[i].slot < vs[j].slot);
            }
        }
        if confs_bounded(vs) {
            assert forall|i: int| 0 <= i < vs.drop_last().len() implies 1 <= #[trigger] vs.drop_last()[i].confirmation_count
                <= MAX_LOCKOUT_HISTORY - i by {
                assert(vs[i].confirmation_count <= MAX_LOCKOUT_HISTORY - i);
            }
        }
    } else {
        assert(spec_pop_expired(vs, slot) =~= vs.take(vs.len() as int));
    }
}

/// The doubling pass keeps slots as they are and keeps the stack well
/// formed.
pub proof fn lemma_double_preserves_wf(vs: Seq<Lockout>)
    requires
        vs.len() <= MAX_LOCKOUT_HISTORY,
        forall|i: int| 0 <= i < vs.len() ==> 1 <= #[trigger] vs[i].confirmation_count,
        forall|i: int|
            0 <= i < vs.len() - 1 ==> #[trigger] vs[i].confirmation_count <= MAX_LOCKOUT_HISTORY
                - i,
        vs.len() > 0 ==> vs.last().confirmation_count == 1,
    ensures
        spec_double_lockouts(vs).len() == vs.len(),
        forall|i: int|
            0 <= i < vs.len() ==> (#[trigger] spec_double_lockouts(vs)[i]).slot == vs[i].slot,
        confs_bounded(spec_double_lockouts(vs)),
        slots_ascending(vs) ==> slots_ascending(spec_double_lockouts(vs)),
{
    let d = spec_double_lockouts(vs);
    assert forall|i: int| 0 <= i < vs.len() implies 1 <= #[trigger] d[i].confirmation_count
        <= MAX_LOCKOUT_HISTORY - i by {
        if vs.len() > i + vs[i].confirmation_count {
            assert(vs[i].confirmation_count + 1 <= vs.len() - i);
        } else {
            if i < vs.len() - 1 {
                assert(vs[i].confirmation_count <= MAX_LOCKOUT_HISTORY - i);
            } else {
                assert(vs[i].confirmation_count == 1);
            }
        }
    }
}


/// The largest slot in a non-empty sequence (0 when empty).
pub open spec fn seq_max(s: Seq<u64>) -> u64
    decreases s.len(),
{
    if s.len() == 0 {
        0
    } else if s.len() == 1 {
        s[0]
    } else if s.last() >= seq_max(s.drop_last()) {
        s.last()
    } else {
        seq_max(s.drop_last())
    }
}

/// `seq_max` is an element of the sequence and bounds every element.
pub proof fn lemma_seq_max(s: Seq<u64>)
    requires
        s.len() > 0,
    ensures
        exists|k: int| 0 <= k < s.len() && s[k] == seq_max(s),
        forall|k: int| 0 <= k < s.len() ==> s[k] <= seq_max(s),
    decreases s.len(),
{
    if s.len() == 1 {
        assert(s[0] == seq_max(s));
    } else {
        lemma_seq_max(s.drop_last());
        if s.last() >= seq_max(s.drop_last()) {
            assert(s[s.len() - 1] == seq_max(s));
        } else {
            let k = choose|k: int| 0 <= k < s.drop_last().len() && s.drop_last()[k] == seq_max(
                s.drop_last(),
            );
            assert(s[k] == seq_max(s));
        }
        assert forall|k: int| 0 <= k < s.len() implies s[k] <= seq_max(s) by {
            if k < s.len() - 1 {
                assert(s.drop_last()[k] <= seq_max(s.drop_last()));
            }
        }
    }
}

/// One walk over the vote's slots (index `i`, ascending) and the
/// newest-first slot-hashes witness (index `j`, descending): slots already
/// covered by the tower are skipped, and each remaining slot must be found
/// in the witness, older entries first.
pub open spec fn spec_check_walk(
    last: Option<u64>,
    slots: Seq<u64>,
    sh: Seq<(u64, HashValue)>,
    i: int,
    j: int,
) -> (int, int)
    decreases slots.len() - i, j,
    when 0 <= i <= slots.len() && 0 <= j <= sh.len()
{
    if i < slots.len() && j > 0 {
        if last matches Some(l) && l >= slots[i] {
            spec_check_walk(last, slots, sh, i + 1, j)
        } else if slots[i] != sh[j - 1].0 {
            spec_check_walk(last, slots, sh, i, j - 1)
        } else {
            spec_check_walk(last, slots, sh, i + 1, j - 1)
        }
    } else {
        (i, j)
    }
}

/// The outcome of checking a vote's slots against the witness: too old if
/// the walk never entered the witness, mismatched if some slot was not
/// found, hash-mismatched if the newest matched entry's hash differs.
pub open spec fn spec_check_result(
    last: Option<u64>,
    slots: Seq<u64>,
    sh: Seq<(u64, HashValue)>,
    hash: HashValue,
) -> Result<(), VoteError> {
    let walked = spec_check_walk(last, slots, sh, 0, sh.len() as int);
    if walked.1 == sh.len() {
        Err(VoteError::VoteTooOld)
    } else if walked.0 != slots.len() {
        Err(VoteError::SlotsMismatch)
    } else if sh[walked.1].1 != hash {
        Err(VoteError::SlotHashMismatch)
    } else {
        Ok(())
    }
}

/// The walk only moves its cursors inward.
pub proof fn lemma_walk_bounds(
    last: Option<u64>,
    slots: Seq<u64>,
    sh: Seq<(u64, HashValue)>,
    i: int,
    j: int,
)
    requires
        0 <= i <= slots.len(),
        0 <= j <= sh.len(),
    ensures
        i <= spec_check_walk(last, slots, sh, i, j).0 <= slots.len(),
        0 <= spec_check_walk(last, slots, sh, i, j).1 <= j,
    decreases slots.len() - i, j,
{
    if i < slots.len() && j > 0 {
        if last matches Some(l) && l >= slots[i] {
            lemma_walk_bounds(last, slots, sh, i + 1, j);
        } else if slots[i] != sh[j - 1].0 {
            lemma_walk_bounds(last, slots, sh, i, j - 1);
        } else {
            lemma_walk_bounds(last, slots, sh, i + 1, j - 1);
        }
    }
}

/// If the walk consumed part of the witness, some slot of the vote is newer
/// than the tower's newest vote.
proof fn lemma_walk_entered(
    last: Option<u64>,
    slots: Seq<u64>,
    sh: Seq<(u64, HashValue)>,
    i: int,
    j: int,
)
    requires
        0 <= i <= slots.len(),
        0 <= j <= sh.len(),
        spec_check_walk(last, slots, sh, i, j).1 < j,
    ensures
        exists|k: int|
            i <= k < slots.len() && (last matches Some(l) ==> #[trigger] slots[k] > l),
    decreases slots.len() - i, j,
{
    if i < slots.len() && j > 0 {
        if last matches Some(l) && l >= slots[i] {
            lemma_walk_entered(last, slots, sh, i + 1, j);
        } else {
            assert(last matches Some(l) ==> slots[i] > l);
        }
    }
}

/// The state of the whole tower triple after processing a sequence of
/// slots in order.
pub open spec fn spec_apply_slots(
    vs: Seq<Lockout>,
    root: Option<u64>,
    ec: Seq<EpochCredit>,
    slots: Seq<u64>,
    epoch: u64,
) -> (Seq<Lockout>, Option<u64>, Seq<EpochCredit>)
    decreases slots.len(),
{
    if slots.len() == 0 {
        (vs, root, ec)
    } else {
        spec_apply_slots(
            spec_process_slot_votes(vs, slots[0]),
            spec_process_slot_root(vs, root, slots[0]),
            spec_process_slot_credits(vs, ec, slots[0], epoch),
            slots.drop_first(),
            epoch,
        )
    }
}

/// The network clock as the runtime supplies it.
#[derive(PartialEq, Eq, Structural, Clone, Copy, Debug)]
pub struct Clock {
    pub epoch: u64,
    pub slot: u64,
    pub unix_timestamp: i64,
}

impl Default for Clock {
    fn default() -> (r: Clock)
        ensures
            r == (Clock { epoch: 0, slot: 0, unix_timestamp: 0 }),
    {
        Clock { epoch: 0, slot: 0, unix_timestamp: 0 }
    }
}

impl VoteState {
    pub fn new(vote_init: &VoteInit, clock: &Clock) -> (r: VoteState)
        ensures
            r.wf(),
            r.node_pubkey == vote_init.node_pubkey,
            r.authorized_voter == vote_init.authorized_voter,
            r.authorized_voter_epoch == clock.epoch,
            r.authorized_withdrawer == vote_init.authorized_withdrawer,
            r.commission == vote_init.commission,
            r.votes@ == Seq::<Lockout>::empty(),
            r.root_slot is None,
            r.epoch_credits@ == Seq::<EpochCredit>::empty(),
            r.last_timestamp == (BlockTimestamp { slot: 0, timestamp: 0 }),
            !r.has_been_slashed,
            r.prior_voters.idx == MAX_ITEMS - 1,
            r.prior_voters.buf@ == Seq::new(
                MAX_ITEMS as nat,
                |i: int| (Pubkey::spec_default(), 0u64, 0u64, 0u64),
            ),
    {
        let mut state = VoteState::default();
        state.node_pubkey = vote_init.node_pubkey;
        state.authorized_voter = vote_init.authorized_voter;
        state.authorized_voter_epoch = clock.epoch;
        state.authorized_withdrawer = vote_init.authorized_withdrawer;
        state.commission = vote_init.commission;
        state
    }

    pub fn check_slots_are_valid(&self, vote: &Vote, slot_hashes: &[(u64, HashValue)]) -> (r: Result<
        (),
        VoteError,
    >)
        ensures
            r == spec_check_result(
                self.spec_last_voted_slot(),
                vote.slots@,
                slot_hashes@,
                vote.hash,
            ),
    {
        let ghost last = self.spec_last_voted_slot();
        let nv = self.votes.len();
        let mut i: usize = 0;
        let mut j: usize = slot_hashes.len();
        while i < vote.slots.len() && j > 0
            invariant
                i <= vote.slots@.len(),
                j <= slot_hashes@.len(),
                last == self.spec_last_voted_slot(),
                nv == self.votes@.len(),
                spec_check_walk(last, vote.slots@, slot_hashes@, i as int, j as int)
                    == spec_check_walk(
                    last,
                    vote.slots@,
                    slot_hashes@,
                    0,
                    slot_hashes@.len() as int,
                ),
            decreases vote.slots@.len() - i, j,
        {
            if nv > 0 && self.votes[nv - 1].slot >= vote.slots[i] {
                i = i + 1;
                continue ;
            }
            if vote.slots[i] != slot_hashes[j - 1].0 {
                j = j - 1;
                continue ;
            }
            i = i + 1;
            j = j - 1;
        }
        if j == slot_hashes.len() {
            return Err(VoteError::VoteTooOld);
        }
        if i != vote.slots.len() {
            return Err(VoteError::SlotsMismatch);
        }
        if slot_hashes[j].1 != vote.hash {
            return Err(VoteError::SlotHashMismatch);
        }
        Ok(())
    }

    /// Verify a vote against the slot-hashes witness, then apply each of
    /// its slots to the tower in order. A rejected vote leaves the state
    /// untouched.
    pub fn process_vote(
        &mut self,
        vote: &Vote,
        slot_hashes: &[(u64, HashValue)],
        epoch: u64,
    ) -> (r: Result<(), VoteError>)
        requires
            old(self).wf(),
            old(self).spec_credits() + vote.slots@.len() <= u64::MAX,
        ensures
            final(self).wf(),
            r == (if vote.slots@.len() == 0 {
                Err::<(), VoteError>(VoteError::EmptySlots)
            } else {
                spec_check_result(
                    old(self).spec_last_voted_slot(),
                    vote.slots@,
                    slot_hashes@,
                    vote.hash,
                )
            }),
            r is Err ==> *final(self) == *old(self),
            r is Ok ==> (final(self).votes@, final(self).root_slot, final(self).epoch_credits@)
                == spec_apply_slots(
                old(self).votes@,
                old(self).root_slot,
                old(self).epoch_credits@,
                vote.slots@,
                epoch,
            ),
            // The newest vote after a successful submission is the largest
            // submitted slot.
            r is Ok ==> final(self).spec_last_voted_slot() == Some(seq_max(vote.slots@)),
            final(self).spec_credits() <= old(self).spec_credits() + vote.slots@.len(),
            *final(self) == (VoteState {
                votes: final(self).votes,
                root_slot: final(self).root_slot,
                epoch_credits: final(self).epoch_credits,
                ..*old(self)
            }),
    {
        if vote.slots.len() == 0 {
            return Err(VoteError::EmptySlots);
        }
        let checked = self.check_slots_are_valid(vote, slot_hashes);
        if let Err(e) = checked {
            return Err(e);
        }
        proof {
            lemma_walk_bounds(
                self.spec_last_voted_slot(),
                vote.slots@,
                slot_hashes@,
                0,
                slot_hashes@.len() as int,
            );
            let walked = spec_check_walk(
                self.spec_last_voted_slot(),
                vote.slots@,
                slot_hashes@,
                0,
                slot_hashes@.len() as int,
            );
            assert(walked.1 < slot_hashes@.len());
            lemma_walk_entered(
                self.spec_last_voted_slot(),
                vote.slots@,
                slot_hashes@,
                0,
                slot_hashes@.len() as int,
            );
            lemma_seq_max(vote.slots@);
        }
        let ghost vs0 = self.votes@;
        let ghost root0 = self.root_slot;
        let ghost ec0 = self.epoch_credits@;
        let ghost last0 = self.spec_last_voted_slot();
        proof {
            assert(vote.slots@.skip(0) =~= vote.slots@);
        }
        let mut idx: usize = 0;
        while idx < vote.slots.len()
            invariant
                self.wf(),
                idx <= vote.slots@.len(),
                spec_apply_slots(
                    self.votes@,
                    self.root_slot,
                    self.epoch_credits@,
                    vote.slots@.skip(idx as int),
                    epoch,
                ) == spec_apply_slots(vs0, root0, ec0, vote.slots@, epoch),
                self.spec_credits() <= old(self).spec_credits() + idx,
                old(self).spec_credits() + vote.slots@.len() <= u64::MAX,
                self.spec_last_voted_slot() == spec_running_last(last0, vote.slots@, idx as int),
                *self == (VoteState {
                    votes: self.votes,
                    root_slot: self.root_slot,
                    epoch_credits: self.epoch_credits,
                    ..*old(self)
                }),
            decreases vote.slots@.len() - idx,
        {
            let s = vote.slots[idx];
            let ghost pre_last = self.spec_last_voted_slot();
            self.process_slot(s, epoch);
            proof {
                assert(vote.slots@.skip(idx as int)[0] == s);
                assert(vote.slots@.skip(idx as int).drop_first() =~= vote.slots@.skip(
                    idx as int + 1,
                ));
            }
            idx = idx + 1;
        }
        proof {
            assert(vote.slots@.skip(vote.slots@.len() as int) =~= Seq::<u64>::empty());
            lemma_running_last_is_max(last0, vote.slots@);
        }
        Ok(())
    }

    /// Apply a vote without a witness: the vote's own slots, newest first,
    /// stand in for the slot hashes, and the outcome is ignored.
    pub fn process_vote_unchecked(&mut self, vote: &Vote)
        requires
            old(self).wf(),
            old(self).spec_credits() + vote.slots@.len() <= u64::MAX,
        ensures
            final(self).wf(),
            spec_vote_accepted(*old(self), *vote) ==> (
            final(self).votes@,
            final(self).root_slot,
            final(self).epoch_credits@,
            ) == spec_apply_slots(
                old(self).votes@,
                old(self).root_slot,
                old(self).epoch_credits@,
                vote.slots@,
                old(self).spec_current_epoch(),
            ),
            !spec_vote_accepted(*old(self), *vote) ==> *final(self) == *old(self),
            final(self).spec_credits() <= old(self).spec_credits() + vote.slots@.len(),
            *final(self) == (VoteState {
                votes: final(self).votes,
                root_slot: final(self).root_slot,
                epoch_credits: final(self).epoch_credits,
                ..*old(self)
            }),
    {
        let mut slot_hashes: Vec<(u64, HashValue)> = Vec::new();
        let n = vote.slots.len();
        let mut k: usize = 0;
        while k < n
            invariant
                n == vote.slots@.len(),
                k <= n,
                slot_hashes@.len() == k,
                forall|t: int|
                    0 <= t < k ==> #[trigger] slot_hashes@[t] == (
                    vote.slots@[n - 1 - t],
                    vote.hash,
                    ),
            decreases n - k,
        {
            slot_hashes.push((vote.slots[n - 1 - k], vote.hash));
            k = k + 1;
        }
        let epoch = self.current_epoch();
        let _ignored = self.process_vote(vote, slot_hashes.as_slice(), epoch);
        proof {
            assert(slot_hashes@ =~= spec_reversed_hashes(*vote));
        }
    }

    /// Apply a single slot without a witness.
    pub fn process_slot_vote_unchecked(&mut self, slot: u64)
        requires
            old(self).wf(),
            old(self).spec_credits() < u64::MAX,
        ensures
            final(self).wf(),
            final(self).votes@ == spec_process_slot_votes(old(self).votes@, slot),
            final(self).root_slot == spec_process_slot_root(
                old(self).votes@,
                old(self).root_slot,
                slot,
            ),
            final(self).epoch_credits@ == spec_process_slot_credits(
                old(self).votes@,
                old(self).epoch_credits@,
                slot,
                old(self).spec_current_epoch(),
            ),
            final(self).spec_credits() <= old(self).spec_credits() + 1,
            *final(self) == (VoteState {
                votes: final(self).votes,
                root_slot: final(self).root_slot,
                epoch_credits: final(self).epoch_credits,
                ..*old(self)
            }),
    {
        let mut slots: Vec<u64> = Vec::new();
        slots.push(slot);
        let vote = Vote::new(slots, HashValue::default_hash());
        let ghost st0 = *self;
        self.process_vote_unchecked(&vote);
        proof {
            lemma_single_slot_vote(st0, vote, slot);
        }
    }

    /// Reject timestamps that move backwards in slot or time, or that
    /// disagree with the recorded pair without advancing both fields.
    pub fn process_timestamp(&mut self, slot: u64, timestamp: i64) -> (r: Result<(), VoteError>)
        ensures
            r == (if spec_timestamp_rejected(old(self).last_timestamp, slot, timestamp) {
                Err::<(), VoteError>(VoteError::TimestampTooOld)
            } else {
                Ok::<(), VoteError>(())
            }),
            r is Err ==> *final(self) == *old(self),
            r is Ok ==> *final(self) == (VoteState {
                last_timestamp: BlockTimestamp { slot, timestamp },
                ..*old(self)
            }),
    {
        let same = slot == self.last_timestamp.slot && timestamp
            == self.last_timestamp.timestamp;
        if (slot < self.last_timestamp.slot || timestamp < self.last_timestamp.timestamp) || ((
        slot == self.last_timestamp.slot || timestamp == self.last_timestamp.timestamp) && !same
            && self.last_timestamp.slot != 0) {
            return Err(VoteError::TimestampTooOld);
        }
        self.last_timestamp = BlockTimestamp { slot, timestamp };
        Ok(())
    }
}

/// Whether a `(slot, timestamp)` proposal is rejected against the recorded
/// pair: it moves a field backwards, or repeats a field of a non-initial
/// pair without repeating both.
pub open spec fn spec_timestamp_rejected(last: BlockTimestamp, slot: u64, timestamp: i64) -> bool {
    (slot < last.slot || timestamp < last.timestamp) || ((slot == last.slot || timestamp
        == last.timestamp) && !(slot == last.slot && timestamp == last.timestamp) && last.slot
        != 0)
}

/// The witness a witness-free vote is checked against: its own slots,
/// newest first, each carrying the vote's hash.
pub open spec fn spec_reversed_hashes(vote: Vote) -> Seq<(u64, HashValue)> {
    Seq::new(vote.slots@.len(), |t: int| (vote.slots@[vote.slots@.len() - 1 - t], vote.hash))
}

/// Whether a witness-free vote passes its own self-made check.
pub open spec fn spec_vote_accepted(s: VoteState, vote: Vote) -> bool {
    vote.slots@.len() > 0 && spec_check_result(
        s.spec_last_voted_slot(),
        vote.slots@,
        spec_reversed_hashes(vote),
        vote.hash,
    ) is Ok
}

/// The newest voted slot after processing a prefix of a slot sequence.
pub open spec fn spec_running_last(last: Option<u64>, slots: Seq<u64>, i: int) -> Option<u64>
    decreases i,
    when 0 <= i <= slots.len()
{
    if i == 0 {
        last
    } else {
        let prev = spec_running_last(last, slots, i - 1);
        if prev matches Some(l) && l >= slots[i - 1] {
            prev
        } else {
            Some(slots[i - 1])
        }
    }
}

/// After processing all slots, the newest voted slot is the maximum of the
/// initial one and every slot processed.
proof fn lemma_running_last_is_max(last: Option<u64>, slots: Seq<u64>)
    requires
        slots.len() > 0,
        exists|k: int| 0 <= k < slots.len() && (last matches Some(l) ==> #[trigger] slots[k] > l),
    ensures
        spec_running_last(last, slots, slots.len() as int) == Some(seq_max(slots)),
{
    lemma_seq_max(slots);
    assert(slots.take(slots.len() as int) =~= slots);
    lemma_running_last_general(last, slots, slots.len() as int);
    if let Some(l) = last {
        let k = choose|k: int|
            0 <= k < slots.len() && (last matches Some(l2) ==> #[trigger] slots[k] > l2);
        assert(slots[k] <= seq_max(slots));
    }
}

/// The running last voted slot over a prefix is the maximum of the initial
/// value and the prefix, whenever some prefix element exceeds the initial
/// value; otherwise it is the initial value.
proof fn lemma_running_last_general(last: Option<u64>, slots: Seq<u64>, i: int)
    requires
        0 <= i <= slots.len(),
    ensures
        spec_running_last(last, slots, i) == (if i > 0 && (last matches Some(l) ==> seq_max(
            slots.take(i),
        ) > l) {
            Some(seq_max(slots.take(i)))
        } else {
            last
        }),
    decreases i,
{
    if i > 0 {
        lemma_running_last_general(last, slots, i - 1);
        assert(slots.take(i).drop_last() =~= slots.take(i - 1));
        if i > 1 {
            lemma_seq_max(slots.take(i - 1));
        }
        assert(slots.take(i).last() == slots[i - 1]);
    }
}

/// A single-slot witness-free vote behaves exactly like processing that
/// slot directly.
proof fn lemma_single_slot_vote(s: VoteState, vote: Vote, slot: u64)
    requires
        vote.slots@ =~= seq![slot],
        vote.hash == HashValue::spec_default(),
    ensures
        spec_vote_accepted(s, vote) <==> !spec_slot_ignored(s.votes@, slot),
        spec_vote_accepted(s, vote) ==> spec_apply_slots(
            s.votes@,
            s.root_slot,
            s.epoch_credits@,
            vote.slots@,
            s.spec_current_epoch(),
        ) == (
        spec_process_slot_votes(s.votes@, slot),
        spec_process_slot_root(s.votes@, s.root_slot, slot),
        spec_process_slot_credits(s.votes@, s.epoch_credits@, slot, s.spec_current_epoch()),
        ),
        !spec_vote_accepted(s, vote) ==> spec_slot_ignored(s.votes@, slot)
            && spec_process_slot_votes(s.votes@, slot) == s.votes@ && spec_process_slot_root(
            s.votes@,
            s.root_slot,
            slot,
        ) == s.root_slot && spec_process_slot_credits(
            s.votes@,
            s.epoch_credits@,
            slot,
            s.spec_current_epoch(),
        ) == s.epoch_credits@,
{
    let sh = spec_reversed_hashes(vote);
    assert(sh.len() == 1);
    assert(sh[0] == (slot, vote.hash));
    let last = s.spec_last_voted_slot();
    if spec_slot_ignored(s.votes@, slot) {
        assert(spec_check_walk(last, vote.slots@, sh, 0, 1) == spec_check_walk(
            last,
            vote.slots@,
            sh,
            1,
            1,
        ));
        assert(spec_check_result(last, vote.slots@, sh, vote.hash) == Err::<(), VoteError>(
            VoteError::VoteTooOld,
        ));
    } else {
        assert(spec_check_walk(last, vote.slots@, sh, 0, 1) == spec_check_walk(
            last,
            vote.slots@,
            sh,
            1,
            0,
        ));
        assert(spec_check_result(last, vote.slots@, sh, vote.hash) == Ok::<(), VoteError>(()));
        assert(spec_apply_slots(
            spec_process_slot_votes(s.votes@, slot),
            spec_process_slot_root(s.votes@, s.root_slot, slot),
            spec_process_slot_credits(s.votes@, s.epoch_credits@, slot, s.spec_current_epoch()),
            vote.slots@.drop_first(),
            s.spec_current_epoch(),
        ) == (
        spec_process_slot_votes(s.votes@, slot),
        spec_process_slot_root(s.votes@, s.root_slot, slot),
        spec_process_slot_credits(s.votes@, s.epoch_credits@, slot, s.spec_current_epoch()),
        ));
    }
}

/// Processing the same slot twice is a no-op after the first time: the
/// second application leaves the stack, the root and the credit history
/// unchanged, whatever epochs the two calls ran under.
pub proof fn lemma_process_slot_idempotent(
    vs: Seq<Lockout>,
    root: Option<u64>,
    ec: Seq<EpochCredit>,
    slot: u64,
    e1: u64,
    e2: u64,
)
    ensures
        spec_process_slot_votes(spec_process_slot_votes(vs, slot), slot)
            == spec_process_slot_votes(vs, slot),
        spec_process_slot_root(
            spec_process_slot_votes(vs, slot),
            spec_process_slot_root(vs, root, slot),
            slot,
        ) == spec_process_slot_root(vs, root, slot),
        spec_process_slot_credits(
            spec_process_slot_votes(vs, slot),
            spec_process_slot_credits(vs, ec, slot, e1),
            slot,
            e2,
        ) == spec_process_slot_credits(vs, ec, slot, e1),
{
    let vs1 = spec_process_slot_votes(vs, slot);
    if spec_slot_ignored(vs, slot) {
        assert(vs1 == vs);
    } else {
        let popped = spec_pop_expired(vs, slot);
        let trimmed = if popped.len() == MAX_LOCKOUT_HISTORY {
            popped.subrange(1, popped.len() as int)
        } else {
            popped
        };
        let pushed = trimmed.push(Lockout { slot, confirmation_count: 1 });
        assert(pushed.last().slot == slot);
        let doubled = spec_double_lockouts(pushed);
        assert(doubled.len() == pushed.len());
        assert(doubled[pushed.len() - 1] == pushed[pushed.len() - 1]);
        assert(vs1.last().slot == slot);
        assert(spec_slot_ignored(vs1, slot));
    }
}

/// The structural tower facts that every well-formed state carries: votes
/// strictly ascend by slot and each confirmation count fits its depth.
pub proof fn lemma_tower_shape(s: &VoteState)
    requires
        s.wf(),
    ensures
        slots_ascending(s.votes@),
        confs_bounded(s.votes@),
        s.votes@.len() <= MAX_LOCKOUT_HISTORY,
{
    assert(slots_ascending(s.votes@));
}

/// The credit history stays bounded and its epochs stay in order: one
/// more credit for an epoch no older than the newest recorded one keeps
/// the history sorted and within its capacity.
pub proof fn lemma_increment_credits_sorted(ec: Seq<EpochCredit>, epoch: u64)
    requires
        credits_epochs_sorted(ec),
        ec.len() <= MAX_EPOCH_CREDITS_HISTORY,
        ec.len() > 0 ==> epoch >= ec.last().0,
    ensures
        credits_epochs_sorted(spec_increment_credits(ec, epoch)),
        spec_increment_credits(ec, epoch).len() <= MAX_EPOCH_CREDITS_HISTORY,
{
    let r = spec_increment_credits(ec, epoch);
    if ec.len() == 0 {
        assert(credits_epochs_sorted(seq![(epoch, 0u64, 0u64)]));
    } else if ec.last().0 != epoch {
        let l = ec.last();
        if l.1 != l.2 {
            let pushed = ec.push((epoch, l.1, l.1));
            assert forall|a: int, b: int|
                0 <= a < b < pushed.len() implies (#[trigger] pushed[a]).0 <= (
            #[trigger] pushed[b]).0 by {
                if b < pushed.len() - 1 {
                    assert(ec[a].0 <= ec[b].0);
                } else {
                    assert(ec[a].0 <= ec[ec.len() - 1].0);
                }
            }
            if pushed.len() > MAX_EPOCH_CREDITS_HISTORY {
                let trimmed = pushed.subrange(1, pushed.len() as int);
                assert forall|a: int, b: int|
                    0 <= a < b < trimmed.len() implies (#[trigger] trimmed[a]).0 <= (
                #[trigger] trimmed[b]).0 by {
                    assert(pushed[a + 1].0 <= pushed[b + 1].0);
                }
                assert(r == trimmed.update(
                    trimmed.len() - 1,
                    (trimmed.last().0, (trimmed.last().1 + 1) as u64, trimmed.last().2),
                ));
                assert forall|a: int, b: int|
                    0 <= a < b < r.len() implies (#[trigger] r[a]).0 <= (#[trigger] r[b]).0 by {
                    assert(trimmed[a].0 <= trimmed[b].0);
                }
            } else {
                assert forall|a: int, b: int|
                    0 <= a < b < r.len() implies (#[trigger] r[a]).0 <= (#[trigger] r[b]).0 by {
                    assert(pushed[a].0 <= pushed[b].0);
                }
            }
        } else {
            let rolled = ec.update(ec.len() - 1, (epoch, l.1, l.2));
            assert forall|a: int, b: int|
                0 <= a < b < rolled.len() implies (#[trigger] rolled[a]).0 <= (
            #[trigger] rolled[b]).0 by {
                if b < rolled.len() - 1 {
                    assert(ec[a].0 <= ec[b].0);
                } else {
                    assert(ec[a].0 <= ec[ec.len() - 1].0);
                }
            }
            assert forall|a: int, b: int|
                0 <= a < b < r.len() implies (#[trigger] r[a]).0 <= (#[trigger] r[b]).0 by {
                assert(rolled[a].0 <= rolled[b].0);
            }
        }
    } else {
        assert forall|a: int, b: int|
            0 <= a < b < r.len() implies (#[trigger] r[a]).0 <= (#[trigger] r[b]).0 by {
            assert(ec[a].0 <= ec[b].0);
        }
    }
}

/// Every slot of the vote is already covered by the tower's newest vote.
pub open spec fn all_slots_stale(last: Option<u64>, slots: Seq<u64>) -> bool {
    forall|k: int|
        0 <= k < slots.len() ==> (last matches Some(l) && #[trigger] slots[k] <= l)
}

/// While only stale slots remain, the walk never touches the witness.
proof fn lemma_walk_skips_stale(
    last: Option<u64>,
    slots: Seq<u64>,
    sh: Seq<(u64, HashValue)>,
    i: int,
    j: int,
)
    requires
        0 <= i <= slots.len(),
        0 <= j <= sh.len(),
        forall|k: int|
            i <= k < slots.len() ==> (last matches Some(l) && #[trigger] slots[k] <= l),
    ensures
        spec_check_walk(last, slots, sh, i, j).1 == j,
    decreases slots.len() - i,
{
    if i < slots.len() && j > 0 {
        assert(slots[i] <= last.unwrap());
        lemma_walk_skips_stale(last, slots, sh, i + 1, j);
    }
}

/// Once a fresh slot is reached with witness left, the walk consumes some
/// of the witness.
proof fn lemma_walk_enters(
    last: Option<u64>,
    slots: Seq<u64>,
    sh: Seq<(u64, HashValue)>,
    i: int,
    j: int,
)
    requires
        0 <= i <= slots.len(),
        0 < j <= sh.len(),
        exists|k: int|
            i <= k < slots.len() && !(last matches Some(l) && #[trigger] slots[k] <= l),
    ensures
        spec_check_walk(last, slots, sh, i, j).1 < j,
    decreases slots.len() - i,
{
    let k = choose|k: int|
        i <= k < slots.len() && !(last matches Some(l) && #[trigger] slots[k] <= l);
    if last matches Some(l) && l >= slots[i] {
        assert(k > i);
        lemma_walk_enters(last, slots, sh, i + 1, j);
    } else {
        if slots[i] != sh[j - 1].0 {
            lemma_walk_bounds(last, slots, sh, i, j - 1);
        } else {
            lemma_walk_bounds(last, slots, sh, i + 1, j - 1);
        }
    }
}

/// A vote is rejected as too old exactly when the witness is empty or
/// every submitted slot is at or below the tower's newest vote.
pub proof fn lemma_vote_too_old_exactly(
    last: Option<u64>,
    slots: Seq<u64>,
    sh: Seq<(u64, HashValue)>,
    hash: HashValue,
)
    ensures
        (spec_check_result(last, slots, sh, hash) == Err::<(), VoteError>(VoteError::VoteTooOld))
            <==> (sh.len() == 0 || all_slots_stale(last, slots)),
{
    if sh.len() == 0 {
        lemma_walk_bounds(last, slots, sh, 0, 0);
        let w = spec_check_walk(last, slots, sh, 0, 0);
        assert(w.1 == 0);
    } else if all_slots_stale(last, slots) {
        lemma_walk_skips_stale(last, slots, sh, 0, sh.len() as int);
    } else {
        let k = choose|k: int|
            0 <= k < slots.len() && !(last matches Some(l) && #[trigger] slots[k] <= l);
        lemma_walk_enters(last, slots, sh, 0, sh.len() as int);
    }
}

} // verus!
