//! Wire format of the vote account state: a length-prefixed little-endian
//! encoding of every field in declaration order, with a verified
//! round trip between writer and parser.

use crate::codec::le_bytes;
use crate::codec::le_value;
use crate::codec::lemma_le_bytes_len;
use crate::codec::lemma_le_round_trip;
use crate::codec::lemma_pow256_values;
use crate::codec::put_u32;
use crate::codec::put_u64;
use crate::errors::InstructionError;
use crate::keys::Pubkey;
use crate::lockout::Lockout;
use crate::lockout::MAX_EPOCH_CREDITS_HISTORY;
use crate::lockout::MAX_LOCKOUT_HISTORY;
use crate::vote_state::BlockTimestamp;
use crate::vote_state::CircBuf;
use crate::vote_state::EpochCredit;
use crate::vote_state::PriorVoter;
use crate::vote_state::VoteState;
use crate::vote_state::MAX_ITEMS;
use vstd::prelude::*;

verus! {

/// The mathematical image of a serialized vote state.
#[verifier::ext_equal]
pub ghost struct StateModel {
    pub node_pubkey: Pubkey,
    pub authorized_voter: Pubkey,
    pub authorized_voter_epoch: u64,
    pub prior_voters: Seq<PriorVoter>,
    pub prior_idx: u64,
    pub authorized_withdrawer: Pubkey,
    pub commission: u8,
    pub votes: Seq<Lockout>,
    pub root_slot: Option<u64>,
    pub epoch_credits: Seq<EpochCredit>,
    pub last_timestamp_slot: u64,
    pub last_timestamp: i64,
    pub has_been_slashed: bool,
}

/// The image of a concrete state.
pub open spec fn model_of(s: &VoteState) -> StateModel {
    StateModel {
        node_pubkey: s.node_pubkey,
        authorized_voter: s.authorized_voter,
        authorized_voter_epoch: s.authorized_voter_epoch,
        prior_voters: s.prior_voters.buf@,
        prior_idx: s.prior_voters.idx as u64,
        authorized_withdrawer: s.authorized_withdrawer,
        commission: s.commission,
        votes: s.votes@,
        root_slot: s.root_slot,
        epoch_credits: s.epoch_credits@,
        last_timestamp_slot: s.last_timestamp.slot,
        last_timestamp: s.last_timestamp.timestamp,
        has_been_slashed: s.has_been_slashed,
    }
}

pub open spec fn ser_u64(x: u64) -> Seq<u8> {
    le_bytes(x as nat, 8)
}

pub open spec fn ser_u32(x: u32) -> Seq<u8> {
    le_bytes(x as nat, 4)
}

pub open spec fn ser_i64(x: i64) -> Seq<u8> {
    le_bytes((x as u64) as nat, 8)
}

pub open spec fn ser_bool(x: bool) -> Seq<u8> {
    if x {
        seq![1u8]
    } else {
        seq![0u8]
    }
}

pub open spec fn ser_key(k: Pubkey) -> Seq<u8> {
    ser_u64(k.w0) + ser_u64(k.w1) + ser_u64(k.w2) + ser_u64(k.w3)
}

pub open spec fn ser_lockout(l: Lockout) -> Seq<u8> {
    ser_u64(l.slot) + ser_u32(l.confirmation_count)
}

pub open spec fn ser_lockouts(vs: Seq<Lockout>) -> Seq<u8>
    decreases vs.len(),
{
    if vs.len() == 0 {
        Seq::empty()
    } else {
        ser_lockouts(vs.drop_last()) + ser_lockout(vs.last())
    }
}

pub open spec fn ser_prior(e: PriorVoter) -> Seq<u8> {
    ser_key(e.0) + ser_u64(e.1) + ser_u64(e.2) + ser_u64(e.3)
}

pub open spec fn ser_priors(ps: Seq<PriorVoter>) -> Seq<u8>
    decreases ps.len(),
{
    if ps.len() == 0 {
        Seq::empty()
    } else {
        ser_priors(ps.drop_last()) + ser_prior(ps.last())
    }
}

pub open spec fn ser_credit(e: EpochCredit) -> Seq<u8> {
    ser_u64(e.0) + ser_u64(e.1) + ser_u64(e.2)
}

pub open spec fn ser_credits(ec: Seq<EpochCredit>) -> Seq<u8>
    decreases ec.len(),
{
    if ec.len() == 0 {
        Seq::empty()
    } else {
        ser_credits(ec.drop_last()) + ser_credit(ec.last())
    }
}

pub open spec fn ser_opt_u64(o: Option<u64>) -> Seq<u8> {
    match o {
        None => seq![0u8],
        Some(x) => seq![1u8] + ser_u64(x),
    }
}

/// The full encoding: every field in declaration order, sequences behind
/// a 64-bit length prefix.
pub open spec fn ser_model(m: StateModel) -> Seq<u8> {
    ser_key(m.node_pubkey) + ser_key(m.authorized_voter) + ser_u64(m.authorized_voter_epoch)
        + ser_u64(m.prior_voters.len() as u64) + ser_priors(m.prior_voters) + ser_u64(
        m.prior_idx,
    ) + ser_key(m.authorized_withdrawer) + seq![m.commission] + ser_u64(m.votes.len() as u64)
        + ser_lockouts(m.votes) + ser_opt_u64(m.root_slot) + ser_u64(m.epoch_credits.len() as u64)
        + ser_credits(m.epoch_credits) + ser_u64(m.last_timestamp_slot) + ser_i64(
        m.last_timestamp,
    ) + ser_bool(m.has_been_slashed)
}

/// The encoding of a concrete state.
pub open spec fn spec_ser_state(s: &VoteState) -> Seq<u8> {
    ser_model(model_of(s))
}

/// Append the encoding of a key.
fn write_key(out: &mut Vec<u8>, k: &Pubkey)
    ensures
        final(out)@ == old(out)@ + ser_key(*k),
{
    put_u64(out, k.w0);
    put_u64(out, k.w1);
    put_u64(out, k.w2);
    put_u64(out, k.w3);
    proof {
        assert(out@ =~= old(out)@ + ser_key(*k));
    }
}

impl VoteState {
    /// The encoding of this state as a fresh byte vector.
    pub fn serialize_to_vec(&self) -> (r: Vec<u8>)
        ensures
            r@ == spec_ser_state(self),
    {
        let mut out: Vec<u8> = Vec::new();
        write_key(&mut out, &self.node_pubkey);
        write_key(&mut out, &self.authorized_voter);
        put_u64(&mut out, self.authorized_voter_epoch);
        let np = self.prior_voters.buf.len();
        put_u64(&mut out, np as u64);
        let ghost pre_priors = out@;
        let mut i: usize = 0;
        while i < np
            invariant
                i <= np,
                np == self.prior_voters.buf@.len(),
                out@ == pre_priors + ser_priors(self.prior_voters.buf@.take(i as int)),
            decreases np - i,
        {
            let e = &self.prior_voters.buf[i];
            let ghost before = out@;
            write_key(&mut out, &e.0);
            put_u64(&mut out, e.1);
            put_u64(&mut out, e.2);
            put_u64(&mut out, e.3);
            proof {
                let ps = self.prior_voters.buf@;
                assert(ps.take(i as int + 1).drop_last() =~= ps.take(i as int));
                assert(ps.take(i as int + 1).last() == ps[i as int]);
                assert(out@ =~= before + ser_prior(ps[i as int]));
                assert(out@ =~= pre_priors + ser_priors(ps.take(i as int + 1)));
            }
            i = i + 1;
        }
        proof {
            assert(self.prior_voters.buf@.take(np as int) =~= self.prior_voters.buf@);
        }
        put_u64(&mut out, self.prior_voters.idx as u64);
        write_key(&mut out, &self.authorized_withdrawer);
        out.push(self.commission);
        let nv = self.votes.len();
        put_u64(&mut out, nv as u64);
        let ghost pre_votes = out@;
        let mut v: usize = 0;
        while v < nv
            invariant
                v <= nv,
                nv == self.votes@.len(),
                out@ == pre_votes + ser_lockouts(self.votes@.take(v as int)),
            decreases nv - v,
        {
            let l = self.votes[v];
            let ghost before = out@;
            put_u64(&mut out, l.slot);
            put_u32(&mut out, l.confirmation_count);
            proof {
                let vs = self.votes@;
                assert(vs.take(v as int + 1).drop_last() =~= vs.take(v as int));
                assert(vs.take(v as int + 1).last() == vs[v as int]);
                assert(out@ =~= before + ser_lockout(vs[v as int]));
                assert(out@ =~= pre_votes + ser_lockouts(vs.take(v as int + 1)));
            }
            v = v + 1;
        }
        proof {
            assert(self.votes@.take(nv as int) =~= self.votes@);
        }
        match self.root_slot {
            Some(rt) => {
                out.push(1);
                put_u64(&mut out, rt);
            },
            None => {
                out.push(0);
            },
        }
        let nc = self.epoch_credits.len();
        put_u64(&mut out, nc as u64);
        let ghost pre_credits = out@;
        let mut c: usize = 0;
        while c < nc
            invariant
                c <= nc,
                nc == self.epoch_credits@.len(),
                out@ == pre_credits + ser_credits(self.epoch_credits@.take(c as int)),
            decreases nc - c,
        {
            let e = self.epoch_credits[c];
            let ghost before = out@;
            put_u64(&mut out, e.0);
            put_u64(&mut out, e.1);
            put_u64(&mut out, e.2);
            proof {
                let ec = self.epoch_credits@;
                assert(ec.take(c as int + 1).drop_last() =~= ec.take(c as int));
                assert(ec.take(c as int + 1).last() == ec[c as int]);
                assert(out@ =~= before + ser_credit(ec[c as int]));
                assert(out@ =~= pre_credits + ser_credits(ec.take(c as int + 1)));
            }
            c = c + 1;
        }
        proof {
            assert(self.epoch_credits@.take(nc as int) =~= self.epoch_credits@);
        }
        put_u64(&mut out, self.last_timestamp.slot);
        put_u64(&mut out, self.last_timestamp.timestamp as u64);
        out.push(if self.has_been_slashed {
            1
        } else {
            0
        });
        proof {
            assert(out@ =~= spec_ser_state(self));
        }
        out
    }
}


pub open spec fn parse_u64(b: Seq<u8>, pos: int) -> Option<(u64, int)> {
    if 0 <= pos && pos + 8 <= b.len() {
        Some(((le_value(b.subrange(pos, pos + 8)) as u64), pos + 8))
    } else {
        None
    }
}

pub open spec fn parse_u32(b: Seq<u8>, pos: int) -> Option<(u32, int)> {
    if 0 <= pos && pos + 4 <= b.len() {
        Some(((le_value(b.subrange(pos, pos + 4)) as u32), pos + 4))
    } else {
        None
    }
}

pub open spec fn parse_u8(b: Seq<u8>, pos: int) -> Option<(u8, int)> {
    if 0 <= pos && pos + 1 <= b.len() {
        Some((b[pos], pos + 1))
    } else {
        None
    }
}

pub open spec fn parse_i64(b: Seq<u8>, pos: int) -> Option<(i64, int)> {
    match parse_u64(b, pos) {
        Some((x, p)) => Some((x as i64, p)),
        None => None,
    }
}

pub open spec fn parse_bool(b: Seq<u8>, pos: int) -> Option<(bool, int)> {
    match parse_u8(b, pos) {
        Some((x, p)) => if x == 0 {
            Some((false, p))
        } else if x == 1 {
            Some((true, p))
        } else {
            None
        },
        None => None,
    }
}

pub open spec fn parse_key(b: Seq<u8>, pos: int) -> Option<(Pubkey, int)> {
    match parse_u64(b, pos) {
        Some((w0, p0)) => match parse_u64(b, p0) {
            Some((w1, p1)) => match parse_u64(b, p1) {
                Some((w2, p2)) => match parse_u64(b, p2) {
                    Some((w3, p3)) => Some((Pubkey { w0, w1, w2, w3 }, p3)),
                    None => None,
                },
                None => None,
            },
            None => None,
        },
        None => None,
    }
}

pub open spec fn parse_lockout(b: Seq<u8>, pos: int) -> Option<(Lockout, int)> {
    match parse_u64(b, pos) {
        Some((slot, p0)) => match parse_u32(b, p0) {
            Some((confirmation_count, p1)) => Some((Lockout { slot, confirmation_count }, p1)),
            None => None,
        },
        None => None,
    }
}

pub open spec fn parse_lockouts(b: Seq<u8>, pos: int, n: nat) -> Option<(Seq<Lockout>, int)>
    decreases n,
{
    if n == 0 {
        Some((Seq::empty(), pos))
    } else {
        match parse_lockout(b, pos) {
            Some((l, p)) => match parse_lockouts(b, p, (n - 1) as nat) {
                Some((t, p2)) => Some((seq![l] + t, p2)),
                None => None,
            },
            None => None,
        }
    }
}

pub open spec fn parse_prior(b: Seq<u8>, pos: int) -> Option<(PriorVoter, int)> {
    match parse_key(b, pos) {
        Some((k, p0)) => match parse_u64(b, p0) {
            Some((e1, p1)) => match parse_u64(b, p1) {
                Some((e2, p2)) => match parse_u64(b, p2) {
                    Some((e3, p3)) => Some(((k, e1, e2, e3), p3)),
                    None => None,
                },
                None => None,
            },
            None => None,
        },
        None => None,
    }
}

pub open spec fn parse_priors(b: Seq<u8>, pos: int, n: nat) -> Option<(Seq<PriorVoter>, int)>
    decreases n,
{
    if n == 0 {
        Some((Seq::empty(), pos))
    } else {
        match parse_prior(b, pos) {
            Some((e, p)) => match parse_priors(b, p, (n - 1) as nat) {
                Some((t, p2)) => Some((seq![e] + t, p2)),
                None => None,
            },
            None => None,
        }
    }
}

pub open spec fn parse_credit(b: Seq<u8>, pos: int) -> Option<(EpochCredit, int)> {
    match parse_u64(b, pos) {
        Some((e1, p1)) => match parse_u64(b, p1) {
            Some((e2, p2)) => match parse_u64(b, p2) {
                Some((e3, p3)) => Some(((e1, e2, e3), p3)),
                None => None,
            },
            None => None,
        },
        None => None,
    }
}

pub open spec fn parse_credits(b: Seq<u8>, pos: int, n: nat) -> Option<(Seq<EpochCredit>, int)>
    decreases n,
{
    if n == 0 {
        Some((Seq::empty(), pos))
    } else {
        match parse_credit(b, pos) {
            Some((e, p)) => match parse_credits(b, p, (n - 1) as nat) {
                Some((t, p2)) => Some((seq![e] + t, p2)),
                None => None,
            },
            None => None,
        }
    }
}

pub open spec fn parse_opt_u64(b: Seq<u8>, pos: int) -> Option<(Option<u64>, int)> {
    match parse_u8(b, pos) {
        Some((tag, p)) => if tag == 0 {
            Some((None, p))
        } else if tag == 1 {
            match parse_u64(b, p) {
                Some((x, p2)) => Some((Some(x), p2)),
                None => None,
            }
        } else {
            None
        },
        None => None,
    }
}

/// The parse of a full state: the fields in declaration order; any
/// malformed or missing piece fails the whole parse.
pub open spec fn parse_state(b: Seq<u8>) -> Option<(StateModel, int)> {
    match parse_key(b, 0) {
        Some((node_pubkey, p1)) => match parse_key(b, p1) {
            Some((authorized_voter, p2)) => match parse_u64(b, p2) {
                Some((authorized_voter_epoch, p3)) => match parse_u64(b, p3) {
                    Some((np, p4)) => match parse_priors(b, p4, np as nat) {
                        Some((prior_voters, p5)) => match parse_u64(b, p5) {
                            Some((prior_idx, p6)) => if prior_idx > (usize::MAX as u64) {
                                None
                            } else {
                                parse_state_tail(
                                    b,
                                    p6,
                                    node_pubkey,
                                    authorized_voter,
                                    authorized_voter_epoch,
                                    prior_voters,
                                    prior_idx,
                                )
                            },
                            None => None,
                        },
                        None => None,
                    },
                    None => None,
                },
                None => None,
            },
            None => None,
        },
        None => None,
    }
}

/// The second half of the parse: withdrawer onward.
pub open spec fn parse_state_tail(
    b: Seq<u8>,
    p6: int,
    node_pubkey: Pubkey,
    authorized_voter: Pubkey,
    authorized_voter_epoch: u64,
    prior_voters: Seq<PriorVoter>,
    prior_idx: u64,
) -> Option<(StateModel, int)> {
    match parse_key(b, p6) {
        Some((authorized_withdrawer, p7)) => match parse_u8(b, p7) {
            Some((commission, p8)) => match parse_u64(b, p8) {
                Some((nv, p9)) => match parse_lockouts(b, p9, nv as nat) {
                    Some((votes, p10)) => match parse_opt_u64(b, p10) {
                        Some((root_slot, p11)) => match parse_u64(b, p11) {
                            Some((nc, p12)) => match parse_credits(b, p12, nc as nat) {
                                Some((epoch_credits, p13)) => match parse_u64(b, p13) {
                                    Some((last_timestamp_slot, p14)) => match parse_i64(b, p14) {
                                        Some((last_timestamp, p15)) => match parse_bool(b, p15) {
                                            Some((has_been_slashed, p16)) => Some(
                                                (
                                                    StateModel {
                                                        node_pubkey,
                                                        authorized_voter,
                                                        authorized_voter_epoch,
                                                        prior_voters,
                                                        prior_idx,
                                                        authorized_withdrawer,
                                                        commission,
                                                        votes,
                                                        root_slot,
                                                        epoch_credits,
                                                        last_timestamp_slot,
                                                        last_timestamp,
                                                        has_been_slashed,
                                                    },
                                                    p16,
                                                ),
                                            ),
                                            None => None,
                                        },
                                        None => None,
                                    },
                                    None => None,
                                },
                                None => None,
                            },
                            None => None,
                        },
                        None => None,
                    },
                    None => None,
                },
                None => None,
            },
            None => None,
        },
        None => None,
    }
}

/// Splitting a known concatenation at a cursor.
proof fn lemma_split(b: Seq<u8>, pos: int, s1: Seq<u8>, s2: Seq<u8>)
    requires
        0 <= pos,
        pos + s1.len() + s2.len() <= b.len(),
        b.subrange(pos, pos + s1.len() + s2.len()) == s1 + s2,
    ensures
        b.subrange(pos, pos + s1.len()) == s1,
        b.subrange(pos + s1.len(), pos + s1.len() + s2.len()) == s2,
{
    let w = b.subrange(pos, pos + s1.len() + s2.len());
    assert(b.subrange(pos, pos + s1.len()) =~= s1) by {
        assert forall|j: int| 0 <= j < s1.len() implies b.subrange(pos, pos + s1.len())[j]
            == s1[j] by {
            assert(w[j] == (s1 + s2)[j]);
        }
    }
    assert(b.subrange(pos + s1.len(), pos + s1.len() + s2.len()) =~= s2) by {
        assert forall|j: int|
            0 <= j < s2.len() implies b.subrange(pos + s1.len(), pos + s1.len() + s2.len())[j]
            == s2[j] by {
            assert(w[s1.len() + j] == (s1 + s2)[s1.len() + j]);
        }
    }
}

proof fn lemma_rt_u64(b: Seq<u8>, pos: int, x: u64)
    requires
        0 <= pos,
        pos + 8 <= b.len(),
        b.subrange(pos, pos + 8) == ser_u64(x),
    ensures
        parse_u64(b, pos) == Some((x, pos + 8)),
{
    lemma_pow256_values();
    lemma_le_round_trip(x as nat, 8);
}

proof fn lemma_rt_u32(b: Seq<u8>, pos: int, x: u32)
    requires
        0 <= pos,
        pos + 4 <= b.len(),
        b.subrange(pos, pos + 4) == ser_u32(x),
    ensures
        parse_u32(b, pos) == Some((x, pos + 4)),
{
    lemma_pow256_values();
    lemma_le_round_trip(x as nat, 4);
}

proof fn lemma_rt_i64(b: Seq<u8>, pos: int, x: i64)
    requires
        0 <= pos,
        pos + 8 <= b.len(),
        b.subrange(pos, pos + 8) == ser_i64(x),
    ensures
        parse_i64(b, pos) == Some((x, pos + 8)),
{
    lemma_pow256_values();
    lemma_le_round_trip((x as u64) as nat, 8);
    assert(((x as u64) as i64) == x) by (bit_vector);
}

proof fn lemma_ser_key_len(k: Pubkey)
    ensures
        ser_key(k).len() == 32,
{
    lemma_le_bytes_len(k.w0 as nat, 8);
    lemma_le_bytes_len(k.w1 as nat, 8);
    lemma_le_bytes_len(k.w2 as nat, 8);
    lemma_le_bytes_len(k.w3 as nat, 8);
}

proof fn lemma_rt_key(b: Seq<u8>, pos: int, k: Pubkey)
    requires
        0 <= pos,
        pos + 32 <= b.len(),
        b.subrange(pos, pos + 32) == ser_key(k),
    ensures
        parse_key(b, pos) == Some((k, pos + 32)),
{
    lemma_ser_key_len(k);
    lemma_le_bytes_len(k.w0 as nat, 8);
    lemma_le_bytes_len(k.w1 as nat, 8);
    lemma_le_bytes_len(k.w2 as nat, 8);
    lemma_le_bytes_len(k.w3 as nat, 8);
    lemma_split(b, pos, ser_u64(k.w0) + ser_u64(k.w1) + ser_u64(k.w2), ser_u64(k.w3));
    lemma_split(b, pos, ser_u64(k.w0) + ser_u64(k.w1), ser_u64(k.w2));
    lemma_split(b, pos, ser_u64(k.w0), ser_u64(k.w1));
    lemma_rt_u64(b, pos, k.w0);
    lemma_rt_u64(b, pos + 8, k.w1);
    lemma_rt_u64(b, pos + 16, k.w2);
    lemma_rt_u64(b, pos + 24, k.w3);
}

proof fn lemma_rt_lockout(b: Seq<u8>, pos: int, l: Lockout)
    requires
        0 <= pos,
        pos + 12 <= b.len(),
        b.subrange(pos, pos + 12) == ser_lockout(l),
    ensures
        parse_lockout(b, pos) == Some((l, pos + 12)),
{
    lemma_le_bytes_len(l.slot as nat, 8);
    lemma_le_bytes_len(l.confirmation_count as nat, 4);
    lemma_split(b, pos, ser_u64(l.slot), ser_u32(l.confirmation_count));
    lemma_rt_u64(b, pos, l.slot);
    lemma_rt_u32(b, pos + 8, l.confirmation_count);
}

/// A lockout list's encoding also splits off its first element.
proof fn lemma_ser_lockouts_first(vs: Seq<Lockout>)
    requires
        vs.len() > 0,
    ensures
        ser_lockouts(vs) == ser_lockout(vs[0]) + ser_lockouts(vs.drop_first()),
        ser_lockouts(vs).len() == 12 * vs.len(),
    decreases vs.len(),
{
    lemma_le_bytes_len(vs.last().slot as nat, 8);
    lemma_le_bytes_len(vs.last().confirmation_count as nat, 4);
    if vs.len() == 1 {
        assert(vs.drop_last() =~= Seq::<Lockout>::empty());
        assert(vs.drop_first() =~= Seq::<Lockout>::empty());
        assert(ser_lockouts(vs) =~= ser_lockout(vs[0]) + ser_lockouts(vs.drop_first()));
    } else {
        lemma_ser_lockouts_first(vs.drop_last());
        assert(vs.drop_last()[0] == vs[0]);
        assert(vs.drop_last().drop_first() =~= vs.drop_first().drop_last());
        assert(vs.drop_first().last() == vs.last());
        assert(ser_lockouts(vs) == (ser_lockout(vs[0]) + ser_lockouts(
            vs.drop_first().drop_last(),
        )) + ser_lockout(vs.last()));
        assert((ser_lockout(vs[0]) + ser_lockouts(vs.drop_first().drop_last())) + ser_lockout(
            vs.last(),
        ) =~= ser_lockout(vs[0]) + ser_lockouts(vs.drop_first()));
    }
}

proof fn lemma_rt_lockouts(b: Seq<u8>, pos: int, vs: Seq<Lockout>)
    requires
        0 <= pos,
        pos + 12 * vs.len() <= b.len(),
        b.subrange(pos, pos + 12 * vs.len()) == ser_lockouts(vs),
    ensures
        parse_lockouts(b, pos, vs.len()) == Some((vs, pos + 12 * vs.len())),
    decreases vs.len(),
{
    if vs.len() == 0 {
        assert(parse_lockouts(b, pos, 0) == Some((Seq::<Lockout>::empty(), pos)));
        assert(vs =~= Seq::<Lockout>::empty());
    } else {
        lemma_ser_lockouts_first(vs);
        if vs.len() > 1 {
            lemma_ser_lockouts_first(vs.drop_first());
        } else {
            assert(vs.drop_first() =~= Seq::<Lockout>::empty());
        }
        lemma_split(b, pos, ser_lockout(vs[0]), ser_lockouts(vs.drop_first()));
        lemma_rt_lockout(b, pos, vs[0]);
        lemma_rt_lockouts(b, pos + 12, vs.drop_first());
        assert(seq![vs[0]] + vs.drop_first() =~= vs);
    }
}

proof fn lemma_ser_prior_len(e: PriorVoter)
    ensures
        ser_prior(e).len() == 56,
{
    lemma_ser_key_len(e.0);
    lemma_le_bytes_len(e.1 as nat, 8);
    lemma_le_bytes_len(e.2 as nat, 8);
    lemma_le_bytes_len(e.3 as nat, 8);
}

proof fn lemma_rt_prior(b: Seq<u8>, pos: int, e: PriorVoter)
    requires
        0 <= pos,
        pos + 56 <= b.len(),
        b.subrange(pos, pos + 56) == ser_prior(e),
    ensures
        parse_prior(b, pos) == Some((e, pos + 56)),
{
    lemma_ser_key_len(e.0);
    lemma_le_bytes_len(e.1 as nat, 8);
    lemma_le_bytes_len(e.2 as nat, 8);
    lemma_le_bytes_len(e.3 as nat, 8);
    lemma_split(b, pos, ser_key(e.0) + ser_u64(e.1) + ser_u64(e.2), ser_u64(e.3));
    lemma_split(b, pos, ser_key(e.0) + ser_u64(e.1), ser_u64(e.2));
    lemma_split(b, pos, ser_key(e.0), ser_u64(e.1));
    lemma_rt_key(b, pos, e.0);
    lemma_rt_u64(b, pos + 32, e.1);
    lemma_rt_u64(b, pos + 40, e.2);
    lemma_rt_u64(b, pos + 48, e.3);
}

proof fn lemma_ser_priors_first(ps: Seq<PriorVoter>)
    requires
        ps.len() > 0,
    ensures
        ser_priors(ps) == ser_prior(ps[0]) + ser_priors(ps.drop_first()),
        ser_priors(ps).len() == 56 * ps.len(),
    decreases ps.len(),
{
    lemma_ser_prior_len(ps.last());
    if ps.len() == 1 {
        assert(ps.drop_last() =~= Seq::<PriorVoter>::empty());
        assert(ps.drop_first() =~= Seq::<PriorVoter>::empty());
        assert(ser_priors(ps) =~= ser_prior(ps[0]) + ser_priors(ps.drop_first()));
    } else {
        lemma_ser_priors_first(ps.drop_last());
        assert(ps.drop_last()[0] == ps[0]);
        assert(ps.drop_last().drop_first() =~= ps.drop_first().drop_last());
        assert(ps.drop_first().last() == ps.last());
        assert(ser_priors(ps) == (ser_prior(ps[0]) + ser_priors(ps.drop_first().drop_last()))
            + ser_prior(ps.last()));
        assert((ser_prior(ps[0]) + ser_priors(ps.drop_first().drop_last())) + ser_prior(ps.last())
            =~= ser_prior(ps[0]) + ser_priors(ps.drop_first()));
    }
}

proof fn lemma_rt_priors(b: Seq<u8>, pos: int, ps: Seq<PriorVoter>)
    requires
        0 <= pos,
        pos + 56 * ps.len() <= b.len(),
        b.subrange(pos, pos + 56 * ps.len()) == ser_priors(ps),
    ensures
        parse_priors(b, pos, ps.len()) == Some((ps, pos + 56 * ps.len())),
    decreases ps.len(),
{
    if ps.len() == 0 {
        assert(ps =~= Seq::<PriorVoter>::empty());
    } else {
        lemma_ser_priors_first(ps);
        if ps.len() > 1 {
            lemma_ser_priors_first(ps.drop_first());
        } else {
            assert(ps.drop_first() =~= Seq::<PriorVoter>::empty());
        }
        lemma_split(b, pos, ser_prior(ps[0]), ser_priors(ps.drop_first()));
        lemma_rt_prior(b, pos, ps[0]);
        lemma_rt_priors(b, pos + 56, ps.drop_first());
        assert(seq![ps[0]] + ps.drop_first() =~= ps);
    }
}

proof fn lemma_ser_credit_len(e: EpochCredit)
    ensures
        ser_credit(e).len() == 24,
{
    lemma_le_bytes_len(e.0 as nat, 8);
    lemma_le_bytes_len(e.1 as nat, 8);
    lemma_le_bytes_len(e.2 as nat, 8);
}

proof fn lemma_rt_credit(b: Seq<u8>, pos: int, e: EpochCredit)
    requires
        0 <= pos,
        pos + 24 <= b.len(),
        b.subrange(pos, pos + 24) == ser_credit(e),
    ensures
        parse_credit(b, pos) == Some((e, pos + 24)),
{
    lemma_le_bytes_len(e.0 as nat, 8);
    lemma_le_bytes_len(e.1 as nat, 8);
    lemma_le_bytes_len(e.2 as nat, 8);
    lemma_split(b, pos, ser_u64(e.0) + ser_u64(e.1), ser_u64(e.2));
    lemma_split(b, pos, ser_u64(e.0), ser_u64(e.1));
    lemma_rt_u64(b, pos, e.0);
    lemma_rt_u64(b, pos + 8, e.1);
    lemma_rt_u64(b, pos + 16, e.2);
}

proof fn lemma_ser_credits_first(ec: Seq<EpochCredit>)
    requires
        ec.len() > 0,
    ensures
        ser_credits(ec) == ser_credit(ec[0]) + ser_credits(ec.drop_first()),
        ser_credits(ec).len() == 24 * ec.len(),
    decreases ec.len(),
{
    lemma_ser_credit_len(ec.last());
    if ec.len() == 1 {
        assert(ec.drop_last() =~= Seq::<EpochCredit>::empty());
        assert(ec.drop_first() =~= Seq::<EpochCredit>::empty());
        assert(ser_credits(ec) =~= ser_credit(ec[0]) + ser_credits(ec.drop_first()));
    } else {
        lemma_ser_credits_first(ec.drop_last());
        assert(ec.drop_last()[0] == ec[0]);
        assert(ec.drop_last().drop_first() =~= ec.drop_first().drop_last());
        assert(ec.drop_first().last() == ec.last());
        assert(ser_credits(ec) == (ser_credit(ec[0]) + ser_credits(ec.drop_first().drop_last()))
            + ser_credit(ec.last()));
        assert((ser_credit(ec[0]) + ser_credits(ec.drop_first().drop_last())) + ser_credit(
            ec.last(),
        ) =~= ser_credit(ec[0]) + ser_credits(ec.drop_first()));
    }
}

proof fn lemma_rt_credits(b: Seq<u8>, pos: int, ec: Seq<EpochCredit>)
    requires
        0 <= pos,
        pos + 24 * ec.len() <= b.len(),
        b.subrange(pos, pos + 24 * ec.len()) == ser_credits(ec),
    ensures
        parse_credits(b, pos, ec.len()) == Some((ec, pos + 24 * ec.len())),
    decreases ec.len(),
{
    if ec.len() == 0 {
        assert(ec =~= Seq::<EpochCredit>::empty());
    } else {
        lemma_ser_credits_first(ec);
        if ec.len() > 1 {
            lemma_ser_credits_first(ec.drop_first());
        } else {
            assert(ec.drop_first() =~= Seq::<EpochCredit>::empty());
        }
        lemma_split(b, pos, ser_credit(ec[0]), ser_credits(ec.drop_first()));
        lemma_rt_credit(b, pos, ec[0]);
        lemma_rt_credits(b, pos + 24, ec.drop_first());
        assert(seq![ec[0]] + ec.drop_first() =~= ec);
    }
}

proof fn lemma_rt_opt_u64(b: Seq<u8>, pos: int, o: Option<u64>)
    requires
        0 <= pos,
        pos + ser_opt_u64(o).len() <= b.len(),
        b.subrange(pos, pos + ser_opt_u64(o).len()) == ser_opt_u64(o),
    ensures
        parse_opt_u64(b, pos) == Some((o, pos + ser_opt_u64(o).len())),
{
    match o {
        None => {
            assert(b.subrange(pos, pos + 1)[0] == b[pos]);
            assert(b[pos] == 0u8);
        },
        Some(x) => {
            lemma_le_bytes_len(x as nat, 8);
            lemma_split(b, pos, seq![1u8], ser_u64(x));
            assert(b.subrange(pos, pos + 1)[0] == b[pos]);
            assert(b[pos] == 1u8);
            lemma_rt_u64(b, pos + 1, x);
        },
    }
}

/// The encoding's length, field by field.
pub proof fn lemma_ser_model_len(m: StateModel)
    ensures
        ser_model(m).len() == 155 + 56 * m.prior_voters.len() + 12 * m.votes.len() + 24
            * m.epoch_credits.len() + (match m.root_slot {
            Some(_) => 8int,
            None => 0int,
        }),
{
    lemma_ser_key_len(m.node_pubkey);
    lemma_ser_key_len(m.authorized_voter);
    lemma_ser_key_len(m.authorized_withdrawer);
    lemma_le_bytes_len(m.authorized_voter_epoch as nat, 8);
    lemma_le_bytes_len(m.prior_voters.len() as u64 as nat, 8);
    lemma_le_bytes_len(m.prior_idx as nat, 8);
    lemma_le_bytes_len(m.votes.len() as u64 as nat, 8);
    lemma_le_bytes_len(m.epoch_credits.len() as u64 as nat, 8);
    lemma_le_bytes_len(m.last_timestamp_slot as nat, 8);
    lemma_le_bytes_len((m.last_timestamp as u64) as nat, 8);
    if m.prior_voters.len() > 0 {
        lemma_ser_priors_first(m.prior_voters);
    }
    if m.votes.len() > 0 {
        lemma_ser_lockouts_first(m.votes);
    }
    if m.epoch_credits.len() > 0 {
        lemma_ser_credits_first(m.epoch_credits);
    }
    match m.root_slot {
        Some(x) => {
            lemma_le_bytes_len(x as nat, 8);
        },
        None => {},
    }
}

/// The parser inverts the writer: a buffer that begins with a state's
/// encoding parses back to exactly that state.
#[verifier::rlimit(100)]
#[verifier::spinoff_prover]
pub proof fn lemma_parse_ser_model(b: Seq<u8>, m: StateModel)
    requires
        m.prior_idx <= usize::MAX,
        m.prior_voters.len() <= u64::MAX,
        m.votes.len() <= u64::MAX,
        m.epoch_credits.len() <= u64::MAX,
        ser_model(m).len() <= b.len(),
        b.subrange(0, ser_model(m).len() as int) == ser_model(m),
    ensures
        parse_state(b) == Some((m, ser_model(m).len() as int)),
{
    lemma_ser_model_len(m);
    lemma_ser_key_len(m.node_pubkey);
    lemma_ser_key_len(m.authorized_voter);
    lemma_ser_key_len(m.authorized_withdrawer);
    lemma_le_bytes_len(m.authorized_voter_epoch as nat, 8);
    lemma_le_bytes_len(m.prior_voters.len() as u64 as nat, 8);
    lemma_le_bytes_len(m.prior_idx as nat, 8);
    lemma_le_bytes_len(m.votes.len() as u64 as nat, 8);
    lemma_le_bytes_len(m.epoch_credits.len() as u64 as nat, 8);
    lemma_le_bytes_len(m.last_timestamp_slot as nat, 8);
    lemma_le_bytes_len((m.last_timestamp as u64) as nat, 8);
    if m.prior_voters.len() > 0 {
        lemma_ser_priors_first(m.prior_voters);
    }
    if m.votes.len() > 0 {
        lemma_ser_lockouts_first(m.votes);
    }
    if m.epoch_credits.len() > 0 {
        lemma_ser_credits_first(m.epoch_credits);
    }
    let s1 = ser_key(m.node_pubkey);
    let s2 = ser_key(m.authorized_voter);
    let s3 = ser_u64(m.authorized_voter_epoch);
    let s4 = ser_u64(m.prior_voters.len() as u64);
    let s5 = ser_priors(m.prior_voters);
    let s6 = ser_u64(m.prior_idx);
    let s7 = ser_key(m.authorized_withdrawer);
    let s8 = seq![m.commission];
    let s9 = ser_u64(m.votes.len() as u64);
    let s10 = ser_lockouts(m.votes);
    let s11 = ser_opt_u64(m.root_slot);
    let s12 = ser_u64(m.epoch_credits.len() as u64);
    let s13 = ser_credits(m.epoch_credits);
    let s14 = ser_u64(m.last_timestamp_slot);
    let s15 = ser_i64(m.last_timestamp);
    let s16 = ser_bool(m.has_been_slashed);
    let whole = ser_model(m);
    lemma_split(
        b,
        0,
        s1 + s2 + s3 + s4 + s5 + s6 + s7 + s8 + s9 + s10 + s11 + s12 + s13 + s14 + s15,
        s16,
    );
    lemma_split(
        b,
        0,
        s1 + s2 + s3 + s4 + s5 + s6 + s7 + s8 + s9 + s10 + s11 + s12 + s13 + s14,
        s15,
    );
    lemma_split(b, 0, s1 + s2 + s3 + s4 + s5 + s6 + s7 + s8 + s9 + s10 + s11 + s12 + s13, s14);
    lemma_split(b, 0, s1 + s2 + s3 + s4 + s5 + s6 + s7 + s8 + s9 + s10 + s11 + s12, s13);
    lemma_split(b, 0, s1 + s2 + s3 + s4 + s5 + s6 + s7 + s8 + s9 + s10 + s11, s12);
    lemma_split(b, 0, s1 + s2 + s3 + s4 + s5 + s6 + s7 + s8 + s9 + s10, s11);
    lemma_split(b, 0, s1 + s2 + s3 + s4 + s5 + s6 + s7 + s8 + s9, s10);
    lemma_split(b, 0, s1 + s2 + s3 + s4 + s5 + s6 + s7 + s8, s9);
    lemma_split(b, 0, s1 + s2 + s3 + s4 + s5 + s6 + s7, s8);
    lemma_split(b, 0, s1 + s2 + s3 + s4 + s5 + s6, s7);
    lemma_split(b, 0, s1 + s2 + s3 + s4 + s5, s6);
    lemma_split(b, 0, s1 + s2 + s3 + s4, s5);
    lemma_split(b, 0, s1 + s2 + s3, s4);
    lemma_split(b, 0, s1 + s2, s3);
    lemma_split(b, 0, s1, s2);
    let p0: int = 0;
    let p1 = p0 + s1.len();
    let p2 = p1 + s2.len();
    let p3 = p2 + s3.len();
    let p4 = p3 + s4.len();
    let p5 = p4 + s5.len();
    let p6 = p5 + s6.len();
    let p7 = p6 + s7.len();
    let p8 = p7 + s8.len();
    let p9 = p8 + s9.len();
    let p10 = p9 + s10.len();
    let p11 = p10 + s11.len();
    let p12 = p11 + s12.len();
    let p13 = p12 + s13.len();
    let p14 = p13 + s14.len();
    let p15 = p14 + s15.len();
    lemma_rt_key(b, p0, m.node_pubkey);
    lemma_rt_key(b, p1, m.authorized_voter);
    lemma_rt_u64(b, p2, m.authorized_voter_epoch);
    lemma_rt_u64(b, p3, m.prior_voters.len() as u64);
    lemma_rt_priors(b, p4, m.prior_voters);
    lemma_rt_u64(b, p5, m.prior_idx);
    lemma_rt_key(b, p6, m.authorized_withdrawer);
    assert(b.subrange(p7, p7 + 1)[0] == b[p7]);
    assert(parse_u8(b, p7) == Some((m.commission, p7 + 1)));
    lemma_rt_u64(b, p8, m.votes.len() as u64);
    lemma_rt_lockouts(b, p9, m.votes);
    lemma_rt_opt_u64(b, p10, m.root_slot);
    lemma_rt_u64(b, p11, m.epoch_credits.len() as u64);
    lemma_rt_credits(b, p12, m.epoch_credits);
    lemma_rt_u64(b, p13, m.last_timestamp_slot);
    lemma_rt_i64(b, p14, m.last_timestamp);
    let p16 = p15 + 1;
    assert(b.subrange(p15, p15 + 1)[0] == b[p15]);
    assert(parse_bool(b, p15) == Some((m.has_been_slashed, p16)));
    assert(parse_state(b) == Some((m, p16)));
}


/// Serializing a state and parsing the bytes, with anything after them,
/// gives the state back.
pub proof fn lemma_serialize_round_trip(s: &VoteState, rest: Seq<u8>)
    requires
        s.prior_voters.buf@.len() <= u64::MAX,
        s.votes@.len() <= u64::MAX,
        s.epoch_credits@.len() <= u64::MAX,
    ensures
        parse_state(spec_ser_state(s) + rest) == Some(
            (model_of(s), spec_ser_state(s).len() as int),
        ),
{
    let b = spec_ser_state(s) + rest;
    assert(b.subrange(0, spec_ser_state(s).len() as int) =~= spec_ser_state(s));
    lemma_parse_ser_model(b, model_of(s));
}

fn rd_u64(b: &[u8], pos: usize) -> (r: Option<(u64, usize)>)
    ensures
        match r {
            Some((x, p)) => parse_u64(b@, pos as int) == Some((x, p as int)),
            None => parse_u64(b@, pos as int) is None,
        },
{
    if pos <= b.len() && b.len() - pos >= 8 {
        Some((crate::codec::read_u64(b, pos), pos + 8))
    } else {
        None
    }
}

fn rd_u32(b: &[u8], pos: usize) -> (r: Option<(u32, usize)>)
    ensures
        match r {
            Some((x, p)) => parse_u32(b@, pos as int) == Some((x, p as int)),
            None => parse_u32(b@, pos as int) is None,
        },
{
    if pos <= b.len() && b.len() - pos >= 4 {
        Some((crate::codec::read_u32(b, pos), pos + 4))
    } else {
        None
    }
}

fn rd_u8(b: &[u8], pos: usize) -> (r: Option<(u8, usize)>)
    ensures
        match r {
            Some((x, p)) => parse_u8(b@, pos as int) == Some((x, p as int)),
            None => parse_u8(b@, pos as int) is None,
        },
{
    if pos < b.len() {
        Some((b[pos], pos + 1))
    } else {
        None
    }
}

fn rd_key(b: &[u8], pos: usize) -> (r: Option<(Pubkey, usize)>)
    ensures
        match r {
            Some((k, p)) => parse_key(b@, pos as int) == Some((k, p as int)),
            None => parse_key(b@, pos as int) is None,
        },
{
    match rd_u64(b, pos) {
        Some((w0, p0)) => match rd_u64(b, p0) {
            Some((w1, p1)) => match rd_u64(b, p1) {
                Some((w2, p2)) => match rd_u64(b, p2) {
                    Some((w3, p3)) => Some((Pubkey { w0, w1, w2, w3 }, p3)),
                    None => None,
                },
                None => None,
            },
            None => None,
        },
        None => None,
    }
}

/// A successful element-list parse lands exactly `width * n` bytes on.
proof fn lemma_parse_lockouts_bound(b: Seq<u8>, pos: int, n: nat)
    requires
        parse_lockouts(b, pos, n) is Some,
        0 <= pos,
    ensures
        parse_lockouts(b, pos, n).unwrap().1 == pos + 12 * n,
        n > 0 ==> pos + 12 * n <= b.len(),
        parse_lockouts(b, pos, n).unwrap().0.len() == n,
    decreases n,
{
    if n > 0 {
        let (l, p) = parse_lockout(b, pos).unwrap();
        lemma_parse_lockouts_bound(b, p, (n - 1) as nat);
    }
}

proof fn lemma_parse_priors_bound(b: Seq<u8>, pos: int, n: nat)
    requires
        parse_priors(b, pos, n) is Some,
        0 <= pos,
    ensures
        parse_priors(b, pos, n).unwrap().1 == pos + 56 * n,
        n > 0 ==> pos + 56 * n <= b.len(),
        parse_priors(b, pos, n).unwrap().0.len() == n,
    decreases n,
{
    if n > 0 {
        let (e, p) = parse_prior(b, pos).unwrap();
        lemma_parse_priors_bound(b, p, (n - 1) as nat);
    }
}

proof fn lemma_parse_credits_bound(b: Seq<u8>, pos: int, n: nat)
    requires
        parse_credits(b, pos, n) is Some,
        0 <= pos,
    ensures
        parse_credits(b, pos, n).unwrap().1 == pos + 24 * n,
        n > 0 ==> pos + 24 * n <= b.len(),
        parse_credits(b, pos, n).unwrap().0.len() == n,
    decreases n,
{
    if n > 0 {
        let (e, p) = parse_credits(b, pos, n).unwrap();
        let (e1, p1) = parse_credit(b, pos).unwrap();
        lemma_parse_credits_bound(b, p1, (n - 1) as nat);
    }
}

fn rd_lockouts(b: &[u8], pos: usize, n: u64) -> (r: Option<(Vec<Lockout>, usize)>)
    ensures
        match r {
            Some((v, p)) => parse_lockouts(b@, pos as int, n as nat) == Some((v@, p as int)),
            None => parse_lockouts(b@, pos as int, n as nat) is None,
        },
{
    if n > (b.len() as u64) {
        proof {
            if parse_lockouts(b@, pos as int, n as nat) is Some {
                lemma_parse_lockouts_bound(b@, pos as int, n as nat);
            }
        }
        return None;
    }
    let count = n as usize;
    let mut out: Vec<Lockout> = Vec::new();
    let mut cur: usize = pos;
    let mut k: usize = 0;
    proof {
        if parse_lockouts(b@, pos as int, count as nat) is Some {
            let (t, p) = parse_lockouts(b@, pos as int, count as nat).unwrap();
            assert(Seq::<Lockout>::empty() + t =~= t);
        }
    }
    while k < count
        invariant
            k <= count,
            count == n as int,
            out@.len() == k,
            parse_lockouts(b@, pos as int, count as nat) == (match parse_lockouts(
                b@,
                cur as int,
                (count - k) as nat,
            ) {
                Some((t, p)) => Some((out@ + t, p)),
                None => None::<(Seq<Lockout>, int)>,
            }),
        decreases count - k,
    {
        let slot_r = rd_u64(b, cur);
        match slot_r {
            Some((slot, p0)) => {
                match rd_u32(b, p0) {
                    Some((confirmation_count, p1)) => {
                        let ghost pre_out = out@;
                        out.push(Lockout { slot, confirmation_count });
                        proof {
                            let rest = parse_lockouts(b@, p1 as int, (count - k - 1) as nat);
                            if rest is Some {
                                let (t, p) = rest.unwrap();
                                assert(pre_out + (seq![
                                    Lockout { slot, confirmation_count },
                                ] + t) =~= out@ + t);
                            }
                        }
                        cur = p1;
                    },
                    None => {
                        proof {
                            assert(count == n as int);
                            assert(parse_lockout(b@, cur as int) is None);
                            assert(parse_lockouts(b@, cur as int, (count - k) as nat) is None);
                        }
                        return None;
                    },
                }
            },
            None => {
                proof {
                    assert(count == n as int);
                    assert(parse_lockout(b@, cur as int) is None);
                    assert(parse_lockouts(b@, cur as int, (count - k) as nat) is None);
                }
                return None;
            },
        }
        k = k + 1;
    }
    proof {
        assert(count == n as int);
        assert(out@ + Seq::<Lockout>::empty() =~= out@);
    }
    Some((out, cur))
}

fn rd_priors(b: &[u8], pos: usize, n: u64) -> (r: Option<(Vec<PriorVoter>, usize)>)
    ensures
        match r {
            Some((v, p)) => parse_priors(b@, pos as int, n as nat) == Some((v@, p as int)),
            None => parse_priors(b@, pos as int, n as nat) is None,
        },
{
    if n > (b.len() as u64) {
        proof {
            if parse_priors(b@, pos as int, n as nat) is Some {
                lemma_parse_priors_bound(b@, pos as int, n as nat);
            }
        }
        return None;
    }
    let count = n as usize;
    let mut out: Vec<PriorVoter> = Vec::new();
    let mut cur: usize = pos;
    let mut k: usize = 0;
    proof {
        if parse_priors(b@, pos as int, count as nat) is Some {
            let (t, p) = parse_priors(b@, pos as int, count as nat).unwrap();
            assert(Seq::<PriorVoter>::empty() + t =~= t);
        }
    }
    while k < count
        invariant
            k <= count,
            count == n as int,
            out@.len() == k,
            parse_priors(b@, pos as int, count as nat) == (match parse_priors(
                b@,
                cur as int,
                (count - k) as nat,
            ) {
                Some((t, p)) => Some((out@ + t, p)),
                None => None::<(Seq<PriorVoter>, int)>,
            }),
        decreases count - k,
    {
        match rd_key(b, cur) {
            Some((key, p0)) => {
                match rd_u64(b, p0) {
                    Some((e1, p1)) => {
                        match rd_u64(b, p1) {
                            Some((e2, p2)) => {
                                match rd_u64(b, p2) {
                                    Some((e3, p3)) => {
                                        let ghost pre_out = out@;
                                        out.push((key, e1, e2, e3));
                                        proof {
                                            let rest = parse_priors(
                                                b@,
                                                p3 as int,
                                                (count - k - 1) as nat,
                                            );
                                            if rest is Some {
                                                let (t, p) = rest.unwrap();
                                                assert(pre_out + (seq![(key, e1, e2, e3)] + t)
                                                    =~= out@ + t);
                                            }
                                        }
                                        cur = p3;
                                    },
                                    None => {
                                        return None;
                                    },
                                }
                            },
                            None => {
                                return None;
                            },
                        }
                    },
                    None => {
                        return None;
                    },
                }
            },
            None => {
                return None;
            },
        }
        k = k + 1;
    }
    proof {
        assert(out@ + Seq::<PriorVoter>::empty() =~= out@);
    }
    Some((out, cur))
}

fn rd_credits(b: &[u8], pos: usize, n: u64) -> (r: Option<(Vec<EpochCredit>, usize)>)
    ensures
        match r {
            Some((v, p)) => parse_credits(b@, pos as int, n as nat) == Some((v@, p as int)),
            None => parse_credits(b@, pos as int, n as nat) is None,
        },
{
    if n > (b.len() as u64) {
        proof {
            if parse_credits(b@, pos as int, n as nat) is Some {
                lemma_parse_credits_bound(b@, pos as int, n as nat);
            }
        }
        return None;
    }
    let count = n as usize;
    let mut out: Vec<EpochCredit> = Vec::new();
    let mut cur: usize = pos;
    let mut k: usize = 0;
    proof {
        if parse_credits(b@, pos as int, count as nat) is Some {
            let (t, p) = parse_credits(b@, pos as int, count as nat).unwrap();
            assert(Seq::<EpochCredit>::empty() + t =~= t);
        }
    }
    while k < count
        invariant
            k <= count,
            count == n as int,
            out@.len() == k,
            parse_credits(b@, pos as int, count as nat) == (match parse_credits(
                b@,
                cur as int,
                (count - k) as nat,
            ) {
                Some((t, p)) => Some((out@ + t, p)),
                None => None::<(Seq<EpochCredit>, int)>,
            }),
        decreases count - k,
    {
        match rd_u64(b, cur) {
            Some((e1, p1)) => {
                match rd_u64(b, p1) {
                    Some((e2, p2)) => {
                        match rd_u64(b, p2) {
                            Some((e3, p3)) => {
                                let ghost pre_out = out@;
                                out.push((e1, e2, e3));
                                proof {
                                    let rest = parse_credits(
                                        b@,
                                        p3 as int,
                                        (count - k - 1) as nat,
                                    );
                                    if rest is Some {
                                        let (t, p) = rest.unwrap();
                                        assert(pre_out + (seq![(e1, e2, e3)] + t) =~= out@ + t);
                                    }
                                }
                                cur = p3;
                            },
                            None => {
                                return None;
                            },
                        }
                    },
                    None => {
                        return None;
                    },
                }
            },
            None => {
                return None;
            },
        }
        k = k + 1;
    }
    proof {
        assert(out@ + Seq::<EpochCredit>::empty() =~= out@);
    }
    Some((out, cur))
}

impl VoteState {
    /// Decode a state from its wire form; malformed input is rejected as
    /// invalid account data.
    pub fn deserialize(input: &[u8]) -> (r: Result<VoteState, InstructionError>)
        ensures
            r is Ok <==> parse_state(input@) is Some,
            r matches Ok(s) ==> model_of(&s) == parse_state(input@).unwrap().0,
            r is Err ==> r == Err::<VoteState, InstructionError>(
                InstructionError::InvalidAccountData,
            ),
    {
        let b = input;
        let r1 = rd_key(b, 0);
        if r1.is_none() {
            return Err(InstructionError::InvalidAccountData);
        }
        let (node_pubkey, p1) = r1.unwrap();
        let r2 = rd_key(b, p1);
        if r2.is_none() {
            return Err(InstructionError::InvalidAccountData);
        }
        let (authorized_voter, p2) = r2.unwrap();
        let r3 = rd_u64(b, p2);
        if r3.is_none() {
            return Err(InstructionError::InvalidAccountData);
        }
        let (authorized_voter_epoch, p3) = r3.unwrap();
        let r4 = rd_u64(b, p3);
        if r4.is_none() {
            return Err(InstructionError::InvalidAccountData);
        }
        let (np, p4) = r4.unwrap();
        let r5 = rd_priors(b, p4, np);
        if r5.is_none() {
            return Err(InstructionError::InvalidAccountData);
        }
        let (prior_voters, p5) = r5.unwrap();
        let r6 = rd_u64(b, p5);
        if r6.is_none() {
            return Err(InstructionError::InvalidAccountData);
        }
        let (prior_idx, p6) = r6.unwrap();
        if prior_idx > (usize::MAX as u64) {
            return Err(InstructionError::InvalidAccountData);
        }
        let r7 = rd_key(b, p6);
        if r7.is_none() {
            return Err(InstructionError::InvalidAccountData);
        }
        let (authorized_withdrawer, p7) = r7.unwrap();
        let r8 = rd_u8(b, p7);
        if r8.is_none() {
            return Err(InstructionError::InvalidAccountData);
        }
        let (commission, p8) = r8.unwrap();
        let r9 = rd_u64(b, p8);
        if r9.is_none() {
            return Err(InstructionError::InvalidAccountData);
        }
        let (nv, p9) = r9.unwrap();
        let r10 = rd_lockouts(b, p9, nv);
        if r10.is_none() {
            return Err(InstructionError::InvalidAccountData);
        }
        let (votes, p10) = r10.unwrap();
        let r11 = rd_u8(b, p10);
        if r11.is_none() {
            return Err(InstructionError::InvalidAccountData);
        }
        let (root_tag, p11a) = r11.unwrap();
        let root_slot: Option<u64>;
        let p11: usize;
        if root_tag == 0 {
            root_slot = None;
            p11 = p11a;
        } else if root_tag == 1 {
            let rr = rd_u64(b, p11a);
            if rr.is_none() {
                return Err(InstructionError::InvalidAccountData);
            }
            let (rv, p11b) = rr.unwrap();
            root_slot = Some(rv);
            p11 = p11b;
        } else {
            return Err(InstructionError::InvalidAccountData);
        }
        let r12 = rd_u64(b, p11);
        if r12.is_none() {
            return Err(InstructionError::InvalidAccountData);
        }
        let (nc, p12) = r12.unwrap();
        let r13 = rd_credits(b, p12, nc);
        if r13.is_none() {
            return Err(InstructionError::InvalidAccountData);
        }
        let (epoch_credits, p13) = r13.unwrap();
        let r14 = rd_u64(b, p13);
        if r14.is_none() {
            return Err(InstructionError::InvalidAccountData);
        }
        let (last_timestamp_slot, p14) = r14.unwrap();
        let r15 = rd_u64(b, p14);
        if r15.is_none() {
            return Err(InstructionError::InvalidAccountData);
        }
        let (ts_bits, p15) = r15.unwrap();
        let last_timestamp = ts_bits as i64;
        let r16 = rd_u8(b, p15);
        if r16.is_none() {
            return Err(InstructionError::InvalidAccountData);
        }
        let (flag, _p16) = r16.unwrap();
        if flag > 1 {
            return Err(InstructionError::InvalidAccountData);
        }
        let has_been_slashed = flag == 1;
        let state = VoteState {
            node_pubkey,
            authorized_voter,
            authorized_voter_epoch,
            prior_voters: CircBuf { buf: prior_voters, idx: prior_idx as usize },
            authorized_withdrawer,
            commission,
            votes,
            root_slot,
            epoch_credits,
            last_timestamp: BlockTimestamp { slot: last_timestamp_slot, timestamp: last_timestamp },
            has_been_slashed,
        };
        proof {
            assert(model_of(&state) =~= parse_state(input@).unwrap().0);
        }
        Ok(state)
    }

    /// Write this state's encoding over the front of `output`; fails when
    /// the buffer is too small, leaving it untouched.
    pub fn serialize(&self, output: &mut Vec<u8>) -> (r: Result<(), InstructionError>)
        ensures
            r is Ok <==> spec_ser_state(self).len() <= old(output)@.len(),
            r is Ok ==> final(output)@ == spec_ser_state(self) + old(output)@.skip(
                spec_ser_state(self).len() as int,
            ),
            r is Err ==> final(output)@ == old(output)@ && r == Err::<(), InstructionError>(
                InstructionError::AccountDataTooSmall,
            ),
    {
        let enc = self.serialize_to_vec();
        let n = enc.len();
        if n > output.len() {
            return Err(InstructionError::AccountDataTooSmall);
        }
        let mut i: usize = 0;
        while i < n
            invariant
                i <= n,
                n == enc@.len(),
                n <= output@.len(),
                output@.len() == old(output)@.len(),
                enc@ == spec_ser_state(self),
                forall|j: int| 0 <= j < i ==> output@[j] == enc@[j],
                forall|j: int| i <= j < output@.len() ==> output@[j] == old(output)@[j],
            decreases n - i,
        {
            output[i] = enc[i];
            i = i + 1;
        }
        proof {
            assert(output@ =~= spec_ser_state(self) + old(output)@.skip(
                spec_ser_state(self).len() as int,
            ));
        }
        Ok(())
    }

    /// Upper bound on the encoded size: the serialized length of a state
    /// with a full lockout stack, a root, and a full credit history.
    pub fn size_of() -> (r: usize)
        ensures
            r == 3863,
    {
        let mut state = VoteState::default();
        let mut k: usize = 0;
        while k < MAX_LOCKOUT_HISTORY
            invariant
                k <= MAX_LOCKOUT_HISTORY,
                state.votes@.len() == k,
                state.prior_voters.buf@.len() == MAX_ITEMS,
                state.epoch_credits@.len() == 0,
            decreases MAX_LOCKOUT_HISTORY - k,
        {
            state.votes.push(Lockout { slot: 0, confirmation_count: 0 });
            k = k + 1;
        }
        state.root_slot = Some(u64::MAX);
        let mut c: usize = 0;
        while c < MAX_EPOCH_CREDITS_HISTORY
            invariant
                c <= MAX_EPOCH_CREDITS_HISTORY,
                state.epoch_credits@.len() == c,
                state.votes@.len() == MAX_LOCKOUT_HISTORY,
                state.prior_voters.buf@.len() == MAX_ITEMS,
                state.root_slot is Some,
            decreases MAX_EPOCH_CREDITS_HISTORY - c,
        {
            state.epoch_credits.push((0, 0, 0));
            c = c + 1;
        }
        let enc = state.serialize_to_vec();
        proof {
            lemma_ser_model_len(model_of(&state));
        }
        enc.len()
    }
}

} // verus!
