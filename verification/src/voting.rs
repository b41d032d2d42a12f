//! The voting patch: which banks to vote on, given the fork the validator is
//! on, the flags the Allnodes service returned and the validator's tower.

use vstd::prelude::*;
use std::collections::{HashMap, HashSet};
use rand::Rng;
use crate::flags::{Flags, bit_set, bit_field};
use crate::tower::{
    Lockout, Tower, TowerVoteState, VoteStack, is_recent_slot, last_vote_slot, locked_out_at,
    process_votes,
};
use crate::config::{VotingPatchConfig, default_config};

verus! {

broadcast use vstd::std_specs::hash::group_hash_axioms;

/// What the voting patch reads of a bank on the fork: its slot and the two
/// confirmation facts that the fork's progress records for it.
#[derive(Clone, Copy, Debug)]
pub struct BankInfo {
    pub slot: u64,
    pub is_mostly_confirmed: bool,
    pub is_duplicate_confirmed: bool,
}

/// What the voting patch reads of a slot in the progress map.
#[derive(Clone, Copy, Debug)]
pub struct SlotProgress {
    pub slot: u64,
    /// The fork has a duplicate-confirmed hash for the slot.
    pub is_duplicate_confirmed: bool,
    /// The slot's bank is frozen.
    pub is_frozen: bool,
    /// Whether the stake voted on the slot exceeds the mostly-confirmed
    /// threshold, where any vote on it was counted.
    pub above_threshold: Option<bool>,
}

/// `x + y` where it fits in a `u64`.
pub open spec fn add_u64(x: u64, y: nat) -> Option<u64> {
    if x + y <= u64::MAX {
        Some((x + y) as u64)
    } else {
        None
    }
}

/// A flag as a number.
pub open spec fn flag_bit(f: Flags, i: nat) -> nat {
    if bit_set(f.bits, i) {
        1
    } else {
        0
    }
}

/// The first bank at or after index `i` of the fork (newest first) that is
/// mostly confirmed.
pub open spec fn first_mostly_confirmed_from(chain: Seq<BankInfo>, i: int) -> Option<int>
    decreases chain.len() - i,
{
    if 0 <= i < chain.len() {
        if chain[i].is_mostly_confirmed {
            Some(i)
        } else {
            first_mostly_confirmed_from(chain, i + 1)
        }
    } else {
        None
    }
}

proof fn lemma_first_mostly_confirmed(chain: Seq<BankInfo>, i: int)
    ensures
        first_mostly_confirmed_from(chain, i) matches Some(k) ==> i <= k < chain.len()
            && chain[k].is_mostly_confirmed,
    decreases chain.len() - i,
{
    if 0 <= i < chain.len() && !chain[i].is_mostly_confirmed {
        lemma_first_mostly_confirmed(chain, i + 1);
    }
}

/// The slot of the first bank at or after index `i` that is duplicate
/// confirmed, or 0.
pub open spec fn last_confirmed_from(chain: Seq<BankInfo>, i: int) -> u64
    decreases chain.len() - i,
{
    if 0 <= i < chain.len() {
        if chain[i].is_duplicate_confirmed {
            chain[i].slot
        } else {
            last_confirmed_from(chain, i + 1)
        }
    } else {
        0
    }
}

/// The slots of the bank at index `i` and of its ancestors back to the
/// first one whose slot is below `first_slot`, oldest first.
pub open spec fn banks_from(chain: Seq<BankInfo>, i: int, first_slot: u64) -> Seq<u64>
    decreases chain.len() - i,
{
    if 0 <= i < chain.len() && chain[i].slot >= first_slot {
        banks_from(chain, i + 1, first_slot).push(chain[i].slot)
    } else {
        seq![]
    }
}

/// Whether a vote in the stack makes `slot` locked out under flags `f`.
pub open spec fn vote_blocks(f: Flags, v: Lockout, slot: u64, ancestors: Set<u64>) -> bool {
    (((slot == v.slot) != bit_set(f.bits, 3)) && (bit_set(f.bits, 4) != ancestors.contains(v.slot)))
        || bit_set(f.bits, 5)
}

/// The votes taken as cast before the lockout check: `including`, and
/// `slot` itself where flag 2 is set.
pub open spec fn votes_considered(f: Flags, including: Seq<u64>, slot: u64) -> Seq<u64> {
    if bit_set(f.bits, 2) {
        including.push(slot)
    } else {
        including
    }
}

/// Whether voting on `slot` is locked out, after votes on `including`; `None`
/// where the tower's root turns out not to be an ancestor of `slot`.
pub open spec fn locked_out_check(
    f: Flags,
    s: VoteStack,
    slot: u64,
    ancestors: Set<u64>,
    including: Seq<u64>,
) -> Option<bool> {
    if bit_set(f.bits, 0) != is_recent_slot(s, slot) {
        Some(bit_set(f.bits, 1))
    } else {
        let s2 = process_votes(s, votes_considered(f, including, slot));
        if exists|i: int| 0 <= i < s2.votes.len() && vote_blocks(f, #[trigger] s2.votes[i], slot, ancestors) {
            Some(bit_set(f.bits, 6))
        } else if s2.root_slot is Some && slot != s2.root_slot->0 && !ancestors.contains(
            s2.root_slot->0,
        ) {
            None
        } else {
            Some(false)
        }
    }
}

/// The new votes kept by `pop_votes_locked_out_at`, scanning from index `i`:
/// cut before the first vote after which the newest lockout's state at
/// `slot`, read through flag 7, says to stop.
pub open spec fn pop_cut(f: Flags, s: VoteStack, votes: Seq<u64>, slot: u64, i: int) -> Seq<u64>
    decreases votes.len() - i,
{
    if 0 <= i < votes.len() {
        let s2 = process_votes(s, votes.take(i + 1));
        if s2.votes.len() > 0 && (locked_out_at(s2.votes.last(), slot) != bit_set(f.bits, 7)) {
            votes.take(i)
        } else {
            pop_cut(f, s, votes, slot, i + 1)
        }
    } else {
        votes
    }
}

/// The state of the scan over candidate banks.
pub struct FilterState {
    pub banks: Seq<u64>,
    pub slots: Seq<u64>,
    pub stopped: bool,
}

/// The scan over the first `n` candidates: candidates at or below `floor` and
/// locked-out ones are skipped, the others taken, until as many are taken as
/// field 12..18 of the flags says; `None` where the scan would panic.
pub open spec fn filter_prefix(
    f: Flags,
    s: VoteStack,
    anc: Map<u64, HashSet<u64>>,
    cands: Seq<u64>,
    floor: Option<u64>,
    n: nat,
) -> Option<FilterState>
    decreases n,
{
    if n == 0 || n > cands.len() {
        if n == 0 {
            Some(FilterState { banks: seq![], slots: seq![], stopped: false })
        } else {
            None
        }
    } else {
        match filter_prefix(f, s, anc, cands, floor, (n - 1) as nat) {
            None => None,
            Some(st) => {
                if st.stopped {
                    Some(st)
                } else {
                    let b = cands[n - 1];
                    match floor {
                        None => None,
                        Some(fl) => {
                            if b <= fl {
                                Some(st)
                            } else if !anc.contains_key(b) {
                                None
                            } else {
                                match locked_out_check(f, s, b, anc[b]@, st.slots) {
                                    None => None,
                                    Some(true) => Some(st),
                                    Some(false) => {
                                        let banks = st.banks.push(b);
                                        if banks.len() == bit_field(f.bits, 12, 6) {
                                            Some(FilterState { banks, slots: st.slots, stopped: true })
                                        } else {
                                            Some(
                                                FilterState {
                                                    banks,
                                                    slots: st.slots.push(b),
                                                    stopped: false,
                                                },
                                            )
                                        }
                                    },
                                }
                            }
                        },
                    }
                }
            },
        }
    }
}

/// The banks among the first `n` candidates that are not locked out, each
/// checked with the earlier ones counted as voted; `None` where the scan
/// would panic.
pub open spec fn escape_prefix(
    f: Flags,
    s: VoteStack,
    anc: Map<u64, HashSet<u64>>,
    cands: Seq<u64>,
    n: nat,
) -> Option<Seq<u64>>
    decreases n,
{
    if n == 0 || n > cands.len() {
        if n == 0 {
            Some(seq![])
        } else {
            None
        }
    } else {
        match escape_prefix(f, s, anc, cands, (n - 1) as nat) {
            None => None,
            Some(prev) => {
                let b = cands[n - 1];
                if !anc.contains_key(b) {
                    None
                } else {
                    match locked_out_check(f, s, b, anc[b]@, prev) {
                        None => None,
                        Some(true) => Some(prev),
                        Some(false) => Some(prev.push(b)),
                    }
                }
            },
        }
    }
}

/// The candidate banks: those after the last vote up to the mostly-confirmed
/// bank's parent, then at most `ahead + flag 27` banks from the
/// mostly-confirmed bank on.
pub open spec fn candidate_banks(
    f: Flags,
    ahead: u64,
    s: VoteStack,
    chain: Seq<BankInfo>,
    mc: int,
) -> Option<Seq<u64>> {
    let part1 = match last_vote_slot(s) {
        Some(m) => if mc + 1 < chain.len() {
            match add_u64(m, flag_bit(f, 8)) {
                Some(start) => Some(banks_from(chain, mc + 1, start)),
                None => None,
            }
        } else {
            Some(seq![])
        },
        None => Some(seq![]),
    };
    match part1 {
        None => None,
        Some(p1) => match add_u64(chain[mc].slot, flag_bit(f, 9)) {
            None => None,
            Some(start) => match add_u64(ahead, flag_bit(f, 27)) {
                None => None,
                Some(n) => {
                    let b = banks_from(chain, 0, start);
                    Some(p1 + b.take(if n < b.len() { n as int } else { b.len() as int }))
                },
            },
        },
    }
}

/// The filtered banks after the lockout cut: where the cut keeps fewer new
/// votes than banks (beyond flag 29), the banks are cut to match.
pub open spec fn trimmed_banks(
    f: Flags,
    s: VoteStack,
    chain: Seq<BankInfo>,
    banks: Seq<u64>,
    slots: Seq<u64>,
) -> Option<Seq<u64>> {
    if banks.len() == 0 {
        Some(banks)
    } else {
        match add_u64(last_confirmed_from(chain, 0), bit_field(f.bits, 20, 7)) {
            None => None,
            Some(first_not_locked) => {
                let kept = pop_cut(f, s, slots, first_not_locked, 0);
                if banks.len() > kept.len() + flag_bit(f, 29) {
                    Some(banks.take(kept.len() as int))
                } else {
                    Some(banks)
                }
            },
        }
    }
}

/// The banks to vote on when the scan left none: the first bank that escapes
/// the lockouts, where more escape than the escape threshold; the vote bank
/// where the tower never voted.
pub open spec fn escape_choice(
    f: Flags,
    escape: u64,
    s: VoteStack,
    chain: Seq<BankInfo>,
    anc: Map<u64, HashSet<u64>>,
) -> Option<Seq<u64>> {
    match last_vote_slot(s) {
        Some(m) => match add_u64(m, flag_bit(f, 30)) {
            None => None,
            Some(start) => {
                let cands = banks_from(chain, 0, start);
                match escape_prefix(f, s, anc, cands, cands.len()) {
                    None => None,
                    Some(u) => if u.len() + flag_bit(f, 35) > escape {
                        if u.len() == 0 {
                            None
                        } else {
                            Some(seq![u[0]])
                        }
                    } else {
                        Some(seq![])
                    },
                }
            },
        },
        None => Some(seq![chain[0].slot]),
    }
}

/// The stack without its newest votes that are not on `anc`.
pub open spec fn purge_votes(votes: Seq<Lockout>, anc: Set<u64>) -> Seq<Lockout>
    decreases votes.len(),
{
    if votes.len() > 0 && !anc.contains(votes.last().slot) {
        purge_votes(votes.drop_last(), anc)
    } else {
        votes
    }
}

/// The outcome of `populate_vote_banks`: the slots to vote on (oldest
/// first), whether to go on with the regular vote, and the tower's votes
/// afterwards; `None` where the original would panic.
pub open spec fn vote_banks_outcome(
    enable: bool,
    config: VotingPatchConfig,
    f: Flags,
    s: VoteStack,
    chain: Seq<BankInfo>,
    anc: Map<u64, HashSet<u64>>,
) -> Option<(Seq<u64>, bool, VoteStack)> {
    if !enable {
        Some((seq![chain[0].slot], true, s))
    } else {
        match first_mostly_confirmed_from(chain, 0) {
            None => Some((seq![], bit_set(f.bits, 55), s)),
            Some(mc) => match candidate_banks(f, config.threshold_ahead_count, s, chain, mc) {
                None => None,
                Some(cands) => {
                    let floor = candidate_floor(f, s);
                    match filter_prefix(f, s, anc, cands, floor, cands.len()) {
                        None => None,
                        Some(st) => match trimmed_banks(f, s, chain, st.banks, st.slots) {
                            None => None,
                            Some(t) => {
                                let chosen = if t.len() > 0 {
                                    Some(t)
                                } else {
                                    escape_choice(f, config.threshold_escape_count, s, chain, anc)
                                };
                                match chosen {
                                    None => None,
                                    Some(c) => if c.len() == 0 {
                                        Some((c, bit_set(f.bits, 38), s))
                                    } else if !anc.contains_key(c.last()) {
                                        None
                                    } else {
                                        Some(
                                            (
                                                c,
                                                bit_set(f.bits, 38),
                                                VoteStack {
                                                    votes: purge_votes(s.votes, anc[c.last()]@),
                                                    root_slot: s.root_slot,
                                                },
                                            ),
                                        )
                                    },
                                }
                            },
                        },
                    }
                }
            },
        }
    }
}

/// The floor at or below which candidates are skipped: the last vote (or
/// flag 10) plus flag 11.
pub open spec fn candidate_floor(f: Flags, s: VoteStack) -> Option<u64> {
    match last_vote_slot(s) {
        Some(m) => add_u64(m, flag_bit(f, 11)),
        None => add_u64(flag_bit(f, 10) as u64, flag_bit(f, 11)),
    }
}

proof fn lemma_filter_prefix_mono(
    f: Flags,
    s: VoteStack,
    anc: Map<u64, HashSet<u64>>,
    cands: Seq<u64>,
    floor: Option<u64>,
    m: nat,
    n: nat,
)
    requires
        m <= n <= cands.len(),
        filter_prefix(f, s, anc, cands, floor, n) is Some,
    ensures
        filter_prefix(f, s, anc, cands, floor, m) is Some,
        filter_prefix(f, s, anc, cands, floor, m)->0.stopped ==> filter_prefix(
            f,
            s,
            anc,
            cands,
            floor,
            n,
        ) == filter_prefix(f, s, anc, cands, floor, m),
    decreases n - m,
{
    if m < n {
        lemma_filter_prefix_mono(f, s, anc, cands, floor, m + 1, n);
    }
}

proof fn lemma_escape_prefix_mono(
    f: Flags,
    s: VoteStack,
    anc: Map<u64, HashSet<u64>>,
    cands: Seq<u64>,
    m: nat,
    n: nat,
)
    requires
        m <= n <= cands.len(),
        escape_prefix(f, s, anc, cands, n) is Some,
    ensures
        escape_prefix(f, s, anc, cands, m) is Some,
    decreases n - m,
{
    if m < n {
        lemma_escape_prefix_mono(f, s, anc, cands, m + 1, n);
    }
}

/// Whether a slot of the progress map is mostly confirmed under flags `f`.
pub open spec fn mostly_confirmed(f: Flags, p: SlotProgress) -> bool {
    !p.is_duplicate_confirmed && (p.is_frozen != bit_set(f.bits, 60)) && ((match p.above_threshold {
        Some(a) => a,
        None => bit_set(f.bits, 63),
    }) != bit_set(f.bits, 63))
}

/// The decision on protection: whether to break voting.
pub open spec fn protection_outcome(
    enable: bool,
    f: Flags,
    flags2: u64,
    last_voted: Option<u64>,
    observed_last_voted: Option<u64>,
    random: u64,
) -> bool {
    if !(enable && bit_set(f.bits, 28) && flags2 % 2 == 1) {
        false
    } else {
        let kept = match last_voted {
            Some(slot) => slot % 2 == flag_bit(f, 31) && match observed_last_voted {
                Some(old) => slot <= old + random,
                None => false,
            },
            None => false,
        };
        let break_voting = bit_set(f.bits, 3) != !kept;
        break_voting || bit_set(f.bits, 5) || bit_set(f.bits, 63)
    }
}

/// Whether `enable_protection` draws a random number: it does so only where
/// both vote slots are known and the parity test passes.
pub open spec fn protection_draws(
    enable: bool,
    f: Flags,
    flags2: u64,
    last_voted: Option<u64>,
    observed_last_voted: Option<u64>,
) -> bool {
    enable && bit_set(f.bits, 28) && flags2 % 2 == 1 && last_voted is Some && last_voted->0 % 2
        == flag_bit(f, 31) && observed_last_voted is Some
}

/// A number drawn uniformly from `[low, high)` by the thread-local generator.
#[verifier::external_body]
fn random_in_range(low: u64, high: u64) -> (r: u64)
    requires
        low < high,
    ensures
        low <= r < high,
{
    rand::thread_rng().gen_range(low..high)
}

/// The voting patch: whether it is on, its configuration and the flags.
#[derive(Clone, Copy, Debug)]
pub struct VotingPatch {
    pub enable: bool,
    pub config: VotingPatchConfig,
    pub flags: Flags,
}

impl VotingPatch {
    /// A patch that is switched off.
    pub fn new_disabled() -> (r: VotingPatch)
        ensures
            !r.enable,
            r.config == default_config(),
            r.flags.bits == 0,
    {
        VotingPatch { enable: false, config: VotingPatchConfig::default(), flags: Flags::default() }
    }

    /// The patch as configured at start: on where asked for and the service
    /// returned flags, with those flags.
    pub fn init(enable: bool, flags: Option<Flags>) -> (r: VotingPatch)
        ensures
            r.enable == (enable && flags is Some),
            r.flags.bits == (if enable && flags is Some {
                flags->0.bits
            } else {
                0
            }),
            r.config == default_config(),
    {
        let mut p = VotingPatch::new_disabled();
        p.enable = enable;
        if enable {
            match flags {
                Some(f) => {
                    p.flags = f;
                },
                None => {
                    p.enable = false;
                },
            }
        }
        p
    }

    /// Whether the configuration file is due for a check: the patch is on and
    /// the file was never checked, or last checked at least a minute ago.
    pub fn config_check_due(&self, secs_since_last_check: Option<u64>) -> (r: bool)
        ensures
            r == (self.enable && match secs_since_last_check {
                Some(secs) => secs >= 60,
                None => true,
            }),
    {
        if !self.enable {
            return false;
        }
        match secs_since_last_check {
            Some(secs) => secs >= 60,
            None => true,
        }
    }

    /// Whether voting on `slot` is locked out for the tower after votes on
    /// `including`, under the flags.
    pub fn is_locked_out_including(
        &self,
        tower: &Tower,
        slot: u64,
        ancestors: &HashSet<u64>,
        including: &Vec<u64>,
    ) -> (r: bool)
        requires
            locked_out_check(self.flags, tower.vote_state@, slot, ancestors@, including@) is Some,
        ensures
            r == locked_out_check(self.flags, tower.vote_state@, slot, ancestors@, including@)->0,
    {
        let f = self.flags;
        if f.is_set(0) != tower.is_recent(slot) {
            return f.is_set(1);
        }
        let mut vote_state = tower.vote_state.duplicate();
        let mut i: usize = 0;
        while i < including.len()
            invariant
                i <= including.len(),
                vote_state@ == process_votes(tower.vote_state@, including@.take(i as int)),
            decreases including.len() - i,
        {
            vote_state.process_next_vote_slot(including[i]);
            assert(including@.take(i + 1).drop_last() =~= including@.take(i as int));
            i += 1;
        }
        assert(including@.take(i as int) =~= including@);
        let ghost all = votes_considered(f, including@, slot);
        if f.is_set(2) {
            vote_state.process_next_vote_slot(slot);
            assert(including@.push(slot).drop_last() =~= including@);
        }
        assert(vote_state@ == process_votes(tower.vote_state@, all));
        let n = vote_state.votes.len();
        let mut j: usize = 0;
        while j < n
            invariant
                n == vote_state@.votes.len(),
                vote_state@ == process_votes(tower.vote_state@, all),
                all == votes_considered(f, including@, slot),
                f == self.flags,
                bit_set(f.bits, 0) == is_recent_slot(tower.vote_state@, slot),
                j <= n,
                forall|k: int| 0 <= k < j ==> !vote_blocks(f, #[trigger] vote_state@.votes[k], slot, ancestors@),
            decreases n - j,
        {
            let v = vote_state.votes[j];
            let same = (slot == v.slot) != f.is_set(3);
            let anc = f.is_set(4) != ancestors.contains(&v.slot);
            if (same && anc) || f.is_set(5) {
                assert(vote_blocks(f, vote_state@.votes[j as int], slot, ancestors@));
                assert(vote_blocks(f, process_votes(tower.vote_state@, all).votes[j as int], slot, ancestors@));
                assert(locked_out_check(f, tower.vote_state@, slot, ancestors@, including@) == Some(bit_set(f.bits, 6)));
                return f.is_set(6);
            }
            j += 1;
        }
        false
    }

    /// Keeps the new votes up to the first one after which the newest
    /// lockout's state at `slot`, read through flag 7, says to stop.
    pub fn pop_votes_locked_out_at(
        &self,
        vote_state: TowerVoteState,
        new_votes: &mut Vec<u64>,
        slot: u64,
    )
        ensures
            final(new_votes)@ == pop_cut(self.flags, vote_state@, old(new_votes)@, slot, 0),
    {
        let ghost s0 = vote_state@;
        let ghost votes = new_votes@;
        let mut vs = vote_state;
        let mut i: usize = 0;
        let n = new_votes.len();
        while i < n
            invariant
                n == votes.len(),
                votes == old(new_votes)@,
                s0 == vote_state@,
                new_votes@ == votes,
                i <= n,
                vs@ == process_votes(s0, votes.take(i as int)),
                pop_cut(self.flags, s0, votes, slot, 0) == pop_cut(self.flags, s0, votes, slot, i as int),
            decreases n - i,
        {
            vs.process_next_vote_slot(new_votes[i]);
            assert(votes.take(i + 1).drop_last() =~= votes.take(i as int));
            assert(votes.take(i + 1).last() == votes[i as int]);
            assert(vs@ == process_votes(s0, votes.take(i + 1)));
            if let Some(last) = vs.last_lockout() {
                if last.is_locked_out_at_slot(slot) != self.flags.is_set(7) {
                    assert(pop_cut(self.flags, s0, votes, slot, i as int) == votes.take(i as int));
                    new_votes.truncate(i);
                    assert(new_votes@ =~= votes.take(i as int));
                    return;
                }
            }
            i += 1;
        }
    }

    /// The slots of the progress map that are mostly confirmed, in the
    /// order given; none while the patch is off.
    pub fn populate_mostly_confirmed_slots(&self, progress: &Vec<SlotProgress>) -> (r: Vec<u64>)
        ensures
            r@ == (if self.enable {
                progress@.filter(|p: SlotProgress| mostly_confirmed(self.flags, p)).map_values(
                    |p: SlotProgress| p.slot,
                )
            } else {
                seq![]
            }),
    {
        let mut r: Vec<u64> = Vec::new();
        if !self.enable {
            return r;
        }
        let ghost pred = |p: SlotProgress| mostly_confirmed(self.flags, p);
        let mut i: usize = 0;
        while i < progress.len()
            invariant
                i <= progress.len(),
                pred == (|p: SlotProgress| mostly_confirmed(self.flags, p)),
                r@ == progress@.take(i as int).filter(pred).map_values(|p: SlotProgress| p.slot),
            decreases progress.len() - i,
        {
            let p = progress[i];
            proof {
                reveal_with_fuel(Seq::filter, 1);
                assert(progress@.take(i + 1).drop_last() =~= progress@.take(i as int));
            }
            if !p.is_duplicate_confirmed {
                let frozen = p.is_frozen != self.flags.is_set(60);
                let above = match p.above_threshold {
                    Some(a) => a,
                    None => self.flags.is_set(63),
                };
                if frozen && (above != self.flags.is_set(63)) {
                    r.push(p.slot);
                }
            }
            i += 1;
            assert(r@ =~= progress@.take(i as int).filter(pred).map_values(|p: SlotProgress| p.slot));
        }
        assert(progress@.take(i as int) =~= progress@);
        r
    }


    /// The index of the newest bank on the fork that is mostly confirmed.
    pub fn first_mostly_confirmed_bank(chain: &Vec<BankInfo>) -> (r: Option<usize>)
        ensures
            match r {
                Some(i) => first_mostly_confirmed_from(chain@, 0) == Some(i as int),
                None => first_mostly_confirmed_from(chain@, 0) is None,
            },
    {
        let mut i: usize = 0;
        while i < chain.len()
            invariant
                i <= chain.len(),
                first_mostly_confirmed_from(chain@, 0) == first_mostly_confirmed_from(chain@, i as int),
            decreases chain.len() - i,
        {
            if chain[i].is_mostly_confirmed {
                return Some(i);
            }
            i += 1;
        }
        None
    }

    /// The slot of the newest bank on the fork that is duplicate confirmed, or 0.
    pub fn last_confirmed_slot(chain: &Vec<BankInfo>) -> (r: u64)
        ensures
            r == last_confirmed_from(chain@, 0),
    {
        let mut i: usize = 0;
        while i < chain.len()
            invariant
                i <= chain.len(),
                last_confirmed_from(chain@, 0) == last_confirmed_from(chain@, i as int),
            decreases chain.len() - i,
        {
            if chain[i].is_duplicate_confirmed {
                return chain[i].slot;
            }
            i += 1;
        }
        0
    }

    /// The slots of the bank at index `from` and its ancestors down to
    /// `first_slot`, oldest first.
    pub fn banks_between_and_including(chain: &Vec<BankInfo>, first_slot: u64, from: usize) -> (r: Vec<u64>)
        ensures
            r@ == banks_from(chain@, from as int, first_slot),
    {
        let mut collected: Vec<u64> = Vec::new();
        let mut j: usize = from;
        while j < chain.len() && chain[j].slot >= first_slot
            invariant
                from <= j,
                banks_from(chain@, from as int, first_slot) == banks_from(chain@, j as int, first_slot)
                    + collected@.reverse(),
            decreases chain.len() - j,
        {
            let ghost before = collected@;
            collected.push(chain[j].slot);
            assert(collected@.reverse() =~= seq![chain@[j as int].slot] + before.reverse());
            j += 1;
        }
        let mut r: Vec<u64> = Vec::new();
        let mut k: usize = collected.len();
        while k > 0
            invariant
                k <= collected.len(),
                r@ == collected@.subrange(k as int, collected.len() as int).reverse(),
            decreases k,
        {
            k -= 1;
            r.push(collected[k]);
            assert(r@ =~= collected@.subrange(k as int, collected.len() as int).reverse());
        }
        assert(collected@.subrange(0, collected.len() as int) =~= collected@);
        assert(banks_from(chain@, j as int, first_slot) =~= seq![]);
        assert(r@ =~= banks_from(chain@, from as int, first_slot));
        r
    }

    fn candidates(&self, tower: &Tower, chain: &Vec<BankInfo>, mc: usize) -> (r: Vec<u64>)
        requires
            mc < chain.len(),
            candidate_banks(self.flags, self.config.threshold_ahead_count, tower.vote_state@, chain@, mc as int) is Some,
        ensures
            r@ == candidate_banks(self.flags, self.config.threshold_ahead_count, tower.vote_state@, chain@, mc as int)->0,
    {
        let f = self.flags;
        let mut banks: Vec<u64> = Vec::new();
        if let Some(m) = tower.vote_state.last_voted_slot() {
            if mc + 1 < chain.len() {
                banks = Self::banks_between_and_including(chain, m + f.bit(8), mc + 1);
            }
        }
        let b = Self::banks_between_and_including(chain, chain[mc].slot + f.bit(9), 0);
        let n = self.config.threshold_ahead_count + f.bit(27);
        let take: usize = if n < b.len() as u64 {
            n as usize
        } else {
            b.len()
        };
        let ghost p1 = banks@;
        let mut i: usize = 0;
        while i < take
            invariant
                take <= b.len(),
                i <= take,
                banks@ == p1 + b@.take(i as int),
            decreases take - i,
        {
            banks.push(b[i]);
            i += 1;
            assert(banks@ =~= p1 + b@.take(i as int));
        }
        banks
    }

    fn filter_candidates(
        &self,
        tower: &Tower,
        ancestors: &HashMap<u64, HashSet<u64>>,
        cands: &Vec<u64>,
        floor: Option<u64>,
    ) -> (r: (Vec<u64>, Vec<u64>))
        requires
            filter_prefix(self.flags, tower.vote_state@, ancestors@, cands@, floor, cands.len() as nat) is Some,
        ensures
            r.0@ == filter_prefix(self.flags, tower.vote_state@, ancestors@, cands@, floor, cands.len() as nat)->0.banks,
            r.1@ == filter_prefix(self.flags, tower.vote_state@, ancestors@, cands@, floor, cands.len() as nat)->0.slots,
    {
        let ghost full = filter_prefix(self.flags, tower.vote_state@, ancestors@, cands@, floor, cands.len() as nat);
        let mut banks: Vec<u64> = Vec::new();
        let mut slots: Vec<u64> = Vec::new();
        let mut i: usize = 0;
        while i < cands.len()
            invariant
                i <= cands.len(),
                full == filter_prefix(self.flags, tower.vote_state@, ancestors@, cands@, floor, cands.len() as nat),
                full is Some,
                filter_prefix(self.flags, tower.vote_state@, ancestors@, cands@, floor, i as nat) == Some(
                    FilterState { banks: banks@, slots: slots@, stopped: false },
                ),
            decreases cands.len() - i,
        {
            proof {
                lemma_filter_prefix_mono(self.flags, tower.vote_state@, ancestors@, cands@, floor, (i + 1) as nat, cands.len() as nat);
            }
            let b = cands[i];
            assert(floor is Some);
            let fl = floor.unwrap();
            if b > fl {
                let anc = ancestors.get(&b).unwrap();
                if !self.is_locked_out_including(tower, b, anc, &slots) {
                    banks.push(b);
                    if banks.len() as u64 == self.flags.value(12, 6) {
                        proof {
                            lemma_filter_prefix_mono(self.flags, tower.vote_state@, ancestors@, cands@, floor, (i + 1) as nat, cands.len() as nat);
                        }
                        return (banks, slots);
                    }
                    slots.push(b);
                }
            }
            i += 1;
        }
        (banks, slots)
    }

    fn escape_scan(&self, tower: &Tower, ancestors: &HashMap<u64, HashSet<u64>>, cands: &Vec<u64>) -> (r: Vec<u64>)
        requires
            escape_prefix(self.flags, tower.vote_state@, ancestors@, cands@, cands.len() as nat) is Some,
        ensures
            r@ == escape_prefix(self.flags, tower.vote_state@, ancestors@, cands@, cands.len() as nat)->0,
    {
        let mut unvoted: Vec<u64> = Vec::new();
        let mut i: usize = 0;
        while i < cands.len()
            invariant
                i <= cands.len(),
                escape_prefix(self.flags, tower.vote_state@, ancestors@, cands@, cands.len() as nat) is Some,
                escape_prefix(self.flags, tower.vote_state@, ancestors@, cands@, i as nat) == Some(unvoted@),
            decreases cands.len() - i,
        {
            proof {
                lemma_escape_prefix_mono(self.flags, tower.vote_state@, ancestors@, cands@, (i + 1) as nat, cands.len() as nat);
            }
            let b = cands[i];
            let anc = ancestors.get(&b).unwrap();
            if !self.is_locked_out_including(tower, b, anc, &unvoted) {
                unvoted.push(b);
            }
            i += 1;
        }
        unvoted
    }

    fn trim_banks(&self, tower: &Tower, chain: &Vec<BankInfo>, banks: Vec<u64>, slots: Vec<u64>) -> (r: Vec<u64>)
        requires
            trimmed_banks(self.flags, tower.vote_state@, chain@, banks@, slots@) is Some,
        ensures
            r@ == trimmed_banks(self.flags, tower.vote_state@, chain@, banks@, slots@)->0,
    {
        let mut banks = banks;
        if banks.len() == 0 {
            return banks;
        }
        let first_not_locked = Self::last_confirmed_slot(chain) + self.flags.value(20, 7);
        let mut kept = slots;
        self.pop_votes_locked_out_at(tower.vote_state.duplicate(), &mut kept, first_not_locked);
        if banks.len() as u128 > kept.len() as u128 + self.flags.bit(29) as u128 {
            banks.truncate(kept.len());
        }
        banks
    }

    fn escape_banks(&self, tower: &Tower, chain: &Vec<BankInfo>, ancestors: &HashMap<u64, HashSet<u64>>) -> (r: Vec<u64>)
        requires
            chain.len() > 0,
            escape_choice(self.flags, self.config.threshold_escape_count, tower.vote_state@, chain@, ancestors@) is Some,
        ensures
            r@ == escape_choice(self.flags, self.config.threshold_escape_count, tower.vote_state@, chain@, ancestors@)->0,
    {
        let mut r: Vec<u64> = Vec::new();
        match tower.vote_state.last_voted_slot() {
            Some(m) => {
                let cands = Self::banks_between_and_including(chain, m + self.flags.bit(30), 0);
                let unvoted = self.escape_scan(tower, ancestors, &cands);
                if unvoted.len() as u128 + self.flags.bit(35) as u128 > self.config.threshold_escape_count as u128 {
                    r.push(unvoted[0]);
                }
            },
            None => {
                r.push(chain[0].slot);
            },
        }
        assert(r@ =~= escape_choice(self.flags, self.config.threshold_escape_count, tower.vote_state@, chain@, ancestors@)->0);
        r
    }

    /// The banks to vote on (by slot, oldest first) and whether to go on with
    /// the regular vote; the tower's newest votes that are not ancestors of
    /// the last bank chosen are dropped.
    pub fn populate_vote_banks(
        &self,
        tower: &mut Tower,
        chain: &Vec<BankInfo>,
        ancestors: &HashMap<u64, HashSet<u64>>,
    ) -> (r: (Vec<u64>, bool))
        requires
            chain.len() > 0,
            vote_banks_outcome(self.enable, self.config, self.flags, old(tower).vote_state@, chain@, ancestors@) is Some,
        ensures
            r.0@ == (vote_banks_outcome(self.enable, self.config, self.flags, old(tower).vote_state@, chain@, ancestors@)->0).0,
            r.1 == (vote_banks_outcome(self.enable, self.config, self.flags, old(tower).vote_state@, chain@, ancestors@)->0).1,
            final(tower).vote_state@ == (vote_banks_outcome(self.enable, self.config, self.flags, old(tower).vote_state@, chain@, ancestors@)->0).2,
            final(tower).last_vote_slot == old(tower).last_vote_slot,
    {
        let mut out: Vec<u64> = Vec::new();
        if !self.enable {
            out.push(chain[0].slot);
            assert(out@ =~= seq![chain@[0].slot]);
            return (out, true);
        }
        let f = self.flags;
        match Self::first_mostly_confirmed_bank(chain) {
            None => (out, f.is_set(55)),
            Some(mc) => {
                proof {
                    lemma_first_mostly_confirmed(chain@, 0);
                }
                let cands = self.candidates(tower, chain, mc);
                let floor: Option<u64> = match tower.vote_state.last_voted_slot() {
                    Some(m) => m.checked_add(f.bit(11)),
                    None => f.bit(10).checked_add(f.bit(11)),
                };
                let (banks, slots) = self.filter_candidates(tower, ancestors, &cands, floor);
                let trimmed = self.trim_banks(tower, chain, banks, slots);
                let chosen = if trimmed.len() > 0 {
                    trimmed
                } else {
                    self.escape_banks(tower, chain, ancestors)
                };
                if chosen.len() > 0 {
                    let last = chosen[chosen.len() - 1];
                    let anc = ancestors.get(&last).unwrap();
                    let ghost purged = purge_votes(tower.vote_state@.votes, anc@);
                    while tower.vote_state.votes.len() > 0
                        && !anc.contains(&tower.vote_state.votes[tower.vote_state.votes.len() - 1].slot)
                        invariant
                            purge_votes(tower.vote_state@.votes, anc@) == purged,
                            tower.vote_state@.root_slot == old(tower).vote_state@.root_slot,
                            tower.last_vote_slot == old(tower).last_vote_slot,
                        decreases tower.vote_state.votes.len(),
                    {
                        let ghost before = tower.vote_state@.votes;
                        tower.vote_state.votes.pop();
                        assert(tower.vote_state@.votes =~= before.drop_last());
                    }
                }
                (chosen, f.is_set(38))
            },
        }
    }

    /// Whether to break voting, for a given draw of the random margin.
    pub fn protection_decision(
        &self,
        flags2: u64,
        last_voted: Option<u64>,
        observed_last_voted: Option<u64>,
        random: u64,
    ) -> (r: bool)
        requires
            observed_last_voted is Some ==> observed_last_voted->0 + random <= u64::MAX,
        ensures
            r == protection_outcome(self.enable, self.flags, flags2, last_voted, observed_last_voted, random),
    {
        let f = self.flags;
        if !(self.enable && f.is_set(28) && flags2 % 2 == 1) {
            return false;
        }
        let kept = match last_voted {
            Some(slot) => slot % 2 == f.bit(31) && match observed_last_voted {
                Some(old) => slot <= old + random,
                None => false,
            },
            None => false,
        };
        let break_voting = f.is_set(3) != !kept;
        break_voting || f.is_set(5) || f.is_set(63)
    }

    /// Whether to break voting: the decision above with a margin drawn
    /// uniformly from `[1, field 7..12 of the flags)`.
    pub fn enable_protection(&self, tower: &Tower, flags2: u64, observed_last_voted: Option<u64>) -> (r: bool)
        requires
            protection_draws(self.enable, self.flags, flags2, tower.last_vote_slot, observed_last_voted) ==> {
                &&& bit_field(self.flags.bits, 7, 5) > 1
                &&& observed_last_voted->0 + bit_field(self.flags.bits, 7, 5) <= u64::MAX
            },
        ensures
            !protection_draws(self.enable, self.flags, flags2, tower.last_vote_slot, observed_last_voted)
                ==> r == protection_outcome(self.enable, self.flags, flags2, tower.last_vote_slot, observed_last_voted, 0),
            protection_draws(self.enable, self.flags, flags2, tower.last_vote_slot, observed_last_voted)
                ==> exists|x: u64| 1 <= x < bit_field(self.flags.bits, 7, 5)
                && r == protection_outcome(self.enable, self.flags, flags2, tower.last_vote_slot, observed_last_voted, x),
    {
        let last_voted = tower.last_voted_slot();
        let f = self.flags;
        if self.enable && f.is_set(28) && flags2 % 2 == 1 {
            if let Some(slot) = last_voted {
                if slot % 2 == f.bit(31) {
                    if observed_last_voted.is_some() {
                        let x = random_in_range(1, f.value(7, 5));
                        return self.protection_decision(flags2, last_voted, observed_last_voted, x);
                    }
                }
            }
        }
        self.protection_decision(flags2, last_voted, observed_last_voted, 0)
    }
}

/// The lockout cut only ever drops new votes from the end.
pub proof fn lockout_cut_keeps_a_prefix(f: Flags, s: VoteStack, votes: Seq<u64>, slot: u64, i: int)
    requires
        0 <= i,
    ensures
        exists|k: int| 0 <= k <= votes.len() && #[trigger] pop_cut(f, s, votes, slot, i) == votes.take(k),
    decreases votes.len() - i,
{
    if 0 <= i < votes.len() {
        let s2 = process_votes(s, votes.take(i + 1));
        if s2.votes.len() > 0 && (locked_out_at(s2.votes.last(), slot) != bit_set(f.bits, 7)) {
            assert(pop_cut(f, s, votes, slot, i) == votes.take(i));
        } else {
            lockout_cut_keeps_a_prefix(f, s, votes, slot, i + 1);
        }
    } else {
        assert(votes.take(votes.len() as int) =~= votes);
        assert(pop_cut(f, s, votes, slot, i) == votes.take(votes.len() as int));
    }
}

proof fn lemma_purge_prefix(votes: Seq<Lockout>, anc: Set<u64>)
    ensures
        purge_votes(votes, anc).len() <= votes.len(),
        purge_votes(votes, anc) == votes.take(purge_votes(votes, anc).len() as int),
        purge_votes(votes, anc).len() > 0 ==> anc.contains(purge_votes(votes, anc).last().slot),
    decreases votes.len(),
{
    if votes.len() > 0 && !anc.contains(votes.last().slot) {
        lemma_purge_prefix(votes.drop_last(), anc);
        let p = purge_votes(votes.drop_last(), anc);
        assert(votes.drop_last().take(p.len() as int) =~= votes.take(p.len() as int));
    } else {
        assert(votes.take(votes.len() as int) =~= votes);
    }
}

/// Choosing vote banks only ever drops the tower's newest votes: the votes
/// left are a prefix of those before, the root is kept, and where banks were
/// chosen, the newest vote left (if any) is an ancestor of the last of them.
pub proof fn vote_banks_only_purge_the_tower(
    enable: bool,
    config: VotingPatchConfig,
    f: Flags,
    s: VoteStack,
    chain: Seq<BankInfo>,
    anc: Map<u64, HashSet<u64>>,
)
    requires
        vote_banks_outcome(enable, config, f, s, chain, anc) is Some,
    ensures
        ({
            let (banks, _, after) = vote_banks_outcome(enable, config, f, s, chain, anc)->0;
            &&& after.root_slot == s.root_slot
            &&& after.votes.len() <= s.votes.len()
            &&& after.votes == s.votes.take(after.votes.len() as int)
            &&& (enable && banks.len() > 0 && after.votes.len() > 0) ==> anc[banks.last()]@.contains(
                after.votes.last().slot,
            )
        }),
{
    assert(s.votes.take(s.votes.len() as int) =~= s.votes);
    let (banks, _, after) = vote_banks_outcome(enable, config, f, s, chain, anc)->0;
    if enable && first_mostly_confirmed_from(chain, 0) is Some && banks.len() > 0 {
        lemma_purge_prefix(s.votes, anc[banks.last()]@);
    }
}


proof fn lemma_first_mostly_confirmed_newest(chain: Seq<BankInfo>, i: int)
    requires
        0 <= i,
    ensures
        match first_mostly_confirmed_from(chain, i) {
            Some(k) => i <= k < chain.len() && chain[k].is_mostly_confirmed
                && forall|j: int| i <= j < k ==> !(#[trigger] chain[j]).is_mostly_confirmed,
            None => forall|j: int| i <= j < chain.len() ==> !(#[trigger] chain[j]).is_mostly_confirmed,
        },
    decreases chain.len() - i,
{
    if i < chain.len() && !chain[i].is_mostly_confirmed {
        lemma_first_mostly_confirmed_newest(chain, i + 1);
    }
}

/// The bank that voting starts from is the newest mostly-confirmed bank of
/// the fork: where the search finds bank `i`, that bank is mostly confirmed
/// and no bank newer than it (nearer the vote bank) is; where it finds none,
/// no bank of the fork is mostly confirmed.
pub proof fn mostly_confirmed_bank_is_the_newest(chain: Seq<BankInfo>)
    ensures
        match first_mostly_confirmed_from(chain, 0) {
            Some(i) => 0 <= i < chain.len() && chain[i].is_mostly_confirmed
                && forall|j: int| 0 <= j < i ==> !(#[trigger] chain[j]).is_mostly_confirmed,
            None => forall|j: int| 0 <= j < chain.len() ==> !(#[trigger] chain[j]).is_mostly_confirmed,
        },
{
    lemma_first_mostly_confirmed_newest(chain, 0);
}

} // verus!
