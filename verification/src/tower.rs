//! The validator's tower of votes: a stack of lockouts whose lockout periods
//! double as later votes confirm them, and the oldest of which becomes the
//! root once the stack is full.
//!
//! The types here are a model of the Solana validator's (agave's)
//! `Lockout` and `TowerVoteState`: they hold the same data and follow the
//! same vote-processing rules, written so that those rules can be stated
//! and proved here; the validator's own types are not used.

use vstd::prelude::*;
use vstd::arithmetic::power2::*;

verus! {

/// The lockout of a first vote, in slots.
pub const INITIAL_LOCKOUT: u64 = 2;

/// The number of votes the tower holds before the oldest one is rooted.
pub const MAX_LOCKOUT_HISTORY: usize = 31;

/// A vote on a slot and the number of later votes that confirmed it.
#[derive(Clone, Copy, Debug)]
pub struct Lockout {
    pub slot: u64,
    pub confirmation_count: u32,
}

/// The number of slots a vote with `confirmation_count` confirmations is locked out for:
/// `INITIAL_LOCKOUT` raised to the count, the count capped at `MAX_LOCKOUT_HISTORY`.
pub open spec fn lockout_span(confirmation_count: u32) -> nat {
    pow2(if confirmation_count < 31 {
        confirmation_count as nat
    } else {
        31
    })
}

/// The last slot a vote is locked out until (saturating at `u64::MAX`).
pub open spec fn last_locked_out(l: Lockout) -> nat {
    if l.slot + lockout_span(l.confirmation_count) > u64::MAX {
        u64::MAX as nat
    } else {
        (l.slot + lockout_span(l.confirmation_count)) as nat
    }
}

/// Whether a vote still locks the voter out at `slot`.
pub open spec fn locked_out_at(l: Lockout, slot: u64) -> bool {
    last_locked_out(l) >= slot
}

/// A vote confirmed once more (saturating the count).
pub open spec fn confirmed_once_more(l: Lockout) -> Lockout {
    Lockout {
        slot: l.slot,
        confirmation_count: if l.confirmation_count == u32::MAX {
            u32::MAX
        } else {
            (l.confirmation_count + 1) as u32
        },
    }
}

impl Lockout {
    /// A fresh vote on `slot`, confirmed once.
    pub fn new(slot: u64) -> (r: Lockout)
        ensures
            r.slot == slot,
            r.confirmation_count == 1,
    {
        Lockout { slot, confirmation_count: 1 }
    }

    /// The lockout period in slots.
    pub fn lockout(&self) -> (r: u64)
        ensures
            r == lockout_span(self.confirmation_count),
    {
        let e: u32 = if self.confirmation_count < 31 {
            self.confirmation_count
        } else {
            31
        };
        let mut r: u64 = 1;
        let mut i: u32 = 0;
        proof {
            lemma2_to64();
        }
        while i < e
            invariant
                e <= 31,
                i <= e,
                r == pow2(i as nat),
            decreases e - i,
        {
            proof {
                lemma_pow2_unfold((i + 1) as nat);
                lemma_pow2_strictly_increases(i as nat, 31);
                lemma2_to64();
            }
            r = r * 2;
            i += 1;
        }
        r
    }

    /// The last slot this vote locks the voter out until.
    pub fn last_locked_out_slot(&self) -> (r: u64)
        ensures
            r == last_locked_out(*self),
    {
        self.slot.saturating_add(self.lockout())
    }

    /// Whether this vote still locks the voter out at `slot`.
    pub fn is_locked_out_at_slot(&self, slot: u64) -> (r: bool)
        ensures
            r == locked_out_at(*self, slot),
    {
        self.last_locked_out_slot() >= slot
    }
}

/// The abstract state of a tower: the stack of votes, oldest first, and the root.
pub struct VoteStack {
    pub votes: Seq<Lockout>,
    pub root_slot: Option<u64>,
}

/// The stack without the votes on its top that no longer lock out at `next`.
pub open spec fn pop_expired(votes: Seq<Lockout>, next: u64) -> Seq<Lockout>
    decreases votes.len(),
{
    if votes.len() > 0 && !locked_out_at(votes.last(), next) {
        pop_expired(votes.drop_last(), next)
    } else {
        votes
    }
}

/// Every vote that more votes sit above than it has confirmations gains one.
pub open spec fn double_lockouts(votes: Seq<Lockout>) -> Seq<Lockout> {
    Seq::new(
        votes.len(),
        |i: int|
            if votes.len() > i + votes[i].confirmation_count {
                confirmed_once_more(votes[i])
            } else {
                votes[i]
            },
    )
}

/// The slot of the newest vote, if any.
pub open spec fn last_vote_slot(s: VoteStack) -> Option<u64> {
    if s.votes.len() > 0 {
        Some(s.votes.last().slot)
    } else {
        None
    }
}

/// The tower after a vote on `next`: a vote on a slot no newer than the last
/// one is ignored; otherwise expired votes are popped, the oldest vote is
/// rooted when the stack is full, the new vote is pushed and lockouts double.
pub open spec fn process_vote(s: VoteStack, next: u64) -> VoteStack {
    if s.votes.len() > 0 && next <= s.votes.last().slot {
        s
    } else {
        let v1 = pop_expired(s.votes, next);
        let v2 = if v1.len() == MAX_LOCKOUT_HISTORY {
            v1.drop_first()
        } else {
            v1
        };
        let root = if v1.len() == MAX_LOCKOUT_HISTORY {
            Some(v1[0].slot)
        } else {
            s.root_slot
        };
        VoteStack {
            votes: double_lockouts(v2.push(Lockout { slot: next, confirmation_count: 1 })),
            root_slot: root,
        }
    }
}

/// The tower after a sequence of votes, in order.
pub open spec fn process_votes(s: VoteStack, slots: Seq<u64>) -> VoteStack
    decreases slots.len(),
{
    if slots.len() == 0 {
        s
    } else {
        process_vote(process_votes(s, slots.drop_last()), slots.last())
    }
}

/// Slots strictly increasing from the oldest vote to the newest.
pub open spec fn increasing(votes: Seq<Lockout>) -> bool {
    forall|i: int, j: int| 0 <= i < j < votes.len() ==> votes[i].slot < votes[j].slot
}

/// The votes of a tower and its root.
#[derive(Clone, Debug)]
pub struct TowerVoteState {
    pub votes: Vec<Lockout>,
    pub root_slot: Option<u64>,
}

impl View for TowerVoteState {
    type V = VoteStack;

    open spec fn view(&self) -> VoteStack {
        VoteStack { votes: self.votes@, root_slot: self.root_slot }
    }
}

impl TowerVoteState {
    /// An empty tower.
    pub fn new() -> (r: TowerVoteState)
        ensures
            r@.votes.len() == 0,
            r@.root_slot is None,
    {
        TowerVoteState { votes: Vec::new(), root_slot: None }
    }

    /// A copy of this state.
    pub fn duplicate(&self) -> (r: TowerVoteState)
        ensures
            r@ == self@,
    {
        let mut votes: Vec<Lockout> = Vec::new();
        let mut i: usize = 0;
        while i < self.votes.len()
            invariant
                i <= self.votes.len(),
                votes@ == self@.votes.take(i as int),
            decreases self.votes.len() - i,
        {
            votes.push(self.votes[i]);
            i += 1;
            assert(votes@ =~= self@.votes.take(i as int));
        }
        assert(self@.votes.take(i as int) =~= self@.votes);
        TowerVoteState { votes, root_slot: self.root_slot }
    }

    /// The slots voted on, oldest first.
    pub fn tower(&self) -> (r: Vec<u64>)
        ensures
            r@ == self@.votes.map_values(|l: Lockout| l.slot),
    {
        let mut r: Vec<u64> = Vec::new();
        let mut i: usize = 0;
        while i < self.votes.len()
            invariant
                i <= self.votes.len(),
                r@ == self@.votes.take(i as int).map_values(|l: Lockout| l.slot),
            decreases self.votes.len() - i,
        {
            r.push(self.votes[i].slot);
            assert(self@.votes.take(i + 1).drop_last() =~= self@.votes.take(i as int));
            i += 1;
            assert(r@ =~= self@.votes.take(i as int).map_values(|l: Lockout| l.slot));
        }
        assert(self@.votes.take(i as int) =~= self@.votes);
        r
    }

    /// The newest vote.
    pub fn last_lockout(&self) -> (r: Option<Lockout>)
        ensures
            r == (if self@.votes.len() > 0 {
                Some(self@.votes.last())
            } else {
                None::<Lockout>
            }),
    {
        if self.votes.len() > 0 {
            Some(self.votes[self.votes.len() - 1])
        } else {
            None
        }
    }

    /// The slot of the newest vote.
    pub fn last_voted_slot(&self) -> (r: Option<u64>)
        ensures
            r == last_vote_slot(self@),
    {
        match self.last_lockout() {
            Some(l) => Some(l.slot),
            None => None,
        }
    }

    fn pop_expired_votes(&mut self, next: u64)
        ensures
            final(self)@.votes == pop_expired(old(self)@.votes, next),
            final(self)@.root_slot == old(self)@.root_slot,
    {
        while self.votes.len() > 0 && !self.votes[self.votes.len() - 1].is_locked_out_at_slot(next)
            invariant
                pop_expired(self@.votes, next) == pop_expired(old(self)@.votes, next),
                self@.root_slot == old(self)@.root_slot,
            decreases self.votes.len(),
        {
            let ghost before = self@.votes;
            self.votes.pop();
            assert(self@.votes =~= before.drop_last());
        }
    }

    fn double_lockouts(&mut self)
        ensures
            final(self)@.votes == double_lockouts(old(self)@.votes),
            final(self)@.root_slot == old(self)@.root_slot,
    {
        let depth = self.votes.len();
        let ghost orig = self@.votes;
        let mut i: usize = 0;
        while i < depth
            invariant
                depth == orig.len(),
                self@.votes.len() == depth,
                self@.root_slot == old(self)@.root_slot,
                orig == old(self)@.votes,
                i <= depth,
                forall|j: int| 0 <= j < i ==> self@.votes[j] == double_lockouts(orig)[j],
                forall|j: int| i <= j < depth ==> self@.votes[j] == orig[j],
            decreases depth - i,
        {
            let v = self.votes[i];
            if depth as u128 > i as u128 + v.confirmation_count as u128 {
                let c = v.confirmation_count.saturating_add(1);
                self.votes.set(i, Lockout { slot: v.slot, confirmation_count: c });
            }
            i += 1;
        }
        assert(self@.votes =~= double_lockouts(orig));
    }

    /// Records a vote on `next`.
    pub fn process_next_vote_slot(&mut self, next: u64)
        ensures
            final(self)@ == process_vote(old(self)@, next),
    {
        if let Some(last) = self.last_voted_slot() {
            if next <= last {
                return;
            }
        }
        self.pop_expired_votes(next);
        let ghost v1 = self@.votes;
        if self.votes.len() == MAX_LOCKOUT_HISTORY {
            let rooted = self.votes.remove(0);
            self.root_slot = Some(rooted.slot);
            assert(self@.votes =~= v1.drop_first());
        }
        self.votes.push(Lockout::new(next));
        self.double_lockouts();
    }
}

/// A validator's tower: its vote stack and the slot of the last vote it cast.
#[derive(Clone, Debug)]
pub struct Tower {
    pub vote_state: TowerVoteState,
    pub last_vote_slot: Option<u64>,
}

/// Whether `slot` is newer than every vote in the stack.
pub open spec fn is_recent_slot(s: VoteStack, slot: u64) -> bool {
    match last_vote_slot(s) {
        Some(last) => slot > last,
        None => true,
    }
}

impl Tower {
    /// Whether `slot` is newer than every vote in the stack.
    pub fn is_recent(&self, slot: u64) -> (r: bool)
        ensures
            r == is_recent_slot(self.vote_state@, slot),
    {
        if let Some(last) = self.vote_state.last_voted_slot() {
            if slot <= last {
                return false;
            }
        }
        true
    }

    /// The slots in the vote stack, oldest first.
    pub fn tower_slots(&self) -> (r: Vec<u64>)
        ensures
            r@ == self.vote_state@.votes.map_values(|l: Lockout| l.slot),
    {
        self.vote_state.tower()
    }

    /// The slot of the last vote cast.
    pub fn last_voted_slot(&self) -> (r: Option<u64>)
        ensures
            r == self.last_vote_slot,
    {
        self.last_vote_slot
    }
}

proof fn lemma_pop_expired_prefix(votes: Seq<Lockout>, next: u64)
    ensures
        pop_expired(votes, next).len() <= votes.len(),
        pop_expired(votes, next) == votes.take(pop_expired(votes, next).len() as int),
    decreases votes.len(),
{
    if votes.len() > 0 && !locked_out_at(votes.last(), next) {
        lemma_pop_expired_prefix(votes.drop_last(), next);
        let p = pop_expired(votes.drop_last(), next);
        assert(votes.drop_last().take(p.len() as int) =~= votes.take(p.len() as int));
    } else {
        assert(votes.take(votes.len() as int) =~= votes);
    }
}

/// A vote keeps the tower in shape: slots strictly increase from the oldest
/// vote to the newest, at most `MAX_LOCKOUT_HISTORY` votes are held, and a
/// vote on a slot newer than the last one ends up on top.
pub proof fn vote_keeps_tower_in_shape(s: VoteStack, next: u64)
    requires
        increasing(s.votes),
        s.votes.len() <= MAX_LOCKOUT_HISTORY,
    ensures
        increasing(process_vote(s, next).votes),
        process_vote(s, next).votes.len() <= MAX_LOCKOUT_HISTORY,
        is_recent_slot(s, next) ==> last_vote_slot(process_vote(s, next)) == Some(next),
{
    if s.votes.len() > 0 && next <= s.votes.last().slot {
    } else {
        lemma_pop_expired_prefix(s.votes, next);
        let v1 = pop_expired(s.votes, next);
        let v2 = if v1.len() == MAX_LOCKOUT_HISTORY {
            v1.drop_first()
        } else {
            v1
        };
        let v3 = v2.push(Lockout { slot: next, confirmation_count: 1 });
        assert forall|i: int| 0 <= i < v2.len() implies #[trigger] v2[i].slot < next by {
            if v1.len() == MAX_LOCKOUT_HISTORY {
                assert(v2[i] == v1[i + 1]);
                assert(v1[i + 1] == s.votes[i + 1]);
                assert(s.votes[i + 1].slot <= s.votes.last().slot);
            } else {
                assert(v1[i] == s.votes[i]);
                assert(s.votes[i].slot <= s.votes.last().slot);
            }
        }
        assert(increasing(v3)) by {
            assert forall|i: int, j: int| 0 <= i < j < v3.len() implies v3[i].slot < v3[j].slot by {
                if j == v3.len() - 1 {
                    assert(v3[i] == v2[i]);
                } else {
                    assert(v3[i] == v2[i]);
                    assert(v3[j] == v2[j]);
                    if v1.len() == MAX_LOCKOUT_HISTORY {
                        assert(v2[i] == s.votes[i + 1]);
                        assert(v2[j] == s.votes[j + 1]);
                    } else {
                        assert(v2[i] == s.votes[i]);
                        assert(v2[j] == s.votes[j]);
                    }
                }
            }
        }
        let d = double_lockouts(v3);
        assert forall|i: int| 0 <= i < d.len() implies #[trigger] d[i].slot == v3[i].slot by {}
        assert(increasing(d)) by {
            assert forall|i: int, j: int| 0 <= i < j < d.len() implies d[i].slot < d[j].slot by {
                assert(d[i].slot == v3[i].slot);
                assert(d[j].slot == v3[j].slot);
            }
        }
        assert(d.last().slot == v3.last().slot);
    }
}


/// A new vote on `next` removes exactly the expired votes on top of the
/// stack: what stays is a prefix of the old stack, every vote removed no
/// longer locks the voter out at `next`, and the newest vote that stays
/// still does.
pub proof fn only_expired_votes_are_popped(votes: Seq<Lockout>, next: u64)
    ensures
        pop_expired(votes, next).len() <= votes.len(),
        pop_expired(votes, next) == votes.take(pop_expired(votes, next).len() as int),
        forall|j: int|
            pop_expired(votes, next).len() <= j < votes.len() ==> !locked_out_at(#[trigger] votes[j], next),
        pop_expired(votes, next).len() > 0 ==> locked_out_at(
            votes[pop_expired(votes, next).len() - 1],
            next,
        ),
    decreases votes.len(),
{
    lemma_pop_expired_prefix(votes, next);
    if votes.len() > 0 && !locked_out_at(votes.last(), next) {
        let d = votes.drop_last();
        only_expired_votes_are_popped(d, next);
        let p = pop_expired(d, next);
        assert forall|j: int| p.len() <= j < votes.len() implies !locked_out_at(#[trigger] votes[j], next) by {
            if j < votes.len() - 1 {
                assert(votes[j] == d[j]);
            }
        }
        if p.len() > 0 {
            assert(votes[p.len() - 1] == d[p.len() - 1]);
        }
    }
}

} // verus!
