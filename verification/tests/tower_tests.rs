use allnodes::tower::{Lockout, Tower, TowerVoteState};

fn slots_and_counts(s: &TowerVoteState) -> Vec<(u64, u32)> {
    s.votes.iter().map(|l| (l.slot, l.confirmation_count)).collect()
}

#[test]
fn lockout_doubles_with_confirmations() {
    let l = Lockout { slot: 10, confirmation_count: 3 };
    assert_eq!(l.lockout(), 8);
    assert_eq!(l.last_locked_out_slot(), 18);
    assert!(l.is_locked_out_at_slot(18));
    assert!(!l.is_locked_out_at_slot(19));
    let big = Lockout { slot: 1, confirmation_count: 40 };
    assert_eq!(big.lockout(), 1u64 << 31);
    let top = Lockout { slot: u64::MAX - 1, confirmation_count: 2 };
    assert_eq!(top.last_locked_out_slot(), u64::MAX);
}

#[test]
fn consecutive_votes_confirm_older_ones() {
    let mut s = TowerVoteState::new();
    s.process_next_vote_slot(1);
    s.process_next_vote_slot(2);
    s.process_next_vote_slot(3);
    assert_eq!(slots_and_counts(&s), vec![(1, 3), (2, 2), (3, 1)]);
    assert_eq!(s.last_voted_slot(), Some(3));
    assert_eq!(s.tower(), vec![1, 2, 3]);
}

#[test]
fn old_vote_is_ignored() {
    let mut s = TowerVoteState::new();
    s.process_next_vote_slot(5);
    s.process_next_vote_slot(5);
    s.process_next_vote_slot(4);
    assert_eq!(slots_and_counts(&s), vec![(5, 1)]);
}

#[test]
fn expired_votes_are_popped() {
    let mut s = TowerVoteState::new();
    for slot in 1..=3 {
        s.process_next_vote_slot(slot);
    }
    s.process_next_vote_slot(10);
    assert_eq!(slots_and_counts(&s), vec![(10, 1)]);
    assert_eq!(s.root_slot, None);
}

#[test]
fn full_tower_roots_its_oldest_vote() {
    let mut s = TowerVoteState::new();
    for slot in 1..=31 {
        s.process_next_vote_slot(slot);
    }
    assert_eq!(s.votes.len(), 31);
    assert_eq!(s.root_slot, None);
    s.process_next_vote_slot(32);
    assert_eq!(s.votes.len(), 31);
    assert_eq!(s.root_slot, Some(1));
    assert_eq!(s.votes[0].slot, 2);
    assert_eq!(s.last_voted_slot(), Some(32));
}

#[test]
fn tower_recency() {
    let mut vote_state = TowerVoteState::new();
    vote_state.process_next_vote_slot(7);
    let tower = Tower { vote_state, last_vote_slot: Some(7) };
    assert!(!tower.is_recent(7));
    assert!(tower.is_recent(8));
    assert_eq!(tower.tower_slots(), vec![7]);
    assert_eq!(tower.last_voted_slot(), Some(7));
    let copy = tower.vote_state.duplicate();
    assert_eq!(slots_and_counts(&copy), vec![(7, 1)]);
}
