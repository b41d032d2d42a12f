use allnodes::config::VotingPatchConfig;
use allnodes::flags::Flags;
use allnodes::tower::{Tower, TowerVoteState};
use allnodes::voting::{BankInfo, SlotProgress, VotingPatch};
use std::collections::{HashMap, HashSet};

fn chain() -> Vec<BankInfo> {
    // newest first: 105 is the vote bank; 103 is mostly confirmed; 100 is duplicate confirmed
    (0..6)
        .map(|i| {
            let slot = 105 - i as u64;
            BankInfo { slot, is_mostly_confirmed: slot == 103, is_duplicate_confirmed: slot == 100 }
        })
        .collect()
}

fn ancestors() -> HashMap<u64, HashSet<u64>> {
    (100..=105u64).map(|s| (s, (100..s).collect())).collect()
}

fn tower_with(votes: &[u64]) -> Tower {
    let mut vote_state = TowerVoteState::new();
    for v in votes {
        vote_state.process_next_vote_slot(*v);
    }
    Tower { vote_state, last_vote_slot: votes.last().cloned() }
}

fn patch(bits: u64) -> VotingPatch {
    VotingPatch::init(true, Some(Flags::new(bits)))
}

#[test]
fn init_disables_without_flags() {
    let p = VotingPatch::init(true, None);
    assert!(!p.enable);
    let q = VotingPatch::init(false, Some(Flags::new(7)));
    assert!(!q.enable);
    assert_eq!(q.flags.bits, 0);
    let r = VotingPatch::init(true, Some(Flags::new(7)));
    assert!(r.enable);
    assert_eq!(r.flags.bits, 7);
    assert_eq!(r.config.threshold_ahead_count, 4);
}

#[test]
fn config_check_is_due_every_minute() {
    let p = patch(0);
    assert!(p.config_check_due(None));
    assert!(!p.config_check_due(Some(59)));
    assert!(p.config_check_due(Some(60)));
    assert!(!VotingPatch::new_disabled().config_check_due(None));
}

#[test]
fn recent_slot_is_not_locked_out_by_default() {
    let p = patch(0);
    let tower = tower_with(&[100]);
    let anc: HashSet<u64> = (100..101).collect();
    assert!(!p.is_locked_out_including(&tower, 101, &anc, &vec![]));
    // flag 1 turns the answer for recent slots around
    let q = patch(1 << 1);
    assert!(q.is_locked_out_including(&tower, 101, &anc, &vec![]));
}

#[test]
fn old_slot_checked_against_votes() {
    let tower = tower_with(&[100]);
    let empty: HashSet<u64> = HashSet::new();
    // slot 100 equals the vote's slot, the vote is not an ancestor: no flag set, not blocked
    assert!(!patch(0).is_locked_out_including(&tower, 100, &empty, &vec![]));
    // flag 5 makes every vote block, flag 6 is the answer then
    assert!(!patch(1 << 5).is_locked_out_including(&tower, 100, &empty, &vec![]));
    assert!(patch(1 << 5 | 1 << 6).is_locked_out_including(&tower, 100, &empty, &vec![]));
}

#[test]
fn pop_votes_cuts_at_first_lockout() {
    let tower = tower_with(&[100]);
    let mut votes = vec![101, 102, 103];
    patch(0).pop_votes_locked_out_at(tower.vote_state.duplicate(), &mut votes, 100);
    assert_eq!(votes, Vec::<u64>::new());
    let mut votes = vec![101, 102, 103];
    patch(1 << 7).pop_votes_locked_out_at(tower.vote_state.duplicate(), &mut votes, 100);
    assert_eq!(votes, vec![101, 102, 103]);
    let mut votes = vec![101, 102, 103];
    patch(0).pop_votes_locked_out_at(tower.vote_state.duplicate(), &mut votes, 1000);
    assert_eq!(votes, vec![101, 102, 103]);
}

#[test]
fn mostly_confirmed_slots() {
    let progress = vec![
        SlotProgress { slot: 1, is_duplicate_confirmed: false, is_frozen: true, above_threshold: Some(true) },
        SlotProgress { slot: 2, is_duplicate_confirmed: true, is_frozen: true, above_threshold: Some(true) },
        SlotProgress { slot: 3, is_duplicate_confirmed: false, is_frozen: false, above_threshold: Some(true) },
        SlotProgress { slot: 4, is_duplicate_confirmed: false, is_frozen: true, above_threshold: Some(false) },
        SlotProgress { slot: 5, is_duplicate_confirmed: false, is_frozen: true, above_threshold: None },
    ];
    assert_eq!(patch(0).populate_mostly_confirmed_slots(&progress), vec![1]);
    assert_eq!(VotingPatch::new_disabled().populate_mostly_confirmed_slots(&progress), Vec::<u64>::new());
    // flag 60 inverts frozen, flag 63 inverts the stake test and counts missing stake as above
    assert_eq!(patch(1 << 60).populate_mostly_confirmed_slots(&progress), vec![3]);
    assert_eq!(patch(1 << 63).populate_mostly_confirmed_slots(&progress), vec![4]);
}

#[test]
fn fork_walks() {
    let c = chain();
    assert_eq!(VotingPatch::first_mostly_confirmed_bank(&c), Some(2));
    assert_eq!(VotingPatch::last_confirmed_slot(&c), 100);
    assert_eq!(VotingPatch::banks_between_and_including(&c, 102, 0), vec![102, 103, 104, 105]);
    assert_eq!(VotingPatch::banks_between_and_including(&c, 0, 3), vec![100, 101, 102]);
    assert_eq!(VotingPatch::banks_between_and_including(&c, 200, 0), Vec::<u64>::new());
}

#[test]
fn disabled_patch_votes_on_vote_bank() {
    let mut tower = tower_with(&[100]);
    let r = VotingPatch::new_disabled().populate_vote_banks(&mut tower, &chain(), &ancestors());
    assert_eq!(r, (vec![105], true));
}

#[test]
fn no_mostly_confirmed_bank() {
    let mut tower = tower_with(&[100]);
    let c: Vec<BankInfo> = chain().into_iter().map(|b| BankInfo { is_mostly_confirmed: false, ..b }).collect();
    assert_eq!(patch(0).populate_vote_banks(&mut tower, &c, &ancestors()), (vec![], false));
    assert_eq!(patch(1 << 55).populate_vote_banks(&mut tower, &c, &ancestors()), (vec![], true));
}

#[test]
fn lockout_cut_leaves_nothing_to_vote() {
    let mut tower = tower_with(&[100]);
    let r = patch(0).populate_vote_banks(&mut tower, &chain(), &ancestors());
    assert_eq!(r, (vec![], false));
    assert_eq!(tower.vote_state.tower(), vec![100]);
}

#[test]
fn votes_on_candidates_ahead() {
    let mut tower = tower_with(&[100]);
    let r = patch(1 << 7).populate_vote_banks(&mut tower, &chain(), &ancestors());
    assert_eq!(r, (vec![101, 102, 103, 104, 105], false));
    assert_eq!(tower.vote_state.tower(), vec![100]);
}

#[test]
fn vote_count_limited_by_flags() {
    let mut tower = tower_with(&[100]);
    let r = patch(1 << 7 | 2 << 12 | 1 << 38).populate_vote_banks(&mut tower, &chain(), &ancestors());
    assert_eq!(r, (vec![101], true));
}

#[test]
fn threshold_ahead_limits_candidates() {
    let mut tower = tower_with(&[100]);
    let mut p = patch(1 << 7);
    p.config = VotingPatchConfig { threshold_ahead_count: 1, after_skip_threshold: 0, threshold_escape_count: 24 };
    let r = p.populate_vote_banks(&mut tower, &chain(), &ancestors());
    assert_eq!(r, (vec![101, 102, 103], false));
}

#[test]
fn escape_vote_when_many_unvoted() {
    let mut tower = tower_with(&[100]);
    let mut p = patch(0);
    p.config = VotingPatchConfig { threshold_ahead_count: 4, after_skip_threshold: 0, threshold_escape_count: 5 };
    let r = p.populate_vote_banks(&mut tower, &chain(), &ancestors());
    assert_eq!(r, (vec![100], false));
}

#[test]
fn never_voted_votes_on_vote_bank() {
    let mut tower = tower_with(&[]);
    // with no vote, the floor is 0 and every candidate is recent; the lockout cut empties the list
    let r = patch(0).populate_vote_banks(&mut tower, &chain(), &ancestors());
    assert_eq!(r, (vec![105], false));
}

#[test]
fn purges_votes_off_the_fork() {
    let mut tower = tower_with(&[90]);
    let r = patch(1 << 7).populate_vote_banks(&mut tower, &chain(), &ancestors());
    assert_eq!(r.0, vec![100, 101, 102, 103, 104, 105]);
    assert_eq!(tower.vote_state.tower(), Vec::<u64>::new());
}

#[test]
fn protection_decision() {
    let mut vote_state = TowerVoteState::new();
    vote_state.process_next_vote_slot(10);
    let tower = Tower { vote_state, last_vote_slot: Some(10) };
    let bits = 1u64 << 28 | 2 << 7;
    let p = patch(bits);
    assert!(!p.enable_protection(&tower, 1, Some(9)));
    assert!(p.enable_protection(&tower, 1, Some(5)));
    assert!(!p.enable_protection(&tower, 0, Some(5)));
    assert!(p.protection_decision(1, Some(10), None, 0));
    assert!(!p.protection_decision(1, Some(10), Some(3), 7));
}
