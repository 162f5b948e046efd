use rl_scheduler::binary64::Binary64;
use rl_scheduler::metadata::RLMetadata;
use rl_scheduler::pruning::prune_candidates;
use rl_scheduler::reward::RewardSignal;
use rl_scheduler::scheduler::{
    draw_value, set_reward_signal, RLScheduler, SchedulerError, SchedulerState,
};
use rl_scheduler::tuning::Tuning;
use rl_scheduler::votes::{DependencyTree, TreeEdit, VoteData};

fn hold(x: f64) -> Binary64 {
    Binary64::from_bits(x.to_bits())
}

fn tuning() -> Tuning {
    Tuning {
        drop_threshold: 4,
        prune_amt: 3,
        epsilon: hold(0.1),
        alpha: hold(0.1),
        gamma: hold(0.9),
        init_q: hold(1.0),
        prune_q_threshold: hold(0.5),
        reward_bug_found: hold(100.0),
        reward_cmp_improve: hold(1.5),
        reward_cov_new: hold(5.0),
        reward_step: hold(-0.01),
        full_trace: false,
    }
}

fn scheduler() -> RLScheduler<u8> {
    RLScheduler::new()
}

fn with_values(values: &[(usize, f64)]) -> SchedulerState {
    let mut meta = RLMetadata::new();
    for (k, q) in values {
        meta.q_table.insert(*k, hold(*q));
    }
    let mut state = SchedulerState::new();
    state.rl = Some(meta);
    state
}

fn table(state: &SchedulerState) -> Vec<(usize, Binary64)> {
    let mut entries = state.rl.as_ref().unwrap().entries();
    entries.sort_by_key(|e| e.0);
    entries
}

#[test]
fn schedulers_are_created_alike() {
    let a: RLScheduler<u8> = RLScheduler::new();
    let b: RLScheduler<u8> = RLScheduler::default();
    assert_eq!(format!("{:?}", a), format!("{:?}", b.clone()));
}

#[test]
fn a_vote_is_a_small_reward() {
    let mut state = SchedulerState::new();
    scheduler().vote(&mut state, tuning(), 7, 1000);
    let expected: f64 = 1.0 + 0.1 * (1.5 + 0.9 * 1.0 - 1.0);
    assert_eq!(table(&state), vec![(7, hold(expected))]);
    assert_eq!(state.rl.as_ref().unwrap().total_reward, hold(1.5));
    assert!(state.votes.is_none());
    assert!(state.signal.is_none());
}

#[test]
fn sponsoring_is_worth_a_vote() {
    let mut voted = with_values(&[(7, 3.0), (8, 1.0)]);
    let mut sponsored = voted.clone();
    scheduler().vote(&mut voted, tuning(), 8, 1);
    scheduler().sponsor_state(&mut sponsored, tuning(), 8, 99);
    assert_eq!(table(&voted), table(&sponsored));
    let expected: f64 = 1.0 + 0.1 * (1.5 + 0.9 * 3.0 - 1.0);
    assert_eq!(table(&sponsored)[1], (8, hold(expected)));
}

#[test]
fn a_report_boosts_by_twice_the_coverage_reward() {
    let mut state = with_values(&[(7, 3.0)]);
    scheduler().report_corpus(&mut state, tuning(), 7);
    let expected: f64 = 3.0 + 0.1 * (5.0 * 2.0 + 0.9 * 3.0 - 3.0);
    assert_eq!(table(&state), vec![(7, hold(expected))]);
    assert!(hold(3.0).lt(hold(expected)));
    assert!(state.rl.unwrap().deps.edits.is_empty());
    // A negative value is boosted too, and the others stay.
    let mut state = with_values(&[(7, -3.0), (8, 2.0)]);
    scheduler().report_corpus(&mut state, tuning(), 7);
    let expected: f64 = -3.0 + 0.1 * (5.0 * 2.0 + 0.9 * 2.0 + 3.0);
    assert_eq!(table(&state), vec![(7, hold(expected.max(0.0))), (8, hold(2.0))]);
}

#[test]
fn tracing_records_derivations() {
    let mut t = tuning();
    t.full_trace = true;
    let mut state = SchedulerState::new();
    assert!(scheduler().on_add(&mut state, t, 7, 2, 1).is_empty());
    scheduler().report_corpus(&mut state, t, 7);
    let edits = state.rl.unwrap().deps.edits;
    assert_eq!(
        edits,
        vec![TreeEdit::AddNode { idx: 7, parent: 2 }, TreeEdit::NeverDelete { idx: 7 }]
    );
    let mut tree = DependencyTree::new();
    tree.add_node(1, 0);
    tree.mark_never_delete(1);
    assert_eq!(
        tree.edits,
        vec![TreeEdit::AddNode { idx: 1, parent: 0 }, TreeEdit::NeverDelete { idx: 1 }]
    );
}

#[test]
fn a_new_entry_starts_optimistic() {
    let mut state = SchedulerState::new();
    assert!(scheduler().on_add(&mut state, tuning(), 7, 0, 1).is_empty());
    assert_eq!(table(&state), vec![(7, hold(1.0))]);
    let votes = state.votes.as_ref().unwrap();
    assert_eq!((votes.visits_total, votes.votes_total), (1, 1));
    assert!(votes.votes_and_visits.is_empty());
    assert!(votes.sorted_votes.is_empty());
    assert!(state.rl.as_ref().unwrap().deps.edits.is_empty());
}

#[test]
fn an_entry_added_again_keeps_its_value() {
    let mut state = with_values(&[(7, 3.5)]);
    scheduler().on_add(&mut state, tuning(), 7, 0, 1);
    assert_eq!(table(&state), vec![(7, hold(3.5))]);
}

#[test]
fn nothing_is_pruned_up_to_the_threshold() {
    let mut state = with_values(&[(3, 0.0), (4, 0.0), (5, 0.0)]);
    state.rl.as_mut().unwrap().to_remove = vec![99];
    assert!(scheduler().on_add(&mut state, tuning(), 6, 0, 4).is_empty());
    assert_eq!(table(&state).len(), 4);
    assert_eq!(state.rl.unwrap().to_remove, vec![99]);
}

#[test]
fn low_values_are_pruned_above_the_threshold() {
    let mut state = with_values(&[(3, 0.4), (4, 0.1), (5, 2.0), (6, 0.2), (7, 0.3)]);
    state.rl.as_mut().unwrap().last_selected = Some(6);
    let mut votes = VoteData::new();
    votes.votes_and_visits.insert(4, (1, 2));
    votes.votes_and_visits.insert(5, (3, 4));
    votes.sorted_votes = vec![5, 4, 6, 4];
    state.votes = Some(votes);
    let evicted = scheduler().on_add(&mut state, tuning(), 8, 0, 6);
    assert_eq!(evicted, vec![4, 6, 7]);
    assert_eq!(table(&state), vec![(3, hold(0.4)), (5, hold(2.0)), (8, hold(1.0))]);
    let meta = state.rl.unwrap();
    assert_eq!(meta.to_remove, vec![4, 6, 7]);
    assert_eq!(meta.last_selected, None);
    let votes = state.votes.unwrap();
    assert_eq!(votes.sorted_votes, vec![5]);
    assert_eq!(votes.votes_and_visits.len(), 1);
    assert_eq!(votes.votes_and_visits[&5], (3, 4));
}

#[test]
fn high_values_artifacts_and_the_current_entry_are_protected() {
    // The three lowest are an artifact, the entry being added and one above
    // the threshold.
    let mut state = with_values(&[(2, 0.0), (8, 0.1), (5, 0.6), (6, 0.7)]);
    let evicted = scheduler().on_add(&mut state, tuning(), 8, 0, 100);
    assert!(evicted.is_empty());
    assert_eq!(table(&state).len(), 4);
    assert!(state.rl.unwrap().to_remove.is_empty());
    // At the threshold an entry may go.
    let mut state = with_values(&[(5, 0.5)]);
    assert_eq!(scheduler().on_add(&mut state, tuning(), 8, 0, 100), vec![5]);
}

#[test]
fn traced_entries_stay_in_the_corpus() {
    let mut t = tuning();
    t.full_trace = true;
    let mut state = with_values(&[(4, 0.1), (5, 2.0)]);
    assert!(scheduler().on_add(&mut state, t, 8, 5, 100).is_empty());
    let meta = state.rl.as_ref().unwrap();
    assert_eq!(meta.to_remove, vec![4]);
    assert_eq!(meta.deps.edits, vec![TreeEdit::AddNode { idx: 8, parent: 5 }]);
    assert_eq!(table(&state), vec![(5, hold(2.0)), (8, hold(1.0))]);
}

#[test]
fn equal_values_are_pruned_in_the_order_of_the_walk() {
    let t = tuning();
    let walk = vec![
        (9, hold(0.2)),
        (4, hold(0.2)),
        (7, hold(0.1)),
        (5, hold(0.2)),
        (6, hold(0.0)),
    ];
    assert_eq!(prune_candidates(&walk, t, 1), vec![6, 7, 9]);
    assert_eq!(prune_candidates(&walk, t, 7), vec![6, 9]);
    let zeros = vec![(9, hold(0.0)), (4, hold(-0.0)), (5, hold(-1.0))];
    assert_eq!(prune_candidates(&zeros, t, 1), vec![5, 9, 4]);
    assert!(prune_candidates(&Vec::new(), t, 1).is_empty());
    // What is not a number is never low enough.
    let odd = vec![(9, hold(f64::NAN)), (4, hold(0.3))];
    assert_eq!(prune_candidates(&odd, t, 1), vec![4]);
}

#[test]
fn pruning_agrees_with_a_stable_sort() {
    let mut t = tuning();
    t.prune_amt = 40;
    let mut seed: u64 = 99;
    let mut walk: Vec<(usize, Binary64)> = Vec::new();
    let mut plain: Vec<(usize, f64)> = Vec::new();
    for i in 0..100usize {
        seed = seed.wrapping_mul(6364136223846793005).wrapping_add(1442695040888963407);
        let q = ((seed >> 33) % 16) as f64 / 10.0;
        walk.push((i, hold(q)));
        plain.push((i, q));
    }
    plain.sort_by(|a, b| a.1.partial_cmp(&b.1).unwrap());
    let expected: Vec<usize> = plain
        .iter()
        .take(40)
        .filter(|e| e.0 >= 3 && e.0 != 50 && e.1 <= 0.5)
        .map(|e| e.0)
        .collect();
    assert_eq!(prune_candidates(&walk, t, 50), expected);
}

#[test]
fn a_removed_entry_stays_away() {
    let mut state = with_values(&[(4, 2.0), (5, 3.0)]);
    state.rl.as_mut().unwrap().last_selected = Some(4);
    let mut votes = VoteData::new();
    votes.sorted_votes = vec![4, 5, 4];
    votes.votes_and_visits.insert(4, (7, 7));
    state.votes = Some(votes);
    scheduler().on_remove(&mut state, 4);
    assert_eq!(table(&state), vec![(5, hold(3.0))]);
    assert_eq!(state.rl.as_ref().unwrap().last_selected, None);
    assert_eq!(state.votes.as_ref().unwrap().sorted_votes, vec![5]);
    assert!(state.votes.as_ref().unwrap().votes_and_visits.is_empty());
    // A reward that comes in now does not bring it back.
    set_reward_signal(&mut state, hold(0.0), true, true);
    assert_eq!(scheduler().next(&mut state, tuning(), hold(0.0), 5000), Ok(5));
    assert_eq!(table(&state), vec![(5, hold(3.0))]);
}

#[test]
fn removing_keeps_another_selection() {
    let mut state = with_values(&[(4, 2.0), (5, 3.0)]);
    state.rl.as_mut().unwrap().last_selected = Some(5);
    scheduler().on_remove(&mut state, 4);
    scheduler().on_remove(&mut state, 4);
    assert_eq!(state.rl.as_ref().unwrap().last_selected, Some(5));
    assert_eq!(table(&state), vec![(5, hold(3.0))]);
}

#[test]
fn removing_from_nothing_creates_nothing() {
    let mut state = SchedulerState::new();
    scheduler().on_remove(&mut state, 4);
    assert!(state.rl.is_none());
    assert!(state.votes.is_none());
}

#[test]
fn an_empty_corpus_is_an_error() {
    let mut state = SchedulerState::new();
    assert_eq!(
        scheduler().next(&mut state, tuning(), hold(0.0), 0),
        Err(SchedulerError::Empty)
    );
    let meta = state.rl.as_ref().unwrap();
    assert!(meta.q_table.is_empty());
    assert_eq!((meta.explore_count, meta.exploit_count), (0, 0));
    assert_eq!(
        scheduler().begin_next(&mut state, tuning(), hold(0.0)),
        Err(SchedulerError::Empty)
    );
}

#[test]
fn the_next_entry_is_remembered() {
    let mut state = with_values(&[(4, 2.0), (5, 3.0), (6, 1.0)]);
    assert_eq!(scheduler().next(&mut state, tuning(), hold(0.0), 1000), Ok(5));
    let meta = state.rl.as_ref().unwrap();
    assert_eq!(meta.last_selected, Some(5));
    assert_eq!((meta.explore_count, meta.exploit_count), (0, 1));
    assert_eq!(meta.total_reward.to_bits(), 0);
}

#[test]
fn exploring_draws_pick_any_entry() {
    let mut state = with_values(&[(4, 2.0), (5, 3.0)]);
    let indices: Vec<usize> = vec![5, 4];
    let first = scheduler().finish_next(&mut state, tuning(), &indices, 0);
    assert_eq!(first, 5);
    let last = scheduler().finish_next(&mut state, tuning(), &indices, 999);
    assert_eq!(last, 4);
    assert_eq!(state.rl.as_ref().unwrap().explore_count, 2);
    assert_eq!(state.rl.as_ref().unwrap().last_selected, Some(4));
}

#[test]
fn the_reward_goes_to_the_entry_selected_last() {
    let mut state = with_values(&[(4, 2.0), (5, 3.0)]);
    scheduler().next(&mut state, tuning(), hold(0.0), 5000).unwrap();
    let gain: f64 = 2.0;
    set_reward_signal(&mut state, hold(gain), true, false);
    let log_gain = hold(gain.ln_1p());
    let indices = scheduler().begin_next(&mut state, tuning(), log_gain).unwrap();
    assert_eq!(indices.len(), 2);
    let reward: f64 = -0.01 + 1.5 * gain.ln_1p() + 5.0;
    let expected: f64 = 3.0 + 0.1 * (reward + 0.9 * 3.0 - 3.0);
    assert_eq!(table(&state), vec![(4, hold(2.0)), (5, hold(expected))]);
    assert_eq!(state.rl.as_ref().unwrap().total_reward, hold(reward));
    // The signal stays and is counted again.
    assert!(state.signal.is_some());
    scheduler().begin_next(&mut state, tuning(), log_gain).unwrap();
    assert_eq!(state.rl.as_ref().unwrap().total_reward, hold(reward + reward));
}

#[test]
fn no_signal_means_no_reward() {
    let mut state = with_values(&[(4, 2.0)]);
    state.rl.as_mut().unwrap().last_selected = Some(4);
    scheduler().begin_next(&mut state, tuning(), hold(8.0)).unwrap();
    assert_eq!(table(&state), vec![(4, hold(2.0))]);
}

#[test]
fn a_waiting_entry_alone_can_be_selected() {
    let mut state = SchedulerState::new();
    let mut meta = RLMetadata::new();
    meta.last_selected = Some(9);
    state.rl = Some(meta);
    set_reward_signal(&mut state, hold(0.0), false, false);
    assert_eq!(scheduler().next(&mut state, tuning(), hold(0.0), 9999), Ok(9));
}

#[test]
fn a_signal_replaces_the_one_before() {
    let mut state = SchedulerState::new();
    set_reward_signal(&mut state, hold(1.25), false, true);
    assert_eq!(
        state.signal,
        Some(RewardSignal { cmp_improvement: hold(1.25), new_coverage: false, bug_found: true })
    );
    set_reward_signal(&mut state, hold(-1.0), true, false);
    assert_eq!(
        state.signal,
        Some(RewardSignal { cmp_improvement: hold(-1.0), new_coverage: true, bug_found: false })
    );
    assert!(state.rl.is_none());
}

#[test]
fn draws_are_ten_thousandths() {
    for draw in 0..10000u64 {
        assert_eq!(draw_value(draw), hold(draw as f64 / 10000.0));
    }
}

#[test]
fn epsilon_is_the_share_of_exploring_draws() {
    let mut t = tuning();
    for share in [0u64, 1, 1000, 1234, 9999, 10000] {
        t.epsilon = draw_value(share);
        let exploring = (0..10000u64).filter(|draw| draw_value(*draw).lt(t.epsilon)).count();
        assert_eq!(exploring as u64, share);
    }
    assert_eq!(draw_value(1000), hold(0.1));
}

#[test]
fn nothing_is_counted_where_nothing_is_selected() {
    let mut state = SchedulerState::new();
    let mut meta = RLMetadata::new();
    meta.explore_count = usize::MAX;
    meta.exploit_count = usize::MAX;
    state.rl = Some(meta);
    assert_eq!(
        scheduler().next(&mut state, tuning(), hold(0.0), 0),
        Err(SchedulerError::Empty)
    );
    assert_eq!(state.rl.unwrap().explore_count, usize::MAX);
}

#[test]
fn protected_entries_use_up_a_place() {
    // Three places are looked at; an artifact and a high value take two.
    let mut t = tuning();
    t.prune_q_threshold = hold(0.2);
    let walk = vec![(1, hold(0.0)), (9, hold(0.1)), (5, hold(0.15)), (6, hold(0.18))];
    assert_eq!(prune_candidates(&walk, t, 100), vec![9, 5]);
    assert_eq!(prune_candidates(&walk, t, 9), vec![5]);
}

#[test]
fn votes_of_others_are_kept() {
    let mut state = with_values(&[(4, 0.1), (5, 2.0), (6, 0.2)]);
    let mut votes = VoteData::new();
    votes.visits_total = 11;
    votes.votes_total = 12;
    votes.to_remove = vec![1];
    votes.sorted_votes = vec![6, 5, 4, 7, 5];
    votes.votes_and_visits.insert(5, (3, 4));
    votes.votes_and_visits.insert(6, (1, 1));
    state.votes = Some(votes);
    assert_eq!(scheduler().on_add(&mut state, tuning(), 8, 0, 100), vec![4, 6]);
    let votes = state.votes.unwrap();
    assert_eq!((votes.visits_total, votes.votes_total), (11, 12));
    assert_eq!(votes.sorted_votes, vec![5, 7, 5]);
    assert_eq!(votes.votes_and_visits.len(), 1);
    assert_eq!(votes.votes_and_visits[&5], (3, 4));
    assert_eq!(votes.to_remove, vec![1]);
}
