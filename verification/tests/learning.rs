use rl_scheduler::binary64::Binary64;
use rl_scheduler::metadata::RLMetadata;
use rl_scheduler::reward::RewardSignal;
use rl_scheduler::tuning::Tuning;

fn hold(x: f64) -> Binary64 {
    Binary64::from_bits(x.to_bits())
}

fn number(x: Binary64) -> f64 {
    f64::from_bits(x.to_bits())
}

fn tuning() -> Tuning {
    Tuning {
        drop_threshold: 4,
        prune_amt: 3,
        epsilon: hold(0.1),
        alpha: hold(0.1),
        gamma: hold(0.9),
        init_q: hold(1.0),
        prune_q_threshold: hold(0.5),
        reward_bug_found: hold(100.0),
        reward_cmp_improve: hold(1.0),
        reward_cov_new: hold(5.0),
        reward_step: hold(-0.01),
        full_trace: false,
    }
}

fn with_values(values: &[(usize, f64)]) -> RLMetadata {
    let mut meta = RLMetadata::new();
    for (k, q) in values {
        meta.q_table.insert(*k, hold(*q));
    }
    meta
}

#[test]
fn a_new_agent_knows_nothing() {
    for meta in [RLMetadata::new(), RLMetadata::default()] {
        assert!(meta.q_table.is_empty());
        assert_eq!(meta.last_selected, None);
        assert_eq!(meta.total_reward.to_bits(), 0);
        assert_eq!(meta.exploit_count, 0);
        assert_eq!(meta.explore_count, 0);
        assert!(meta.deps.edits.is_empty());
        assert!(meta.to_remove.is_empty());
    }
}

#[test]
fn unknown_entries_have_the_initial_value() {
    let meta = with_values(&[(4, 2.5)]);
    assert_eq!(meta.get_q(tuning(), 4), hold(2.5));
    assert_eq!(meta.get_q(tuning(), 5), hold(1.0));
}

#[test]
fn the_greatest_value_is_that_of_the_whole_table() {
    // An empty table has the initial value.
    assert_eq!(RLMetadata::new().max_q(tuning()), hold(1.0));
    assert_eq!(with_values(&[(3, 0.0), (4, -1.0)]).max_q(tuning()), hold(0.0));
    assert_eq!(with_values(&[(1, 0.25), (2, 0.5)]).max_q(tuning()), hold(0.5));
    assert_eq!(with_values(&[(1, 0.25), (2, 7.5), (9, 3.0)]).max_q(tuning()), hold(7.5));
    // A NaN does not count beside a number.
    assert_eq!(with_values(&[(1, f64::NAN), (2, 3.0)]).max_q(tuning()), hold(3.0));
    let mut odd = tuning();
    odd.init_q = hold(f64::NAN);
    assert_eq!(with_values(&[(1, -2.0)]).max_q(odd), hold(-2.0));
    assert!(RLMetadata::new().max_q(odd).is_nan());
    // Where no value is a number, the initial one takes their place.
    assert_eq!(with_values(&[(1, f64::NAN)]).max_q(tuning()), hold(1.0));
    assert_eq!(with_values(&[(1, f64::NAN), (2, -f64::NAN)]).max_q(tuning()), hold(1.0));
    assert!(with_values(&[(1, f64::NAN)]).max_q(odd).is_nan());
}

#[test]
fn an_update_is_the_q_learning_step() {
    let mut meta = with_values(&[(3, 2.0), (8, 4.0)]);
    meta.update_q(tuning(), 3, hold(5.0));
    let expected: f64 = 2.0 + 0.1 * (5.0 + 0.9 * 4.0 - 2.0);
    assert_eq!(meta.get_q(tuning(), 3), hold(expected));
    assert_eq!(meta.get_q(tuning(), 3), hold(2.66));
    assert_eq!(meta.get_q(tuning(), 8), hold(4.0));
    assert_eq!(meta.total_reward, hold(5.0));
    // An unknown entry starts from the initial value and is known afterwards.
    meta.update_q(tuning(), 30, hold(-0.01));
    let expected: f64 = 1.0 + 0.1 * (-0.01 + 0.9 * 4.0 - 1.0);
    assert_eq!(meta.q_table[&30], hold(expected));
    assert_eq!(meta.total_reward, hold(5.0 - 0.01));
}

#[test]
fn values_never_become_negative() {
    let mut meta = with_values(&[(3, 2.0)]);
    meta.update_q(tuning(), 3, hold(-1000.0));
    assert_eq!(meta.get_q(tuning(), 3).to_bits(), 0);
    meta.update_q(tuning(), 3, hold(f64::NAN));
    assert_eq!(meta.get_q(tuning(), 3).to_bits(), 0);
    meta.update_q(tuning(), 3, hold(f64::NEG_INFINITY));
    assert_eq!(meta.get_q(tuning(), 3).to_bits(), 0);
    meta.update_q(tuning(), 3, hold(f64::INFINITY));
    assert_eq!(meta.get_q(tuning(), 3), hold(f64::INFINITY));
}

#[test]
fn many_updates_agree_with_the_machine() {
    let t = tuning();
    let mut meta = RLMetadata::new();
    let mut table: std::collections::HashMap<usize, f64> = std::collections::HashMap::new();
    let mut total: f64 = 0.0;
    let mut seed: u64 = 12345;
    for _ in 0..2000 {
        seed = seed.wrapping_mul(6364136223846793005).wrapping_add(1442695040888963407);
        let idx = (seed >> 60) as usize;
        let reward = ((seed >> 20) % 100000) as f64 / 7.0 - 5000.0;
        let current = *table.get(&idx).unwrap_or(&1.0);
        let best = table.values().cloned().reduce(f64::max).unwrap_or(1.0);
        let new_q: f64 = current + 0.1 * (reward + 0.9 * best - current);
        table.insert(idx, new_q.max(0.0));
        total += reward;
        meta.update_q(t, idx, hold(reward));
        assert_eq!(number(meta.get_q(t, idx)), table[&idx]);
        assert_eq!(number(meta.total_reward), total);
    }
}

#[test]
fn without_a_discount_learning_is_a_plain_bandit() {
    let mut t = tuning();
    t.gamma = hold(0.0);
    let mut meta = with_values(&[(3, 2.0), (8, 4.0)]);
    meta.update_q(t, 3, hold(5.0));
    let expected: f64 = 2.0 + 0.1 * (5.0 - 2.0);
    assert_eq!(meta.get_q(t, 3), hold(expected));
}

#[test]
fn learning_moves_toward_what_is_promised() {
    let t = tuning();
    // 5 + 0.9 * 1 lies above 2, and 0.25 + 0.9 * 1 below it.
    assert!(hold(2.0).lt(t.learned(hold(2.0), hold(5.0), hold(1.0))));
    assert!(t.learned(hold(2.0), hold(0.25), hold(1.0)).lt(hold(2.0)));
    assert_eq!(t.learned(hold(2.0), hold(5.0), hold(1.0)), hold(2.0 + 0.1 * (5.0 + 0.9 - 2.0)));
    // What is negative rises in either case, to 0 where less is promised.
    assert_eq!(t.learned(hold(-2.0), hold(50.0), hold(1.0)), hold(-2.0 + 0.1 * (50.0 + 0.9 + 2.0)));
    assert_eq!(t.learned(hold(-2.0), hold(-9.0), hold(1.0)), hold(0.0));
    assert_eq!(t.learned(hold(f64::NEG_INFINITY), hold(5.0), hold(1.0)), hold(0.0));
}

#[test]
fn exploring_takes_the_place_that_the_draw_stands_for() {
    let t = tuning();
    let mut meta = with_values(&[(10, 9.0)]);
    let indices: [usize; 4] = [10, 20, 30, 40];
    assert_eq!(meta.select(t, &indices, hold(0.0)), 10);
    assert_eq!(meta.select(t, &indices, hold(0.03)), 20);
    assert_eq!(meta.select(t, &indices, hold(0.0999)), 40);
    assert_eq!(meta.select(t, &indices, hold(0.06)), indices[(0.06 / 0.1 * 4.0) as usize]);
    assert_eq!(meta.select(t, &indices, hold(-3.0)), 10);
    assert_eq!(meta.explore_count, 5);
    assert_eq!(meta.exploit_count, 0);
}

#[test]
fn exploring_agrees_with_the_machine() {
    let t = tuning();
    let mut meta = RLMetadata::new();
    for len in 1..40usize {
        let indices: Vec<usize> = (0..len).map(|i| i * 7).collect();
        for draw in (0..1000u64).step_by(13) {
            let rand_val = draw as f64 / 10000.0;
            let i = (rand_val / 0.1 * len as f64) as usize;
            let expected = indices[i.min(len - 1)];
            assert_eq!(meta.select(t, &indices, hold(rand_val)), expected);
        }
    }
}

#[test]
fn exploiting_takes_the_greatest_value() {
    let t = tuning();
    let mut meta = with_values(&[(10, 0.5), (20, 3.0), (30, 2.0)]);
    assert_eq!(meta.select(t, &[10, 20, 30], hold(0.5)), 20);
    assert_eq!(meta.select(t, &[10, 30], hold(0.1)), 30);
    assert_eq!(meta.select(t, &[10], hold(0.9999)), 10);
    // An unknown entry counts with the initial value.
    assert_eq!(meta.select(t, &[10, 77], hold(0.5)), 77);
    assert_eq!(meta.exploit_count, 4);
    assert_eq!(meta.explore_count, 0);
}

#[test]
fn of_equal_values_the_last_is_taken() {
    let t = tuning();
    let mut meta = with_values(&[(1, 3.0), (2, 3.0), (3, 3.0)]);
    assert_eq!(meta.select(t, &[1, 2, 3], hold(0.5)), 3);
    assert_eq!(meta.select(t, &[3, 2, 1], hold(0.5)), 1);
    // Zeros are equal whatever their sign.
    let mut zeros = with_values(&[(1, 0.0), (2, -0.0)]);
    assert_eq!(zeros.select(t, &[1, 2], hold(0.5)), 2);
    assert_eq!(zeros.select(t, &[2, 1], hold(0.5)), 1);
}

#[test]
fn an_incomparable_value_takes_over_and_yields() {
    let t = tuning();
    let mut meta = with_values(&[(1, 3.0), (2, f64::NAN), (3, 0.5)]);
    let values: [f64; 3] = [3.0, f64::NAN, 0.5];
    let machine = [0usize, 1, 2]
        .iter()
        .max_by(|a, b| {
            values[**a].partial_cmp(&values[**b]).unwrap_or(std::cmp::Ordering::Equal)
        })
        .unwrap();
    assert_eq!(meta.select(t, &[1, 2, 3], hold(0.5)), machine + 1);
    assert_eq!(meta.select(t, &[1, 3, 2], hold(0.5)), 2);
}

#[test]
fn a_draw_that_is_no_number_exploits() {
    let mut meta = with_values(&[(1, 3.0), (2, 4.0)]);
    assert_eq!(meta.select(tuning(), &[1, 2], hold(f64::NAN)), 2);
    assert_eq!(meta.exploit_count, 1);
}

#[test]
fn each_selection_is_counted_once() {
    let t = tuning();
    let mut meta = with_values(&[(1, 3.0)]);
    for draw in [0.0, 0.05, 0.1, 0.7] {
        assert!(meta.can_count(t, hold(draw)));
        let before = meta.explore_count + meta.exploit_count;
        meta.select(t, &[1], hold(draw));
        assert_eq!(meta.explore_count + meta.exploit_count, before + 1);
    }
    assert_eq!((meta.explore_count, meta.exploit_count), (2, 2));
    meta.explore_count = usize::MAX;
    assert!(!meta.can_count(t, hold(0.05)));
    assert!(meta.can_count(t, hold(0.5)));
}

#[test]
fn entries_and_indices_list_the_table() {
    let meta = with_values(&[(5, 1.5), (2, 0.5), (9, 2.5)]);
    let mut entries = meta.entries();
    entries.sort_by_key(|e| e.0);
    assert_eq!(entries, vec![(2, hold(0.5)), (5, hold(1.5)), (9, hold(2.5))]);
    let mut indices = meta.indices();
    indices.sort();
    assert_eq!(indices, vec![2, 5, 9]);
    assert!(RLMetadata::new().entries().is_empty());
    assert!(RLMetadata::new().indices().is_empty());
}

#[test]
fn a_blank_signal_is_worth_the_step() {
    for signal in [RewardSignal::new(), RewardSignal::default()] {
        assert_eq!(signal.cmp_improvement.to_bits(), 0);
        assert!(!signal.new_coverage);
        assert!(!signal.bug_found);
        assert_eq!(signal.compute_reward(tuning(), hold(9.0)), hold(-0.01));
    }
}

#[test]
fn a_signal_is_worth_the_sum_of_its_parts() {
    let t = tuning();
    let gain: f64 = 6.5;
    let mut signal = RewardSignal {
        cmp_improvement: hold(gain),
        new_coverage: false,
        bug_found: false,
    };
    let log_gain = hold(gain.ln_1p());
    assert_eq!(signal.compute_reward(t, log_gain), hold(-0.01 + 1.0 * gain.ln_1p()));
    signal.bug_found = true;
    assert_eq!(signal.compute_reward(t, log_gain), hold(-0.01 + 100.0 + 1.0 * gain.ln_1p()));
    signal.new_coverage = true;
    let all: f64 = -0.01 + 100.0 + 1.0 * gain.ln_1p() + 5.0;
    assert_eq!(signal.compute_reward(t, log_gain), hold(all));
    // Without an improvement the logarithm does not count.
    for flat in [0.0, -0.0, -3.0, f64::NAN] {
        signal.cmp_improvement = hold(flat);
        assert_eq!(signal.compute_reward(t, log_gain), hold(-0.01 + 100.0 + 5.0));
    }
}

#[test]
fn learning_looks_at_the_whole_table_only() {
    // All values lie below the initial one, which therefore does not count.
    let mut meta = with_values(&[(3, 0.25), (8, 0.5)]);
    meta.update_q(tuning(), 3, hold(2.0));
    let expected: f64 = 0.25 + 0.1 * (2.0 + 0.9 * 0.5 - 0.25);
    assert_eq!(meta.get_q(tuning(), 3), hold(expected));
}

#[test]
fn learning_without_a_number_looks_at_the_initial_value() {
    let mut meta = with_values(&[(3, f64::NAN)]);
    meta.update_q(tuning(), 8, hold(2.0));
    let expected: f64 = 1.0 + 0.1 * (2.0 + 0.9 * 1.0 - 1.0);
    assert_eq!(meta.get_q(tuning(), 8), hold(expected));
    // The value that is no number starts again at 0.
    meta.update_q(tuning(), 3, hold(2.0));
    assert_eq!(meta.get_q(tuning(), 3), hold(0.0));
}

#[test]
fn more_improvement_earns_no_less() {
    let t = tuning();
    for (new_coverage, bug_found) in [(false, false), (true, false), (false, true), (true, true)] {
        let mut before: Option<(f64, f64)> = None;
        for gain in [-5.0, -0.0, 0.0, 1e-300, 0.001, 0.5, 3.0, 1e6, f64::MAX] {
            let gain: f64 = gain;
            let signal = RewardSignal { cmp_improvement: hold(gain), new_coverage, bug_found };
            let reward = number(signal.compute_reward(t, hold(gain.ln_1p())));
            if let Some((last_gain, last)) = before {
                assert!(last <= reward, "{} {}", last_gain, gain);
                if gain <= 0.0 {
                    assert_eq!(last, reward);
                }
            }
            before = Some((gain, reward));
        }
    }
    // An improvement may also be worth nothing, whatever the sign of that zero.
    let mut free = tuning();
    free.reward_cmp_improve = hold(-0.0);
    for gain in [-1.0, 0.5, 3.0] {
        let gain: f64 = gain;
        let signal =
            RewardSignal { cmp_improvement: hold(gain), new_coverage: true, bug_found: false };
        assert_eq!(signal.compute_reward(free, hold(gain.ln_1p())), hold(-0.01 + 5.0));
    }
}

#[test]
fn exploring_spreads_in_order() {
    let t = tuning();
    let mut meta = RLMetadata::new();
    let indices: Vec<usize> = (0..37).collect();
    let mut before: usize = 0;
    for draw in 0..1000u64 {
        let place = meta.select(t, &indices, hold(draw as f64 / 10000.0));
        assert!(before <= place);
        before = place;
    }
    assert_eq!(before, 36);
    assert_eq!(meta.select(t, &indices, hold(-0.0)), 0);
}

#[test]
fn every_entry_can_be_explored() {
    for share in [2u64, 4, 8, 100, 1000] {
        let mut t = tuning();
        t.epsilon = hold(share as f64 / 10000.0);
        let len = (share - 1) as usize;
        let indices: Vec<usize> = (0..len).collect();
        let mut meta = RLMetadata::new();
        let mut reached: Vec<bool> = vec![false; len];
        for draw in 0..share {
            reached[meta.select(t, &indices, hold(draw as f64 / 10000.0))] = true;
        }
        assert!(reached.iter().all(|r| *r));
    }
}
