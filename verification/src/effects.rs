//! What each operation does, said of what it is given and what it leaves.
use vstd::arithmetic::power2::lemma_pow2_pos;
use vstd::prelude::*;

use crate::arithmetic::{
    abs, lemma_integer_exact, lemma_integer_positive, lemma_plus_grows, lemma_plus_monotone,
    lemma_plus_monotone_right, lemma_times_monotone, lemma_times_sign, lemma_value_range,
    one_in_units,
};
use crate::binary64::{magnitude, Binary64};
use crate::laws::{law_exploiting_selects_greatest, law_leaving_removes_exactly, not_gone};
use crate::metadata::{
    greedy_position, lists_keys, lists_table, MetadataView, RLMetadata,
};
use crate::numbers::{
    law_difference_is_nearest, law_product_is_nearest, law_sum_is_nearest,
};
use crate::pruning::{
    at_positions, comes_before, lists_in_order, prunable, prunable_indices, prune_list,
};
use crate::reward::RewardSignal;
use crate::rounding::{lemma_nearest, lemma_nearest_exact, lemma_nearest_monotone};
use crate::scheduler::{draw_value, SchedulerState, StateView};
use crate::tuning::Tuning;
use crate::votes::{DependencyTree, TreeEdit, VoteData, VoteView};

verus! {

/// Before anything happened nothing is known, nothing is counted, and the
/// totals of votes and visits stand at 1.
pub proof fn law_beginnings(s: StateView)
    ensures
        s.rl matches Some(m) ==> s.metadata() == m,
        s.rl is None ==> {
            let m = s.metadata();
            &&& m.q_table == Map::<usize, Binary64>::empty()
            &&& m.last_selected is None
            &&& m.total_reward.bits == 0
            &&& m.exploit_count == 0
            &&& m.explore_count == 0
            &&& m.deps.len() == 0
            &&& m.to_remove.len() == 0
            &&& m == MetadataView::fresh()
        },
        s.votes matches Some(v) ==> s.vote_data() == v,
        s.votes is None ==> {
            let v = s.vote_data();
            &&& v.votes_and_visits == Map::<usize, (usize, usize)>::empty()
            &&& v.sorted_votes.len() == 0
            &&& v.visits_total == 1
            &&& v.votes_total == 1
            &&& v.deps.len() == 0
            &&& v.to_remove.len() == 0
            &&& v == VoteView::initial()
        },
        RewardSignal::blank().cmp_improvement.bits == 0,
        !RewardSignal::blank().new_coverage,
        !RewardSignal::blank().bug_found,
{
}

/// What contracts say of the data is said of all its fields.
pub proof fn law_views_show_every_field(
    state: SchedulerState,
    meta: RLMetadata,
    votes: VoteData,
    tree: DependencyTree,
)
    ensures
        meta@.q_table == meta.q_table@,
        meta@.last_selected == meta.last_selected,
        meta@.total_reward == meta.total_reward,
        meta@.exploit_count == meta.exploit_count,
        meta@.explore_count == meta.explore_count,
        meta@.deps == meta.deps@,
        meta@.to_remove == meta.to_remove@,
        votes@.votes_and_visits == votes.votes_and_visits@,
        votes@.sorted_votes == votes.sorted_votes@,
        votes@.visits_total == votes.visits_total,
        votes@.votes_total == votes.votes_total,
        votes@.deps == votes.deps@,
        votes@.to_remove == votes.to_remove@,
        tree@ == tree.edits@,
        state.rl matches Some(m) ==> state@.rl == Some(m@),
        state.rl is None ==> state@.rl is None,
        state.votes matches Some(v) ==> state@.votes == Some(v@),
        state.votes is None ==> state@.votes is None,
        state@.signal == state.signal,
{
}

/// A reward is the sum of its parts. An execution that achieved nothing is
/// worth the cost of the step. A found bug, an improvement and new coverage each
/// add their own reward to what the same execution would be worth without them,
/// in this order. The logarithm counts only with an improvement.
pub proof fn law_reward_adds_up(
    tuning: Tuning,
    signal: RewardSignal,
    log_gain: Binary64,
    other: Binary64,
)
    ensures
        signal.new_coverage ==> signal.compute_reward(tuning, log_gain) == (RewardSignal {
            new_coverage: false,
            ..signal
        }).compute_reward(tuning, log_gain).plus(tuning.reward_cov_new),
        !signal.new_coverage && Binary64::zero().lt(signal.cmp_improvement)
            ==> signal.compute_reward(tuning, log_gain) == (RewardSignal {
            cmp_improvement: Binary64::zero(),
            ..signal
        }).compute_reward(tuning, other).plus(tuning.reward_cmp_improve.times(log_gain)),
        !Binary64::zero().lt(signal.cmp_improvement) ==> signal.compute_reward(tuning, log_gain)
            == (RewardSignal { cmp_improvement: Binary64::zero(), ..signal }).compute_reward(
            tuning,
            other,
        ),
        signal.bug_found && !signal.new_coverage && !Binary64::zero().lt(signal.cmp_improvement)
            ==> signal.compute_reward(tuning, log_gain) == (RewardSignal {
            bug_found: false,
            ..signal
        }).compute_reward(tuning, log_gain).plus(tuning.reward_bug_found),
        !signal.bug_found && !signal.new_coverage && !Binary64::zero().lt(signal.cmp_improvement)
            ==> signal.compute_reward(tuning, log_gain) == tuning.reward_step,
{
}

/// A found bug never makes an execution worth less, nor does new coverage, as
/// long as their rewards are not negative.
pub proof fn law_success_is_worth_no_less(
    tuning: Tuning,
    signal: RewardSignal,
    log_gain: Binary64,
)
    requires
        !signal.compute_reward(tuning, log_gain).is_nan(),
    ensures
        Binary64::zero().le(tuning.reward_bug_found) && !(RewardSignal {
            bug_found: false,
            ..signal
        }).compute_reward(tuning, log_gain).is_nan() ==> (RewardSignal {
            bug_found: false,
            ..signal
        }).compute_reward(tuning, log_gain).le(signal.compute_reward(tuning, log_gain)),
        Binary64::zero().le(tuning.reward_cov_new) ==> (RewardSignal {
            new_coverage: false,
            ..signal
        }).compute_reward(tuning, log_gain).le(signal.compute_reward(tuning, log_gain)),
{
    let step = tuning.reward_step;
    let bug = tuning.reward_bug_found;
    let gain = tuning.reward_cmp_improve.times(log_gain);
    let without_bug = RewardSignal { bug_found: false, ..signal };
    let without_cov = RewardSignal { new_coverage: false, ..signal };
    assert(magnitude(0) == 0);
    if signal.new_coverage && Binary64::zero().le(tuning.reward_cov_new) {
        lemma_plus_grows(without_cov.compute_reward(tuning, log_gain), tuning.reward_cov_new);
    }
    if signal.bug_found && Binary64::zero().le(bug) && !without_bug.compute_reward(
        tuning,
        log_gain,
    ).is_nan() {
        lemma_plus_grows(step, bug);
        let near = if Binary64::zero().lt(signal.cmp_improvement) {
            lemma_plus_monotone(step, step.plus(bug), gain);
            (step.plus(gain), step.plus(bug).plus(gain))
        } else {
            (step, step.plus(bug))
        };
        if signal.new_coverage {
            lemma_plus_monotone(near.0, near.1, tuning.reward_cov_new);
        }
    }
}

/// Learning is the Q-learning step, for every discount and reward: the present
/// value moves by `alpha` times its distance from `reward + gamma * best`, each
/// operation rounded, and does not fall below 0.
pub proof fn law_learning_is_the_step(
    tuning: Tuning,
    current: Binary64,
    reward: Binary64,
    best: Binary64,
)
    ensures
        ({
            let promised = reward.plus(tuning.gamma.times(best));
            let moved = current.plus(tuning.alpha.times(promised.minus(current)));
            let learned = tuning.learned(current, reward, best);
            &&& Binary64::zero().lt(moved) ==> learned == moved
            &&& !Binary64::zero().lt(moved) ==> learned == Binary64::zero()
        }),
{
    assert(magnitude(0) == 0);
    let moved = tuning.spec_step(current, reward, best);
    if !moved.is_nan() {
        lemma_value_range(moved);
    }
}

/// Learning goes the whole step, to the last double before its end: whatever
/// number `c` the exact end of the step does not exceed, the value learned does
/// not exceed it either, unless it is held at 0; and whatever number it reaches,
/// the value learned reaches.
pub proof fn law_learning_goes_the_whole_step(
    tuning: Tuning,
    current: Binary64,
    reward: Binary64,
    best: Binary64,
    c: Binary64,
)
    requires
        !c.is_nan(),
        current.is_finite(),
        tuning.alpha.times(reward.plus(tuning.gamma.times(best)).minus(current)).is_finite(),
    ensures
        ({
            let promised = reward.plus(tuning.gamma.times(best));
            let end = current.value() + tuning.alpha.times(promised.minus(current)).value();
            let learned = tuning.learned(current, reward, best);
            &&& end <= c.value() && 0 <= c.value() ==> learned.le(c)
            &&& c.value() <= end ==> c.le(learned)
        }),
{
    let change = tuning.alpha.times(reward.plus(tuning.gamma.times(best)).minus(current));
    law_learning_is_the_step(tuning, current, reward, best);
    law_sum_is_nearest(current, change, c);
    assert(magnitude(0) == 0);
}

/// Where nothing has to be rounded, learning is the step on exact values. Here
/// `discounted` is `gamma * best`, `promised` is `reward + discounted`, `gap` is
/// `promised - current`, `change` is `alpha * gap` and `moved` is
/// `current + change`.
pub proof fn law_learning_is_exact_without_rounding(
    tuning: Tuning,
    current: Binary64,
    reward: Binary64,
    best: Binary64,
    discounted: Binary64,
    promised: Binary64,
    gap: Binary64,
    change: Binary64,
    moved: Binary64,
)
    requires
        tuning.alpha.is_finite(),
        tuning.gamma.is_finite(),
        current.is_finite(),
        reward.is_finite(),
        best.is_finite(),
        discounted.is_finite(),
        promised.is_finite(),
        gap.is_finite(),
        change.is_finite(),
        moved.is_finite(),
        discounted.value() * one_in_units() == tuning.gamma.value() * best.value(),
        promised.value() == reward.value() + discounted.value(),
        gap.value() == promised.value() - current.value(),
        change.value() * one_in_units() == tuning.alpha.value() * gap.value(),
        moved.value() == current.value() + change.value(),
    ensures
        tuning.learned(current, reward, best).value() == if moved.value() > 0 {
            moved.value()
        } else {
            0
        },
{
    let d = tuning.gamma.times(best);
    let p = reward.plus(d);
    let g = p.minus(current);
    let c = tuning.alpha.times(g);
    let m = current.plus(c);
    law_product_is_nearest(tuning.gamma, best, discounted);
    lemma_exact(discounted, d, tuning.gamma.value() * best.value(), one_in_units());
    law_sum_is_nearest(reward, d, promised);
    lemma_exact(promised, p, reward.value() + d.value(), 1);
    law_difference_is_nearest(p, current, gap);
    lemma_exact(gap, g, p.value() - current.value(), 1);
    law_product_is_nearest(tuning.alpha, g, change);
    lemma_exact(change, c, tuning.alpha.value() * g.value(), one_in_units());
    law_sum_is_nearest(current, c, moved);
    lemma_exact(moved, m, current.value() + c.value(), 1);
    assert(magnitude(0) == 0);
}

/// Nothing but the exact value comes closest to it.
proof fn lemma_exact(exact: Binary64, r: Binary64, num: int, den: int)
    requires
        exact.is_finite(),
        !r.is_nan(),
        den == 1 || den == one_in_units(),
        exact.value() * den == num,
        abs(r.value() * den - num) <= abs(exact.value() * den - num),
    ensures
        r.value() == exact.value(),
        r.is_finite(),
{
    lemma_pow2_pos(1074);
    assert(r.value() == exact.value()) by (nonlinear_arith)
        requires
            r.value() * den == exact.value() * den,
            den > 0,
    ;
    lemma_value_range(exact);
    lemma_value_range(r);
}

/// Multiplying with something not negative keeps the order.
proof fn lemma_times_keeps_order(k: Binary64, a: Binary64, b: Binary64)
    requires
        Binary64::zero().le(k),
        a.le(b),
        !k.times(a).is_nan(),
        !k.times(b).is_nan(),
    ensures
        k.times(a).le(k.times(b)),
{
    assert(magnitude(0) == 0);
    lemma_value_range(a);
    lemma_value_range(b);
    if a.value() >= 0 {
        lemma_times_monotone(k, a, b);
    } else if b.value() <= 0 {
        lemma_times_negated(k, a);
        lemma_times_negated(k, b);
        lemma_times_monotone(k, b.neg(), a.neg());
    } else {
        lemma_times_sign(k, a);
        lemma_times_sign(k, b);
    }
}

/// A negated factor negates the product.
proof fn lemma_times_negated(k: Binary64, a: Binary64)
    requires
        !k.times(a).is_nan(),
    ensures
        k.times(a.neg()) == k.times(a).neg(),
{
    lemma_pow2_pos(1074);
    assert(magnitude(0) == 0);
    if k.is_finite() && a.is_finite() {
        let num = abs(k.value()) * abs(a.value());
        assert(num >= 0) by (nonlinear_arith)
            requires
                num == abs(k.value()) * abs(a.value()),
                abs(k.value()) >= 0,
                abs(a.value()) >= 0,
        ;
        lemma_nearest(num, one_in_units());
        assert(abs(a.neg().value()) == abs(a.value()));
    }
}

/// A greater reward never teaches a lesser value, unless its own step ends in a
/// NaN.
pub proof fn law_more_reward_teaches_no_less(
    tuning: Tuning,
    current: Binary64,
    low: Binary64,
    high: Binary64,
    best: Binary64,
)
    requires
        Binary64::zero().le(tuning.alpha),
        low.le(high),
        !current.plus(
            tuning.alpha.times(high.plus(tuning.gamma.times(best)).minus(current)),
        ).is_nan(),
    ensures
        tuning.learned(current, low, best).le(tuning.learned(current, high, best)),
{
    let discounted = tuning.gamma.times(best);
    let p = low.plus(discounted);
    let q = high.plus(discounted);
    let g = p.minus(current);
    let h = q.minus(current);
    let c = tuning.alpha.times(g);
    let d = tuning.alpha.times(h);
    law_learning_is_the_step(tuning, current, low, best);
    law_learning_is_the_step(tuning, current, high, best);
    assert(magnitude(0) == 0);
    if !current.plus(c).is_nan() {
        lemma_plus_monotone(low, high, discounted);
        lemma_plus_monotone(p, q, current.neg());
        lemma_times_keeps_order(tuning.alpha, g, h);
        lemma_plus_monotone_right(current, c, d);
    }
}

/// Who a reward reaches, be it a vote, a sponsorship or the outcome of an
/// execution: the entry that it names and no other, whatever was selected last.
/// That entry is known afterwards; it learns from the value it had, the initial
/// one where it was unknown. The reward joins the total, and nothing else
/// changes.
pub proof fn law_reward_reaches_the_entry_named(
    s: StateView,
    tuning: Tuning,
    idx: usize,
    reward: Binary64,
)
    ensures
        ({
            let m = s.metadata();
            let after = s.rewarded(tuning, idx, reward);
            let current = if m.q_table.contains_key(idx) {
                m.q_table[idx]
            } else {
                tuning.init_q
            };
            &&& after.rl matches Some(n) && {
                &&& n.q_table == m.q_table.insert(
                    idx,
                    tuning.learned(current, reward, m.max_q(tuning)),
                )
                &&& n.total_reward == m.total_reward.plus(reward)
                &&& n.last_selected == m.last_selected
                &&& n.exploit_count == m.exploit_count
                &&& n.explore_count == m.explore_count
                &&& n.deps == m.deps
                &&& n.to_remove == m.to_remove
            }
            &&& after.votes == s.votes
            &&& after.signal == s.signal
        }),
        forall|k: usize|
            k != idx ==> (#[trigger] s.rewarded(
                tuning,
                idx,
                reward,
            ).metadata().q_table.contains_key(k) <==> s.metadata().q_table.contains_key(k)),
        forall|k: usize|
            k != idx && s.metadata().q_table.contains_key(k) ==> #[trigger] s.rewarded(
                tuning,
                idx,
                reward,
            ).metadata().q_table[k] == s.metadata().q_table[k],
        s.rewarded(tuning, idx, reward).metadata() == s.metadata().update_q(tuning, idx, reward),
{
}

/// Of two rewards for different entries the second leaves alone what the first
/// taught, and no third entry becomes known.
pub proof fn law_rewards_of_different_entries(
    s: StateView,
    tuning: Tuning,
    a: usize,
    b: usize,
    reward: Binary64,
    other: Binary64,
)
    requires
        a != b,
    ensures
        s.rewarded(tuning, a, reward).rewarded(tuning, b, other).metadata().q_table.contains_key(a),
        s.rewarded(tuning, a, reward).rewarded(tuning, b, other).metadata().q_table.contains_key(b),
        s.rewarded(tuning, a, reward).rewarded(tuning, b, other).metadata().q_table[a]
            == s.rewarded(tuning, a, reward).metadata().q_table[a],
        s.rewarded(tuning, a, reward).rewarded(tuning, b, other).metadata().q_table.dom()
            == s.metadata().q_table.dom().insert(a).insert(b),
{
}

/// The Q-value of an entry is the one in the table, and the initial one where
/// there is none.
pub proof fn law_unknown_entries_are_initial(m: MetadataView, tuning: Tuning, idx: usize)
    ensures
        m.q_table.contains_key(idx) ==> m.q(tuning, idx) == m.q_table[idx],
        !m.q_table.contains_key(idx) ==> m.q(tuning, idx) == tuning.init_q,
{
}

/// A report is worth the coverage reward twice over, and with tracing the entry
/// is marked to be kept. Otherwise it is a reward like any other.
pub proof fn law_report_is_a_double_reward(s: StateView, tuning: Tuning, idx: usize)
    ensures
        ({
            let plain = s.rewarded(
                tuning,
                idx,
                tuning.reward_cov_new.plus(tuning.reward_cov_new),
            );
            let after = s.reported(tuning, idx);
            &&& after.rl is Some
            &&& after.votes == s.votes
            &&& after.signal == s.signal
            &&& tuning.full_trace ==> after.metadata().deps == s.metadata().deps.push(
                TreeEdit::NeverDelete { idx },
            )
            &&& !tuning.full_trace ==> after.metadata().deps == s.metadata().deps
            &&& after.metadata() == (MetadataView {
                deps: after.metadata().deps,
                ..plain.metadata()
            })
        }),
{
    lemma_twice(tuning.reward_cov_new);
}

/// Twice a number is the number added to itself.
proof fn lemma_twice(a: Binary64)
    ensures
        a.times(Binary64::from_integer(2)) == a.plus(a),
{
    let u = one_in_units();
    let two = Binary64::from_integer(2);
    lemma_pow2_pos(1074);
    lemma_integer_exact(2);
    lemma_integer_positive(2);
    assert(magnitude(0) == 0);
    if a.is_finite() {
        let x = abs(a.value());
        lemma_value_range(a);
        assert(x * abs(two.value()) == 2 * x * u) by (nonlinear_arith)
            requires
                abs(two.value()) == 2 * u,
        ;
        assert(2 * x * u * 1 == 2 * x * u);
        assert(2 * x * u >= 0) by (nonlinear_arith)
            requires
                x >= 0,
                u > 0,
        ;
        lemma_nearest(2 * x * u, u);
        lemma_nearest(2 * x, 1);
        lemma_nearest_monotone(2 * x * u, u, 2 * x, 1);
        lemma_nearest_monotone(2 * x, 1, 2 * x * u, u);
        lemma_nearest_exact(0, 0, 1);
    }
}

/// An entry that leaves takes its Q-value, its votes and a selection of it with
/// it. Nothing else changes, and where there was no data none is made.
pub proof fn law_removing_touches_one_entry(s: StateView, idx: usize)
    ensures
        s.without(idx).rl is Some <==> s.rl is Some,
        s.without(idx).votes is Some <==> s.votes is Some,
        s.without(idx).signal == s.signal,
        s.without(idx).metadata() == (MetadataView {
            q_table: s.metadata().q_table.remove(idx),
            last_selected: if s.metadata().last_selected == Some(idx) {
                None
            } else {
                s.metadata().last_selected
            },
            ..s.metadata()
        }),
        s.without(idx).vote_data() == (VoteView {
            votes_and_visits: s.vote_data().votes_and_visits.remove(idx),
            sorted_votes: not_gone(s.vote_data().sorted_votes, seq![idx]),
            ..s.vote_data()
        }),
{
    let one = seq![idx];
    assert(one.drop_last() =~= Seq::<usize>::empty());
    law_leaving_removes_exactly(s, one);
    reveal_with_fuel(StateView::without_all, 2);
    assert(s.without_all(one) == s.without(idx));
    assert(s.without(idx).metadata().q_table =~= s.metadata().q_table.remove(idx));
    assert(s.without(idx).vote_data().votes_and_visits
        =~= s.vote_data().votes_and_visits.remove(idx));
}

/// What comes before the next choice: where an entry was selected and its
/// execution left a signal, that entry is rewarded for it; otherwise nothing is
/// learned. The selection and the signal stay.
pub proof fn law_settling_rewards_the_last_selected(
    s: StateView,
    tuning: Tuning,
    log_gain: Binary64,
)
    ensures
        ({
            let m = s.metadata();
            let after = s.settled(tuning, log_gain);
            &&& after.rl is Some
            &&& after.votes == s.votes
            &&& after.signal == s.signal
            &&& after.metadata().last_selected == m.last_selected
            &&& m.last_selected is None || s.signal is None ==> after.metadata() == m
            &&& m.last_selected matches Some(last) ==> s.signal matches Some(signal) ==> after
                == s.rewarded(tuning, last, signal.compute_reward(tuning, log_gain))
        }),
{
}

/// What a choice leaves: the entry selected is remembered, the one count that
/// the draw belongs to is one higher, and nothing else changes.
pub proof fn law_choosing_remembers_and_counts(
    s: StateView,
    tuning: Tuning,
    indices: Seq<usize>,
    draw: u64,
)
    requires
        s.metadata().can_count(tuning, draw_value(draw)),
    ensures
        ({
            let m = s.metadata();
            let after = s.chosen(tuning, indices, draw);
            let explores = draw_value(draw).lt(tuning.epsilon);
            &&& after.votes == s.votes
            &&& after.signal == s.signal
            &&& after.rl matches Some(n) && {
                &&& n.last_selected == Some(m.selected(tuning, indices, draw_value(draw)))
                &&& n.explore_count == m.explore_count + if explores {
                    1int
                } else {
                    0
                }
                &&& n.exploit_count == m.exploit_count + if explores {
                    0int
                } else {
                    1
                }
                &&& n.q_table == m.q_table
                &&& n.total_reward == m.total_reward
                &&& n.deps == m.deps
                &&& n.to_remove == m.to_remove
            }
        }),
{
}

/// A choice can be counted unless the count that its draw belongs to is full.
pub proof fn law_counting_needs_room(m: MetadataView, tuning: Tuning, rand_val: Binary64)
    ensures
        rand_val.lt(tuning.epsilon) ==> (m.can_count(tuning, rand_val) <==> m.explore_count
            != usize::MAX),
        !rand_val.lt(tuning.epsilon) ==> (m.can_count(tuning, rand_val) <==> m.exploit_count
            != usize::MAX),
        m.can_count(tuning, rand_val) ==> m.counted(tuning, rand_val) == (MetadataView {
            explore_count: m.counted(tuning, rand_val).explore_count,
            exploit_count: m.counted(tuning, rand_val).exploit_count,
            ..m
        }),
{
}

/// A list of the table has each entry with its Q-value at exactly one place, and
/// a list of the entries each of them.
pub proof fn law_lists_are_complete(
    walk: Seq<(usize, Binary64)>,
    keys: Seq<usize>,
    table: Map<usize, Binary64>,
)
    ensures
        lists_table(walk, table) ==> {
            &&& forall|i: int|
                0 <= i < walk.len() ==> table.contains_key((#[trigger] walk[i]).0)
                    && table[walk[i].0] == walk[i].1
            &&& forall|i: int, j: int|
                0 <= i < j < walk.len() ==> (#[trigger] walk[i]).0 != (#[trigger] walk[j]).0
            &&& forall|k: usize| #[trigger]
                table.contains_key(k) ==> walk.contains((k, table[k]))
        },
        lists_keys(keys, table) ==> {
            &&& forall|i: int| 0 <= i < keys.len() ==> table.contains_key(#[trigger] keys[i])
            &&& forall|i: int, j: int|
                0 <= i < j < keys.len() ==> #[trigger] keys[i] != #[trigger] keys[j]
            &&& forall|k: usize| #[trigger] table.contains_key(k) ==> keys.contains(k)
        },
{
    if lists_table(walk, table) {
        assert forall|i: int| 0 <= i < walk.len() implies table.contains_key((#[trigger] walk[i]).0)
            && table[walk[i].0] == walk[i].1 by {
            assert(walk.contains(walk[i]));
        }
        assert forall|k: usize| #[trigger] table.contains_key(k) implies walk.contains(
            (k, table[k]),
        ) by {
            assert(walk.contains((k, table[k])));
        }
    }
    if lists_keys(keys, table) {
        assert forall|i: int| 0 <= i < keys.len() implies table.contains_key(
            #[trigger] keys[i],
        ) by {
            assert(keys.contains(keys[i]));
        }
    }
}

/// Where a greedy choice ends: at the first place that has only lesser Q-values
/// behind it. Every earlier place has one behind it that is not less. This holds
/// with NaNs, too.
pub proof fn law_greedy_choice_is_the_first_unbeaten(qs: Seq<Binary64>)
    requires
        qs.len() > 0,
    ensures
        0 <= greedy_position(qs) < qs.len(),
        forall|i: int|
            greedy_position(qs) < i < qs.len() ==> (#[trigger] qs[i]).lt(qs[greedy_position(qs)]),
        forall|h: int|
            0 <= h < greedy_position(qs) ==> exists|i: int|
                h < i < qs.len() && !(#[trigger] qs[i]).lt(#[trigger] qs[h]),
    decreases qs.len(),
{
    if qs.len() > 1 {
        let rest = qs.drop_last();
        let held = greedy_position(rest);
        let last = qs.len() - 1;
        law_greedy_choice_is_the_first_unbeaten(rest);
        assert forall|i: int| held < i < last implies (#[trigger] qs[i]).lt(qs[held]) by {
            assert(rest[i] == qs[i]);
        }
        assert forall|h: int| 0 <= h < greedy_position(qs) implies exists|i: int|
            h < i < qs.len() && !(#[trigger] qs[i]).lt(#[trigger] qs[h]) by {
            if h < held {
                assert(rest[h] == qs[h]);
                let i = choose|i: int|
                    h < i < rest.len() && !(#[trigger] rest[i]).lt(#[trigger] rest[h]);
                assert(qs[i] == rest[i]);
                assert(!qs[i].lt(qs[h]));
            } else {
                assert(!qs[last].lt(qs[h]));
            }
        }
    }
}

/// A draw at or above epsilon exploits, whatever the Q-values are: it selects
/// the entry at the first place that has only lesser Q-values behind it.
pub proof fn law_exploiting_selects_the_first_unbeaten(
    m: MetadataView,
    tuning: Tuning,
    indices: Seq<usize>,
    rand_val: Binary64,
)
    requires
        indices.len() > 0,
        !rand_val.lt(tuning.epsilon),
    ensures
        exists|g: int|
            {
                &&& 0 <= g < indices.len()
                &&& m.selected(tuning, indices, rand_val) == #[trigger] indices[g]
                &&& forall|i: int|
                    g < i < indices.len() ==> m.q(tuning, #[trigger] indices[i]).lt(
                        m.q(tuning, indices[g]),
                    )
                &&& forall|h: int|
                    0 <= h < g ==> exists|i: int|
                        h < i < indices.len() && !m.q(tuning, #[trigger] indices[i]).lt(
                            m.q(tuning, #[trigger] indices[h]),
                        )
            },
{
    let qs = m.qs(tuning, indices);
    let g = greedy_position(qs);
    law_greedy_choice_is_the_first_unbeaten(qs);
    assert(m.selected(tuning, indices, rand_val) == indices[g]);
    assert forall|i: int| g < i < indices.len() implies m.q(tuning, #[trigger] indices[i]).lt(
        m.q(tuning, indices[g]),
    ) by {
        assert(qs[i].lt(qs[g]));
    }
    assert forall|h: int| 0 <= h < g implies exists|i: int|
        h < i < indices.len() && !m.q(tuning, #[trigger] indices[i]).lt(
            m.q(tuning, #[trigger] indices[h]),
        ) by {
        let i = choose|i: int| h < i < qs.len() && !(#[trigger] qs[i]).lt(#[trigger] qs[h]);
        assert(!m.q(tuning, indices[i]).lt(m.q(tuning, indices[h])));
    }
}

/// Among the known entries an exploiting draw selects one whose Q-value no other
/// exceeds.
pub proof fn law_exploiting_selects_the_greatest_known(
    m: MetadataView,
    tuning: Tuning,
    keys: Seq<usize>,
    rand_val: Binary64,
)
    requires
        lists_keys(keys, m.q_table),
        keys.len() > 0,
        !rand_val.lt(tuning.epsilon),
        forall|k: usize| #[trigger] m.q_table.contains_key(k) ==> !m.q_table[k].is_nan(),
    ensures
        m.q_table.contains_key(m.selected(tuning, keys, rand_val)),
        forall|k: usize| #[trigger]
            m.q_table.contains_key(k) ==> m.q_table[k].le(
                m.q_table[m.selected(tuning, keys, rand_val)],
            ),
{
    assert forall|i: int| 0 <= i < keys.len() implies !m.q(tuning, #[trigger] keys[i]).is_nan() by {
        assert(keys.contains(keys[i]));
        assert(m.q_table.contains_key(keys[i]));
    }
    law_exploiting_selects_greatest(m, tuning, keys, rand_val);
    let r = m.selected(tuning, keys, rand_val);
    assert(keys.contains(r));
    assert forall|k: usize| #[trigger] m.q_table.contains_key(k) implies m.q_table[k].le(
        m.q_table[r],
    ) by {
        assert(keys.contains(k));
        let i = choose|i: int| 0 <= i < keys.len() && keys[i] == k;
        assert(m.q(tuning, keys[i]).le(m.q(tuning, r)));
    }
}

/// The positions of `walk` that come before position `p` in order of ascending
/// Q-value, equal ones in the order of `walk`.
pub open spec fn earlier(walk: Seq<(usize, Binary64)>, p: int) -> Set<int> {
    Set::new(
        |q: int|
            {
                &&& 0 <= q < walk.len()
                &&& {
                    ||| walk[q].1.rank() < walk[p].1.rank()
                    ||| walk[q].1.rank() == walk[p].1.rank() && q < p
                }
            },
    )
}

/// Which candidates are dropped: an entry is dropped exactly if fewer than
/// `prune_amt` entries come before it and it is no artifact, not the current
/// entry, and not above the threshold. The dropped ones stand in order. Artifacts
/// are the entries 0, 1 and 2. `from` says where in `walk` each of them was.
pub proof fn law_candidates_are_dropped_by_place(
    walk: Seq<(usize, Binary64)>,
    positions: Seq<usize>,
    tuning: Tuning,
    current: usize,
)
    requires
        lists_in_order(positions, walk, 0, walk.len() as int),
        walk.len() <= usize::MAX,
    ensures
        ({
            let dropped = prune_list(at_positions(walk, positions), tuning, current);
            exists|from: Seq<int>|
                {
                    &&& #[trigger] from.len() == dropped.len()
                    &&& forall|i: int|
                        0 <= i < from.len() ==> dropped[i] == walk[#[trigger] from[i]].0
                    &&& forall|i: int, j: int|
                        0 <= i < j < from.len() ==> earlier(walk, #[trigger] from[j]).contains(
                            #[trigger] from[i],
                        )
                    &&& forall|p: int| #[trigger]
                        from.contains(p) <==> {
                            &&& 0 <= p < walk.len()
                            &&& earlier(walk, p).len() < tuning.prune_amt
                            &&& walk[p].0 >= 3
                            &&& walk[p].0 != current
                            &&& walk[p].1.le(tuning.prune_q_threshold)
                        }
                }
        }),
{
    let order = at_positions(walk, positions);
    let dropped = prune_list(order, tuning, current);
    let seen = if order.len() <= tuning.prune_amt {
        order
    } else {
        order.take(tuning.prune_amt as int)
    };
    let places = lemma_dropped_places(seen, tuning, current);
    let from = Seq::new(places.len(), |i: int| positions[places[i]] as int);
    assert forall|i: int| 0 <= i < places.len() implies 0 <= #[trigger] places[i] < seen.len() by {
        assert(places.contains(places[i]));
    }
    assert forall|i: int| 0 <= i < positions.len() implies 0 <= #[trigger] positions[i]
        < walk.len() by {
        assert(positions.contains(positions[i]));
    }
    assert forall|i: int| 0 <= i < from.len() implies dropped[i] == walk[#[trigger] from[i]].0 by {
        assert(seen[places[i]] == order[places[i]]);
    }
    assert forall|i: int, j: int| 0 <= i < j < from.len() implies earlier(
        walk,
        #[trigger] from[j],
    ).contains(#[trigger] from[i]) by {
        assert(places[i] < places[j]);
        assert(comes_before(walk, positions[places[i]], positions[places[j]]));
    }
    assert forall|p: int| #[trigger] from.contains(p) <==> {
        &&& 0 <= p < walk.len()
        &&& earlier(walk, p).len() < tuning.prune_amt
        &&& walk[p].0 >= 3
        &&& walk[p].0 != current
        &&& walk[p].1.le(tuning.prune_q_threshold)
    } by {
        if from.contains(p) {
            let i = choose|i: int| 0 <= i < from.len() && from[i] == p;
            assert(places.contains(places[i]));
            lemma_place_counts_earlier(walk, positions, places[i]);
        }
        if 0 <= p < walk.len() && earlier(walk, p).len() < tuning.prune_amt && walk[p].0 >= 3
            && walk[p].0 != current && walk[p].1.le(tuning.prune_q_threshold) {
            assert(positions.contains(p as usize));
            let k = choose|k: int| 0 <= k < positions.len() && positions[k] == p as usize;
            lemma_place_counts_earlier(walk, positions, k);
            assert(seen[k] == order[k]);
            assert(places.contains(k));
            let i = choose|i: int| 0 <= i < places.len() && places[i] == k;
            assert(from[i] == p);
        }
    }
    assert(from.len() == dropped.len());
}

/// As many positions come before a position in order as its place says.
proof fn lemma_place_counts_earlier(
    walk: Seq<(usize, Binary64)>,
    positions: Seq<usize>,
    k: int,
)
    requires
        lists_in_order(positions, walk, 0, walk.len() as int),
        walk.len() <= usize::MAX,
        0 <= k < positions.len(),
    ensures
        earlier(walk, positions[k] as int).len() == k,
{
    let p: int = positions[k] as int;
    let front = Seq::new(k as nat, |i: int| positions[i] as int);
    assert forall|i: int, j: int| 0 <= i < j < k implies front[i] != front[j] by {
        assert(comes_before(walk, positions[i], positions[j]));
    }
    front.unique_seq_to_set();
    assert forall|q: int| earlier(walk, p).contains(q) <==> front.to_set().contains(q) by {
        if earlier(walk, p).contains(q) {
            assert(positions.contains(q as usize));
            let j = choose|j: int| 0 <= j < positions.len() && positions[j] == q as usize;
            if k < j {
                assert(comes_before(walk, positions[k], positions[j]));
            }
            assert(front[j] == q);
            assert(front.contains(q));
        }
        if front.contains(q) {
            let j = choose|j: int| 0 <= j < front.len() && front[j] == q;
            assert(positions.contains(positions[j]));
            assert(comes_before(walk, positions[j], positions[k]));
        }
    }
    assert(earlier(walk, p) =~= front.to_set());
}

/// The places in `entries` of what is dropped of them, ascending.
proof fn lemma_dropped_places(
    entries: Seq<(usize, Binary64)>,
    tuning: Tuning,
    current: usize,
) -> (places: Seq<int>)
    ensures
        places.len() == prunable_indices(entries, tuning, current).len(),
        forall|i: int|
            0 <= i < places.len() ==> prunable_indices(entries, tuning, current)[i]
                == entries[#[trigger] places[i]].0,
        forall|i: int, j: int|
            0 <= i < j < places.len() ==> #[trigger] places[i] < #[trigger] places[j],
        forall|p: int| #[trigger]
            places.contains(p) <==> {
                &&& 0 <= p < entries.len()
                &&& entries[p].0 >= 3
                &&& entries[p].0 != current
                &&& entries[p].1.le(tuning.prune_q_threshold)
            },
    decreases entries.len(),
{
    reveal(Seq::filter);
    let all = prunable_indices(entries, tuning, current);
    if entries.len() == 0 {
        Seq::empty()
    } else {
        let rest = entries.drop_last();
        let last = entries.last();
        let n = entries.len() - 1;
        let front = lemma_dropped_places(rest, tuning, current);
        assert forall|i: int| 0 <= i < front.len() implies 0 <= #[trigger] front[i] < n by {
            assert(front.contains(front[i]));
        }
        let places = if prunable(last, tuning, current) {
            assert(all =~= prunable_indices(rest, tuning, current).push(last.0));
            front.push(n)
        } else {
            assert(all =~= prunable_indices(rest, tuning, current));
            front
        };
        assert forall|p: int| #[trigger] places.contains(p) <==> {
            &&& 0 <= p < entries.len()
            &&& entries[p].0 >= 3
            &&& entries[p].0 != current
            &&& entries[p].1.le(tuning.prune_q_threshold)
        } by {
            assert(front.contains(p) ==> places.contains(p)) by {
                if front.contains(p) {
                    let i = choose|i: int| 0 <= i < front.len() && front[i] == p;
                    assert(places[i] == p);
                }
            }
            if prunable(last, tuning, current) {
                assert(places[front.len() as int] == n);
            }
            if places.contains(p) && p != n {
                let i = choose|i: int| 0 <= i < places.len() && places[i] == p;
                assert(front[i] == p);
            }
            if 0 <= p < n {
                assert(rest[p] == entries[p]);
            }
        }
        places
    }
}

} // verus!
