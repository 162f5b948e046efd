//! What holds of the scheduler as a whole.
use vstd::arithmetic::power2::lemma_pow2_pos;
use vstd::prelude::*;

use crate::arithmetic::{
    abs, lemma_minus_sign, lemma_plus_grows, lemma_plus_monotone, lemma_plus_monotone_right,
    lemma_plus_moves, lemma_times_monotone, lemma_times_sign, one_in_units,
};
use crate::binary64::{
    lemma_magnitude_monotone, lemma_max_absorbs, lemma_rank_orders_values, magnitude, Binary64,
};
use crate::metadata::{greedy_position, MetadataView};
use crate::pruning::{
    comes_before, lists_in_order, prunable, prunable_indices, prune_list, ARTIFACTS,
};
use crate::reward::RewardSignal;
use crate::rounding::lemma_nearest_exact;
use crate::scheduler::{draw_value, lists_ascending, StateView};
use crate::tuning::Tuning;
use crate::votes::{others, TreeEdit, VoteView};

verus! {

/// Whether `q` is a proper Q-value: a number that is not below 0.
pub open spec fn is_q_value(q: Binary64) -> bool {
    Binary64::zero().le(q)
}

/// Whether all Q-values of `m` are proper.
pub open spec fn has_q_values(m: MetadataView) -> bool {
    forall|k: usize| #[trigger] m.q_table.contains_key(k) ==> is_q_value(m.q_table[k])
}

/// Learning always ends at a proper Q-value, and never at a negative zero,
/// whatever the tuning, the reward and the values before.
pub proof fn law_learned_is_never_negative(
    tuning: Tuning,
    current: Binary64,
    reward: Binary64,
    best: Binary64,
)
    ensures
        is_q_value(tuning.learned(current, reward, best)),
        !tuning.learned(current, reward, best).is_negative(),
{
    let q = tuning.learned(current, reward, best);
    let step = tuning.spec_step(current, reward, best);
    assert(magnitude(0) == 0);
    if step.pattern() > 0 {
        lemma_magnitude_monotone(0, step.pattern() as int);
    }
}

/// No operation leaves an improper Q-value behind, as long as the initial one
/// is proper.
pub proof fn law_q_values_stay_proper(
    pre: StateView,
    post: StateView,
    dropped: Seq<usize>,
    tuning: Tuning,
    idx: usize,
    parent: usize,
    corpus_size: usize,
    reward: Binary64,
    log_gain: Binary64,
    indices: Seq<usize>,
    draw: u64,
)
    requires
        is_q_value(tuning.init_q),
        has_q_values(pre.metadata()),
    ensures
        has_q_values(pre.rewarded(tuning, idx, reward).metadata()),
        has_q_values(pre.reported(tuning, idx).metadata()),
        has_q_values(pre.without(idx).metadata()),
        pre.adds(post, dropped, tuning, idx, parent, corpus_size) ==> has_q_values(
            post.metadata(),
        ),
        has_q_values(pre.settled(tuning, log_gain).metadata()),
        has_q_values(pre.chosen(tuning, indices, draw).metadata()),
{
    let m = pre.metadata();
    law_learned_is_never_negative(tuning, m.q(tuning, idx), reward, m.max_q(tuning));
    law_learned_is_never_negative(
        tuning,
        m.q(tuning, idx),
        tuning.reward_cov_new.times(Binary64::from_integer(2)),
        m.max_q(tuning),
    );
    if let (Some(last), Some(signal)) = (m.last_selected, pre.signal) {
        law_learned_is_never_negative(
            tuning,
            m.q(tuning, last),
            signal.compute_reward(tuning, log_gain),
            m.max_q(tuning),
        );
    }
    if pre.adds(post, dropped, tuning, idx, parent, corpus_size) {
        law_leaving_removes_exactly(pre.joined(tuning, idx, parent), dropped);
    }
}

/// The elements of `s` that are not in `gone`, in their order.
pub open spec fn not_gone(s: Seq<usize>, gone: Seq<usize>) -> Seq<usize> {
    s.filter(|x: usize| !gone.contains(x))
}

/// When several entries leave, exactly they are gone from the table and from
/// the votes, and a selection of one of them is forgotten. Nothing else
/// changes: what stays keeps its Q-value, its votes and visits and its place in
/// the order of votes, and the totals stay.
pub proof fn law_leaving_removes_exactly(s: StateView, gone: Seq<usize>)
    ensures
        s.without_all(gone).rl is Some <==> s.rl is Some,
        s.without_all(gone).votes is Some <==> s.votes is Some,
        s.without_all(gone).signal == s.signal,
        forall|k: usize| #[trigger]
            s.without_all(gone).metadata().q_table.contains_key(k) <==> (
            s.metadata().q_table.contains_key(k) && !gone.contains(k)),
        forall|k: usize| #[trigger]
            s.without_all(gone).metadata().q_table.contains_key(k) ==> s.without_all(
                gone,
            ).metadata().q_table[k] == s.metadata().q_table[k],
        s.without_all(gone).metadata() == (MetadataView {
            q_table: s.without_all(gone).metadata().q_table,
            last_selected: s.without_all(gone).metadata().last_selected,
            ..s.metadata()
        }),
        s.without_all(gone).metadata().last_selected == (match s.metadata().last_selected {
            Some(last) if gone.contains(last) => None,
            other => other,
        }),
        forall|k: usize| #[trigger]
            s.without_all(gone).vote_data().votes_and_visits.contains_key(k) <==> (
            s.vote_data().votes_and_visits.contains_key(k) && !gone.contains(k)),
        forall|k: usize| #[trigger]
            s.without_all(gone).vote_data().votes_and_visits.contains_key(k) ==> s.without_all(
                gone,
            ).vote_data().votes_and_visits[k] == s.vote_data().votes_and_visits[k],
        s.without_all(gone).vote_data().sorted_votes == not_gone(
            s.vote_data().sorted_votes,
            gone,
        ),
        s.without_all(gone).vote_data() == (VoteView {
            votes_and_visits: s.without_all(gone).vote_data().votes_and_visits,
            sorted_votes: s.without_all(gone).vote_data().sorted_votes,
            ..s.vote_data()
        }),
    decreases gone.len(),
{
    let votes = s.vote_data().sorted_votes;
    if gone.len() == 0 {
        lemma_none_gone(votes, gone);
    } else {
        let rest = gone.drop_last();
        law_leaving_removes_exactly(s, rest);
        lemma_gone_in_turn(votes, gone);
        if s.votes is None {
            reveal(Seq::filter);
        }
        lemma_front_or_last(gone);
    }
}

/// What is in a list is in its front or is its last element.
proof fn lemma_front_or_last<A>(s: Seq<A>)
    requires
        s.len() > 0,
    ensures
        forall|x: A| #[trigger]
            s.contains(x) <==> s.drop_last().contains(x) || x == s.last(),
{
    let front = s.drop_last();
    assert forall|x: A| #[trigger] s.contains(x) <==> front.contains(x) || x == s.last() by {
        if s.contains(x) && x != s.last() {
            let i = choose|i: int| 0 <= i < s.len() && s[i] == x;
            assert(front[i] == x);
        }
        if front.contains(x) {
            let i = choose|i: int| 0 <= i < front.len() && front[i] == x;
            assert(s[i] == x);
        }
        assert(s[s.len() - 1] == s.last());
    }
}

/// Whether `ids` are indices of elements of `entries`, in their order: the
/// later of two stands at a later place.
spec fn is_subsequence(ids: Seq<usize>, entries: Seq<(usize, Binary64)>) -> bool {
    exists|places: Seq<int>| #[trigger] holds_places(places, ids, entries)
}

/// Whether `places` says where in `entries` each of `ids` stands, ascending.
spec fn holds_places(
    places: Seq<int>,
    ids: Seq<usize>,
    entries: Seq<(usize, Binary64)>,
) -> bool {
    &&& places.len() == ids.len()
    &&& forall|i: int|
        0 <= i < ids.len() ==> 0 <= #[trigger] places[i] < entries.len() && entries[places[i]].0
            == ids[i]
    &&& forall|i: int, j: int|
        0 <= i < j < ids.len() ==> #[trigger] places[i] < #[trigger] places[j]
}

/// The prunable indices of `entries` are those of its prunable elements, no
/// more than there are elements.
proof fn lemma_prunable_indices(entries: Seq<(usize, Binary64)>, tuning: Tuning, current: usize)
    ensures
        prunable_indices(entries, tuning, current).len() <= entries.len(),
        forall|x: usize| #[trigger]
            prunable_indices(entries, tuning, current).contains(x) <==> exists|e: (usize, Binary64)|
                #[trigger] entries.contains(e) && e.0 == x && prunable(e, tuning, current),
        is_subsequence(prunable_indices(entries, tuning, current), entries),
        (forall|i: int, j: int|
            0 <= i < j < entries.len() ==> (#[trigger] entries[i]).0 != (#[trigger] entries[j]).0)
            ==> prunable_indices(entries, tuning, current).no_duplicates(),
    decreases entries.len(),
{
    reveal(Seq::filter);
    let all = prunable_indices(entries, tuning, current);
    if entries.len() == 0 {
        assert(holds_places(Seq::empty(), all, entries));
    } else {
        let rest = entries.drop_last();
        let last = entries.last();
        let front = prunable_indices(rest, tuning, current);
        lemma_prunable_indices(rest, tuning, current);
        let places = choose|places: Seq<int>| #[trigger] holds_places(places, front, rest);
        if prunable(last, tuning, current) {
            assert(all =~= front.push(last.0));
            assert(all.drop_last() =~= front);
            lemma_front_or_last(all);
            assert(holds_places(places.push(entries.len() - 1), all, entries));
        } else {
            assert(all =~= front);
            assert(holds_places(places, all, entries));
        }
        lemma_front_or_last(entries);
        assert forall|x: usize| #[trigger] all.contains(x) <==> exists|e: (usize, Binary64)|
            #[trigger] entries.contains(e) && e.0 == x && prunable(e, tuning, current) by {
            if all.contains(x) {
                if front.contains(x) {
                    let e = choose|e: (usize, Binary64)| #[trigger]
                        rest.contains(e) && e.0 == x && prunable(e, tuning, current);
                    assert(entries.contains(e));
                } else {
                    assert(entries.contains(last));
                }
            }
            if exists|e: (usize, Binary64)| #[trigger]
                entries.contains(e) && e.0 == x && prunable(e, tuning, current) {
                let e = choose|e: (usize, Binary64)| #[trigger]
                    entries.contains(e) && e.0 == x && prunable(e, tuning, current);
                if e != last {
                    assert(rest.contains(e));
                    assert(front.contains(x));
                }
            }
        }
        if forall|i: int, j: int|
            0 <= i < j < entries.len() ==> (#[trigger] entries[i]).0 != (#[trigger] entries[j]).0 {
            assert forall|i: int, j: int|
                0 <= i < j < rest.len() implies (#[trigger] rest[i]).0
                != (#[trigger] rest[j]).0 by {
                assert(entries[i].0 != entries[j].0);
            }
            if prunable(last, tuning, current) {
                assert(!front.contains(last.0)) by {
                    if front.contains(last.0) {
                        let e = choose|e: (usize, Binary64)| #[trigger]
                            rest.contains(e) && e.0 == last.0 && prunable(e, tuning, current);
                        let i = choose|i: int| 0 <= i < rest.len() && rest[i] == e;
                        assert(entries[i].0 != entries[entries.len() - 1].0);
                    }
                }
                assert forall|i: int, j: int|
                    0 <= i < all.len() && 0 <= j < all.len() && i != j implies all[i] != all[j] by {
                    if i < front.len() && j < front.len() {
                        assert(front[i] != front[j]);
                    } else if i < front.len() {
                        assert(front[i] == all[i]);
                        assert(front.contains(all[i]));
                    } else {
                        assert(front[j] == all[j]);
                        assert(front.contains(all[j]));
                    }
                }
            }
        }
    }
}

/// What pruning drops: at most `prune_amt` entries, none of them twice, all of
/// them known, with a Q-value that does not exceed the threshold, neither an
/// artifact nor the current entry. Only the first `prune_amt` entries in order
/// are looked at, and a protected one among them uses up its place; but each
/// of them that is not protected is dropped. Low Q-values go first: nothing
/// unprotected stays that is lower than something dropped, and the list itself
/// ascends. Where the table is no longer than `prune_amt`, everything
/// unprotected is dropped.
pub proof fn law_pruning_protects(
    order: Seq<(usize, Binary64)>,
    table: Map<usize, Binary64>,
    tuning: Tuning,
    current: usize,
)
    requires
        lists_ascending(order, table),
    ensures
        prune_list(order, tuning, current).len() <= tuning.prune_amt,
        prune_list(order, tuning, current).no_duplicates(),
        forall|x: usize| #[trigger]
            prune_list(order, tuning, current).contains(x) ==> {
                &&& table.contains_key(x)
                &&& table[x].le(tuning.prune_q_threshold)
                &&& x >= ARTIFACTS
                &&& x != current
            },
        forall|i: int|
            0 <= i < order.len() && i < tuning.prune_amt && (#[trigger] order[i]).0 >= ARTIFACTS
                && order[i].0 != current && order[i].1.le(tuning.prune_q_threshold) ==> prune_list(
                order,
                tuning,
                current,
            ).contains(order[i].0),
        forall|i: int|
            0 <= i < order.len() ==> (prune_list(order, tuning, current).contains(
                (#[trigger] order[i]).0,
            ) <==> i < tuning.prune_amt && order[i].0 >= ARTIFACTS && order[i].0 != current
                && order[i].1.le(tuning.prune_q_threshold)),
        forall|x: usize, y: usize|
            prune_list(order, tuning, current).contains(x) && table.contains_key(y)
                && #[trigger] table[y].lt(#[trigger] table[x]) && y >= ARTIFACTS && y != current
                && table[y].le(tuning.prune_q_threshold) ==> prune_list(
                order,
                tuning,
                current,
            ).contains(y),
        forall|i: int, j: int|
            0 <= i < j < prune_list(order, tuning, current).len() ==> table[#[trigger] prune_list(
                order,
                tuning,
                current,
            )[i]].le(table[#[trigger] prune_list(order, tuning, current)[j]]),
        order.len() <= tuning.prune_amt ==> forall|y: usize| #[trigger]
            table.contains_key(y) && y >= ARTIFACTS && y != current && table[y].le(
                tuning.prune_q_threshold,
            ) ==> prune_list(order, tuning, current).contains(y),
{
    let seen = if order.len() <= tuning.prune_amt {
        order
    } else {
        order.take(tuning.prune_amt as int)
    };
    let dropped = prune_list(order, tuning, current);
    lemma_prunable_indices(seen, tuning, current);
    assert forall|i: int, j: int| 0 <= i < j < seen.len() implies (#[trigger] seen[i]).0 != (
    #[trigger] seen[j]).0 by {
        assert(order[i] == seen[i] && order[j] == seen[j]);
        assert(order.contains(order[i]) && order.contains(order[j]));
    }
    assert forall|x: usize| #[trigger] dropped.contains(x) implies table.contains_key(x)
        && table[x].le(tuning.prune_q_threshold) && x >= ARTIFACTS && x != current && seen.contains(
        (x, table[x]),
    ) by {
        let e = choose|e: (usize, Binary64)| #[trigger]
            seen.contains(e) && e.0 == x && prunable(e, tuning, current);
        let i = choose|i: int| 0 <= i < seen.len() && seen[i] == e;
        assert(order[i] == e);
        assert(order.contains(e));
    }
    assert forall|x: usize, y: usize|
        dropped.contains(x) && table.contains_key(y) && #[trigger] table[y].lt(#[trigger] table[x])
            && prunable((y, table[y]), tuning, current) implies dropped.contains(y) by {
        let ex = (x, table[x]);
        let ey = (y, table[y]);
        assert(seen.contains(ex));
        let i = choose|i: int| 0 <= i < seen.len() && seen[i] == ex;
        assert(order[i] == ex);
        assert(order.contains(ey));
        let j = choose|j: int| 0 <= j < order.len() && order[j] == ey;
        lemma_rank_orders_values(table[y], table[x]);
        if i < j {
            assert(order[i].1.rank() <= order[j].1.rank());
        }
        assert(seen[j] == ey);
        assert(seen.contains(ey));
    }
    let places = choose|places: Seq<int>| #[trigger] holds_places(places, dropped, seen);
    assert forall|i: int, j: int|
        0 <= i < j < dropped.len() implies table[#[trigger] dropped[i]].le(
        table[#[trigger] dropped[j]],
    ) by {
        let a = places[i];
        let b = places[j];
        assert(seen[a] == order[a] && seen[b] == order[b]);
        assert(order[a].1.rank() <= order[b].1.rank());
        assert(order.contains(order[a]) && order.contains(order[b]));
        assert(dropped.contains(dropped[i]) && dropped.contains(dropped[j]));
        lemma_rank_orders_values(table[dropped[i]], table[dropped[j]]);
    }
    assert forall|i: int| 0 <= i < order.len() implies (dropped.contains((#[trigger] order[i]).0)
        <==> i < tuning.prune_amt && prunable(order[i], tuning, current)) by {
        let e = order[i];
        assert(order.contains(e));
        if dropped.contains(e.0) {
            assert(seen.contains((e.0, table[e.0])));
            let j = choose|j: int| 0 <= j < seen.len() && seen[j] == (e.0, table[e.0]);
            assert(order[j] == e);
            assert(i == j);
            let d = choose|d: (usize, Binary64)| #[trigger]
                seen.contains(d) && d.0 == e.0 && prunable(d, tuning, current);
            let l = choose|l: int| 0 <= l < seen.len() && seen[l] == d;
            assert(order[l] == d && order.contains(d));
        }
        if i < tuning.prune_amt && prunable(e, tuning, current) {
            assert(seen[i] == e);
            assert(seen.contains(e));
        }
    }
    if order.len() <= tuning.prune_amt {
        assert forall|y: usize| #[trigger]
            table.contains_key(y)
                && prunable((y, table[y]), tuning, current) implies dropped.contains(y) by {
            assert(seen.contains((y, table[y])));
        }
    }
}

/// The order of a walk by ascending Q-value is unique: equal values keep their
/// places, so the walk alone decides what is pruned.
pub proof fn law_order_is_unique(
    walk: Seq<(usize, Binary64)>,
    p: Seq<usize>,
    q: Seq<usize>,
)
    requires
        lists_in_order(p, walk, 0, walk.len() as int),
        lists_in_order(q, walk, 0, walk.len() as int),
    ensures
        p == q,
{
    lemma_same_up_to(walk, p, q, walk.len() as int);
    assert(p =~= q);
}

/// Two ordered lists of the same positions agree on their first `n`.
proof fn lemma_same_up_to(walk: Seq<(usize, Binary64)>, p: Seq<usize>, q: Seq<usize>, n: int)
    requires
        lists_in_order(p, walk, 0, walk.len() as int),
        lists_in_order(q, walk, 0, walk.len() as int),
        0 <= n <= walk.len(),
    ensures
        forall|i: int| 0 <= i < n ==> p[i] == q[i],
    decreases n,
{
    if n > 0 {
        let i = n - 1;
        lemma_same_up_to(walk, p, q, i);
        assert(p.contains(p[i]));
        assert(q.contains(q[i]));
        assert(q.contains(p[i]));
        assert(p.contains(q[i]));
        let k = choose|k: int| 0 <= k < q.len() && q[k] == p[i];
        let l = choose|l: int| 0 <= l < p.len() && p[l] == q[i];
        if k < i {
            assert(comes_before(walk, p[k], p[i]));
        }
        if l < i {
            assert(comes_before(walk, q[l], q[i]));
        }
        if k > i && l > i {
            assert(comes_before(walk, q[i], q[k]));
            assert(comes_before(walk, p[i], p[l]));
        }
    }
}

/// What adding an entry does. The entry itself is known afterwards, with the
/// Q-value that it had, or the initial one. All other entries keep their
/// Q-values, but for those that are dropped; nothing is dropped up to the
/// threshold, and nothing protected ever is. What was dropped and had been
/// selected last is no longer waiting for a reward. The derivation is recorded
/// where derivations are traced, the dropped entries lose their votes, and
/// nothing else changes.
pub proof fn law_adding_keeps_what_matters(
    pre: StateView,
    post: StateView,
    dropped: Seq<usize>,
    tuning: Tuning,
    idx: usize,
    parent: usize,
    corpus_size: usize,
)
    requires
        pre.adds(post, dropped, tuning, idx, parent, corpus_size),
    ensures
        post.metadata().q_table.contains_key(idx),
        pre.metadata().q_table.contains_key(idx) ==> post.metadata().q_table[idx]
            == pre.metadata().q_table[idx],
        !pre.metadata().q_table.contains_key(idx) ==> post.metadata().q_table[idx]
            == tuning.init_q,
        corpus_size <= tuning.drop_threshold ==> dropped.len() == 0,
        dropped.len() <= tuning.prune_amt,
        dropped.no_duplicates(),
        forall|x: usize| #[trigger]
            dropped.contains(x) ==> {
                &&& pre.metadata().q_table.contains_key(x)
                &&& pre.metadata().q_table[x].le(tuning.prune_q_threshold)
                &&& x >= ARTIFACTS
                &&& x != idx
            },
        forall|k: usize| #[trigger]
            post.metadata().q_table.contains_key(k) <==> k == idx || (
            pre.metadata().q_table.contains_key(k) && !dropped.contains(k)),
        forall|k: usize|
            k != idx && #[trigger] post.metadata().q_table.contains_key(k)
                ==> post.metadata().q_table[k] == pre.metadata().q_table[k],
        post.metadata().last_selected == (match pre.metadata().last_selected {
            Some(last) if dropped.contains(last) => None,
            other => other,
        }),
        post.metadata().to_remove == if corpus_size > tuning.drop_threshold {
            dropped
        } else {
            pre.metadata().to_remove
        },
        post.metadata().deps == if tuning.full_trace {
            pre.metadata().deps.push(TreeEdit::AddNode { idx, parent })
        } else {
            pre.metadata().deps
        },
        post.metadata().total_reward == pre.metadata().total_reward,
        post.metadata().exploit_count == pre.metadata().exploit_count,
        post.metadata().explore_count == pre.metadata().explore_count,
        post.rl is Some,
        post.votes is Some,
        forall|k: usize| #[trigger]
            post.vote_data().votes_and_visits.contains_key(k) <==> (
            pre.vote_data().votes_and_visits.contains_key(k) && !dropped.contains(k)),
        forall|k: usize| #[trigger]
            post.vote_data().votes_and_visits.contains_key(k)
                ==> post.vote_data().votes_and_visits[k] == pre.vote_data().votes_and_visits[k],
        post.vote_data() == (VoteView {
            votes_and_visits: post.vote_data().votes_and_visits,
            sorted_votes: not_gone(pre.vote_data().sorted_votes, dropped),
            ..pre.vote_data()
        }),
        post.signal == pre.signal,
{
    let with_entry = pre.joined(tuning, idx, parent);
    let table = with_entry.metadata().q_table;
    if corpus_size > tuning.drop_threshold {
        let order = choose|order: Seq<(usize, Binary64)>|
            {
                &&& #[trigger] lists_ascending(order, table)
                &&& dropped == prune_list(order, tuning, idx)
            };
        law_pruning_protects(order, table, tuning, idx);
        law_leaving_removes_exactly(with_entry, dropped);
        assert(!dropped.contains(idx));
        assert(with_entry.without_all(dropped).metadata().q_table.contains_key(idx));
    } else {
        lemma_none_gone(pre.vote_data().sorted_votes, dropped);
    }
}

/// A full corpus is pruned: some order of the table by ascending Q-value, with
/// the new entry in it, has exactly those entries dropped that stand among its
/// first `prune_amt` and are neither an artifact nor the new entry nor above
/// the threshold. The list of them ascends.
pub proof fn law_full_corpus_is_pruned(
    pre: StateView,
    post: StateView,
    dropped: Seq<usize>,
    tuning: Tuning,
    idx: usize,
    parent: usize,
    corpus_size: usize,
)
    requires
        pre.adds(post, dropped, tuning, idx, parent, corpus_size),
        corpus_size > tuning.drop_threshold,
    ensures
        forall|i: int, j: int|
            0 <= i < j < dropped.len() ==> pre.metadata().q_table[#[trigger] dropped[i]].le(
                pre.metadata().q_table[#[trigger] dropped[j]],
            ),
        exists|order: Seq<(usize, Binary64)>|
            {
                &&& #[trigger] order.no_duplicates()
                &&& forall|e: (usize, Binary64)| #[trigger]
                    order.contains(e) <==> if e.0 == idx {
                        e.1 == pre.metadata().q(tuning, idx)
                    } else {
                        pre.metadata().q_table.contains_key(e.0) && pre.metadata().q_table[e.0]
                            == e.1
                    }
                &&& forall|i: int, j: int|
                    0 <= i < j < order.len() ==> (#[trigger] order[i]).1.le(
                        (#[trigger] order[j]).1,
                    ) || order[j].1.is_nan()
                &&& forall|i: int|
                    0 <= i < order.len() ==> (dropped.contains((#[trigger] order[i]).0) <==> {
                        &&& i < tuning.prune_amt
                        &&& order[i].0 >= ARTIFACTS
                        &&& order[i].0 != idx
                        &&& order[i].1.le(tuning.prune_q_threshold)
                    })
            },
{
    let table = pre.joined(tuning, idx, parent).metadata().q_table;
    let order = choose|order: Seq<(usize, Binary64)>|
        {
            &&& #[trigger] lists_ascending(order, table)
            &&& dropped == prune_list(order, tuning, idx)
        };
    law_pruning_protects(order, table, tuning, idx);
    assert forall|i: int, j: int| 0 <= i < j < order.len() implies (#[trigger] order[i]).1.le(
        (#[trigger] order[j]).1,
    ) || order[j].1.is_nan() by {
        let a = order[i].1;
        let b = order[j].1;
        assert(a.rank() <= b.rank());
        if !a.is_nan() && !b.is_nan() {
            lemma_rank_orders_values(a, b);
        }
    }
    assert forall|i: int| 0 <= i < order.len() implies (dropped.contains((#[trigger] order[i]).0)
        <==> {
        &&& i < tuning.prune_amt
        &&& order[i].0 >= ARTIFACTS
        &&& order[i].0 != idx
        &&& order[i].1.le(tuning.prune_q_threshold)
    }) by {
        assert(order.contains(order[i]));
    }
    assert forall|i: int, j: int|
        0 <= i < j < dropped.len() implies pre.metadata().q_table[#[trigger] dropped[i]].le(
        pre.metadata().q_table[#[trigger] dropped[j]],
    ) by {
        assert(dropped.contains(dropped[i]) && dropped.contains(dropped[j]));
        assert(table[dropped[i]].le(table[dropped[j]]));
    }
    assert(order.no_duplicates());
}

/// A greedy choice without NaNs ends at a greatest Q-value, and at the last of
/// them.
pub proof fn law_greedy_choice_is_greatest(qs: Seq<Binary64>)
    requires
        qs.len() > 0,
        forall|i: int| 0 <= i < qs.len() ==> !(#[trigger] qs[i]).is_nan(),
    ensures
        0 <= greedy_position(qs) < qs.len(),
        forall|i: int| 0 <= i < qs.len() ==> (#[trigger] qs[i]).le(qs[greedy_position(qs)]),
        forall|i: int|
            greedy_position(qs) < i < qs.len() ==> (#[trigger] qs[i]).lt(qs[greedy_position(qs)]),
    decreases qs.len(),
{
    if qs.len() > 1 {
        let rest = qs.drop_last();
        assert forall|i: int| 0 <= i < rest.len() implies !(#[trigger] rest[i]).is_nan() by {
            assert(rest[i] == qs[i]);
        }
        law_greedy_choice_is_greatest(rest);
        assert forall|i: int| 0 <= i < rest.len() implies (#[trigger] qs[i]).le(
            qs[greedy_position(rest)],
        ) by {
            assert(rest[i] == qs[i]);
        }
        assert forall|i: int| greedy_position(rest) < i < rest.len() implies (#[trigger] qs[i]).lt(
            qs[greedy_position(rest)],
        ) by {
            assert(rest[i] == qs[i]);
        }
    }
}

/// An exploiting selection returns one of the entries with the greatest
/// Q-value.
pub proof fn law_exploiting_selects_greatest(
    m: MetadataView,
    tuning: Tuning,
    indices: Seq<usize>,
    rand_val: Binary64,
)
    requires
        indices.len() > 0,
        forall|i: int| 0 <= i < indices.len() ==> !m.q(tuning, #[trigger] indices[i]).is_nan(),
        !rand_val.lt(tuning.epsilon),
    ensures
        indices.contains(m.selected(tuning, indices, rand_val)),
        forall|i: int|
            0 <= i < indices.len() ==> m.q(tuning, #[trigger] indices[i]).le(
                m.q(tuning, m.selected(tuning, indices, rand_val)),
            ),
{
    let qs = m.qs(tuning, indices);
    assert forall|i: int| 0 <= i < qs.len() implies !(#[trigger] qs[i]).is_nan() by {
        assert(!m.q(tuning, indices[i]).is_nan());
    }
    law_greedy_choice_is_greatest(qs);
    assert(indices.contains(indices[greedy_position(qs)]));
    assert forall|i: int| 0 <= i < indices.len() implies m.q(tuning, #[trigger] indices[i]).le(
        m.q(tuning, m.selected(tuning, indices, rand_val)),
    ) by {
        assert(qs[i].le(qs[greedy_position(qs)]));
    }
}

/// A selection counts once, either as exploring or as exploiting, and changes
/// nothing else that was learned.
pub proof fn law_selection_counts_once(m: MetadataView, tuning: Tuning, rand_val: Binary64)
    requires
        m.can_count(tuning, rand_val),
    ensures
        m.counted(tuning, rand_val).explore_count + m.counted(tuning, rand_val).exploit_count
            == m.explore_count + m.exploit_count + 1,
        m.counted(tuning, rand_val).explore_count == m.explore_count + 1 <==> rand_val.lt(
            tuning.epsilon,
        ),
        m.counted(tuning, rand_val).q_table == m.q_table,
        m.counted(tuning, rand_val).total_reward == m.total_reward,
{
}

/// A removed entry is gone: it is not known, the next reward does not bring it
/// back, and removing it once more changes nothing. Other entries keep their
/// Q-values.
pub proof fn law_removed_entry_stays_away(
    s: StateView,
    tuning: Tuning,
    idx: usize,
    log_gain: Binary64,
)
    ensures
        !s.without(idx).metadata().q_table.contains_key(idx),
        s.without(idx).metadata().last_selected != Some(idx),
        !s.without(idx).settled(tuning, log_gain).metadata().q_table.contains_key(idx),
        s.without(idx).without(idx) == s.without(idx),
        forall|k: usize|
            k != idx ==> (#[trigger] s.without(idx).metadata().q_table.contains_key(k)
                <==> s.metadata().q_table.contains_key(k)),
        forall|k: usize| #[trigger]
            s.without(idx).metadata().q_table.contains_key(k) ==> s.without(
                idx,
            ).metadata().q_table[k] == s.metadata().q_table[k],
        s.without(idx).votes is Some ==> !s.without(idx).vote_data().sorted_votes.contains(idx)
            && !s.without(idx).vote_data().votes_and_visits.contains_key(idx),
{
    let once = s.without(idx);
    let twice = once.without(idx);
    match s.rl {
        Some(m) => {
            assert(once.metadata().without(idx).q_table =~= once.metadata().q_table);
        },
        None => {},
    }
    match s.votes {
        Some(v) => {
            lemma_others(v.sorted_votes, idx);
            lemma_others_again(v.sorted_votes, idx);
            assert(twice.vote_data().votes_and_visits =~= once.vote_data().votes_and_visits);
        },
        None => {},
    }
}

/// The others are all elements but `idx`.
proof fn lemma_others(s: Seq<usize>, idx: usize)
    ensures
        forall|x: usize| #[trigger] others(s, idx).contains(x) <==> s.contains(x) && x != idx,
    decreases s.len(),
{
    reveal(Seq::filter);
    if s.len() > 0 {
        let rest = s.drop_last();
        let front = others(rest, idx);
        let all = others(s, idx);
        lemma_others(rest, idx);
        lemma_front_or_last(s);
        if s.last() != idx {
            assert(all =~= front.push(s.last()));
            assert(all.drop_last() =~= front);
            lemma_front_or_last(all);
        }
    }
}

/// Where nothing is gone, everything stays.
proof fn lemma_none_gone(s: Seq<usize>, gone: Seq<usize>)
    requires
        gone.len() == 0,
    ensures
        not_gone(s, gone) == s,
    decreases s.len(),
{
    reveal(Seq::filter);
    if s.len() > 0 {
        lemma_none_gone(s.drop_last(), gone);
        assert(not_gone(s, gone) =~= s);
    }
}

/// Taking the last of `gone` out of what the rest left is taking all out.
proof fn lemma_gone_in_turn(s: Seq<usize>, gone: Seq<usize>)
    requires
        gone.len() > 0,
    ensures
        others(not_gone(s, gone.drop_last()), gone.last()) == not_gone(s, gone),
    decreases s.len(),
{
    reveal(Seq::filter);
    if s.len() > 0 {
        let x = s.last();
        let rest = gone.drop_last();
        let front = not_gone(s.drop_last(), rest);
        lemma_gone_in_turn(s.drop_last(), gone);
        lemma_front_or_last(gone);
        if !rest.contains(x) {
            assert(not_gone(s, rest) =~= front.push(x));
            assert(front.push(x).drop_last() =~= front);
        }
    }
}

/// Taking `idx` out once more changes nothing.
proof fn lemma_others_again(s: Seq<usize>, idx: usize)
    ensures
        others(others(s, idx), idx) == others(s, idx),
    decreases s.len(),
{
    reveal(Seq::filter);
    if s.len() > 0 {
        let front = others(s.drop_last(), idx);
        lemma_others_again(s.drop_last(), idx);
        if s.last() != idx {
            assert(others(s, idx) =~= front.push(s.last()));
            assert(front.push(s.last()).drop_last() =~= front);
            assert(others(front.push(s.last()), idx) =~= others(front, idx).push(s.last()));
        }
    }
}

/// A reward reaches the entry that was selected last, and no other: that entry
/// learns from it, all others keep their Q-values.
pub proof fn law_reward_reaches_last_selected(
    s: StateView,
    tuning: Tuning,
    indices: Seq<usize>,
    draw: u64,
    signal: RewardSignal,
    log_gain: Binary64,
)
    ensures
        ({
            let selected = s.metadata().selected(tuning, indices, draw_value(draw));
            let executed = StateView { signal: Some(signal), ..s.chosen(tuning, indices, draw) };
            let m = executed.metadata();
            let after = executed.settled(tuning, log_gain).metadata();
            let reward = signal.compute_reward(tuning, log_gain);
            &&& after.q_table == m.q_table.insert(
                selected,
                tuning.learned(m.q(tuning, selected), reward, m.max_q(tuning)),
            )
            &&& after.total_reward == m.total_reward.plus(reward)
            &&& m.q_table == s.metadata().q_table
        }),
{
}

/// There is nothing to select exactly if no entry is known and none is waiting
/// for a reward that has come in.
pub proof fn law_nothing_to_select(s: StateView, tuning: Tuning, log_gain: Binary64)
    ensures
        s.settled(tuning, log_gain).metadata().q_table == Map::<usize, Binary64>::empty() <==> {
            &&& s.metadata().q_table == Map::<usize, Binary64>::empty()
            &&& s.metadata().last_selected is None || s.signal is None
        },
{
    if let (Some(last), Some(signal)) = (s.metadata().last_selected, s.signal) {
        assert(s.settled(tuning, log_gain).metadata().q_table.contains_key(last));
    }
}

/// Whether `r` is the greatest value of `table`, or the NaN of arithmetic
/// where there is no number in it.
spec fn tops(table: Map<usize, Binary64>, r: Binary64) -> bool {
    &&& r.max(r) == r
    &&& r == Binary64::nan() || exists|k: usize| #[trigger] table.contains_key(k) && table[k] == r
    &&& forall|k: usize| #[trigger] table.contains_key(k) ==> r.max(table[k]) == r
}

/// Every finite table has a greatest value.
proof fn lemma_tops_exists(table: Map<usize, Binary64>)
    requires
        table.dom().finite(),
    ensures
        exists|r: Binary64| tops(table, r),
    decreases table.dom().len(),
{
    if table.dom().is_empty() {
        assert forall|k: usize| !table.contains_key(k) by {
            assert(!table.dom().contains(k));
        }
        assert(tops(table, Binary64::nan()));
    } else {
        let key = table.dom().choose();
        let rest = table.remove(key);
        assert(table.contains_key(key));
        assert(rest.dom() =~= table.dom().remove(key));
        lemma_tops_exists(rest);
        let best = choose|r: Binary64| tops(rest, r);
        let v = table[key];
        let r = best.max(v);
        lemma_max_absorbs(best, v, v);
        if best != Binary64::nan() {
            let k = choose|k: usize| #[trigger] rest.contains_key(k) && rest[k] == best;
            assert(table.contains_key(k) && table[k] == best);
        }
        assert forall|k: usize| #[trigger] table.contains_key(k) implies r.max(table[k]) == r by {
            if k != key {
                assert(rest.contains_key(k));
            }
            lemma_max_absorbs(best, v, table[k]);
        }
        assert(tops(table, r));
    }
}

/// There is always a greatest Q-value.
proof fn lemma_max_q_exists(m: MetadataView, tuning: Tuning)
    requires
        m.q_table.dom().finite(),
    ensures
        m.is_max_q(tuning, m.max_q(tuning)),
{
    if m.has_number() {
        lemma_tops_exists(m.q_table);
        let r = choose|r: Binary64| tops(m.q_table, r);
        assert(m.is_max_q(tuning, r));
    } else {
        assert(m.is_max_q(tuning, tuning.init_q));
    }
}

/// The greatest Q-value is that of some entry and no less than any that is a
/// number; where none is a number, it is the initial one.
pub proof fn law_max_q_is_greatest(m: MetadataView, tuning: Tuning)
    requires
        m.q_table.dom().finite(),
    ensures
        m.has_number() ==> exists|k: usize| #[trigger]
            m.q_table.contains_key(k) && m.q_table[k] == m.max_q(tuning),
        forall|k: usize| #[trigger]
            m.q_table.contains_key(k) && !m.q_table[k].is_nan() ==> m.q_table[k].le(
                m.max_q(tuning),
            ),
        !m.has_number() ==> m.max_q(tuning) == tuning.init_q,
        m.q_table == Map::<usize, Binary64>::empty() ==> m.max_q(tuning) == tuning.init_q,
{
    lemma_max_q_exists(m, tuning);
}

/// Whether a step from `current` toward `target` cannot be lost to a NaN: there
/// is nothing above 0 to lose, or it multiplies no 0 with an infinity and adds to
/// something finite.
pub open spec fn steps_safely(tuning: Tuning, current: Binary64, target: Binary64) -> bool {
    ||| current.le(Binary64::zero())
    ||| {
        &&& current.is_finite()
        &&& tuning.alpha.is_finite() || target.minus(current).pattern() > 0
        &&& tuning.alpha.pattern() > 0 || target.minus(current).is_finite()
    }
}

/// A reward that promises more than the present Q-value never lowers it, and
/// one that promises less never raises it, except that what is negative becomes
/// 0. What a reward promises is `reward + gamma * best`.
pub proof fn law_learning_moves_toward_target(
    tuning: Tuning,
    current: Binary64,
    reward: Binary64,
    best: Binary64,
)
    requires
        Binary64::zero().le(tuning.alpha),
    ensures
        ({
            let target = reward.plus(tuning.gamma.times(best));
            let learned = tuning.learned(current, reward, best);
            &&& current.le(target) && steps_safely(tuning, current, target) ==> current.le(learned)
            &&& target.le(current) ==> learned.le(current.max(Binary64::zero()))
        }),
{
    let target = reward.plus(tuning.gamma.times(best));
    let gap = target.minus(current);
    let change = tuning.alpha.times(gap);
    assert(magnitude(0) == 0);
    law_learned_is_never_negative(tuning, current, reward, best);
    if current.is_finite() && !target.is_nan() {
        lemma_minus_sign(target, current);
        if (tuning.alpha.is_finite() || gap.pattern() > 0) && (tuning.alpha.pattern() > 0
            || gap.is_finite()) {
            lemma_times_sign(tuning.alpha, gap);
            lemma_plus_moves(current, change);
        }
    }
}

/// Without a discount, learning is `current + alpha * (reward - current)`,
/// the rule of a bandit without successor states.
pub proof fn law_learning_without_discount(
    tuning: Tuning,
    current: Binary64,
    reward: Binary64,
    best: Binary64,
)
    requires
        tuning.gamma.pattern() == 0,
        best.is_finite(),
    ensures
        tuning.learned(current, reward, best) == current.plus(
            tuning.alpha.times(reward.minus(current)),
        ).max(Binary64::zero()),
{
    let nothing = tuning.gamma.times(best);
    let target = reward.plus(nothing);
    assert(magnitude(0) == 0);
    lemma_pow2_pos(1074);
    assert(abs(tuning.gamma.value()) * abs(best.value()) == 0) by (nonlinear_arith)
        requires
            abs(tuning.gamma.value()) == 0,
    ;
    assert(0 * one_in_units() == 0);
    lemma_nearest_exact(0, 0, one_in_units());
    assert(nothing.pattern() == 0);
    if reward.is_finite() && reward.pattern() > 0 {
        let n: int = reward.pattern() as int;
        lemma_magnitude_monotone(0, n);
        lemma_nearest_exact(n, magnitude(n), 1);
        assert(target == reward);
    } else if reward.is_finite() {
        assert(target.pattern() == 0);
        if current.is_finite() && current.pattern() == 0 {
            // Only the signs of zeros can differ, and the result is 0 anyway.
            lemma_zero_gap(tuning.alpha, target, current);
            lemma_zero_gap(tuning.alpha, reward, current);
        } else if !current.is_nan() {
            lemma_magnitude_monotone(0, current.pattern() as int);
            assert(target.minus(current) == reward.minus(current));
        }
    }
}

/// Learning from zero to zero stays at zero, whatever the signs.
proof fn lemma_zero_gap(alpha: Binary64, target: Binary64, current: Binary64)
    requires
        target.pattern() == 0,
        current.pattern() == 0,
    ensures
        current.plus(alpha.times(target.minus(current))).max(Binary64::zero()) == Binary64::zero(),
{
    let gap = target.minus(current);
    assert(magnitude(0) == 0);
    assert(gap.pattern() == 0);
    lemma_pow2_pos(1074);
    if alpha.is_finite() {
        assert(abs(alpha.value()) * abs(gap.value()) == 0) by (nonlinear_arith)
            requires
                abs(gap.value()) == 0,
        ;
        assert(0 * one_in_units() == 0);
        lemma_nearest_exact(0, 0, one_in_units());
    }
}

/// A report boosts: an entry whose Q-value does not exceed what the report
/// promises has no lesser one afterwards, and no other entry changes.
pub proof fn law_report_boosts(s: StateView, tuning: Tuning, idx: usize)
    requires
        ({
            let q = s.metadata().q(tuning, idx);
            let promised = tuning.reward_cov_new.times(Binary64::from_integer(2)).plus(
                tuning.gamma.times(s.metadata().max_q(tuning)),
            );
            &&& Binary64::zero().le(tuning.alpha)
            &&& q.le(promised)
            &&& steps_safely(tuning, q, promised)
        }),
    ensures
        s.metadata().q(tuning, idx).le(s.reported(tuning, idx).metadata().q(tuning, idx)),
        forall|k: usize|
            k != idx ==> #[trigger] s.reported(tuning, idx).metadata().q(tuning, k)
                == s.metadata().q(tuning, k),
{
    law_learning_moves_toward_target(
        tuning,
        s.metadata().q(tuning, idx),
        tuning.reward_cov_new.times(Binary64::from_integer(2)),
        s.metadata().max_q(tuning),
    );
}

/// More progress toward a branch never earns less: of two signals with the same
/// flags, the one with the greater improvement has no lesser reward, and as
/// long as there is no improvement its size does not matter. Of the weight of
/// an improvement and of the logarithms it is only asked that, where they count,
/// they are not negative, and the logarithms in order.
pub proof fn law_more_improvement_earns_no_less(
    tuning: Tuning,
    a: RewardSignal,
    b: RewardSignal,
    log_a: Binary64,
    log_b: Binary64,
)
    requires
        a.new_coverage == b.new_coverage,
        a.bug_found == b.bug_found,
        a.cmp_improvement.le(b.cmp_improvement),
        Binary64::zero().lt(b.cmp_improvement) ==> Binary64::zero().le(tuning.reward_cmp_improve)
            && Binary64::zero().le(log_b),
        Binary64::zero().lt(a.cmp_improvement) ==> Binary64::zero().le(log_a) && log_a.le(log_b),
        !a.compute_reward(tuning, log_a).is_nan(),
        !b.compute_reward(tuning, log_b).is_nan(),
    ensures
        a.compute_reward(tuning, log_a).le(b.compute_reward(tuning, log_b)),
        b.cmp_improvement.le(Binary64::zero()) ==> a.compute_reward(tuning, log_a)
            == b.compute_reward(tuning, log_b),
{
    let base = tuning.reward_step;
    let with_bug = if a.bug_found {
        base.plus(tuning.reward_bug_found)
    } else {
        base
    };
    let gain_a = tuning.reward_cmp_improve.times(log_a);
    let gain_b = tuning.reward_cmp_improve.times(log_b);
    let far_a = if Binary64::zero().lt(a.cmp_improvement) {
        with_bug.plus(gain_a)
    } else {
        with_bug
    };
    let far_b = if Binary64::zero().lt(b.cmp_improvement) {
        with_bug.plus(gain_b)
    } else {
        with_bug
    };
    assert(magnitude(0) == 0);
    assert(far_a.le(far_b)) by {
        if Binary64::zero().lt(a.cmp_improvement) {
            lemma_times_monotone(tuning.reward_cmp_improve, log_a, log_b);
            lemma_plus_monotone_right(with_bug, gain_a, gain_b);
        } else if Binary64::zero().lt(b.cmp_improvement) {
            lemma_times_monotone(tuning.reward_cmp_improve, log_b, log_b);
            lemma_plus_grows(with_bug, gain_b);
        }
    }
    if a.new_coverage {
        lemma_plus_monotone(far_a, far_b, tuning.reward_cov_new);
    }
}

} // verus!
