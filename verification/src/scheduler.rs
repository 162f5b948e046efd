//! The scheduler: when entries join and leave, what they learn, and which one
//! is executed next.
use core::marker::PhantomData;
use vstd::prelude::*;

use crate::binary64::Binary64;
use crate::metadata::{lists_keys, lists_table, MetadataView, RLMetadata};
use crate::pruning::{at_positions, comes_before, lists_in_order, prune_candidates, prune_list};
use crate::reward::RewardSignal;
use crate::tuning::Tuning;
use crate::votes::{TreeEdit, VoteData, VoteView};

verus! {

/// Number of outcomes of the draw that decides a selection.
pub const DRAW_BOUND: u64 = 10000;

/// The number in [0, 1) that a draw below [`DRAW_BOUND`] stands for.
pub open spec fn spec_draw_value(draw: u64) -> Binary64 {
    Binary64::from_integer(draw).over(Binary64::from_integer(DRAW_BOUND))
}

/// The number in [0, 1) that a draw below [`DRAW_BOUND`] stands for.
#[verifier::when_used_as_spec(spec_draw_value)]
pub fn draw_value(draw: u64) -> (r: Binary64)
    ensures
        r == spec_draw_value(draw),
{
    Binary64::from_integer(draw).over(Binary64::from_integer(DRAW_BOUND))
}

/// Whether `order` lists `table` by ascending Q-value. Equal values may stand
/// either way round.
pub open spec fn lists_ascending(
    order: Seq<(usize, Binary64)>,
    table: Map<usize, Binary64>,
) -> bool {
    &&& lists_table(order, table)
    &&& forall|i: int, j: int|
        0 <= i < j < order.len()
            ==> (#[trigger] order[i]).1.rank() <= (#[trigger] order[j]).1.rank()
}

/// What [`SchedulerState`] holds.
#[verifier::ext_equal]
pub struct StateView {
    pub rl: Option<MetadataView>,
    pub votes: Option<VoteView>,
    pub signal: Option<RewardSignal>,
}

impl StateView {
    /// The learning state, fresh where there is none yet.
    pub open spec fn metadata(self) -> MetadataView {
        match self.rl {
            Some(m) => m,
            None => MetadataView::fresh(),
        }
    }

    /// The vote data, initial where there is none yet.
    pub open spec fn vote_data(self) -> VoteView {
        match self.votes {
            Some(v) => v,
            None => VoteView::initial(),
        }
    }

    /// The state with `m` for its learning state.
    pub open spec fn with_metadata(self, m: MetadataView) -> Self {
        StateView { rl: Some(m), ..self }
    }

    /// The state after `idx` earned `reward`.
    pub open spec fn rewarded(self, tuning: Tuning, idx: usize, reward: Binary64) -> Self {
        self.with_metadata(self.metadata().update_q(tuning, idx, reward))
    }

    /// The state after `idx` was reported as interesting: it earns twice the
    /// reward for new coverage and, where derivations are traced, is kept.
    pub open spec fn reported(self, tuning: Tuning, idx: usize) -> Self {
        let m = self.metadata().update_q(
            tuning,
            idx,
            tuning.reward_cov_new.times(Binary64::from_integer(2)),
        );
        self.with_metadata(
            MetadataView {
                deps: if tuning.full_trace {
                    m.deps.push(TreeEdit::NeverDelete { idx })
                } else {
                    m.deps
                },
                ..m
            },
        )
    }

    /// The state after `idx`, derived from `parent`, joined.
    pub open spec fn joined(self, tuning: Tuning, idx: usize, parent: usize) -> Self {
        StateView {
            rl: Some(self.metadata().joined(tuning, idx, parent)),
            votes: Some(self.vote_data()),
            ..self
        }
    }

    /// The state after `idx` left.
    pub open spec fn without(self, idx: usize) -> Self {
        StateView {
            rl: match self.rl {
                Some(m) => Some(m.without(idx)),
                None => None,
            },
            votes: match self.votes {
                Some(v) => Some(v.without(idx)),
                None => None,
            },
            ..self
        }
    }

    /// The state after all of `gone` left, in their order.
    pub open spec fn without_all(self, gone: Seq<usize>) -> Self
        decreases gone.len(),
    {
        if gone.len() == 0 {
            self
        } else {
            self.without_all(gone.drop_last()).without(gone.last())
        }
    }

    /// Whether adding `idx` turns this state into `post` and drops `dropped`.
    /// Up to the threshold the entry only joins. Above it, the prunable ones
    /// among the lowest Q-values leave, and the list of them is kept.
    pub open spec fn adds(
        self,
        post: Self,
        dropped: Seq<usize>,
        tuning: Tuning,
        idx: usize,
        parent: usize,
        corpus_size: usize,
    ) -> bool {
        let with_entry = self.joined(tuning, idx, parent);
        if corpus_size <= tuning.drop_threshold {
            post == with_entry && dropped == Seq::<usize>::empty()
        } else {
            let rest = with_entry.without_all(dropped);
            &&& exists|order: Seq<(usize, Binary64)>|
                {
                    &&& #[trigger] lists_ascending(order, with_entry.metadata().q_table)
                    &&& dropped == prune_list(order, tuning, idx)
                }
            &&& post == rest.with_metadata(MetadataView { to_remove: dropped, ..rest.metadata() })
        }
    }

    /// The state once the entry selected last has earned what the signal says.
    pub open spec fn settled(self, tuning: Tuning, log_gain: Binary64) -> Self {
        let m = self.metadata();
        match (m.last_selected, self.signal) {
            (Some(last), Some(signal)) => self.rewarded(
                tuning,
                last,
                signal.compute_reward(tuning, log_gain),
            ),
            _ => self.with_metadata(m),
        }
    }

    /// The state after `draw` selected one of `indices`.
    pub open spec fn chosen(self, tuning: Tuning, indices: Seq<usize>, draw: u64) -> Self {
        let m = self.metadata();
        let rand_val = draw_value(draw);
        self.with_metadata(
            MetadataView {
                last_selected: Some(m.selected(tuning, indices, rand_val)),
                ..m.counted(tuning, rand_val)
            },
        )
    }
}

/// What the scheduler keeps between calls.
#[derive(Clone, Debug)]
pub struct SchedulerState {
    /// The learning state, once anything needed it.
    pub rl: Option<RLMetadata>,
    /// Vote data, once an entry was added.
    pub votes: Option<VoteData>,
    /// Feedback of the latest execution, once there was any.
    pub signal: Option<RewardSignal>,
}

impl View for SchedulerState {
    type V = StateView;

    open spec fn view(&self) -> StateView {
        StateView {
            rl: match self.rl {
                Some(m) => Some(m@),
                None => None,
            },
            votes: match self.votes {
                Some(v) => Some(v@),
                None => None,
            },
            signal: self.signal,
        }
    }
}

impl SchedulerState {
    /// The state of a scheduler that was never called.
    pub fn new() -> (r: Self)
        ensures
            r@ == (StateView { rl: None, votes: None, signal: None }),
    {
        SchedulerState { rl: None, votes: None, signal: None }
    }

    /// Takes the learning state out, fresh where there is none yet.
    fn take_metadata(&mut self) -> (r: RLMetadata)
        ensures
            r@ == old(self)@.metadata(),
            final(self)@ == (StateView { rl: None, ..old(self)@ }),
    {
        match self.rl.take() {
            Some(m) => m,
            None => RLMetadata::new(),
        }
    }
}

/// Why no entry could be selected.
#[derive(Clone, Copy, Debug, PartialEq, Eq, Structural)]
pub enum SchedulerError {
    /// No entry is known.
    Empty,
}

/// Scheduler by epsilon-greedy Q-learning for fuzzers with state `S`.
#[derive(Debug)]
pub struct RLScheduler<S> {
    pub phantom: PhantomData<S>,
}

impl<S> Clone for RLScheduler<S> {
    fn clone(&self) -> (r: Self)
        ensures
            r == *self,
    {
        RLScheduler { phantom: PhantomData }
    }
}

impl<S> Default for RLScheduler<S> {
    fn default() -> (r: Self)
        ensures
            r.phantom == PhantomData::<S>,
    {
        Self::new()
    }
}

impl<S> RLScheduler<S> {
    /// A scheduler. What it learns is in the [`SchedulerState`].
    pub fn new() -> (r: Self)
        ensures
            r.phantom == PhantomData::<S>,
    {
        RLScheduler { phantom: PhantomData }
    }

    /// A vote for `idx`: it earns the reward for coming closer to a branch,
    /// however large the vote.
    pub fn vote(&self, state: &mut SchedulerState, tuning: Tuning, idx: usize, _increment: usize)
        ensures
            final(state)@ == old(state)@.rewarded(tuning, idx, tuning.reward_cmp_improve),
    {
        let mut meta: RLMetadata = state.take_metadata();
        meta.update_q(tuning, idx, tuning.reward_cmp_improve);
        state.rl = Some(meta);
    }

    /// `idx` turned out interesting: it earns twice the reward for coverage.
    pub fn report_corpus(&self, state: &mut SchedulerState, tuning: Tuning, idx: usize)
        ensures
            final(state)@ == old(state)@.reported(tuning, idx),
    {
        let mut meta: RLMetadata = state.take_metadata();
        meta.update_q(tuning, idx, tuning.reward_cov_new.times(Binary64::from_integer(2)));
        if tuning.full_trace {
            meta.deps.mark_never_delete(idx);
        }
        state.rl = Some(meta);
    }

    /// `idx` is sponsored: it earns the reward for coming closer to a branch,
    /// whatever the amount.
    pub fn sponsor_state(&self, state: &mut SchedulerState, tuning: Tuning, idx: usize, _amt: usize)
        ensures
            final(state)@ == old(state)@.rewarded(tuning, idx, tuning.reward_cmp_improve),
    {
        let mut meta: RLMetadata = state.take_metadata();
        meta.update_q(tuning, idx, tuning.reward_cmp_improve);
        state.rl = Some(meta);
    }

    /// Entry `idx` left the corpus.
    pub fn on_remove(&self, state: &mut SchedulerState, idx: usize)
        ensures
            final(state)@ == old(state)@.without(idx),
    {
        if let Some(mut meta) = state.rl.take() {
            meta.remove(idx);
            state.rl = Some(meta);
        }
        if let Some(mut votes) = state.votes.take() {
            votes.remove(idx);
            state.votes = Some(votes);
        }
    }

    /// Entry `idx`, derived from `parent`, was added to the corpus, which now
    /// counts `corpus_size` entries. Returns the entries to delete from the
    /// corpus; where derivations are traced, none.
    pub fn on_add(
        &self,
        state: &mut SchedulerState,
        tuning: Tuning,
        idx: usize,
        parent: usize,
        corpus_size: usize,
    ) -> (evicted: Vec<usize>)
        ensures
            ({
                let dropped = if corpus_size <= tuning.drop_threshold {
                    Seq::<usize>::empty()
                } else {
                    final(state)@.metadata().to_remove
                };
                &&& old(state)@.adds(
                    final(state)@,
                    dropped,
                    tuning,
                    idx,
                    parent,
                    corpus_size,
                )
                &&& evicted@ == if tuning.full_trace {
                    Seq::<usize>::empty()
                } else {
                    dropped
                }
            }),
    {
        let mut meta: RLMetadata = state.take_metadata();
        meta.join(tuning, idx, parent);
        let full: bool = corpus_size > tuning.drop_threshold;
        let walk: Vec<(usize, Binary64)> = if full {
            meta.entries()
        } else {
            Vec::new()
        };
        state.rl = Some(meta);
        if state.votes.is_none() {
            state.votes = Some(VoteData::new());
        }
        let ghost with_entry = state@;
        assert(with_entry == old(state)@.joined(tuning, idx, parent));
        if !full {
            return Vec::new();
        }
        let dropped: Vec<usize> = prune_candidates(&walk, tuning, idx);
        proof {
            let table = with_entry.metadata().q_table;
            let positions = choose|positions: Seq<usize>|
                {
                    &&& #[trigger] lists_in_order(positions, walk@, 0, walk@.len() as int)
                    &&& dropped@ == prune_list(at_positions(walk@, positions), tuning, idx)
                };
            assert(walk.len() <= usize::MAX);
            lemma_order_lists_ascending(walk@, positions, table);
        }
        let mut i: usize = 0;
        assert(dropped@.take(0) =~= Seq::<usize>::empty());
        while i < dropped.len()
            invariant
                i <= dropped.len(),
                state@ == with_entry.without_all(dropped@.take(i as int)),
            decreases dropped.len() - i,
        {
            self.on_remove(state, dropped[i]);
            proof {
                let next = dropped@.take(i + 1);
                assert(next.drop_last() =~= dropped@.take(i as int));
                assert(next.last() == dropped@[i as int]);
            }
            i = i + 1;
        }
        assert(dropped@.take(dropped.len() as int) =~= dropped@);
        let evicted: Vec<usize> = if tuning.full_trace {
            Vec::new()
        } else {
            dropped.clone()
        };
        let mut meta: RLMetadata = state.take_metadata();
        meta.to_remove = dropped;
        state.rl = Some(meta);
        evicted
    }

    /// First half of choosing the next entry: the entry selected last earns
    /// the reward of the latest execution. Returns the entries to select from.
    /// `log_gain` is the natural logarithm of one plus the signal's
    /// improvement.
    pub fn begin_next(&self, state: &mut SchedulerState, tuning: Tuning, log_gain: Binary64) -> (r:
        Result<Vec<usize>, SchedulerError>)
        ensures
            final(state)@ == old(state)@.settled(tuning, log_gain),
            final(state)@.rl is Some,
            match r {
                Ok(indices) => indices@.len() > 0 && lists_keys(
                    indices@,
                    final(state)@.metadata().q_table,
                ),
                Err(SchedulerError::Empty) => final(state)@.metadata().q_table == Map::<
                    usize,
                    Binary64,
                >::empty(),
            },
    {
        let mut meta: RLMetadata = state.take_metadata();
        if let (Some(last), Some(signal)) = (meta.last_selected, state.signal) {
            meta.update_q(tuning, last, signal.compute_reward(tuning, log_gain));
        }
        let indices: Vec<usize> = meta.indices();
        state.rl = Some(meta);
        if indices.len() == 0 {
            proof {
                let table = state@.metadata().q_table;
                assert forall|k: usize| !table.contains_key(k) by {
                    assert(indices@.contains(k) <==> table.contains_key(k));
                }
                assert(table =~= Map::<usize, Binary64>::empty());
            }
            return Err(SchedulerError::Empty);
        }
        Ok(indices)
    }

    /// Second half of choosing the next entry: `draw`, a random number below
    /// [`DRAW_BOUND`], selects one of `indices`.
    pub fn finish_next(
        &self,
        state: &mut SchedulerState,
        tuning: Tuning,
        indices: &[usize],
        draw: u64,
    ) -> (r: usize)
        requires
            indices@.len() > 0,
            old(state)@.metadata().can_count(tuning, draw_value(draw)),
        ensures
            r == old(state)@.metadata().selected(tuning, indices@, draw_value(draw)),
            indices@.contains(r),
            final(state)@ == old(state)@.chosen(tuning, indices@, draw),
    {
        let rand_val: Binary64 = draw_value(draw);
        let mut meta: RLMetadata = state.take_metadata();
        let selected: usize = meta.select(tuning, indices, rand_val);
        meta.last_selected = Some(selected);
        state.rl = Some(meta);
        selected
    }

    /// Chooses the entry to execute next.
    pub fn next(
        &self,
        state: &mut SchedulerState,
        tuning: Tuning,
        log_gain: Binary64,
        draw: u64,
    ) -> (r: Result<usize, SchedulerError>)
        requires
            old(state)@.settled(tuning, log_gain).metadata().q_table != Map::<
                usize,
                Binary64,
            >::empty() ==> old(state)@.metadata().can_count(tuning, draw_value(draw)),
        ensures
            ({
                let settled = old(state)@.settled(tuning, log_gain);
                let table = settled.metadata().q_table;
                match r {
                    Ok(idx) => {
                        &&& table.contains_key(idx)
                        &&& exists|indices: Seq<usize>|
                            {
                                &&& #[trigger] lists_keys(indices, table)
                                &&& idx == settled.metadata().selected(
                                    tuning,
                                    indices,
                                    draw_value(draw),
                                )
                                &&& final(state)@ == settled.chosen(tuning, indices, draw)
                            }
                    },
                    Err(SchedulerError::Empty) => {
                        &&& table == Map::<usize, Binary64>::empty()
                        &&& final(state)@ == settled
                    },
                }
            }),
    {
        match self.begin_next(state, tuning, log_gain) {
            Ok(indices) => Ok(self.finish_next(state, tuning, indices.as_slice(), draw)),
            Err(e) => Err(e),
        }
    }
}

/// Leaves the feedback of an execution for the scheduler.
pub fn set_reward_signal(
    state: &mut SchedulerState,
    cmp_improvement: Binary64,
    new_coverage: bool,
    bug_found: bool,
)
    ensures
        final(state)@ == (StateView {
            signal: Some(RewardSignal { cmp_improvement, new_coverage, bug_found }),
            ..old(state)@
        }),
{
    state.signal = Some(RewardSignal { cmp_improvement, new_coverage, bug_found });
}

/// Entries of a walk over the table, put in order, still list the table.
proof fn lemma_order_lists_ascending(
    walk: Seq<(usize, Binary64)>,
    positions: Seq<usize>,
    table: Map<usize, Binary64>,
)
    requires
        lists_table(walk, table),
        lists_in_order(positions, walk, 0, walk.len() as int),
        walk.len() <= usize::MAX,
    ensures
        lists_ascending(at_positions(walk, positions), table),
{
    let order = at_positions(walk, positions);
    assert forall|i: int|
        0 <= i < positions.len() implies (#[trigger] positions[i]) < walk.len() by {
        assert(positions.contains(positions[i]));
    }
    assert forall|i: int, j: int|
        0 <= i < order.len() && 0 <= j < order.len() && i != j implies order[i] != order[j] by {
        assert(positions[i] != positions[j]) by {
            if i < j {
                assert(comes_before(walk, positions[i], positions[j]));
            } else {
                assert(comes_before(walk, positions[j], positions[i]));
            }
        }
    }
    assert forall|e: (usize, Binary64)| #[trigger] order.contains(e) <==> table.contains_key(e.0)
        && table[e.0] == e.1 by {
        if order.contains(e) {
            let i = choose|i: int| 0 <= i < order.len() && order[i] == e;
            assert(walk[positions[i] as int] == e);
            assert(walk.contains(e));
        }
        if table.contains_key(e.0) && table[e.0] == e.1 {
            assert(walk.contains(e));
            let p = choose|p: int| 0 <= p < walk.len() && walk[p] == e;
            assert(positions.contains(p as usize));
            let i = choose|i: int| 0 <= i < positions.len() && positions[i] == p as usize;
            assert(order[i] == e);
        }
    }
    assert forall|i: int, j: int| 0 <= i < j < order.len() implies (#[trigger] order[i]).1.rank()
        <= (#[trigger] order[j]).1.rank() by {
        assert(comes_before(walk, positions[i], positions[j]));
    }
}

} // verus!
