//! The state of the learning agent.
use std::collections::HashMap;
use vstd::prelude::*;
use vstd::std_specs::hash::{spec_hash_map_iter, spec_keys_iter, spec_values_iter};
use vstd::std_specs::iter::IteratorSpec;

use crate::binary64::{lemma_max_absorbs, lemma_value_injective, Binary64};
use crate::tuning::Tuning;
use crate::votes::{DependencyTree, TreeEdit};

verus! {

broadcast use vstd::std_specs::hash::group_hash_axioms;

/// What [`RLMetadata`] holds.
#[verifier::ext_equal]
pub struct MetadataView {
    pub q_table: Map<usize, Binary64>,
    pub last_selected: Option<usize>,
    pub total_reward: Binary64,
    pub exploit_count: usize,
    pub explore_count: usize,
    pub deps: Seq<TreeEdit>,
    pub to_remove: Seq<usize>,
}

/// Whether `walk` lists each entry of `table` once.
pub open spec fn lists_table(walk: Seq<(usize, Binary64)>, table: Map<usize, Binary64>) -> bool {
    &&& walk.no_duplicates()
    &&& walk.len() == table.dom().len()
    &&& forall|e: (usize, Binary64)| #[trigger]
        walk.contains(e) <==> table.contains_key(e.0) && table[e.0] == e.1
}

/// Whether `keys` lists each key of `table` once.
pub open spec fn lists_keys(keys: Seq<usize>, table: Map<usize, Binary64>) -> bool {
    &&& keys.no_duplicates()
    &&& keys.len() == table.dom().len()
    &&& forall|k: usize| #[trigger] keys.contains(k) <==> table.contains_key(k)
}

/// Position of the entry that a greedy choice ends at: starting from the
/// first, every later Q-value takes over unless the one held is greater. So
/// the greatest wins, and of several greatest the last.
pub open spec fn greedy_position(qs: Seq<Binary64>) -> int
    decreases qs.len(),
{
    if qs.len() <= 1 {
        0
    } else {
        let held = greedy_position(qs.drop_last());
        if qs.last().lt(qs[held]) {
            held
        } else {
            qs.len() - 1
        }
    }
}

impl MetadataView {
    /// The state before anything was learned.
    pub open spec fn fresh() -> Self {
        MetadataView {
            q_table: Map::empty(),
            last_selected: None,
            total_reward: Binary64::zero(),
            exploit_count: 0,
            explore_count: 0,
            deps: Seq::empty(),
            to_remove: Seq::empty(),
        }
    }

    /// The Q-value of `idx`, the initial one where nothing is known.
    pub open spec fn q(self, tuning: Tuning, idx: usize) -> Binary64 {
        if self.q_table.contains_key(idx) {
            self.q_table[idx]
        } else {
            tuning.init_q
        }
    }

    /// Whether some entry has a Q-value that is a number.
    pub open spec fn has_number(self) -> bool {
        exists|k: usize| #[trigger]
            self.q_table.contains_key(k) && !self.q_table[k].is_nan()
    }

    /// Whether `r` is the greatest Q-value in the whole table. NaNs do not
    /// count; where no Q-value is a number, it is the initial one.
    pub open spec fn is_max_q(self, tuning: Tuning, r: Binary64) -> bool {
        if self.has_number() {
            &&& !r.is_nan()
            &&& exists|k: usize| #[trigger] self.q_table.contains_key(k) && self.q_table[k] == r
            &&& forall|k: usize| #[trigger]
                self.q_table.contains_key(k) ==> r.max(self.q_table[k]) == r
        } else {
            r == tuning.init_q
        }
    }

    /// The greatest Q-value in the whole table, or the initial one where none
    /// is a number.
    pub open spec fn max_q(self, tuning: Tuning) -> Binary64 {
        choose|r: Binary64| self.is_max_q(tuning, r)
    }

    /// The state after `idx` earned `reward`.
    pub open spec fn update_q(self, tuning: Tuning, idx: usize, reward: Binary64) -> Self {
        MetadataView {
            q_table: self.q_table.insert(
                idx,
                tuning.learned(self.q(tuning, idx), reward, self.max_q(tuning)),
            ),
            total_reward: self.total_reward.plus(reward),
            ..self
        }
    }

    /// The Q-values of `indices`.
    pub open spec fn qs(self, tuning: Tuning, indices: Seq<usize>) -> Seq<Binary64> {
        Seq::new(indices.len(), |i: int| self.q(tuning, indices[i]))
    }

    /// The place among `len` entries that an exploring draw stands for.
    pub open spec fn explore_position(tuning: Tuning, len: nat, rand_val: Binary64) -> int {
        let slot = rand_val.over(tuning.epsilon).times(
            Binary64::from_integer(len as u64),
        ).to_index();
        if slot < len {
            slot as int
        } else {
            len - 1
        }
    }

    /// The entry of `indices` that the draw `rand_val` selects.
    pub open spec fn selected(
        self,
        tuning: Tuning,
        indices: Seq<usize>,
        rand_val: Binary64,
    ) -> usize {
        if rand_val.lt(tuning.epsilon) {
            indices[Self::explore_position(tuning, indices.len(), rand_val)]
        } else {
            indices[greedy_position(self.qs(tuning, indices))]
        }
    }

    /// The state after a selection with draw `rand_val`.
    pub open spec fn counted(self, tuning: Tuning, rand_val: Binary64) -> Self {
        if rand_val.lt(tuning.epsilon) {
            MetadataView { explore_count: (self.explore_count + 1) as usize, ..self }
        } else {
            MetadataView { exploit_count: (self.exploit_count + 1) as usize, ..self }
        }
    }

    /// Whether the count that the draw `rand_val` adds to has room.
    pub open spec fn can_count(self, tuning: Tuning, rand_val: Binary64) -> bool {
        if rand_val.lt(tuning.epsilon) {
            self.explore_count < usize::MAX
        } else {
            self.exploit_count < usize::MAX
        }
    }

    /// The state after `idx`, derived from `parent`, joined.
    pub open spec fn joined(self, tuning: Tuning, idx: usize, parent: usize) -> Self {
        MetadataView {
            q_table: self.q_table.insert(idx, self.q(tuning, idx)),
            deps: if tuning.full_trace {
                self.deps.push(TreeEdit::AddNode { idx, parent })
            } else {
                self.deps
            },
            ..self
        }
    }

    /// The state after `idx` left.
    pub open spec fn without(self, idx: usize) -> Self {
        MetadataView {
            q_table: self.q_table.remove(idx),
            last_selected: if self.last_selected == Some(idx) {
                None
            } else {
                self.last_selected
            },
            ..self
        }
    }
}

/// Everything the learning agent knows.
#[derive(Clone, Debug)]
pub struct RLMetadata {
    /// Q-value of each corpus entry.
    pub q_table: HashMap<usize, Binary64>,
    /// The entry selected last; the next reward is its.
    pub last_selected: Option<usize>,
    /// Sum of all rewards.
    pub total_reward: Binary64,
    /// Number of greedy selections.
    pub exploit_count: usize,
    /// Number of random selections.
    pub explore_count: usize,
    /// Which entry was derived from which.
    pub deps: DependencyTree,
    /// The entries that the last round of pruning dropped.
    pub to_remove: Vec<usize>,
}

impl View for RLMetadata {
    type V = MetadataView;

    open spec fn view(&self) -> MetadataView {
        MetadataView {
            q_table: self.q_table@,
            last_selected: self.last_selected,
            total_reward: self.total_reward,
            exploit_count: self.exploit_count,
            explore_count: self.explore_count,
            deps: self.deps@,
            to_remove: self.to_remove@,
        }
    }
}

impl RLMetadata {
    /// The state before anything was learned.
    pub fn new() -> (r: Self)
        ensures
            r@ == MetadataView::fresh(),
    {
        RLMetadata {
            q_table: HashMap::new(),
            last_selected: None,
            total_reward: Binary64::zero(),
            exploit_count: 0,
            explore_count: 0,
            deps: DependencyTree::new(),
            to_remove: Vec::new(),
        }
    }

    /// The Q-value of `idx`, optimistic where nothing is known.
    pub fn get_q(&self, tuning: Tuning, idx: usize) -> (r: Binary64)
        ensures
            r == self@.q(tuning, idx),
    {
        match self.q_table.get(&idx) {
            Some(q) => *q,
            None => tuning.init_q,
        }
    }

    /// The entries and their Q-values, in no particular order.
    pub fn entries(&self) -> (r: Vec<(usize, Binary64)>)
        ensures
            lists_table(r@, self@.q_table),
    {
        let iter = self.q_table.iter();
        let ghost all = iter.remaining().unref();
        let mut r: Vec<(usize, Binary64)> = Vec::new();
        for (k, v) in it: iter
            invariant
                it.seq().unref() == all,
                r@ == all.take(it.index()),
        {
            r.push((*k, *v));
        }
        proof {
            assert(r@ =~= all);
            let refs = spec_hash_map_iter(&self.q_table).remaining();
            assert(all == refs.unref());
            assert forall|e: (usize, Binary64)| #[trigger]
                r@.contains(e) <==> self.q_table@.contains_key(e.0)
                    && self.q_table@[e.0] == e.1 by {
                if r@.contains(e) {
                    let i = choose|i: int| 0 <= i < r@.len() && r@[i] == e;
                    assert(self.q_table@.contains_key(*refs[i].0));
                }
                if self.q_table@.contains_key(e.0) && self.q_table@[e.0] == e.1 {
                    assert(refs.contains((&e.0, &self.q_table@[e.0])));
                    let i = choose|i: int|
                        0 <= i < refs.len() && refs[i] == (&e.0, &self.q_table@[e.0]);
                    assert(r@[i] == e);
                }
            }
            assert forall|i: int, j: int|
                0 <= i < r@.len() && 0 <= j < r@.len() && i != j implies r@[i] != r@[j] by {
                assert(refs[i] != refs[j]);
            }
        }
        r
    }

    /// The entries, in no particular order.
    pub fn indices(&self) -> (r: Vec<usize>)
        ensures
            lists_keys(r@, self@.q_table),
    {
        let iter = self.q_table.keys();
        let ghost all = iter.remaining().unref();
        let mut r: Vec<usize> = Vec::new();
        for k in it: iter
            invariant
                it.seq().unref() == all,
                r@ == all.take(it.index()),
        {
            r.push(*k);
        }
        proof {
            assert(r@ =~= all);
            let refs = spec_keys_iter(&self.q_table).remaining();
            assert(all == refs.unref());
            assert forall|k: usize| #[trigger]
                r@.contains(k) <==> self.q_table@.contains_key(k) by {
                assert(r@.to_set().contains(k) <==> self.q_table@.dom().contains(k));
            }
            assert forall|i: int, j: int|
                0 <= i < r@.len() && 0 <= j < r@.len() && i != j implies r@[i] != r@[j] by {
                assert(refs[i] != refs[j]);
            }
        }
        r
    }

    /// The greatest Q-value in the whole table, or the initial one where none
    /// is a number, as in an empty table.
    pub fn max_q(&self, tuning: Tuning) -> (r: Binary64)
        ensures
            r == self@.max_q(tuning),
            self@.is_max_q(tuning, r),
    {
        let iter = self.q_table.values();
        let ghost all = iter.remaining().unref();
        // A NaN yields to whatever comes first.
        let mut r: Binary64 = Binary64::nan();
        proof {
            assert(spec_values_iter(&self.q_table).remaining().unref() == all);
        }
        for v in it: iter
            invariant
                it.seq().unref() == all,
                all.to_set() == self.q_table@.values(),
                r.max(r) == r,
                !r.is_nan() ==> exists|k: usize| #[trigger]
                    self.q_table@.contains_key(k) && self.q_table@[k] == r,
                forall|i: int| 0 <= i < it.index() ==> r.max(#[trigger] all[i]) == r,
        {
            proof {
                let i = it.index();
                assert(all[i] == *v);
                assert(all.to_set().contains(*v));
                let k = choose|k: usize|
                    self.q_table@.dom().contains(k) && self.q_table@[k] == *v;
                assert(self.q_table@.contains_key(k));
                lemma_max_absorbs(r, *v, *v);
                assert forall|j: int| 0 <= j < i implies r.max(*v).max(#[trigger] all[j]) == r.max(
                    *v,
                ) by {
                    lemma_max_absorbs(r, *v, all[j]);
                }
            }
            r = r.max(*v);
        }
        proof {
            assert forall|k: usize| #[trigger] self@.q_table.contains_key(k) implies r.max(
                self@.q_table[k],
            ) == r by {
                let c = self@.q_table[k];
                assert(self.q_table@.values().contains(c));
                assert(all.to_set().contains(c));
                let j = choose|j: int| 0 <= j < all.len() && all[j] == c;
                assert(r.max(all[j]) == r);
            }
            if !r.is_nan() {
                let k = choose|k: usize| #[trigger]
                    self.q_table@.contains_key(k) && self.q_table@[k] == r;
                assert(self@.q_table.contains_key(k));
            }
            assert(self@.has_number() <==> !r.is_nan());
        }
        let best: Binary64 = if r.is_nan() {
            tuning.init_q
        } else {
            r
        };
        proof {
            lemma_max_q_unique(self@, tuning, best);
        }
        best
    }

    /// Lets `idx` learn from `reward`.
    pub fn update_q(&mut self, tuning: Tuning, idx: usize, reward: Binary64)
        ensures
            final(self)@ == old(self)@.update_q(tuning, idx, reward),
    {
        let current: Binary64 = self.get_q(tuning, idx);
        let best: Binary64 = self.max_q(tuning);
        self.q_table.insert(idx, tuning.learned(current, reward, best));
        self.total_reward = self.total_reward.plus(reward);
    }

    /// Selects one of `indices`: at random where `rand_val` lies below
    /// epsilon, otherwise the one with the greatest Q-value.
    pub fn select(&mut self, tuning: Tuning, indices: &[usize], rand_val: Binary64) -> (r: usize)
        requires
            indices@.len() > 0,
            old(self)@.can_count(tuning, rand_val),
        ensures
            r == old(self)@.selected(tuning, indices@, rand_val),
            indices@.contains(r),
            final(self)@ == old(self)@.counted(tuning, rand_val),
    {
        if rand_val.lt(tuning.epsilon) {
            self.explore_count = self.explore_count + 1;
            let slot: usize = rand_val.over(tuning.epsilon).times(
                Binary64::from_integer(indices.len() as u64),
            ).to_index();
            let i: usize = if slot < indices.len() {
                slot
            } else {
                indices.len() - 1
            };
            assert(indices@.contains(indices@[i as int]));
            indices[i]
        } else {
            self.exploit_count = self.exploit_count + 1;
            let ghost qs = self@.qs(tuning, indices@);
            let mut held: usize = 0;
            let mut i: usize = 1;
            proof {
                assert(qs.take(1).len() == 1);
                assert(old(self)@.qs(tuning, indices@) =~= qs);
            }
            while i < indices.len()
                invariant
                    1 <= i <= indices@.len(),
                    held < i,
                    qs == self@.qs(tuning, indices@),
                    held == greedy_position(qs.take(i as int)),
                decreases indices@.len() - i,
            {
                proof {
                    let next = qs.take(i + 1);
                    assert(next.drop_last() =~= qs.take(i as int));
                    assert(next[held as int] == qs[held as int]);
                    assert(next.last() == qs[i as int]);
                }
                if !self.get_q(tuning, indices[i]).lt(self.get_q(tuning, indices[held])) {
                    held = i;
                }
                i = i + 1;
            }
            assert(qs.take(indices@.len() as int) =~= qs);
            assert(indices@.contains(indices@[held as int]));
            indices[held]
        }
    }

    /// Whether one more selection with draw `rand_val` can be counted.
    pub fn can_count(&self, tuning: Tuning, rand_val: Binary64) -> (r: bool)
        ensures
            r == self@.can_count(tuning, rand_val),
    {
        if rand_val.lt(tuning.epsilon) {
            self.explore_count < usize::MAX
        } else {
            self.exploit_count < usize::MAX
        }
    }

    /// Lets `idx`, derived from `parent`, join: it starts with the initial
    /// Q-value unless it has one already.
    pub fn join(&mut self, tuning: Tuning, idx: usize, parent: usize)
        ensures
            final(self)@ == old(self)@.joined(tuning, idx, parent),
    {
        self.q_table.entry(idx).or_insert(tuning.init_q);
        if tuning.full_trace {
            self.deps.add_node(idx, parent);
        }
    }

    /// Forgets `idx`.
    pub fn remove(&mut self, idx: usize)
        ensures
            final(self)@ == old(self)@.without(idx),
    {
        self.q_table.remove(&idx);
        if let Some(last) = self.last_selected {
            if last == idx {
                self.last_selected = None;
            }
        }
    }
}

/// There is only one greatest Q-value.
proof fn lemma_max_q_unique(m: MetadataView, tuning: Tuning, r: Binary64)
    requires
        m.is_max_q(tuning, r),
    ensures
        r == m.max_q(tuning),
{
    let s = m.max_q(tuning);
    assert(m.is_max_q(tuning, s));
    if m.has_number() && r.value() == s.value() && r.is_negative() == s.is_negative() {
        lemma_value_injective(r, s);
    }
}

impl Default for RLMetadata {
    fn default() -> (r: Self)
        ensures
            r@ == MetadataView::fresh(),
    {
        Self::new()
    }
}

} // verus!
