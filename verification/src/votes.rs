//! Bookkeeping shared with vote-based schedulers.
use std::collections::HashMap;
use vstd::prelude::*;

verus! {

broadcast use vstd::std_specs::hash::group_hash_axioms;

/// One change asked of the tree of derivations.
#[derive(Clone, Copy, Debug, PartialEq, Eq, Structural)]
pub enum TreeEdit {
    /// Entry `idx` was derived from `parent`.
    AddNode { idx: usize, parent: usize },
    /// Entry `idx` must be kept for good.
    NeverDelete { idx: usize },
}

/// Which entry was derived from which, held as the changes in the order in
/// which they were asked for.
#[derive(Clone, Debug)]
pub struct DependencyTree {
    /// The changes, oldest first.
    pub edits: Vec<TreeEdit>,
}

impl View for DependencyTree {
    type V = Seq<TreeEdit>;

    open spec fn view(&self) -> Seq<TreeEdit> {
        self.edits@
    }
}

impl DependencyTree {
    /// The empty tree.
    pub fn new() -> (r: Self)
        ensures
            r@ == Seq::<TreeEdit>::empty(),
    {
        DependencyTree { edits: Vec::new() }
    }

    /// Records that `idx` was derived from `parent`.
    pub fn add_node(&mut self, idx: usize, parent: usize)
        ensures
            final(self)@ == old(self)@.push(TreeEdit::AddNode { idx, parent }),
    {
        self.edits.push(TreeEdit::AddNode { idx, parent });
    }

    /// Records that `idx` must be kept for good.
    pub fn mark_never_delete(&mut self, idx: usize)
        ensures
            final(self)@ == old(self)@.push(TreeEdit::NeverDelete { idx }),
    {
        self.edits.push(TreeEdit::NeverDelete { idx });
    }
}

/// The elements of `s` other than `idx`, in their order.
pub open spec fn others(s: Seq<usize>, idx: usize) -> Seq<usize> {
    s.filter(|x: usize| x != idx)
}

/// What [`VoteData`] holds.
#[verifier::ext_equal]
pub struct VoteView {
    pub votes_and_visits: Map<usize, (usize, usize)>,
    pub sorted_votes: Seq<usize>,
    pub visits_total: usize,
    pub votes_total: usize,
    pub deps: Seq<TreeEdit>,
    pub to_remove: Seq<usize>,
}

impl VoteView {
    /// Vote data before any vote.
    pub open spec fn initial() -> Self {
        VoteView {
            votes_and_visits: Map::empty(),
            sorted_votes: Seq::empty(),
            visits_total: 1,
            votes_total: 1,
            deps: Seq::empty(),
            to_remove: Seq::empty(),
        }
    }

    /// The data without entry `idx`.
    pub open spec fn without(self, idx: usize) -> Self {
        VoteView {
            votes_and_visits: self.votes_and_visits.remove(idx),
            sorted_votes: others(self.sorted_votes, idx),
            ..self
        }
    }
}

/// Votes and visits of the entries.
#[derive(Clone, Debug)]
pub struct VoteData {
    /// Votes and visits of each entry.
    pub votes_and_visits: HashMap<usize, (usize, usize)>,
    /// The entries in order of their votes.
    pub sorted_votes: Vec<usize>,
    /// Visits over all entries.
    pub visits_total: usize,
    /// Votes over all entries.
    pub votes_total: usize,
    /// Which entry was derived from which.
    pub deps: DependencyTree,
    /// Entries to be removed.
    pub to_remove: Vec<usize>,
}

impl View for VoteData {
    type V = VoteView;

    open spec fn view(&self) -> VoteView {
        VoteView {
            votes_and_visits: self.votes_and_visits@,
            sorted_votes: self.sorted_votes@,
            visits_total: self.visits_total,
            votes_total: self.votes_total,
            deps: self.deps@,
            to_remove: self.to_remove@,
        }
    }
}

impl VoteData {
    /// Vote data before any vote. Both totals start at 1.
    pub fn new() -> (r: Self)
        ensures
            r@ == VoteView::initial(),
    {
        VoteData {
            votes_and_visits: HashMap::new(),
            sorted_votes: Vec::new(),
            visits_total: 1,
            votes_total: 1,
            deps: DependencyTree::new(),
            to_remove: Vec::new(),
        }
    }

    /// Forgets entry `idx`.
    pub fn remove(&mut self, idx: usize)
        ensures
            final(self)@ == old(self)@.without(idx),
    {
        self.votes_and_visits.remove(&idx);
        self.sorted_votes = keep_others(&self.sorted_votes, idx);
    }
}

/// The elements other than `idx`, in their order.
fn keep_others(v: &Vec<usize>, idx: usize) -> (r: Vec<usize>)
    ensures
        r@ == others(v@, idx),
{
    let mut r: Vec<usize> = Vec::new();
    let mut i: usize = 0;
    proof {
        reveal(Seq::filter);
        assert(others(v@.take(0), idx) =~= Seq::<usize>::empty());
    }
    while i < v.len()
        invariant
            i <= v.len(),
            r@ == others(v@.take(i as int), idx),
        decreases v.len() - i,
    {
        if v[i] != idx {
            r.push(v[i]);
        }
        proof {
            reveal(Seq::filter);
            assert(v@.take(i + 1).drop_last() =~= v@.take(i as int));
        }
        i = i + 1;
    }
    assert(v@.take(v.len() as int) =~= v@);
    r
}

} // verus!
