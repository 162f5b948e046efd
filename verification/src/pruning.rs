//! Which entries of a full corpus are dropped.
use vstd::prelude::*;

use crate::binary64::Binary64;
use crate::tuning::Tuning;

verus! {

/// Entries with a smaller index are artifacts of the set-up and never pruned.
pub const ARTIFACTS: usize = 3;

/// Whether the entry at `p` of `walk` comes before the one at `q` in order of
/// ascending Q-value, equal ones in the order of `walk`.
pub open spec fn comes_before(walk: Seq<(usize, Binary64)>, p: usize, q: usize) -> bool {
    let a = walk[p as int].1.rank();
    let b = walk[q as int].1.rank();
    a < b || (a == b && p < q)
}

/// Whether `positions` lists every position from `lo` up to `hi` once, in
/// order of [`comes_before`].
pub open spec fn lists_in_order(
    positions: Seq<usize>,
    walk: Seq<(usize, Binary64)>,
    lo: int,
    hi: int,
) -> bool {
    &&& positions.len() == hi - lo
    &&& forall|p: usize| #[trigger] positions.contains(p) <==> lo <= p < hi
    &&& forall|i: int, j: int|
        0 <= i < j < positions.len() ==> comes_before(
            walk,
            #[trigger] positions[i],
            #[trigger] positions[j],
        )
}

/// The entries of `walk` at the given positions.
pub open spec fn at_positions(walk: Seq<(usize, Binary64)>, positions: Seq<usize>) -> Seq<
    (usize, Binary64),
> {
    Seq::new(positions.len(), |i: int| walk[positions[i] as int])
}

/// Whether an entry may be dropped while `current` is being added.
pub open spec fn prunable(entry: (usize, Binary64), tuning: Tuning, current: usize) -> bool {
    entry.0 >= ARTIFACTS && entry.0 != current && entry.1.le(tuning.prune_q_threshold)
}

/// The indices of the entries that may be dropped, in their order.
pub open spec fn prunable_indices(
    entries: Seq<(usize, Binary64)>,
    tuning: Tuning,
    current: usize,
) -> Seq<usize> {
    entries.filter(|e: (usize, Binary64)| prunable(e, tuning, current)).map_values(
        |e: (usize, Binary64)| e.0,
    )
}

/// What is dropped of entries in ascending order of Q-value: the prunable ones
/// among the first `prune_amt`.
pub open spec fn prune_list(
    order: Seq<(usize, Binary64)>,
    tuning: Tuning,
    current: usize,
) -> Seq<usize> {
    let seen = if order.len() <= tuning.prune_amt {
        order
    } else {
        order.take(tuning.prune_amt as int)
    };
    prunable_indices(seen, tuning, current)
}

/// [`comes_before`] is transitive.
proof fn lemma_comes_before_transitive(
    walk: Seq<(usize, Binary64)>,
    p: usize,
    q: usize,
    r: usize,
)
    requires
        comes_before(walk, p, q),
        comes_before(walk, q, r),
    ensures
        comes_before(walk, p, r),
{
}

/// Merges two ordered runs of positions.
fn merge(
    walk: &Vec<(usize, Binary64)>,
    a: &Vec<usize>,
    b: &Vec<usize>,
    Ghost(lo): Ghost<int>,
    Ghost(mid): Ghost<int>,
    Ghost(hi): Ghost<int>,
) -> (r: Vec<usize>)
    requires
        0 <= lo <= mid <= hi <= walk.len(),
        lists_in_order(a@, walk@, lo, mid),
        lists_in_order(b@, walk@, mid, hi),
    ensures
        lists_in_order(r@, walk@, lo, hi),
{
    let mut r: Vec<usize> = Vec::new();
    let mut i: usize = 0;
    let mut j: usize = 0;
    proof {
        assert forall|k: int| 0 <= k < a@.len() implies lo <= #[trigger] a@[k] < mid by {
            assert(a@.contains(a@[k]));
        }
        assert forall|k: int| 0 <= k < b@.len() implies mid <= #[trigger] b@[k] < hi by {
            assert(b@.contains(b@[k]));
        }
    }
    while i < a.len() || j < b.len()
        invariant
            0 <= lo <= mid <= hi <= walk.len(),
            lists_in_order(a@, walk@, lo, mid),
            lists_in_order(b@, walk@, mid, hi),
            forall|k: int| 0 <= k < a@.len() ==> lo <= #[trigger] a@[k] < mid,
            forall|k: int| 0 <= k < b@.len() ==> mid <= #[trigger] b@[k] < hi,
            i <= a.len(),
            j <= b.len(),
            r.len() == i + j,
            forall|k: int| 0 <= k < r@.len() ==> lo <= #[trigger] r@[k] < hi,
            forall|k: int, l: int|
                0 <= k < l < r@.len() ==> comes_before(walk@, #[trigger] r@[k], #[trigger] r@[l]),
            forall|k: int, l: int|
                0 <= k < r@.len() && i <= l < a@.len() ==> comes_before(
                    walk@,
                    #[trigger] r@[k],
                    #[trigger] a@[l],
                ),
            forall|k: int, l: int|
                0 <= k < r@.len() && j <= l < b@.len() ==> comes_before(
                    walk@,
                    #[trigger] r@[k],
                    #[trigger] b@[l],
                ),
            forall|k: int| 0 <= k < i ==> r@.contains(#[trigger] a@[k]),
            forall|k: int| 0 <= k < j ==> r@.contains(#[trigger] b@[k]),
        decreases a.len() - i + b.len() - j,
    {
        let ghost before = r@;
        let take_left: bool = if i == a.len() {
            false
        } else if j == b.len() {
            true
        } else {
            walk[a[i]].1.rank() <= walk[b[j]].1.rank()
        };
        if take_left {
            let p: usize = a[i];
            proof {
                if j < b.len() {
                    assert(comes_before(walk@, a@[i as int], b@[j as int]));
                    assert forall|l: int| j <= l < b@.len() implies comes_before(
                        walk@,
                        p,
                        #[trigger] b@[l],
                    ) by {
                        if j < l {
                            lemma_comes_before_transitive(walk@, p, b@[j as int], b@[l]);
                        }
                    }
                }
            }
            r.push(p);
            i = i + 1;
        } else {
            let p: usize = b[j];
            proof {
                if i < a.len() {
                    assert(comes_before(walk@, b@[j as int], a@[i as int]));
                    assert forall|l: int| i <= l < a@.len() implies comes_before(
                        walk@,
                        p,
                        #[trigger] a@[l],
                    ) by {
                        if i < l {
                            lemma_comes_before_transitive(walk@, p, a@[i as int], a@[l]);
                        }
                    }
                }
            }
            r.push(p);
            j = j + 1;
        }
        proof {
            let last = r@.last();
            assert(r@ == before.push(last));
            assert(r@[before.len() as int] == last);
            assert(r@.contains(last));
            assert forall|x: usize| before.contains(x) implies #[trigger] r@.contains(x) by {
                let k = choose|k: int| 0 <= k < before.len() && before[k] == x;
                assert(r@[k] == x);
            }
        }
    }
    proof {
        assert forall|p: usize| #[trigger] r@.contains(p) <==> lo <= p < hi by {
            if lo <= p < mid {
                assert(a@.contains(p));
                let k = choose|k: int| 0 <= k < a@.len() && a@[k] == p;
                assert(r@.contains(a@[k]));
            } else if mid <= p < hi {
                assert(b@.contains(p));
                let k = choose|k: int| 0 <= k < b@.len() && b@[k] == p;
                assert(r@.contains(b@[k]));
            }
            if r@.contains(p) {
                let k = choose|k: int| 0 <= k < r@.len() && r@[k] == p;
                assert(lo <= r@[k] < hi);
            }
        }
    }
    r
}

/// The positions from `lo` up to `hi` in ascending order of Q-value.
fn order_range(walk: &Vec<(usize, Binary64)>, lo: usize, hi: usize) -> (r: Vec<usize>)
    requires
        lo <= hi <= walk.len(),
    ensures
        lists_in_order(r@, walk@, lo as int, hi as int),
    decreases hi - lo,
{
    if hi - lo == 0 {
        Vec::new()
    } else if hi - lo == 1 {
        let mut r: Vec<usize> = Vec::new();
        r.push(lo);
        assert(r@[0] == lo);
        r
    } else {
        let mid: usize = lo + (hi - lo) / 2;
        let a: Vec<usize> = order_range(walk, lo, mid);
        let b: Vec<usize> = order_range(walk, mid, hi);
        merge(walk, &a, &b, Ghost(lo as int), Ghost(mid as int), Ghost(hi as int))
    }
}

/// Picks the entries to drop. `walk` lists the Q-values of all entries in any
/// order; `current` is the entry being added.
pub fn prune_candidates(walk: &Vec<(usize, Binary64)>, tuning: Tuning, current: usize) -> (r: Vec<
    usize,
>)
    ensures
        exists|positions: Seq<usize>|
            {
                &&& #[trigger] lists_in_order(positions, walk@, 0, walk@.len() as int)
                &&& r@ == prune_list(at_positions(walk@, positions), tuning, current)
            },
{
    let positions: Vec<usize> = order_range(walk, 0, walk.len());
    let ghost order = at_positions(walk@, positions@);
    let count: usize = if positions.len() <= tuning.prune_amt {
        positions.len()
    } else {
        tuning.prune_amt
    };
    let mut r: Vec<usize> = Vec::new();
    let mut i: usize = 0;
    proof {
        reveal(Seq::filter);
        assert(prunable_indices(order.take(0), tuning, current) =~= Seq::<usize>::empty());
    }
    while i < count
        invariant
            i <= count <= positions.len(),
            lists_in_order(positions@, walk@, 0, walk@.len() as int),
            order == at_positions(walk@, positions@),
            r@ == prunable_indices(order.take(i as int), tuning, current),
        decreases count - i,
    {
        proof {
            assert(positions@.contains(positions@[i as int]));
        }
        let entry: (usize, Binary64) = walk[positions[i]];
        if entry.0 >= ARTIFACTS && entry.0 != current && entry.1.le(tuning.prune_q_threshold) {
            r.push(entry.0);
        }
        proof {
            reveal(Seq::filter);
            let next = order.take(i + 1);
            assert(next.drop_last() =~= order.take(i as int));
            assert(next.last() == entry);
            assert(r@ =~= prunable_indices(next, tuning, current));
        }
        i = i + 1;
    }
    assert(order.take(order.len() as int) =~= order);
    r
}

} // verus!
