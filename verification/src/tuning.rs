//! The constants that the scheduler is tuned with.
use vstd::prelude::*;

use crate::binary64::Binary64;

verus! {

/// Tuning constants of the scheduler. Every contract of this crate holds for
/// every choice of them; a law that needs more of them says so.
#[derive(Clone, Copy, Debug)]
pub struct Tuning {
    /// Corpus size above which entries are pruned.
    pub drop_threshold: usize,
    /// Number of entries looked at in one round of pruning.
    pub prune_amt: usize,
    /// Probability of exploring.
    pub epsilon: Binary64,
    /// Learning rate.
    pub alpha: Binary64,
    /// Discount of the best known Q-value.
    pub gamma: Binary64,
    /// Q-value of an entry that nothing is known of.
    pub init_q: Binary64,
    /// Greatest Q-value that pruning may drop.
    pub prune_q_threshold: Binary64,
    /// Reward for a found bug.
    pub reward_bug_found: Binary64,
    /// Reward for coming closer to a branch.
    pub reward_cmp_improve: Binary64,
    /// Reward for new coverage.
    pub reward_cov_new: Binary64,
    /// Base reward of every step, as a rule a small cost.
    pub reward_step: Binary64,
    /// Whether the derivation of every entry is traced. Traced entries stay in
    /// the corpus when they are pruned.
    pub full_trace: bool,
}

impl Tuning {
    /// The Q-learning step
    /// `current + alpha * (reward + gamma * best - current)`, each operation
    /// rounded as doubles are.
    pub open spec fn spec_step(
        self,
        current: Binary64,
        reward: Binary64,
        best: Binary64,
    ) -> Binary64 {
        current.plus(self.alpha.times(reward.plus(self.gamma.times(best)).minus(current)))
    }

    /// The Q-value after a step: never negative and never a NaN.
    pub open spec fn spec_learned(
        self,
        current: Binary64,
        reward: Binary64,
        best: Binary64,
    ) -> Binary64 {
        self.spec_step(current, reward, best).max(Binary64::zero())
    }

    /// The Q-value that `current` becomes on `reward`, where `best` is the
    /// greatest Q-value known.
    #[verifier::when_used_as_spec(spec_learned)]
    pub fn learned(self, current: Binary64, reward: Binary64, best: Binary64) -> (r: Binary64)
        ensures
            r == self.spec_learned(current, reward, best),
    {
        let target: Binary64 = reward.plus(self.gamma.times(best));
        current.plus(self.alpha.times(target.minus(current))).max(Binary64::zero())
    }
}

} // verus!
