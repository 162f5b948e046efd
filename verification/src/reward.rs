//! What one execution was worth.
use vstd::prelude::*;

use crate::binary64::Binary64;
use crate::tuning::Tuning;

verus! {

/// Feedback of one execution, left for the scheduler to read.
#[derive(Clone, Copy, Debug, PartialEq, Eq, Structural)]
pub struct RewardSignal {
    /// How much closer to a branch the execution came; positive is closer.
    pub cmp_improvement: Binary64,
    /// Whether new coverage was found.
    pub new_coverage: bool,
    /// Whether a bug was found.
    pub bug_found: bool,
}

impl RewardSignal {
    /// The signal of an execution that achieved nothing.
    pub open spec fn blank() -> Self {
        RewardSignal { cmp_improvement: Binary64::zero(), new_coverage: false, bug_found: false }
    }

    /// The reward: the cost of the step, then the bug, the branch distance and
    /// the coverage, each added where it applies.
    pub open spec fn spec_compute_reward(self, tuning: Tuning, log_gain: Binary64) -> Binary64 {
        let base = tuning.reward_step;
        let with_bug = if self.bug_found {
            base.plus(tuning.reward_bug_found)
        } else {
            base
        };
        let with_distance = if Binary64::zero().lt(self.cmp_improvement) {
            with_bug.plus(tuning.reward_cmp_improve.times(log_gain))
        } else {
            with_bug
        };
        if self.new_coverage {
            with_distance.plus(tuning.reward_cov_new)
        } else {
            with_distance
        }
    }

    /// The signal of an execution that achieved nothing.
    pub fn new() -> (r: Self)
        ensures
            r == Self::blank(),
    {
        Self::default()
    }

    /// The total reward of the signal. `log_gain` is the natural logarithm of
    /// one plus `cmp_improvement`; it counts only where that is positive.
    #[verifier::when_used_as_spec(spec_compute_reward)]
    pub fn compute_reward(self, tuning: Tuning, log_gain: Binary64) -> (r: Binary64)
        ensures
            r == self.spec_compute_reward(tuning, log_gain),
    {
        let mut r: Binary64 = tuning.reward_step;
        if self.bug_found {
            r = r.plus(tuning.reward_bug_found);
        }
        if Binary64::zero().lt(self.cmp_improvement) {
            r = r.plus(tuning.reward_cmp_improve.times(log_gain));
        }
        if self.new_coverage {
            r = r.plus(tuning.reward_cov_new);
        }
        r
    }
}

impl Default for RewardSignal {
    fn default() -> (r: Self)
        ensures
            r == RewardSignal::blank(),
    {
        RewardSignal { cmp_improvement: Binary64::zero(), new_coverage: false, bug_found: false }
    }
}

} // verus!
