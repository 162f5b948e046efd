//! Scheduling of a fuzzer's corpus by epsilon-greedy Q-learning.
//!
//! Every corpus entry has a Q-value. Rewards raise or lower it, the scheduler
//! mostly executes the entry with the greatest one, and when the corpus grows
//! too large, entries with the lowest ones are dropped.
//!
//! Q-values and rewards are double-precision numbers. They are held as bit
//! patterns and computed with in [`arithmetic`], where every operation is
//! proved to be correctly rounded; [`numbers`] says what that means. What each
//! operation of the scheduler does is stated in [`effects`], and what holds of
//! it as a whole in [`laws`] and [`exploring`].

pub mod arithmetic;
pub mod binary64;
pub mod effects;
pub mod exploring;
pub mod laws;
pub mod metadata;
pub mod numbers;
pub mod pruning;
pub mod reward;
pub mod rounding;
pub mod scheduler;
pub mod tuning;
pub mod votes;
