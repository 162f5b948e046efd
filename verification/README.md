# rl_scheduler

A corpus scheduler for fuzzers that learns which entries pay off. It selects by
epsilon-greedy Q-learning and prunes entries with low Q-values, and it is
verified with Verus.

- `src/binary64.rs`, `src/rounding.rs`, `src/arithmetic.rs`: double-precision
  numbers as bit patterns, with their exact values for a model. Each operation
  is proved to give the double nearest to the exact result, ties to even.
- `src/tuning.rs`: the constants, and the learning step.
- `src/reward.rs`: what an execution is worth.
- `src/metadata.rs`: Q-values, updates and the epsilon-greedy choice.
- `src/pruning.rs`: which entries a full corpus drops.
- `src/votes.rs`: data shared with vote-based schedulers.
- `src/scheduler.rs`: the scheduler's operations on its state.
- `src/laws.rs`, `src/exploring.rs`: what holds across operations, and how
  exploring draws spread over the entries.
- `app/`: the scheduler behind LibAFL's traits, with serializable copies of the
  data in the state's metadata. The logarithm in the reward is the machine's and
  is handed to the library.
- `tests/`: behaviour on concrete values, and comparison with the machine's
  floating point.
