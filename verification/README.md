# granovetter_ties

An agent-based model of Granovetter's "The Strength of Weak Ties" (1973):
dense clusters of strong ties, bridged sparsely by weak ties, with
information spreading over the network by an SI process or a threshold
cascade. The library is written in Verus; its contracts and laws are
checked by the verifier.

## Layout

- `src/` — the verified library.
  - `graph.rs`, `paths.rs`: the tie network (a symmetric matrix of tie
    strengths), local bridges, reachability, components, shortest paths.
  - `network.rs`: the clustered generator (strong rings, random strong ties,
    triangle closure, weak bridges).
  - `mechanisms.rs`, `cascade.rs`: one synchronous diffusion round; the
    threshold cascade as a function of its start.
  - `simulation.rs`: building a world, the ablations, the diffusion run.
  - `metrics.rs`, `record.rs`: exact counts behind the measures, and the
    outcome of a trial.
  - `reproduce.rs`: the batch reproduction of the two headline claims.
  - `config.rs`, `rng.rs`, `world.rs`, `text.rs`: settings and their
    parsing, random streams, the state of a run.
  - `laws.rs`: properties that span functions (all bridges are weak, weak
    ties dominate reach, strong ties stay inside clusters, a higher
    threshold informs no more, a trial is fixed by its root seed, and
    others).
- `tests/` — tests on fixed inputs.
- `app/` — the command line (`run`, `ablation`, `sweep`, `reproduce`), the
  floating-point measures, and the files written for each run.

## Exact values in place of floats

The settings a user gives as doubles are turned into the exact values the
model compares against, from the bits of the double (`config.rs`):

- a probability `p` becomes `ceil(p * 2^53)` (`draw_threshold`): a draw
  succeeds when the 53 high bits of a random word, read as a number, are
  below it, which is exactly when the uniform double built from that word
  is below `p`;
- the cascade threshold `theta` becomes the fraction halfway between
  `theta` and the double below it (`share_threshold`): a share of informed
  neighbours reaches it exactly when the share, rounded to a double, is at
  least `theta`.

Shares, rates and means are computed by the command line from the exact
counts that the library returns.

## Random streams

Every random choice is drawn from a ChaCha20 stream (`rng.rs`). A stream
carries, as ghost state, the seed it was made from and the number of words
taken from it; the words themselves are named as a function of the two
(`stream_word`), as are an index drawn below a bound and a shuffle. On that
footing the generated network (`generated_from`), the order of the random
ablation (`random_removal_order`) and a whole run (`run_outcome`) are
stated as functions of the settings and the root seed.
