# antecedent

Typed contracts of causal analysis and the bookkeeping of attribution, verified with Verus.

The library decides what may be said: when a query is well formed, which evidence a transport
query may use, what a compiled claim licenses and how claims compose, how a change or an anomaly
is shared among the components of a causal model.

## Layout

- `src/` is the verified library.
  - Claims and their surroundings: `claim`, `capability`, `obligation`, `reasoning`,
    `reason_code`, `provenance`, `transform`, `identity`, `response`, `execution`.
  - `query/`: effect, mediation, counterfactual, response, interference and transport queries,
    with evidence catalogs, their canonical order and their deltas.
  - `attribution/`: coalition games, Shapley values and sequential allocation, changes of
    distributions, structures and units, anomalies, arrows, mechanism changes and rankings.
  - `trajectory`: per-step counterfactuals on shared noise.
- `tests/` runs the library on concrete values, in double precision where numbers matter.
- `app/` is ordinary Rust around the library: double-precision numbers, samplers, threads,
  progress reports and display.

## Numbers

Levels in queries and claims are IEEE-754 bit patterns (`level::OrderedFloatBits`), so the rules
on them are rules on integers. The algorithms of attribution are generic over
`attribution::amount::Amount`, which names the arithmetic they use; contracts state which
operations are applied to which operands and in what order. Laws that need exact arithmetic
read the numbers as reals: that shares sum to the change (`attribution::efficiency`,
`attribution::conservation`), what single players are owed (`attribution::fairness`), and what
running means and spreads amount to (`attribution::moments`). That the ends of an interval are in
order holds of arithmetic that rounds, too (`attribution::intervals`).

Sampling, fitting and special functions are behind `attribution::engine::Engine`,
`attribution::mechanism_change::ResidualTests` and `trajectory::StepPredictor`.
