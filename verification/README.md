# bicmath

An exact-first symbolic calculus and descriptive-statistics library whose
logic is specified and proved with Verus.

## Layout

- `src/` — the verified library.
  - `number.rs`: exact rationals in lowest terms; arithmetic is delegated to
    `num-rational` / `num-bigint` behind small trusted wrappers whose
    contracts state the reduced fraction of each result.
  - `rational.rs`: the field laws of the fraction model (commutativity,
    associativity, identities, inverses) and sums and products of lists.
  - `expr.rs`, `ast.rs`: the restricted expression grammar, its mathematical
    view, validation, substitution and free variables.
  - `differentiate.rs`, `simplify.rs`, `evaluate.rs`, `taylor.rs`,
    `print.rs`: differentiation rules, exact constant folding and identity
    elimination, exact evaluation, Taylor coefficients, and the
    minimal-parenthesis printer, each specified by a spec function over the
    view.
  - `simplify_value.rs`: the proof that simplification keeps exact values
    (wherever the product flattening tallies signs right).
  - `symbolic.rs`: the user-facing operations (derivative, simplify, Taylor
    expansion, print, substitute, free variables) with their argument checks.
  - `stats.rs`: exact mean, variance, covariance, extremes, median,
    quantiles (R-7 conventions), modes, weighted mean, standard deviation and
    summary, with proved laws (sorting yields an ascending rearrangement,
    extremes bound every observation, the median lies between them, variances
    are non-negative, modes are exactly the most frequent values, quantiles
    lie between the order statistics around their position and do not depend
    on the order of the observations).
  - `stratified.rs`: the structure of stratified experiment inputs: unique
    stratum names, arm counts that add up, sign classes of outcomes, and the
    pooling of two experiments (strata matched by name, arms pooled with
    their numbers assigned added and outcome categories merged by key).
  - `assumptions.rs`, `params.rs`: stated assumptions and parameter checks
    (choices, whole numbers, success counts, count-table shapes), with the
    path of the argument at fault in each error.
- `tests/` — executable tests of the library.
- `app/` — the binary64 companions (special functions, float statistics,
  float Taylor coefficients) and JSON rendering, which the library does not
  model.
