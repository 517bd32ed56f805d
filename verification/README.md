# farkas_core

Exact Farkas-certificate search for linear arithmetic, verified with Verus.

Given hypotheses `t_i R 0` (`R` one of `<`, `<=`, `=`) over atoms
`0..=maxVar` (atom 0 is the constant), the engines look for nonnegative
integer weights whose weighted sum of the hypotheses cancels on every atom
and puts a positive weight on a strict hypothesis: a proof of `0 < 0`.

## Layout

- `src/` — the verified library
  - `arith`, `rational`: integer and reduced-fraction facts used everywhere
  - `bignum`: arbitrary-precision integers and rationals (calls into
    `num-bigint`, `num-integer` and `num-rational` behind trusted wrappers)
  - `rat`: tiered exact rationals (`i64`, `i128`, big) with canonical tiers
  - `counters`: per-tier operation counters
  - `types`, `json`: hypotheses, corpus rows and the request grammar
  - `verify`: the exact certificate checker
  - `simplex`: the mathematical model of the search (Gauss seed, Bland's
    rule, extraction and scaling)
  - `oracle`, `tiered`: the search over big rationals and over tiered ones
  - `hybrid`: exact repair of a floating-point support, and the routing
  - `soundness`: why every certificate the search returns refutes its input
  - `completeness`: why the search answers "no certificate" only when none
    exists (short of running out of pivots)
  - `daemon`: the line protocol's answers
  - `bench`: per-row bookkeeping of the benchmark report
- `app/` — the daemon and benchmark programs: I/O, timing, threads and the
  floating-point phase
- `tests/` — tests run against the compiled library
