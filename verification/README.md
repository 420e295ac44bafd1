# digishield_sim

A verified implementation of the Zcash Digishield difficulty adjustment and of the
block-window bookkeeping of a solvetime simulator built around it.

- `src/digishield.rs`: median time, harmonic mean of per-block difficulties, and the
  damped, bounded adjustment, each with an exact contract over spec functions.
- `src/laws.rs`: properties proved of the adjustment (clamping, monotonicity in the
  measured timespan, equilibrium on target, bounds of the mean, dependence on the median
  gap and the difficulty increments alone) and of the simulation (the new target is not
  read before the transition block).
- `src/simulation.rs`: the sliding window of the last 29 blocks, advanced one block at a
  time.
- `src/config.rs`, `src/plotting.rs`, `src/report.rs`: scenario parameters, the integer
  side of the fork-transition chart, and the Base64 chart sections of the report.
- `app/`: the program that draws random solvetimes in floating point, computes the
  floating-point statistics, plots with `plotters` and writes the HTML report.
