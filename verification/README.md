# pg_rules

The rule machinery of a morphological parser whose pieces work on plain values, written in Verus
with its behaviour stated in `requires`/`ensures` contracts and proved.

- `cascade`: linear, permutation and combination rule cascades, deduplicated by key, with a cap on
  rule applications; each walk is specified by a spec function, the cap is proved not to change
  the result of a run it does not stop, and every word the linear walk keeps is proved to be kept by
  the permutation walk, and every word of the permutation walk by the combination walk.
- `stratum`: final-template policies and the analysis state a rule leaves, the analyzer
  configuration, the output sink and output fold of a stratum, the shared step budget (step cap and
  wall-clock deadline), and the live-frontier profile with its depth guard.
- `stats`: the per-word statistics collector (dense per-rule tables, a sparse table keyed by row,
  nesting-aware self-time regions, whose nested time is proved subtracted from the enclosing
  region's) and its row listing, proved to list exactly the non-zero rows in a fixed order.
- `trace`: the trace sink interface, the no-op sink, and the arena-backed trace tree.
- `memo_value`, `alt_delta`, `clock_sample`, `morph::dedup_profile`, `stats_calibrate`: diagnostic
  recorders (`stats_calibrate` with both the idle accumulator of ordinary builds and the live,
  nesting-aware one of calibration runs).
- `morph::attribution`: which input morph owns each output node, and the output word's morph
  records, one real record per maximal run of positions a morph owns, with the subsumption and
  floating-marker rules, sorted stably by position.
- `morph`, `metathesis`, `rewrite`, `bridge`: the plain-value steps of rule application (the
  keep-the-longer dedup insertion, the statistics attribution of allomorph loops, the metathesis
  node reordering, the width check, the identity-lane padding).
- `fxmap`, `clock`: the `rustc-hash` map and `web-time` clock operations the library calls, each
  behind a small trusted wrapper.

`app/` holds what stays outside verification: environment-variable gates and the floating-point
means and percentiles of the diagnostics.
