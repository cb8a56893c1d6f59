# stlcg

Signal Temporal Logic robustness evaluation on Burn tensors, verified with
Verus.

Formulas over named signals (`var("x").le(..).always(..)`) are evaluated on
time-reversed traces shaped `[batch, time, dim]`. The library proves, for
every formula and environment, which error evaluation reports (environment
shapes, then formula structure, then options, then the first missing signal
in reading order), that a successful evaluation returns a trace of the
environment's shape on its device, and that no tensor operation is called
on arguments that make Burn panic. The `checked_` evaluations return `None`
where the signals live on different devices or element types, on which Burn
would panic.

It also proves what the robustness is (`formula::robust`). An expression or
a predicate gives its value at every sample, computed in the signals'
element type (`rhs - lhs`, `lhs - rhs` or `-|lhs - rhs|` times the predicate
scale), a NaN exactly where IEEE arithmetic gives one; a negation toggles
the sign; an integral is the in-order sum of its integrand, running from the
oldest sample or over each finite window (`formula::cumulative_of`,
`formula::windowed_of`); and with exact aggregation a conjunction takes the
smallest child, a disjunction the largest, an implication the larger of the
negated premise and the conclusion, `always` and `eventually` the smallest
and largest sample of each window, and `until` and `then` the best
candidate time, or negative infinity where there is none. Distributed
exact aggregation gives the same wherever the extreme stands at a single
entry and every other entry is finite, and negative infinity for an empty
`until`/`then` window. Which of two zeros of opposite sign an extremum keeps
is left open: for `f32` Burn takes a SIMD path on long rows whose choice
depends on the machine. Smooth aggregation, and distributed aggregation
over ties, rest on exponentials, logarithms and SIMD sums whose rounding
depends on the machine.

`laws.rs` proves that with exact aggregation robustness is determined up to
the sign of a zero (exactly, for any aggregation, on formulas built from
expressions, predicates, negations and integrals), so that `robustness_at`,
`eval_trace` and `eval_at` read the trace that `robustness_trace` gives;
double negation; the duality of `always` and `eventually`; implication as a
disjunction; De Morgan; that `until` is never above `then`; that the
unbounded window bounds every window; the flattening of conjunctions and
disjunctions; and that an `until` or `then` without a candidate time gives
negative infinity.

Layout:

- `src/` — the verified library. `trace.rs` holds the Burn tensor operations
  the library calls, each behind a trusted contract on shapes, devices,
  element types and, where Burn's result does not depend on the machine,
  elements; `ops.rs` the robust minima and maxima built from them;
  `interval.rs` the temporal windows; `expr.rs` and `formula.rs` the
  formula AST, its validation and its evaluation; `env.rs` the signal
  environment; `laws.rs` properties that relate several operations.
- `tests/` — tests run against the compiled library.
- `app/` — the error type with its messages, text renderings of formulas,
  and conversions from `f64`.

Scalars are carried by their IEEE 754 binary64 encoding (`Binary64`); use
`Binary64::from_bits(x.to_bits())` or `app`'s `number(x)`.
