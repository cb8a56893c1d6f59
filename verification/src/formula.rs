use vstd::prelude::*;
use vstd::std_specs::ops::NotSpecImpl;

use crate::env::SignalEnv;
use crate::error::{first_of, Fault, StlcgError};
use crate::expr::{
    evaluates, expr_value, bound, expr_vars, first_unbound, fits_env, lemma_first_unbound_append, lookup_outcome,
    ready_env, Expr,
};
use crate::interval::{
    candidate_indices, candidate_times, integral_offsets, integral_window_offsets, Interval,
};
use crate::options::{Aggregation, EvalOptions};
use crate::ops::{
    reaches_extreme, single_extreme, attains_extreme, children_column, lemma_broadcast_ones, lemma_broadcast_shapes,
    lemma_joined_steps, lemma_total_time_of_steps, maxish3, minish3, reduce_last_max,
    reduce_last_min, select_time, temporal, trace_ready, uniform, window_column, scaled_entries,
    smooth_extreme_of, smooth_max_of, smooth_min_of,
};
use crate::scalar::{Binary64, NEG_INFINITY_BITS};
use crate::trace::{
    alike, alike_seqs, alike_traces, lemma_alike_basics, lemma_rectified_alike, lemma_binary_value, lemma_same_number_ops, lemma_same_sum, add_value, div_value, sum_value, above_zero, attains_max, attains_min, clear_sign, conv_value, element_at, flip_sign, float_add,
    float_div, float_from_f64, float_sub, float_sum, in_shape, is_nan_bits, mask_values, mul_value, no_nan,
    rectified, same_number, sub_value, time_column, trace_values, two_bits,
};
use crate::trace::{
    absolute, cat_time, constant, conforms, cumsum_time, dims, dtype_is_float, duplicate, expand,
    halve, mask_device, mask_shape, minus, narrow_time, negate, plus, positive, rectify,
    same_place, shape3, sum_time, times, trace_device, trace_dtype, trace_shape, zeros_like,
    BoolTrace, Trace,
};

verus! {

/// Comparison used by a predicate.
#[derive(Debug, Clone, Copy, PartialEq, Eq, Structural)]
pub enum PredicateOp {
    /// Robustness `rhs - lhs`.
    LessEqual,
    /// Robustness `lhs - rhs`.
    GreaterEqual,
    /// Robustness `-abs(lhs - rhs)`.
    Equal,
}

/// Integration scheme for [`Formula::Integral`].
#[derive(Debug, Clone, Copy, PartialEq, Eq, Structural)]
pub enum IntegrationScheme {
    /// Sum of samples.
    Riemann,
    /// Trapezoid rule.
    Trapezoid,
}

/// Padding used for finite-window integrals.
#[derive(Debug, Clone, Copy)]
pub enum PaddingMode {
    /// Pad with zero.
    Zero,
    /// Pad with the latest sample.
    Same,
    /// Pad with the given value.
    Custom(crate::scalar::Binary64),
}

/// Options used by the integral formula.
#[derive(Debug, Clone, Copy)]
pub struct IntegralOptions {
    /// `None` for a cumulative integral, otherwise the window.
    pub interval: Option<Interval>,
    /// Clamp the integrand at zero.
    pub use_relu: bool,
    /// Padding for window offsets beyond the trace.
    pub padding: PaddingMode,
    /// Integration scheme.
    pub scheme: IntegrationScheme,
}

impl IntegralOptions {
    /// A cumulative Riemann integral.
    pub fn cumulative() -> (r: Self)
        ensures
            r.interval is None,
            !r.use_relu,
            r.padding is Same,
            r.scheme == IntegrationScheme::Riemann,
    {
        IntegralOptions {
            interval: None,
            use_relu: false,
            padding: PaddingMode::Same,
            scheme: IntegrationScheme::Riemann,
        }
    }

    /// A Riemann integral over a finite window.
    pub fn window(interval: Interval) -> (r: Self)
        ensures
            r.interval == Some(interval),
            !r.use_relu,
            r.padding is Same,
            r.scheme == IntegrationScheme::Riemann,
    {
        IntegralOptions {
            interval: Some(interval),
            use_relu: false,
            padding: PaddingMode::Same,
            scheme: IntegrationScheme::Riemann,
        }
    }
}

impl Default for IntegralOptions {
    fn default() -> (r: Self)
        ensures
            r.interval is None,
            !r.use_relu,
            r.padding is Same,
            r.scheme == IntegrationScheme::Riemann,
    {
        Self::cumulative()
    }
}

/// STL formula AST.
#[derive(Debug)]
#[allow(inconsistent_fields)]
pub enum Formula {
    /// An expression used directly as robustness.
    Expression(Expr),
    /// A comparison of two expressions.
    Predicate {
        /// Left-hand side.
        lhs: Expr,
        /// Comparison.
        op: PredicateOp,
        /// Right-hand side.
        rhs: Expr,
    },
    /// Negation.
    Not(Box<Formula>),
    /// Conjunction of all children.
    And(Vec<Formula>),
    /// Disjunction of all children.
    Or(Vec<Formula>),
    /// Implication.
    Implies(Box<Formula>, Box<Formula>),
    /// The subformula holds throughout the window.
    Always {
        /// Subformula.
        subformula: Box<Formula>,
        /// Window.
        interval: Interval,
    },
    /// The subformula holds somewhere in the window.
    Eventually {
        /// Subformula.
        subformula: Box<Formula>,
        /// Window.
        interval: Interval,
    },
    /// `lhs` holds until `rhs` does.
    Until {
        /// Left-hand side.
        lhs: Box<Formula>,
        /// Right-hand side.
        rhs: Box<Formula>,
        /// Window for the right-hand side.
        interval: Interval,
        /// Whether `rhs` may hold at the same step as `lhs`.
        overlap: bool,
    },
    /// `lhs` holds at some point, then `rhs` does.
    Then {
        /// Left-hand side.
        lhs: Box<Formula>,
        /// Right-hand side.
        rhs: Box<Formula>,
        /// Window for the right-hand side.
        interval: Interval,
        /// Whether `rhs` may hold at the same step as `lhs`.
        overlap: bool,
    },
    /// Integral of the subformula's robustness.
    Integral {
        /// Subformula.
        subformula: Box<Formula>,
        /// Integration options.
        options: IntegralOptions,
    },
}

/// The children that a conjunction built from `f` starts from.
pub open spec fn conjuncts(f: Formula) -> Seq<Formula> {
    match f {
        Formula::And(children) => children@,
        _ => seq![f],
    }
}

/// The children that a disjunction built from `f` starts from.
pub open spec fn disjuncts(f: Formula) -> Seq<Formula> {
    match f {
        Formula::Or(children) => children@,
        _ => seq![f],
    }
}

/// The fault that validating `f` reports first, if any: in each node its
/// own interval or emptiness comes before its children, left to right.
pub open spec fn formula_fault(f: Formula) -> Option<Fault>
    decreases f,
{
    match f {
        Formula::Expression(_) => None,
        Formula::Predicate { .. } => None,
        Formula::Not(s) => formula_fault(*s),
        Formula::And(children) => if children@.len() == 0 {
            Some(Fault::EmptyFormulaSet)
        } else {
            children_fault(children@)
        },
        Formula::Or(children) => if children@.len() == 0 {
            Some(Fault::EmptyFormulaSet)
        } else {
            children_fault(children@)
        },
        Formula::Implies(l, r) => first_of(formula_fault(*l), formula_fault(*r)),
        Formula::Always { subformula, interval } => first_of(interval.fault(), formula_fault(*subformula)),
        Formula::Eventually { subformula, interval } => first_of(interval.fault(), formula_fault(*subformula)),
        Formula::Until { lhs, rhs, interval, .. } => first_of(
            interval.fault(),
            first_of(formula_fault(*lhs), formula_fault(*rhs)),
        ),
        Formula::Then { lhs, rhs, interval, .. } => first_of(
            interval.fault(),
            first_of(formula_fault(*lhs), formula_fault(*rhs)),
        ),
        Formula::Integral { subformula, options } => first_of(
            match options.interval {
                Some(i) => i.fault(),
                None => None,
            },
            formula_fault(*subformula),
        ),
    }
}

/// The first fault among children, left to right.
pub open spec fn children_fault(children: Seq<Formula>) -> Option<Fault>
    decreases children,
{
    if children.len() == 0 {
        None
    } else {
        first_of(formula_fault(children[0]), children_fault(children.drop_first()))
    }
}

/// The signal names that evaluating `f` looks up, in the order of lookup.
pub open spec fn formula_vars(f: Formula) -> Seq<Seq<char>>
    decreases f,
{
    match f {
        Formula::Expression(e) => expr_vars(e),
        Formula::Predicate { lhs, rhs, .. } => expr_vars(lhs) + expr_vars(rhs),
        Formula::Not(s) => formula_vars(*s),
        Formula::And(children) => children_vars(children@),
        Formula::Or(children) => children_vars(children@),
        Formula::Implies(l, r) => formula_vars(*l) + formula_vars(*r),
        Formula::Always { subformula, .. } => formula_vars(*subformula),
        Formula::Eventually { subformula, .. } => formula_vars(*subformula),
        Formula::Until { lhs, rhs, .. } => formula_vars(*lhs) + formula_vars(*rhs),
        Formula::Then { lhs, rhs, .. } => formula_vars(*lhs) + formula_vars(*rhs),
        Formula::Integral { subformula, .. } => formula_vars(*subformula),
    }
}

/// The signal names that evaluating the children looks up, child by child.
pub open spec fn children_vars(children: Seq<Formula>) -> Seq<Seq<char>>
    decreases children,
{
    if children.len() == 0 {
        Seq::empty()
    } else {
        formula_vars(children[0]) + children_vars(children.drop_first())
    }
}

/// The first missing signal that evaluating `f` meets, as a fault.
pub open spec fn missing_signal(f: Formula, env: SignalEnv) -> Option<Fault> {
    match first_unbound(formula_vars(f), env) {
        Some(n) => Some(Fault::MissingSignal(n)),
        None => None,
    }
}

/// The error that [`Formula::robustness_trace`] reports, if any: the
/// environment's shapes, then the formula's structure, then the options,
/// then the first missing signal.
pub open spec fn robustness_fault(f: Formula, env: SignalEnv, options: EvalOptions) -> Option<Fault> {
    first_of(
        env.shape_fault(),
        first_of(formula_fault(f), first_of(options.fault(), missing_signal(f, env))),
    )
}

/// Each sample of `t` inside `shape` is the negation of the sample of `u`:
/// its sign toggled (a NaN stays a NaN).
pub open spec fn negation_of(u: Trace, t: Trace, shape: Seq<usize>) -> bool {
    forall|b: int, i: int, d: int|
        0 <= b < shape[0] && 0 <= i < shape[1] && 0 <= d < shape[2] ==> same_number(
            #[trigger] trace_values(t)[b][i][d],
            flip_sign(trace_values(u)[b][i][d]),
        )
}

/// Each sample of `t` inside `shape` is the smallest (`is_min`) or largest of
/// the samples of `ts` there (a NaN where one of those is one).
pub open spec fn combines(ts: Seq<Trace>, t: Trace, shape: Seq<usize>, is_min: bool) -> bool {
    forall|b: int, i: int, d: int|
        0 <= b < shape[0] && 0 <= i < shape[1] && 0 <= d < shape[2] ==> if is_min {
            attains_min(children_column(ts, b, i, d), #[trigger] trace_values(t)[b][i][d])
        } else {
            attains_max(children_column(ts, b, i, d), #[trigger] trace_values(t)[b][i][d])
        }
}

/// Each sample of `t` inside `shape` is the larger of the negated sample of
/// `u` and the sample of `w` (a NaN where one of those is one).
pub open spec fn implication_of(u: Trace, w: Trace, t: Trace, shape: Seq<usize>) -> bool {
    forall|b: int, i: int, d: int|
        0 <= b < shape[0] && 0 <= i < shape[1] && 0 <= d < shape[2] ==> attains_max(
            seq![flip_sign(trace_values(u)[b][i][d]), trace_values(w)[b][i][d]],
            #[trigger] trace_values(t)[b][i][d],
        )
}

/// Each sample of `t` inside `shape` is attained in its window of `u`: the
/// smallest there for an `always`, the largest for an `eventually`.
pub open spec fn windows_of(u: Trace, t: Trace, interval: Interval, shape: Seq<usize>, is_always: bool) -> bool {
    forall|b: int, i: int, d: int|
        0 <= b < shape[0] && 0 <= i < shape[1] && 0 <= d < shape[2] ==> attains_extreme(
            window_column(u, interval, i, b, d),
            #[trigger] trace_values(t)[b][i][d],
            is_always,
        )
}

/// What a predicate or an expression formula gives at the place `[b][i][d]`,
/// as an encoding, computed in the element type of the environment's
/// signals: the expression, or `rhs - lhs` for `<=`, `lhs - rhs` for `>=`
/// and `-|lhs - rhs|` for equality, times the predicate scale.
pub open spec fn atom_value(f: Formula, env: SignalEnv, options: EvalOptions, b: int, i: int, d: int) -> u64 {
    let dtype = trace_dtype(env.entries()[0].1);
    let scale = conv_value(dtype, options.predicate_scale.bits);
    match f {
        Formula::Expression(e) => mul_value(dtype, expr_value(e, env, b, i, d), scale),
        Formula::Predicate { lhs, op, rhs } => mul_value(dtype, margin_value(lhs, op, rhs, env, b, i, d), scale),
        _ => 0,
    }
}

/// How far a predicate holds at `[b][i][d]` before scaling: `rhs - lhs` for
/// `<=`, `lhs - rhs` for `>=` and `-|lhs - rhs|` for equality.
pub open spec fn margin_value(lhs: Expr, op: PredicateOp, rhs: Expr, env: SignalEnv, b: int, i: int, d: int) -> u64 {
    let dtype = trace_dtype(env.entries()[0].1);
    let l = expr_value(lhs, env, b, i, d);
    let r = expr_value(rhs, env, b, i, d);
    match op {
        PredicateOp::LessEqual => sub_value(dtype, r, l),
        PredicateOp::GreaterEqual => sub_value(dtype, l, r),
        PredicateOp::Equal => flip_sign(clear_sign(sub_value(dtype, l, r))),
    }
}

/// Each sample of `m` is the predicate's margin there (up to the bits of a
/// NaN).
pub open spec fn margin_of(m: Trace, lhs: Expr, op: PredicateOp, rhs: Expr, env: SignalEnv) -> bool {
    forall|b: int, i: int, d: int|
        in_shape(env.expected_shape(), b, i, d) ==> same_number(
            #[trigger] trace_values(m)[b][i][d],
            margin_value(lhs, op, rhs, env, b, i, d),
        )
}

/// Each sample of `t` is what the predicate or expression formula `f` gives
/// there (up to the bits of a NaN).
pub open spec fn atom_of(f: Formula, env: SignalEnv, options: EvalOptions, t: Trace) -> bool {
    forall|b: int, i: int, d: int|
        in_shape(env.expected_shape(), b, i, d) ==> same_number(
            #[trigger] trace_values(t)[b][i][d],
            atom_value(f, env, options, b, i, d),
        )
}

/// With exact aggregation, `t` combines `ts` as [`combines`] says; with
/// distributed exact aggregation, as [`combines_once`] says; with smooth
/// aggregation, as [`combines_smoothly`] says.
pub open spec fn combination(ts: Seq<Trace>, t: Trace, shape: Seq<usize>, aggregation: Aggregation, is_min: bool) -> bool {
    &&& aggregation is Exact ==> combines(ts, t, shape, is_min)
    &&& aggregation is DistributedExact ==> combines_once(ts, t, shape, is_min)
    &&& aggregation is Smooth ==> combines_smoothly(ts, t, shape, aggregation->scale.bits, is_min)
}

/// Each sample of `t` inside `shape` is the smooth minimum (`is_min`) or
/// maximum of the samples of `ts` at that place, with the scale that
/// `scale_bits` encodes.
pub open spec fn combines_smoothly(ts: Seq<Trace>, t: Trace, shape: Seq<usize>, scale_bits: u64, is_min: bool) -> bool {
    forall|b: int, i: int, d: int|
        0 <= b < shape[0] && 0 <= i < shape[1] && 0 <= d < shape[2] ==> smooth_extreme_of(
            #[trigger] trace_values(t)[b][i][d],
            children_column(ts, b, i, d),
            trace_dtype(ts[0]),
            scale_bits,
            is_min,
        )
}

/// Wherever the samples of `ts` hold no NaN and their smallest (`is_min`)
/// or largest stands in a single one of them, every other finite, the sample
/// of `t` is that one, up to the sign of a zero.
pub open spec fn combines_once(ts: Seq<Trace>, t: Trace, shape: Seq<usize>, is_min: bool) -> bool {
    forall|b: int, i: int, d: int|
        0 <= b < shape[0] && 0 <= i < shape[1] && 0 <= d < shape[2] && single_extreme(children_column(ts, b, i, d), !is_min)
            ==> reaches_extreme(children_column(ts, b, i, d), #[trigger] trace_values(t)[b][i][d], !is_min)
}

/// With exact aggregation, `t` is the implication of `u` and `w` as
/// [`implication_of`] says; with distributed exact aggregation, as
/// [`implication_once`] says; with smooth aggregation, as
/// [`implication_smoothly`] says.
pub open spec fn implication(u: Trace, w: Trace, t: Trace, shape: Seq<usize>, aggregation: Aggregation) -> bool {
    &&& aggregation is Exact ==> implication_of(u, w, t, shape)
    &&& aggregation is DistributedExact ==> implication_once(u, w, t, shape)
    &&& aggregation is Smooth ==> implication_smoothly(u, w, t, shape, aggregation->scale.bits)
}

/// Each sample of `t` inside `shape` is the smooth maximum of the negated
/// sample of `u` and the sample of `w`, with the scale that `scale_bits`
/// encodes.
pub open spec fn implication_smoothly(u: Trace, w: Trace, t: Trace, shape: Seq<usize>, scale_bits: u64) -> bool {
    forall|b: int, i: int, d: int|
        0 <= b < shape[0] && 0 <= i < shape[1] && 0 <= d < shape[2] ==> smooth_max_of(
            #[trigger] trace_values(t)[b][i][d],
            seq![flip_sign(trace_values(u)[b][i][d]), trace_values(w)[b][i][d]],
            trace_dtype(u),
            scale_bits,
        )
}

/// Wherever the negated sample of `u` and the sample of `w` hold no NaN and
/// differ, the larger finite or both finite but the larger, the sample of
/// `t` is the larger, up to the sign of a zero.
pub open spec fn implication_once(u: Trace, w: Trace, t: Trace, shape: Seq<usize>) -> bool {
    forall|b: int, i: int, d: int|
        0 <= b < shape[0] && 0 <= i < shape[1] && 0 <= d < shape[2] && single_extreme(
            seq![flip_sign(trace_values(u)[b][i][d]), trace_values(w)[b][i][d]],
            true,
        ) ==> reaches_extreme(
            seq![flip_sign(trace_values(u)[b][i][d]), trace_values(w)[b][i][d]],
            #[trigger] trace_values(t)[b][i][d],
            true,
        )
}

/// With exact aggregation, `t` is taken over the windows of `u` as
/// [`windows_of`] says; with distributed exact aggregation, as
/// [`windows_once`] says; with smooth aggregation, as [`windows_smoothly`]
/// says.
pub open spec fn windowing(u: Trace, t: Trace, interval: Interval, shape: Seq<usize>, aggregation: Aggregation, is_always: bool) -> bool {
    &&& aggregation is Exact ==> windows_of(u, t, interval, shape, is_always)
    &&& aggregation is DistributedExact ==> windows_once(u, t, interval, shape, is_always)
    &&& aggregation is Smooth ==> windows_smoothly(u, t, interval, shape, aggregation->scale.bits, is_always)
}

/// Each sample of `t` inside `shape` is the smooth minimum (`always`) or
/// maximum of its window of `u`, with the scale that `scale_bits` encodes.
pub open spec fn windows_smoothly(u: Trace, t: Trace, interval: Interval, shape: Seq<usize>, scale_bits: u64, is_always: bool) -> bool {
    forall|b: int, i: int, d: int|
        0 <= b < shape[0] && 0 <= i < shape[1] && 0 <= d < shape[2] ==> smooth_extreme_of(
            #[trigger] trace_values(t)[b][i][d],
            window_column(u, interval, i, b, d),
            trace_dtype(u),
            scale_bits,
            is_always,
        )
}

/// Wherever a window of `u` holds no NaN and its smallest (`always`) or
/// largest sample stands at a single time, every other finite, the sample of
/// `t` is that one, up to the sign of a zero.
pub open spec fn windows_once(u: Trace, t: Trace, interval: Interval, shape: Seq<usize>, is_always: bool) -> bool {
    forall|b: int, i: int, d: int|
        0 <= b < shape[0] && 0 <= i < shape[1] && 0 <= d < shape[2] && single_extreme(
            window_column(u, interval, i, b, d),
            !is_always,
        ) ==> reaches_extreme(window_column(u, interval, i, b, d), #[trigger] trace_values(t)[b][i][d], !is_always)
}

/// The samples of feature `d` in batch `b` of `u` from time `c` to time `i`.
pub open spec fn span_column(u: Trace, c: int, i: int, b: int, d: int) -> Seq<u64> {
    Seq::new((i - c + 1) as nat, |k: int| trace_values(u)[b][c + k][d])
}

/// `x` is what the candidate time `c` gives at step `i` of an `until` (or,
/// with `then`, of a `then`): the smaller of the right-hand side at `c` and
/// of the smallest (`until`) or largest (`then`) left-hand side from `c` to
/// `i` (a NaN where one of those is one).
pub open spec fn candidate_value(u: Trace, w: Trace, c: int, i: int, b: int, d: int, x: u64, then: bool) -> bool {
    exists|y: u64|
        #[trigger] prefix_extreme(span_column(u, c, i, b, d), y, then) && attains_min(
            seq![trace_values(w)[b][c][d], y],
            x,
        )
}

/// `y` is the smallest of `col` for an `until`, the largest for a `then`.
pub open spec fn prefix_extreme(col: Seq<u64>, y: u64, then: bool) -> bool {
    attains_extreme(col, y, !then)
}

/// `col` holds, time by time, what each of the candidate times `cs` gives
/// at step `i`.
pub open spec fn candidate_column(u: Trace, w: Trace, cs: Seq<usize>, i: int, b: int, d: int, col: Seq<u64>, then: bool) -> bool {
    &&& col.len() == cs.len()
    &&& forall|k: int| 0 <= k < cs.len() ==> candidate_value(u, w, cs[k] as int, i, b, d, #[trigger] col[k], then)
}

/// `v` is what an `until` (or a `then`) gives at `[b][i][d]`: negative
/// infinity, in the element type, without candidate times; otherwise the
/// largest of what the candidates give (a NaN where one of those is one).
pub open spec fn until_value(u: Trace, w: Trace, cs: Seq<usize>, i: int, b: int, d: int, v: u64, then: bool, dtype: int) -> bool {
    if cs.len() == 0 {
        v == float_from_f64(dtype, NEG_INFINITY_BITS)
    } else {
        exists|col: Seq<u64>| #[trigger] candidate_column(u, w, cs, i, b, d, col, then) && attains_max(col, v)
    }
}

/// Each sample of `t` inside `shape` is what an `until` (or a `then`) over
/// `interval` gives from `u` and `w` there.
pub open spec fn until_of(u: Trace, w: Trace, t: Trace, interval: Interval, shape: Seq<usize>, then: bool, dtype: int) -> bool {
    forall|b: int, i: int, d: int|
        in_shape(shape, b, i, d) ==> until_value(
            u,
            w,
            candidate_times(interval, i),
            i,
            b,
            d,
            #[trigger] trace_values(t)[b][i][d],
            then,
            dtype,
        )
}

/// `x` is what the candidate time `c` gives at step `i` of an `until` (or,
/// with `then`, of a `then`) under smooth aggregation with the scale that
/// `scale_bits` encodes: the smooth minimum of the right-hand side at `c` and
/// of the smooth minimum (`until`) or maximum (`then`) of the left-hand side
/// from `c` to `i`.
pub open spec fn smooth_candidate_value(
    u: Trace,
    w: Trace,
    c: int,
    i: int,
    b: int,
    d: int,
    x: u64,
    then: bool,
    dtype: int,
    scale_bits: u64,
) -> bool {
    exists|y: u64|
        #[trigger] smooth_prefix_extreme(span_column(u, c, i, b, d), y, then, dtype, scale_bits) && smooth_min_of(
            x,
            seq![trace_values(w)[b][c][d], y],
            dtype,
            scale_bits,
        )
}

/// `y` is the smooth minimum (`then` false) or maximum (`then`) of `col`
/// with the scale that `scale_bits` encodes.
pub open spec fn smooth_prefix_extreme(col: Seq<u64>, y: u64, then: bool, dtype: int, scale_bits: u64) -> bool {
    smooth_extreme_of(y, col, dtype, scale_bits, !then)
}

/// `col` holds, in order, what each of the candidate times `cs` gives under
/// smooth aggregation.
pub open spec fn smooth_candidate_column(
    u: Trace,
    w: Trace,
    cs: Seq<usize>,
    i: int,
    b: int,
    d: int,
    col: Seq<u64>,
    then: bool,
    dtype: int,
    scale_bits: u64,
) -> bool {
    &&& col.len() == cs.len()
    &&& forall|k: int|
        0 <= k < cs.len() ==> smooth_candidate_value(u, w, cs[k] as int, i, b, d, #[trigger] col[k], then, dtype, scale_bits)
}

/// `v` is what an `until` (or a `then`) gives at `[b][i][d]` under smooth
/// aggregation: the smooth maximum of negative infinity alone, in the
/// element type, without candidate times; otherwise the smooth maximum of
/// what the candidates give.
pub open spec fn smooth_until_value(
    u: Trace,
    w: Trace,
    cs: Seq<usize>,
    i: int,
    b: int,
    d: int,
    v: u64,
    then: bool,
    dtype: int,
    scale_bits: u64,
) -> bool {
    if cs.len() == 0 {
        smooth_max_of(v, seq![float_from_f64(dtype, NEG_INFINITY_BITS)], dtype, scale_bits)
    } else {
        exists|col: Seq<u64>|
            #[trigger] smooth_candidate_column(u, w, cs, i, b, d, col, then, dtype, scale_bits) && smooth_max_of(
                v,
                col,
                dtype,
                scale_bits,
            )
    }
}

/// Each sample of `t` inside `shape` is what an `until` (or a `then`) over
/// `interval` gives from `u` and `w` there under smooth aggregation.
pub open spec fn smooth_until_of(
    u: Trace,
    w: Trace,
    t: Trace,
    interval: Interval,
    shape: Seq<usize>,
    then: bool,
    dtype: int,
    scale_bits: u64,
) -> bool {
    forall|b: int, i: int, d: int|
        in_shape(shape, b, i, d) ==> smooth_until_value(
            u,
            w,
            candidate_times(interval, i),
            i,
            b,
            d,
            #[trigger] trace_values(t)[b][i][d],
            then,
            dtype,
            scale_bits,
        )
}

/// How an `until` (or a `then`) builds `t` from robustness traces `u` of its
/// left-hand side and `w` of its right-hand side: with overlap it reads `w`
/// itself, otherwise `shifted`, the largest of `w` over the window `[0, 1]`;
/// with exact aggregation each sample is [`until_value`]; with distributed
/// exact aggregation a sample without candidate times is negative infinity,
/// in the element type, up to the sign of a zero; with smooth aggregation
/// each sample is [`smooth_until_value`]. Without overlap, `shifted` is an
/// `eventually` of `w` over `[0, 1]` under the same aggregation.
pub open spec fn until_built(
    u: Trace,
    w: Trace,
    shifted: Trace,
    t: Trace,
    interval: Interval,
    overlap: bool,
    shape: Seq<usize>,
    aggregation: Aggregation,
    then: bool,
    dtype: int,
) -> bool {
    &&& overlap ==> shifted == w
    &&& aggregation is Exact ==> {
        &&& !overlap ==> windows_of(w, shifted, Interval::Closed { start: 0, end: 1 }, shape, false)
        &&& until_of(u, shifted, t, interval, shape, then, dtype)
    }
    &&& aggregation is DistributedExact ==> forall|b: int, i: int, d: int|
        in_shape(shape, b, i, d) && candidate_times(interval, i).len() == 0 ==> alike(
            #[trigger] trace_values(t)[b][i][d],
            float_from_f64(dtype, NEG_INFINITY_BITS),
        )
    &&& aggregation is Smooth ==> smooth_until_of(u, shifted, t, interval, shape, then, dtype, aggregation->scale.bits)
    &&& !overlap ==> windowing(w, shifted, Interval::Closed { start: 0, end: 1 }, shape, aggregation, false)
}

/// `t` is a robustness trace of `f` over `env` under `options`: it has the
/// shape and place of the environment's signals, and it is built from
/// robustness traces of the subformulas as the operator says. An expression
/// or a predicate gives [`atom_value`] at each sample (up to the bits of a
/// NaN); a negation toggles signs; an integral sums its subformula's trace as
/// [`integration`] says; with exact aggregation a conjunction takes the
/// smallest child, a disjunction the largest, an implication the larger of
/// the negated premise and the conclusion, an `always` the smallest sample of
/// its window, an `eventually` the largest, and an `until` or a `then` what
/// [`until_built`] says. With distributed exact aggregation the same holds
/// wherever the extreme stands at a single entry and every other entry is
/// finite (up to the sign of a zero), and a `until` or `then` without
/// candidate time is negative infinity; elsewhere it averages ties in an
/// order of the machine's choosing. With smooth aggregation each of those
/// extremes is a smooth one, as [`smooth_max_of`] and [`smooth_min_of`] say:
/// a log-sum-exp of the scaled entries (shifted by their largest) divided by
/// the scale, whose logarithm of a sum of exponentials is left open.
pub open spec fn robust(f: Formula, env: SignalEnv, options: EvalOptions, t: Trace) -> bool
    decreases f,
{
    let shape = env.expected_shape();
    let aggregation = options.aggregation;
    let dtype = trace_dtype(env.entries()[0].1);
    &&& fits_env(t, env)
    &&& match f {
        Formula::Expression(_) => atom_of(f, env, options, t),
        Formula::Predicate { .. } => atom_of(f, env, options, t),
        Formula::Not(s) => exists|u: Trace| #[trigger] negation_of(u, t, shape) && robust(*s, env, options, u),
        Formula::And(cs) => exists|ts: Seq<Trace>|
            #[trigger] combination(ts, t, shape, aggregation, true) && robust_children(cs@, env, options, ts),
        Formula::Or(cs) => exists|ts: Seq<Trace>|
            #[trigger] combination(ts, t, shape, aggregation, false) && robust_children(cs@, env, options, ts),
        Formula::Implies(l, r) => exists|u: Trace, w: Trace|
            #[trigger] implication(u, w, t, shape, aggregation) && robust(*l, env, options, u) && robust(
                *r,
                env,
                options,
                w,
            ),
        Formula::Always { subformula, interval } => exists|u: Trace|
            #[trigger] windowing(u, t, interval, shape, aggregation, true) && robust(*subformula, env, options, u),
        Formula::Eventually { subformula, interval } => exists|u: Trace|
            #[trigger] windowing(u, t, interval, shape, aggregation, false) && robust(*subformula, env, options, u),
        Formula::Until { lhs, rhs, interval, overlap } => exists|u: Trace, w: Trace, shifted: Trace|
            #[trigger] until_built(u, w, shifted, t, interval, overlap, shape, aggregation, false, dtype) && robust(
                *lhs,
                env,
                options,
                u,
            ) && robust(*rhs, env, options, w),
        Formula::Then { lhs, rhs, interval, overlap } => exists|u: Trace, w: Trace, shifted: Trace|
            #[trigger] until_built(u, w, shifted, t, interval, overlap, shape, aggregation, true, dtype) && robust(
                *lhs,
                env,
                options,
                u,
            ) && robust(*rhs, env, options, w),
        Formula::Integral { subformula, options: integral_options } => exists|u: Trace|
            #[trigger] integration(u, t, integral_options) && robust(*subformula, env, options, u),
    }
}

/// `t` integrates `u` as `options` say: the running integral without an
/// interval, the finite-window integral with one.
pub open spec fn integration(u: Trace, t: Trace, options: IntegralOptions) -> bool {
    match options.interval {
        None => cumulative_of(u, t, options),
        Some(interval) => windowed_of(u, t, interval, options),
    }
}

/// `ts` holds, child by child, a robustness trace of each of `children`.
pub open spec fn robust_children(children: Seq<Formula>, env: SignalEnv, options: EvalOptions, ts: Seq<Trace>) -> bool
    decreases children,
{
    &&& ts.len() == children.len()
    &&& children.len() > 0 ==> {
        &&& robust(children[0], env, options, ts[0])
        &&& robust_children(children.drop_first(), env, options, ts.drop_first())
    }
}

impl Formula {
    /// Treat an expression as a formula.
    pub fn expression(expr: Expr) -> (r: Self)
        ensures
            r == Formula::Expression(expr),
    {
        Formula::Expression(expr)
    }

    /// The predicate `lhs <= rhs`.
    pub(crate) fn less_equal(lhs: Expr, rhs: Expr) -> (r: Self)
        ensures
            r == (Formula::Predicate { lhs, op: PredicateOp::LessEqual, rhs }),
    {
        Formula::Predicate { lhs, op: PredicateOp::LessEqual, rhs }
    }

    /// The predicate `lhs >= rhs`.
    pub(crate) fn greater_equal(lhs: Expr, rhs: Expr) -> (r: Self)
        ensures
            r == (Formula::Predicate { lhs, op: PredicateOp::GreaterEqual, rhs }),
    {
        Formula::Predicate { lhs, op: PredicateOp::GreaterEqual, rhs }
    }

    /// The predicate `lhs == rhs`.
    pub(crate) fn equal(lhs: Expr, rhs: Expr) -> (r: Self)
        ensures
            r == (Formula::Predicate { lhs, op: PredicateOp::Equal, rhs }),
    {
        Formula::Predicate { lhs, op: PredicateOp::Equal, rhs }
    }

    /// Negation.
    pub fn negated(self) -> (r: Self)
        ensures
            r == Formula::Not(Box::new(self)),
    {
        Formula::Not(Box::new(self))
    }

    /// Conjunction; conjunctions on either side are flattened into one.
    pub fn and(self, rhs: Self) -> (r: Self)
        ensures
            r matches Formula::And(children) && children@ == conjuncts(self) + conjuncts(rhs),
    {
        let ghost left = conjuncts(self);
        let ghost right = conjuncts(rhs);
        let mut children = match self {
            Formula::And(children) => children,
            other => {
                let mut v: Vec<Formula> = Vec::new();
                v.push(other);
                v
            }
        };
        assert(children@ =~= left);
        match rhs {
            Formula::And(mut rhs_children) => {
                children.append(&mut rhs_children);
            }
            other => {
                children.push(other);
            }
        }
        assert(children@ =~= left + right);
        Formula::And(children)
    }

    /// Disjunction; disjunctions on either side are flattened into one.
    pub fn or(self, rhs: Self) -> (r: Self)
        ensures
            r matches Formula::Or(children) && children@ == disjuncts(self) + disjuncts(rhs),
    {
        let ghost left = disjuncts(self);
        let ghost right = disjuncts(rhs);
        let mut children = match self {
            Formula::Or(children) => children,
            other => {
                let mut v: Vec<Formula> = Vec::new();
                v.push(other);
                v
            }
        };
        assert(children@ =~= left);
        match rhs {
            Formula::Or(mut rhs_children) => {
                children.append(&mut rhs_children);
            }
            other => {
                children.push(other);
            }
        }
        assert(children@ =~= left + right);
        Formula::Or(children)
    }

    /// Implication.
    pub fn implies(self, rhs: Self) -> (r: Self)
        ensures
            r == Formula::Implies(Box::new(self), Box::new(rhs)),
    {
        Formula::Implies(Box::new(self), Box::new(rhs))
    }

    /// The formula holds throughout the window.
    pub fn always(self, interval: Interval) -> (r: Self)
        ensures
            r == (Formula::Always { subformula: Box::new(self), interval }),
    {
        Formula::Always { subformula: Box::new(self), interval }
    }

    /// The formula holds somewhere in the window.
    pub fn eventually(self, interval: Interval) -> (r: Self)
        ensures
            r == (Formula::Eventually { subformula: Box::new(self), interval }),
    {
        Formula::Eventually { subformula: Box::new(self), interval }
    }

    /// This formula holds until `rhs` does.
    pub fn until(self, rhs: Self, interval: Interval, overlap: bool) -> (r: Self)
        ensures
            r == (Formula::Until { lhs: Box::new(self), rhs: Box::new(rhs), interval, overlap }),
    {
        Formula::Until { lhs: Box::new(self), rhs: Box::new(rhs), interval, overlap }
    }

    /// This formula holds at some point, then `rhs` does.
    pub fn then(self, rhs: Self, interval: Interval, overlap: bool) -> (r: Self)
        ensures
            r == (Formula::Then { lhs: Box::new(self), rhs: Box::new(rhs), interval, overlap }),
    {
        Formula::Then { lhs: Box::new(self), rhs: Box::new(rhs), interval, overlap }
    }

    /// The integral of this formula's robustness.
    pub fn integral(self, options: IntegralOptions) -> (r: Self)
        ensures
            r == (Formula::Integral { subformula: Box::new(self), options }),
    {
        Formula::Integral { subformula: Box::new(self), options }
    }

    /// Check the structure: every conjunction and disjunction has children,
    /// and every interval is well formed.
    pub fn validate(&self) -> (r: Result<(), StlcgError>)
        ensures
            r is Ok <==> formula_fault(*self) is None,
            r matches Err(e) ==> Some(e@) == formula_fault(*self),
        decreases self,
    {
        match self {
            Formula::Expression(_) => Ok(()),
            Formula::Predicate { .. } => Ok(()),
            Formula::Not(subformula) => subformula.validate(),
            Formula::And(children) => {
                if children.len() == 0 {
                    return Err(StlcgError::EmptyFormulaSet);
                }
                validate_children(children)
            }
            Formula::Or(children) => {
                if children.len() == 0 {
                    return Err(StlcgError::EmptyFormulaSet);
                }
                validate_children(children)
            }
            Formula::Implies(lhs, rhs) => {
                lhs.validate()?;
                rhs.validate()
            }
            Formula::Until { lhs, rhs, interval, .. } => {
                interval.validate()?;
                lhs.validate()?;
                rhs.validate()
            }
            Formula::Then { lhs, rhs, interval, .. } => {
                interval.validate()?;
                lhs.validate()?;
                rhs.validate()
            }
            Formula::Always { subformula, interval } => {
                interval.validate()?;
                subformula.validate()
            }
            Formula::Eventually { subformula, interval } => {
                interval.validate()?;
                subformula.validate()
            }
            Formula::Integral { subformula, options } => {
                match options.interval {
                    Some(interval) => interval.validate()?,
                    None => {},
                }
                subformula.validate()
            }
        }
    }
}

/// Validate the children of a conjunction or disjunction, left to right.
fn validate_children(children: &Vec<Formula>) -> (r: Result<(), StlcgError>)
    ensures
        r is Ok <==> children_fault(children@) is None,
        r matches Err(e) ==> Some(e@) == children_fault(children@),
    decreases children,
{
    let mut i: usize = 0;
    assert(children@.skip(0) =~= children@);
    while i < children.len()
        invariant
            0 <= i <= children@.len(),
            children_fault(children@) == children_fault(children@.skip(i as int)),
        decreases children@.len() - i,
    {
        assert(children@.skip(i as int).drop_first() =~= children@.skip(i + 1));
        assert(children@.skip(i as int)[0] == children@[i as int]);
        proof {
            assert(decreases_to!(*children => children@[i as int]));
        }
        children[i].validate()?;
        i = i + 1;
    }
    assert(children@.skip(i as int).len() == 0);
    Ok(())
}

/// The fault that [`Formula::robustness_at`] reports, if any: that of the
/// whole trace, then a time beyond its end.
pub open spec fn robustness_at_fault(f: Formula, env: SignalEnv, time: usize, options: EvalOptions) -> Option<Fault> {
    first_of(
        robustness_fault(f, env, options),
        if time >= env.expected_shape()[1] {
            Some(Fault::TimeOutOfBounds { time, len: env.expected_shape()[1] })
        } else {
            None
        },
    )
}

/// What [`Formula::robustness_trace`] gives: the error that
/// [`robustness_fault`] names, or else a robustness trace of the formula.
pub open spec fn trace_outcome(r: Result<Trace, StlcgError>, f: Formula, env: SignalEnv, options: EvalOptions) -> bool {
    match robustness_fault(f, env, options) {
        Some(e) => r matches Err(x) && x@ == e,
        None => r matches Ok(t) && robust(f, env, options, t),
    }
}

/// `t` holds, for every batch, the sample of `full` at non-reversed time
/// `time`, that is at index `len - time - 1`.
pub open spec fn sample_of(full: Trace, t: Trace, time: usize, shape: Seq<usize>) -> bool {
    forall|b: int| 0 <= b < shape[0] ==> #[trigger] trace_values(t)[b][0] == trace_values(full)[b][shape[1] - 1 - time]
}

/// What [`Formula::robustness_at`] gives: the error that
/// [`robustness_at_fault`] names, or else the sample at `time` of a
/// robustness trace of the formula.
pub open spec fn at_outcome(r: Result<Trace, StlcgError>, f: Formula, env: SignalEnv, time: usize, options: EvalOptions) -> bool {
    match robustness_at_fault(f, env, time, options) {
        Some(e) => r matches Err(x) && x@ == e,
        None => r matches Ok(t) && env.expected_shape().len() == 3 && trace_shape(t) == env.expected_shape().update(
            1,
            1usize,
        ) && same_place(t, env.entries()[0].1) && exists|full: Trace|
            #[trigger] sample_of(full, t, time, env.expected_shape()) && robust(f, env, options, full),
    }
}

/// Each place of `m` inside `shape` holds whether the sample of `full` there
/// is greater than zero.
pub open spec fn positive_of(full: Trace, m: BoolTrace, shape: Seq<usize>) -> bool {
    forall|b: int, i: int, d: int|
        0 <= b < shape[0] && 0 <= i < shape[1] && 0 <= d < shape[2] ==> #[trigger] mask_values(m)[b][i][d]
            == above_zero(trace_values(full)[b][i][d])
}

/// What [`Formula::eval_trace`] gives: the error that [`robustness_fault`]
/// names, or else where a robustness trace of the formula is greater than
/// zero.
pub open spec fn mask_outcome(r: Result<BoolTrace, StlcgError>, f: Formula, env: SignalEnv, options: EvalOptions) -> bool {
    match robustness_fault(f, env, options) {
        Some(e) => r matches Err(x) && x@ == e,
        None => r matches Ok(m) && mask_shape(m) == env.expected_shape() && mask_device(m) == trace_device(
            env.entries()[0].1,
        ) && exists|full: Trace|
            #[trigger] positive_of(full, m, env.expected_shape()) && robust(f, env, options, full),
    }
}

/// Each place of the single step of `m` holds whether the sample of `full`
/// at non-reversed time `time` is greater than zero.
pub open spec fn positive_at(full: Trace, m: BoolTrace, time: usize, shape: Seq<usize>) -> bool {
    forall|b: int, d: int|
        0 <= b < shape[0] && 0 <= d < shape[2] ==> #[trigger] mask_values(m)[b][0][d] == above_zero(
            trace_values(full)[b][shape[1] - 1 - time][d],
        )
}

/// What [`Formula::eval_at`] gives: the error that [`robustness_at_fault`]
/// names, or else whether a robustness trace of the formula is greater than
/// zero at `time`.
pub open spec fn mask_at_outcome(r: Result<BoolTrace, StlcgError>, f: Formula, env: SignalEnv, time: usize, options: EvalOptions) -> bool {
    match robustness_at_fault(f, env, time, options) {
        Some(e) => r matches Err(x) && x@ == e,
        None => r matches Ok(m) && mask_shape(m) == env.expected_shape().update(1, 1usize) && mask_device(m)
            == trace_device(env.entries()[0].1) && exists|full: Trace|
            #[trigger] positive_at(full, m, time, env.expected_shape()) && robust(f, env, options, full),
    }
}

/// Multiplies a trace by a scalar.
fn scaled(t: Trace, factor: Binary64) -> (r: Trace)
    requires
        trace_shape(t).len() == 3,
        dtype_is_float(trace_dtype(t)),
    ensures
        conforms(r, t),
        forall|b: int, i: int, d: int|
            in_shape(trace_shape(t), b, i, d) ==> same_number(
                #[trigger] trace_values(r)[b][i][d],
                mul_value(trace_dtype(t), trace_values(t)[b][i][d], conv_value(trace_dtype(t), factor.bits)),
            ),
{
    let c = constant(&t, factor);
    proof {
        lemma_broadcast_ones(trace_shape(t), trace_shape(c));
    }
    let ghost gt = t;
    let r = times(t, c);
    proof {
        assert forall|b: int, i: int, d: int| in_shape(trace_shape(gt), b, i, d) implies same_number(
            #[trigger] trace_values(r)[b][i][d],
            mul_value(trace_dtype(gt), trace_values(gt)[b][i][d], conv_value(trace_dtype(gt), factor.bits)),
        ) by {
            assert(element_at(c, b, i, d) == trace_values(c)[0][0][0]);
            assert(element_at(gt, b, i, d) == trace_values(gt)[b][i][d]);
            assert(in_shape(trace_shape(r), b, i, d));
            assert(crate::trace::nan_spreads(gt, c, r, b, i, d));
        }
    }
    r
}

impl Formula {
    /// Robustness of every subformula, evaluated over a validated environment.
    fn robustness_trace_inner(&self, env: &SignalEnv, options: EvalOptions) -> (r: Result<Trace, StlcgError>)
        requires
            ready_env(*env),
            formula_fault(*self) is None,
        ensures
            lookup_outcome(r, formula_vars(*self), *env),
            r matches Ok(t) ==> robust(*self, *env, options, t),
        decreases self, 1nat,
    {
        proof {
            lemma_broadcast_shapes(env.expected_shape(), 0);
        }
        let ghost shape = env.expected_shape();
        match self {
            Formula::Expression(expr) => {
                let u = expr.eval(env)?;
                let ghost gu = u;
                let t = scaled(u, options.predicate_scale);
                proof {
                    assert(trace_shape(gu) == shape);
                    assert forall|b: int, i: int, d: int| in_shape(shape, b, i, d) implies same_number(
                        #[trigger] trace_values(t)[b][i][d],
                        atom_value(*self, *env, options, b, i, d),
                    ) by {
                        let scale = conv_value(trace_dtype(gu), options.predicate_scale.bits);
                        lemma_same_number_ops(trace_dtype(gu), trace_values(gu)[b][i][d], expr_value(*expr, *env, b, i, d), scale, scale);
                        lemma_same_number_ops(
                            trace_dtype(gu),
                            trace_values(t)[b][i][d],
                            mul_value(trace_dtype(gu), trace_values(gu)[b][i][d], scale),
                            scale,
                            scale,
                        );
                    }
                    assert(atom_of(*self, *env, options, t));
                }
                assert(robust(*self, *env, options, t));
                Ok(t)
            }
            Formula::Predicate { lhs, op, rhs } => {
                proof {
                    lemma_first_unbound_append(expr_vars(*lhs), expr_vars(*rhs), *env);
                }
                let l = lhs.eval(env)?;
                let r = rhs.eval(env)?;
                let ghost (gl, gr) = (l, r);
                let ghost dtype = trace_dtype(env.entries()[0].1);
                let margin = match op {
                    PredicateOp::LessEqual => {
                        let m = minus(r, l);
                        proof {
                            assert forall|b: int, i: int, d: int| in_shape(shape, b, i, d) implies same_number(
                                #[trigger] trace_values(m)[b][i][d],
                                margin_value(*lhs, *op, *rhs, *env, b, i, d),
                            ) by {
                                assert(in_shape(trace_shape(m), b, i, d));
                                assert(crate::trace::nan_spreads(gr, gl, m, b, i, d));
                                assert(element_at(gr, b, i, d) == trace_values(gr)[b][i][d]);
                                assert(element_at(gl, b, i, d) == trace_values(gl)[b][i][d]);
                                let x = trace_values(gr)[b][i][d];
                                let y = trace_values(gl)[b][i][d];
                                lemma_binary_value(trace_values(m)[b][i][d], x, y, float_sub(dtype, x, y), sub_value(dtype, x, y));
                                lemma_same_number_ops(dtype, x, expr_value(*rhs, *env, b, i, d), y, expr_value(*lhs, *env, b, i, d));
                                lemma_same_number_ops(dtype, trace_values(m)[b][i][d], sub_value(dtype, x, y), 0, 0);
                            }
                        }
                        m
                    },
                    PredicateOp::GreaterEqual => {
                        let m = minus(l, r);
                        proof {
                            assert forall|b: int, i: int, d: int| in_shape(shape, b, i, d) implies same_number(
                                #[trigger] trace_values(m)[b][i][d],
                                margin_value(*lhs, *op, *rhs, *env, b, i, d),
                            ) by {
                                assert(in_shape(trace_shape(m), b, i, d));
                                assert(crate::trace::nan_spreads(gl, gr, m, b, i, d));
                                assert(element_at(gr, b, i, d) == trace_values(gr)[b][i][d]);
                                assert(element_at(gl, b, i, d) == trace_values(gl)[b][i][d]);
                                let x = trace_values(gl)[b][i][d];
                                let y = trace_values(gr)[b][i][d];
                                lemma_binary_value(trace_values(m)[b][i][d], x, y, float_sub(dtype, x, y), sub_value(dtype, x, y));
                                lemma_same_number_ops(dtype, x, expr_value(*lhs, *env, b, i, d), y, expr_value(*rhs, *env, b, i, d));
                                lemma_same_number_ops(dtype, trace_values(m)[b][i][d], sub_value(dtype, x, y), 0, 0);
                            }
                        }
                        m
                    },
                    PredicateOp::Equal => {
                        let difference = minus(l, r);
                        let ghost gd = difference;
                        let size = absolute(difference);
                        let ghost gs = size;
                        let m = negate(size);
                        proof {
                            assert forall|b: int, i: int, d: int| in_shape(shape, b, i, d) implies same_number(
                                #[trigger] trace_values(m)[b][i][d],
                                margin_value(*lhs, *op, *rhs, *env, b, i, d),
                            ) by {
                                assert(in_shape(trace_shape(gd), b, i, d));
                                assert(crate::trace::nan_spreads(gl, gr, gd, b, i, d));
                                assert(element_at(gr, b, i, d) == trace_values(gr)[b][i][d]);
                                assert(element_at(gl, b, i, d) == trace_values(gl)[b][i][d]);
                                let x = trace_values(gl)[b][i][d];
                                let y = trace_values(gr)[b][i][d];
                                let dv = trace_values(gd)[b][i][d];
                                lemma_binary_value(dv, x, y, float_sub(dtype, x, y), sub_value(dtype, x, y));
                                lemma_same_number_ops(dtype, x, expr_value(*lhs, *env, b, i, d), y, expr_value(*rhs, *env, b, i, d));
                                let ev = sub_value(dtype, expr_value(*lhs, *env, b, i, d), expr_value(*rhs, *env, b, i, d));
                                lemma_same_number_ops(dtype, dv, sub_value(dtype, x, y), 0, 0);
                                assert(same_number(dv, ev));
                                lemma_same_number_ops(dtype, dv, ev, 0, 0);
                                let sv = trace_values(gs)[b][i][d];
                                crate::trace::lemma_sign_keeps_nan(dv);
                                assert(same_number(sv, clear_sign(dv)));
                                lemma_same_number_ops(dtype, clear_sign(dv), clear_sign(ev), 0, 0);
                                lemma_same_number_ops(dtype, sv, clear_sign(dv), 0, 0);
                                crate::trace::lemma_sign_keeps_nan(sv);
                                assert(same_number(trace_values(m)[b][i][d], flip_sign(sv)));
                                lemma_same_number_ops(dtype, sv, clear_sign(ev), 0, 0);
                                lemma_same_number_ops(dtype, trace_values(m)[b][i][d], flip_sign(sv), 0, 0);
                            }
                        }
                        m
                    },
                };
                assert(margin_of(margin, *lhs, *op, *rhs, *env));
                let ghost gm = margin;
                let t = scaled(margin, options.predicate_scale);
                proof {
                    assert forall|b: int, i: int, d: int| in_shape(shape, b, i, d) implies same_number(
                        #[trigger] trace_values(t)[b][i][d],
                        atom_value(*self, *env, options, b, i, d),
                    ) by {
                        let scale = conv_value(trace_dtype(gm), options.predicate_scale.bits);
                        let mv = margin_value(*lhs, *op, *rhs, *env, b, i, d);
                        lemma_same_number_ops(trace_dtype(gm), trace_values(gm)[b][i][d], mv, scale, scale);
                        lemma_same_number_ops(
                            trace_dtype(gm),
                            trace_values(t)[b][i][d],
                            mul_value(trace_dtype(gm), trace_values(gm)[b][i][d], scale),
                            scale,
                            scale,
                        );
                    }
                    assert(atom_of(*self, *env, options, t));
                }
                assert(robust(*self, *env, options, t));
                Ok(t)
            }
            Formula::Not(subformula) => {
                let u = subformula.robustness_trace_inner(env, options)?;
                let ghost gu = u;
                let t = negate(u);
                proof {
                    assert(trace_shape(gu) == shape);
                    assert(negation_of(gu, t, shape));
                    assert(robust(**subformula, *env, options, gu));
                    assert(robust(*self, *env, options, t));
                }
                Ok(t)
            }
            Formula::And(children) => {
                let traces = eval_children(children, env, options)?;
                let ghost ts = traces@;
                proof {
                    all_fit_uniform(traces@, *env);
                }
                let t = reduce_last_min(traces, options.aggregation);
                proof {
                    assert(trace_shape(ts[0]) == shape);
                    assert(combination(ts, t, shape, options.aggregation, true));
                    assert(robust_children(children@, *env, options, ts));
                    assert(robust(*self, *env, options, t));
                }
                Ok(t)
            }
            Formula::Or(children) => {
                let traces = eval_children(children, env, options)?;
                let ghost ts = traces@;
                proof {
                    all_fit_uniform(traces@, *env);
                }
                let t = reduce_last_max(traces, options.aggregation);
                proof {
                    assert(trace_shape(ts[0]) == shape);
                    assert(combination(ts, t, shape, options.aggregation, false));
                    assert(robust_children(children@, *env, options, ts));
                    assert(robust(*self, *env, options, t));
                }
                Ok(t)
            }
            Formula::Implies(lhs, rhs) => {
                proof {
                    lemma_first_unbound_append(formula_vars(**lhs), formula_vars(**rhs), *env);
                }
                let lhs_trace = lhs.robustness_trace_inner(env, options)?;
                let ghost u = lhs_trace;
                let a = negate(lhs_trace);
                let b = rhs.robustness_trace_inner(env, options)?;
                let ghost w = b;
                let mut pair: Vec<Trace> = Vec::new();
                pair.push(a);
                pair.push(b);
                let ghost ps = pair@;
                proof {
                    all_fit_uniform(pair@, *env);
                }
                let t = reduce_last_max(pair, options.aggregation);
                proof {
                    assert(trace_shape(u) == shape);
                    assert(trace_shape(ps[0]) == shape);
                    if options.aggregation is Exact {
                        assert forall|bb: int, i: int, d: int|
                            0 <= bb < shape[0] && 0 <= i < shape[1] && 0 <= d < shape[2] implies attains_max(
                            seq![flip_sign(trace_values(u)[bb][i][d]), trace_values(w)[bb][i][d]],
                            #[trigger] trace_values(t)[bb][i][d],
                        ) by {
                            let x = trace_values(u)[bb][i][d];
                            let col = children_column(ps, bb, i, d);
                            let spec = seq![flip_sign(x), trace_values(w)[bb][i][d]];
                            crate::trace::lemma_sign_keeps_nan(x);
                            assert(col.len() == 2 && col[0] == trace_values(ps[0])[bb][i][d] && col[1] == trace_values(w)[bb][i][d]);
                            if !is_nan_bits(x) {
                                lemma_flip_keeps_number(x);
                                assert(col =~= spec);
                            } else {
                                assert(is_nan_bits(col[0]));
                                assert(!no_nan(col));
                                assert(!no_nan(spec));
                            }
                        }
                        assert(implication_of(u, w, t, shape));
                    }
                    if options.aggregation is DistributedExact {
                        assert forall|bb: int, i: int, d: int|
                            0 <= bb < shape[0] && 0 <= i < shape[1] && 0 <= d < shape[2] && single_extreme(
                                seq![flip_sign(trace_values(u)[bb][i][d]), trace_values(w)[bb][i][d]],
                                true,
                            ) implies reaches_extreme(
                            seq![flip_sign(trace_values(u)[bb][i][d]), trace_values(w)[bb][i][d]],
                            #[trigger] trace_values(t)[bb][i][d],
                            true,
                        ) by {
                            let x = trace_values(u)[bb][i][d];
                            let col = children_column(ps, bb, i, d);
                            let spec = seq![flip_sign(x), trace_values(w)[bb][i][d]];
                            crate::trace::lemma_sign_keeps_nan(x);
                            assert(col.len() == 2 && col[0] == trace_values(ps[0])[bb][i][d] && col[1] == trace_values(w)[bb][i][d]);
                            assert(!is_nan_bits(spec[0]));
                            lemma_flip_keeps_number(x);
                            assert(col =~= spec);
                        }
                        assert(implication_once(u, w, t, shape));
                    }
                    if options.aggregation is Smooth {
                        let bits = options.aggregation->scale.bits;
                        assert forall|bb: int, i: int, d: int|
                            0 <= bb < shape[0] && 0 <= i < shape[1] && 0 <= d < shape[2] implies smooth_max_of(
                            #[trigger] trace_values(t)[bb][i][d],
                            seq![flip_sign(trace_values(u)[bb][i][d]), trace_values(w)[bb][i][d]],
                            trace_dtype(u),
                            bits,
                        ) by {
                            let x = trace_values(u)[bb][i][d];
                            let col = children_column(ps, bb, i, d);
                            let spec = seq![flip_sign(x), trace_values(w)[bb][i][d]];
                            let dtype = trace_dtype(u);
                            crate::trace::lemma_sign_keeps_nan(x);
                            assert(col.len() == 2 && col[0] == trace_values(ps[0])[bb][i][d] && col[1] == trace_values(w)[bb][i][d]);
                            if !is_nan_bits(x) {
                                lemma_flip_keeps_number(x);
                                assert(col =~= spec);
                            } else {
                                assert(is_nan_bits(col[0]));
                                assert(scaled_entries(col, dtype, bits) =~= scaled_entries(spec, dtype, bits));
                            }
                        }
                        assert(implication_smoothly(u, w, t, shape, bits));
                    }
                    assert(implication(u, w, t, shape, options.aggregation));
                    assert(robust(**lhs, *env, options, u));
                    assert(robust(**rhs, *env, options, w));
                    assert(robust(*self, *env, options, t));
                }
                Ok(t)
            }
            Formula::Always { subformula, interval } => {
                let sub = subformula.robustness_trace_inner(env, options)?;
                let ghost u = sub;
                let t = temporal(sub, *interval, options.aggregation, true);
                proof {
                    assert(trace_shape(u) == shape);
                    assert(windowing(u, t, *interval, shape, options.aggregation, true));
                    assert(robust(**subformula, *env, options, u));
                    assert(robust(*self, *env, options, t));
                }
                Ok(t)
            }
            Formula::Eventually { subformula, interval } => {
                let sub = subformula.robustness_trace_inner(env, options)?;
                let ghost u = sub;
                let t = temporal(sub, *interval, options.aggregation, false);
                proof {
                    assert(trace_shape(u) == shape);
                    assert(windowing(u, t, *interval, shape, options.aggregation, false));
                    assert(robust(**subformula, *env, options, u));
                    assert(robust(*self, *env, options, t));
                }
                Ok(t)
            }
            Formula::Until { lhs, rhs, interval, overlap } => {
                let t = until_or_then(Ghost(*self), env, options, lhs, rhs, *interval, *overlap, false)?;
                assert(robust(*self, *env, options, t));
                Ok(t)
            }
            Formula::Then { lhs, rhs, interval, overlap } => {
                let t = until_or_then(Ghost(*self), env, options, lhs, rhs, *interval, *overlap, true)?;
                assert(robust(*self, *env, options, t));
                Ok(t)
            }
            Formula::Integral { subformula, options: integral_options } => {
                let u = subformula.robustness_trace_inner(env, options)?;
                let ghost gu = u;
                let t = integral(u, *integral_options);
                assert(integration(gu, t, *integral_options));
                assert(robust(*self, *env, options, t));
                Ok(t)
            }
        }
    }

    /// Robustness trace, `[batch, time, dim]`, of the formula over the
    /// environment. The environment's shapes are checked first, then the
    /// formula's structure, then the options, then the signals it names.
    pub fn robustness_trace(&self, env: &SignalEnv, options: EvalOptions) -> (r: Result<Trace, StlcgError>)
        requires
            env.storage_agrees(),
        ensures
            trace_outcome(r, *self, *env, options),
    {
        env.validate_compatible_shapes()?;
        self.validate()?;
        options.validate()?;
        self.robustness_trace_inner(env, options)
    }

    /// Robustness at non-reversed time `time`: the sample `len - time - 1`
    /// of the robustness trace, `[batch, 1, dim]` (see [`crate::sample_at`]).
    pub fn robustness_at(&self, env: &SignalEnv, time: usize, options: EvalOptions) -> (r: Result<Trace, StlcgError>)
        requires
            env.storage_agrees(),
        ensures
            at_outcome(r, *self, *env, time, options),
    {
        let trace = self.robustness_trace(env, options)?;
        let ghost full = trace;
        let r = crate::sample_at(trace, time);
        proof {
            if r is Ok {
                assert(sample_of(full, r->Ok_0, time, env.expected_shape()));
            }
        }
        r
    }

    /// Where the robustness trace is positive.
    pub fn eval_trace(&self, env: &SignalEnv, options: EvalOptions) -> (r: Result<BoolTrace, StlcgError>)
        requires
            env.storage_agrees(),
        ensures
            mask_outcome(r, *self, *env, options),
    {
        let trace = self.robustness_trace(env, options)?;
        let ghost full = trace;
        let m = positive(trace);
        assert(positive_of(full, m, env.expected_shape()));
        Ok(m)
    }

    /// Whether the robustness at non-reversed time `time` is positive.
    pub fn eval_at(&self, env: &SignalEnv, time: usize, options: EvalOptions) -> (r: Result<BoolTrace, StlcgError>)
        requires
            env.storage_agrees(),
        ensures
            mask_at_outcome(r, *self, *env, time, options),
    {
        let t = self.robustness_at(env, time, options)?;
        let ghost shape = env.expected_shape();
        let ghost full = choose|full: Trace| #[trigger] sample_of(full, t, time, shape) && robust(*self, *env, options, full);
        let m = positive(t);
        proof {
            assert forall|b: int, d: int| 0 <= b < shape[0] && 0 <= d < shape[2] implies #[trigger] mask_values(m)[b][0][d]
                == above_zero(trace_values(full)[b][shape[1] - 1 - time][d]) by {
                assert(trace_values(t)[b][0] == trace_values(full)[b][shape[1] - 1 - time]);
            }
            assert(positive_at(full, m, time, shape));
        }
        Ok(m)
    }
}

impl Formula {
    /// [`Formula::robustness_trace`] where the environment's signals share
    /// one device and one float element type; `None` where they do not, on
    /// which the tensor backend would panic.
    pub fn checked_robustness_trace(&self, env: &SignalEnv, options: EvalOptions) -> (r: Option<
        Result<Trace, StlcgError>,
    >)
        ensures
            r is None <==> !env.storage_agrees(),
            r matches Some(inner) ==> trace_outcome(inner, *self, *env, options),
    {
        if env.shares_storage() {
            Some(self.robustness_trace(env, options))
        } else {
            None
        }
    }

    /// [`Formula::robustness_at`] where the environment's signals share one
    /// device and one float element type; `None` where they do not.
    pub fn checked_robustness_at(&self, env: &SignalEnv, time: usize, options: EvalOptions) -> (r:
        Option<Result<Trace, StlcgError>>)
        ensures
            r is None <==> !env.storage_agrees(),
            r matches Some(inner) ==> at_outcome(inner, *self, *env, time, options),
    {
        if env.shares_storage() {
            Some(self.robustness_at(env, time, options))
        } else {
            None
        }
    }

    /// [`Formula::eval_trace`] where the environment's signals share one
    /// device and one float element type; `None` where they do not.
    pub fn checked_eval_trace(&self, env: &SignalEnv, options: EvalOptions) -> (r: Option<
        Result<BoolTrace, StlcgError>,
    >)
        ensures
            r is None <==> !env.storage_agrees(),
            r matches Some(inner) ==> mask_outcome(inner, *self, *env, options),
    {
        if env.shares_storage() {
            Some(self.eval_trace(env, options))
        } else {
            None
        }
    }

    /// [`Formula::eval_at`] where the environment's signals share one device
    /// and one float element type; `None` where they do not.
    pub fn checked_eval_at(&self, env: &SignalEnv, time: usize, options: EvalOptions) -> (r: Option<
        Result<BoolTrace, StlcgError>,
    >)
        ensures
            r is None <==> !env.storage_agrees(),
            r matches Some(inner) ==> mask_at_outcome(inner, *self, *env, time, options),
    {
        if env.shares_storage() {
            Some(self.eval_at(env, time, options))
        } else {
            None
        }
    }
}

/// Robustness traces of each child, in order, make up robustness traces of
/// the children.
proof fn lemma_robust_children(cs: Seq<Formula>, env: SignalEnv, options: EvalOptions, ts: Seq<Trace>)
    requires
        ts.len() == cs.len(),
        forall|k: int| 0 <= k < cs.len() ==> robust(cs[k], env, options, #[trigger] ts[k]),
    ensures
        robust_children(cs, env, options, ts),
    decreases cs.len(),
{
    if cs.len() > 0 {
        let rest = cs.drop_first();
        let rest_ts = ts.drop_first();
        assert forall|k: int| 0 <= k < rest.len() implies robust(rest[k], env, options, #[trigger] rest_ts[k]) by {
            assert(rest[k] == cs[k + 1]);
            assert(rest_ts[k] == ts[k + 1]);
        }
        lemma_robust_children(rest, env, options, rest_ts);
        assert(robust(cs[0], env, options, ts[0]));
    }
}

/// The sign toggle keeps a number a number, undoes itself, and reverses the
/// order of the numbers.
pub proof fn lemma_flip_keeps_number(x: u64)
    requires
        !is_nan_bits(x),
    ensures
        !is_nan_bits(flip_sign(x)),
        flip_sign(flip_sign(x)) == x,
        crate::trace::order_key(flip_sign(x)) == -crate::trace::order_key(x),
{
}

/// Traces that each fit the environment are of one shape and place.
proof fn all_fit_uniform(ts: Seq<Trace>, env: SignalEnv)
    requires
        ready_env(env),
        ts.len() > 0,
        forall|k: int| 0 <= k < ts.len() ==> fits_env(#[trigger] ts[k], env),
    ensures
        uniform(ts),
{
    assert(fits_env(ts[0], env));
    assert(same_place(env.entries()[0].1, env.entries()[0].1));
}

/// Robustness of each child, left to right.
fn eval_children(children: &Vec<Formula>, env: &SignalEnv, options: EvalOptions) -> (r: Result<Vec<Trace>, StlcgError>)
    requires
        ready_env(*env),
        children_fault(children@) is None,
    ensures
        match first_unbound(children_vars(children@), *env) {
            Some(n) => r matches Err(e) && e@ == Fault::MissingSignal(n),
            None => r matches Ok(ts) && ts@.len() == children@.len()
                && (forall|k: int| 0 <= k < ts@.len() ==> fits_env(#[trigger] ts@[k], *env))
                && robust_children(children@, *env, options, ts@),
        },
    decreases children, 0nat,
{
    let mut out: Vec<Trace> = Vec::new();
    let mut i: usize = 0;
    assert(children@.skip(0) =~= children@);
    while i < children.len()
        invariant
            0 <= i <= children@.len(),
            ready_env(*env),
            children_fault(children@.skip(i as int)) is None,
            first_unbound(children_vars(children@), *env)
                == first_unbound(children_vars(children@.skip(i as int)), *env),
            out@.len() == i,
            forall|k: int| 0 <= k < out@.len() ==> fits_env(#[trigger] out@[k], *env),
            forall|k: int| 0 <= k < out@.len() ==> robust(children@[k], *env, options, #[trigger] out@[k]),
        decreases children@.len() - i,
    {
        let ghost rest = children@.skip(i as int);
        assert(rest.drop_first() =~= children@.skip(i + 1));
        assert(rest[0] == children@[i as int]);
        proof {
            lemma_first_unbound_append(formula_vars(rest[0]), children_vars(rest.drop_first()), *env);
            assert(decreases_to!(*children => children@[i as int]));
        }
        let t = children[i].robustness_trace_inner(env, options)?;
        out.push(t);
        i = i + 1;
    }
    assert(children@.skip(i as int).len() == 0);
    proof {
        lemma_robust_children(children@, *env, options, out@);
    }
    Ok(out)
}

/// `formula` is `lhs until rhs` (`then` false) or `lhs then rhs` (`then`
/// true) over `interval`.
pub open spec fn binary_temporal_parts(
    formula: Formula,
    lhs: Formula,
    rhs: Formula,
    interval: Interval,
    overlap: bool,
    then: bool,
) -> bool {
    match formula {
        Formula::Until { lhs: l, rhs: r, interval: i, overlap: o } => !then && *l == lhs && *r == rhs
            && i == interval && o == overlap,
        Formula::Then { lhs: l, rhs: r, interval: i, overlap: o } => then && *l == lhs && *r == rhs
            && i == interval && o == overlap,
        _ => false,
    }
}

/// The `until` (`use_eventually_prefix` false) or `then` (true) robustness:
/// at each step the best candidate time for `rhs`, each weighed against
/// `lhs` over the steps between; negative infinity where no candidate exists.
fn until_or_then(
    Ghost(formula): Ghost<Formula>,
    env: &SignalEnv,
    options: EvalOptions,
    lhs: &Formula,
    rhs: &Formula,
    interval: Interval,
    overlap: bool,
    use_eventually_prefix: bool,
) -> (r: Result<Trace, StlcgError>)
    requires
        ready_env(*env),
        binary_temporal_parts(formula, *lhs, *rhs, interval, overlap, use_eventually_prefix),
        formula_fault(formula) is None,
    ensures
        lookup_outcome(r, formula_vars(*lhs) + formula_vars(*rhs), *env),
        r matches Ok(t) ==> robust(formula, *env, options, t),
    decreases formula, 0nat,
{
    proof {
        lemma_first_unbound_append(formula_vars(*lhs), formula_vars(*rhs), *env);
    }
    let ghost exact = options.aggregation is Exact;
    let ghost then = use_eventually_prefix;
    let ghost model = env.entries()[0].1;
    let ghost dtype = trace_dtype(model);
    let lhs_trace = lhs.robustness_trace_inner(env, options)?;
    let rhs_inner = rhs.robustness_trace_inner(env, options)?;
    let ghost w = rhs_inner;
    let rhs_trace = if overlap {
        rhs_inner
    } else {
        temporal(rhs_inner, Interval::closed(0, 1), options.aggregation, false)
    };
    let ghost u = lhs_trace;
    let ghost shifted = rhs_trace;
    let shape = dims(&rhs_trace);
    let time = shape[1];
    let step_shape: [usize; 3] = [shape[0], 1, shape[2]];
    let mut outputs: Vec<Trace> = Vec::new();
    let mut i: usize = 0;
    while i < time
        invariant
            0 <= i <= time,
            ready_env(*env),
            interval.well_formed(),
            model == env.entries()[0].1,
            dtype == trace_dtype(model),
            u == lhs_trace,
            shifted == rhs_trace,
            conforms(lhs_trace, model),
            conforms(rhs_trace, model),
            shape@ == trace_shape(model),
            time == shape[1],
            step_shape@ == trace_shape(model).update(1, 1usize),
            outputs@.len() == i,
            forall|j: int|
                0 <= j < i ==> {
                    &&& trace_shape(#[trigger] outputs@[j]) == step_shape@
                    &&& same_place(outputs@[j], model)
                },
            exact == options.aggregation is Exact,
            options.aggregation is DistributedExact ==> forall|j: int, b: int, d: int|
                0 <= j < i && 0 <= b < shape[0] && 0 <= d < shape[2] && candidate_times(interval, j).len() == 0
                    ==> alike(#[trigger] trace_values(outputs@[j])[b][0][d], float_from_f64(dtype, NEG_INFINITY_BITS)),
            exact ==> forall|j: int, b: int, d: int|
                0 <= j < i && 0 <= b < shape[0] && 0 <= d < shape[2] ==> until_value(
                    u,
                    shifted,
                    candidate_times(interval, j),
                    j,
                    b,
                    d,
                    #[trigger] trace_values(outputs@[j])[b][0][d],
                    then,
                    dtype,
                ),
            options.aggregation is Smooth ==> forall|j: int, b: int, d: int|
                0 <= j < i && 0 <= b < shape[0] && 0 <= d < shape[2] ==> smooth_until_value(
                    u,
                    shifted,
                    candidate_times(interval, j),
                    j,
                    b,
                    d,
                    #[trigger] trace_values(outputs@[j])[b][0][d],
                    then,
                    dtype,
                    options.aggregation->scale.bits,
                ),
            then == use_eventually_prefix,
        decreases time - i,
    {
        let indices = candidate_indices(interval, i);
        let mut candidates: Vec<Trace> = Vec::new();
        let mut k: usize = 0;
        while k < indices.len()
            invariant
                0 <= k <= indices@.len(),
                indices@ == candidate_times(interval, i as int),
                forall|j: int| 0 <= j < indices@.len() ==> indices@[j] <= i,
                i < time,
                time == shape[1],
                shape@ == trace_shape(model),
                step_shape@ == trace_shape(model).update(1, 1usize),
                ready_env(*env),
                model == env.entries()[0].1,
                u == lhs_trace,
                shifted == rhs_trace,
                conforms(lhs_trace, model),
                conforms(rhs_trace, model),
                candidates@.len() == k,
                forall|j: int|
                    0 <= j < k ==> {
                        &&& trace_shape(#[trigger] candidates@[j]) == step_shape@
                        &&& same_place(candidates@[j], model)
                    },
                exact == options.aggregation is Exact,
                then == use_eventually_prefix,
                exact ==> forall|j: int, b: int, d: int|
                    0 <= j < k && 0 <= b < shape[0] && 0 <= d < shape[2] ==> candidate_value(
                        u,
                        shifted,
                        indices@[j] as int,
                        i as int,
                        b,
                        d,
                        #[trigger] trace_values(candidates@[j])[b][0][d],
                        then,
                    ),
                dtype == trace_dtype(model),
                options.aggregation is Smooth ==> forall|j: int, b: int, d: int|
                    0 <= j < k && 0 <= b < shape[0] && 0 <= d < shape[2] ==> smooth_candidate_value(
                        u,
                        shifted,
                        indices@[j] as int,
                        i as int,
                        b,
                        d,
                        #[trigger] trace_values(candidates@[j])[b][0][d],
                        then,
                        dtype,
                        options.aggregation->scale.bits,
                    ),
            decreases indices@.len() - k,
        {
            let c = indices[k];
            let rhs_value = select_time(&rhs_trace, c);
            let lhs_window = narrow_time(duplicate(&lhs_trace), c, i - c + 1);
            let ghost window = lhs_window;
            let lhs_value = if use_eventually_prefix {
                maxish3(lhs_window, options.aggregation)
            } else {
                minish3(lhs_window, options.aggregation)
            };
            let ghost (rv, lv) = (rhs_value, lhs_value);
            let mut pair: Vec<Trace> = Vec::new();
            pair.push(rhs_value);
            pair.push(lhs_value);
            let ghost ps = pair@;
            assert(trace_shape(pair@[1]) =~= trace_shape(pair@[0]));
            let m = reduce_last_min(pair, options.aggregation);
            proof {
                if exact {
                    assert forall|b: int, d: int| 0 <= b < shape[0] && 0 <= d < shape[2] implies candidate_value(
                        u,
                        shifted,
                        c as int,
                        i as int,
                        b,
                        d,
                        #[trigger] trace_values(m)[b][0][d],
                        then,
                    ) by {
                        let y = trace_values(lv)[b][0][d];
                        assert forall|q: int| 0 <= q < i - c + 1 implies #[trigger] time_column(window, b, d)[q]
                            == span_column(u, c as int, i as int, b, d)[q] by {
                            assert(trace_values(window)[b][q] == trace_values(u)[b][c + q]);
                        }
                        assert(time_column(window, b, d) =~= span_column(u, c as int, i as int, b, d));
                        assert(prefix_extreme(span_column(u, c as int, i as int, b, d), y, then));
                        assert(trace_values(rv)[b][0] == trace_values(shifted)[b][c as int]);
                        assert(children_column(ps, b, 0, d) =~= seq![trace_values(shifted)[b][c as int][d], y]);
                    }
                }
                if options.aggregation is Smooth {
                    let bits = options.aggregation->scale.bits;
                    assert forall|b: int, d: int| 0 <= b < shape[0] && 0 <= d < shape[2] implies smooth_candidate_value(
                        u,
                        shifted,
                        c as int,
                        i as int,
                        b,
                        d,
                        #[trigger] trace_values(m)[b][0][d],
                        then,
                        dtype,
                        bits,
                    ) by {
                        let y = trace_values(lv)[b][0][d];
                        assert forall|q: int| 0 <= q < i - c + 1 implies #[trigger] time_column(window, b, d)[q]
                            == span_column(u, c as int, i as int, b, d)[q] by {
                            assert(trace_values(window)[b][q] == trace_values(u)[b][c + q]);
                        }
                        assert(time_column(window, b, d) =~= span_column(u, c as int, i as int, b, d));
                        assert(smooth_prefix_extreme(span_column(u, c as int, i as int, b, d), y, then, dtype, bits));
                        assert(trace_values(rv)[b][0] == trace_values(shifted)[b][c as int]);
                        assert(children_column(ps, b, 0, d) =~= seq![trace_values(shifted)[b][c as int][d], y]);
                    }
                }
            }
            candidates.push(m);
            k = k + 1;
        }
        let ghost cs = indices@;
        let ghost found = candidates@;
        if candidates.len() == 0 {
            let floor = constant(&rhs_trace, Binary64::negative_infinity());
            let ghost gf = floor;
            let spread = expand(floor, step_shape);
            proof {
                assert forall|b: int, d: int| 0 <= b < shape[0] && 0 <= d < shape[2] implies #[trigger] trace_values(spread)[b][0][d]
                    == float_from_f64(dtype, NEG_INFINITY_BITS) by {
                    assert(trace_values(spread)[b][0][d] == element_at(gf, b, 0, d));
                    assert(element_at(gf, b, 0, d) == trace_values(gf)[0][0][0]);
                }
            }
            candidates.push(spread);
        }
        let ghost all = candidates@;
        let best = reduce_last_max(candidates, options.aggregation);
        proof {
            if exact {
                assert forall|b: int, d: int| 0 <= b < shape[0] && 0 <= d < shape[2] implies until_value(
                    u,
                    shifted,
                    candidate_times(interval, i as int),
                    i as int,
                    b,
                    d,
                    #[trigger] trace_values(best)[b][0][d],
                    then,
                    dtype,
                ) by {
                    let col = children_column(all, b, 0, d);
                    if cs.len() == 0 {
                        assert(col =~= seq![float_from_f64(dtype, NEG_INFINITY_BITS)]);
                        assert(!is_nan_bits(NEG_INFINITY_BITS));
                    } else {
                        assert(all == found);
                        assert(candidate_column(u, shifted, cs, i as int, b, d, col, then));
                    }
                }
            }
            if options.aggregation is Smooth {
                let bits = options.aggregation->scale.bits;
                assert forall|b: int, d: int| 0 <= b < shape[0] && 0 <= d < shape[2] implies smooth_until_value(
                    u,
                    shifted,
                    candidate_times(interval, i as int),
                    i as int,
                    b,
                    d,
                    #[trigger] trace_values(best)[b][0][d],
                    then,
                    dtype,
                    bits,
                ) by {
                    let col = children_column(all, b, 0, d);
                    if cs.len() == 0 {
                        assert(col =~= seq![float_from_f64(dtype, NEG_INFINITY_BITS)]);
                    } else {
                        assert(all == found);
                        assert(smooth_candidate_column(u, shifted, cs, i as int, b, d, col, then, dtype, bits));
                    }
                }
            }
            if options.aggregation is DistributedExact {
                assert forall|b: int, d: int|
                    0 <= b < shape[0] && 0 <= d < shape[2] && cs.len() == 0 implies alike(
                    #[trigger] trace_values(best)[b][0][d],
                    float_from_f64(dtype, NEG_INFINITY_BITS),
                ) by {
                    let col = children_column(all, b, 0, d);
                    assert(col =~= seq![float_from_f64(dtype, NEG_INFINITY_BITS)]);
                    assert(!is_nan_bits(NEG_INFINITY_BITS));
                    assert(crate::ops::top_at(col, 0, true));
                    assert(single_extreme(col, true));
                }
            }
        }
        outputs.push(best);
        i = i + 1;
    }
    proof {
        lemma_total_time_of_steps(outputs@);
    }
    let r = cat_time(outputs);
    assert(trace_shape(r) =~= trace_shape(model));
    proof {
        if exact {
            assert forall|b: int, j: int, d: int| in_shape(shape@, b, j, d) implies until_value(
                u,
                shifted,
                candidate_times(interval, j),
                j,
                b,
                d,
                #[trigger] trace_values(r)[b][j][d],
                then,
                dtype,
            ) by {
                lemma_joined_steps(outputs@, b, j);
            }
            assert(until_of(u, shifted, r, interval, shape@, then, dtype));
        }
        if options.aggregation is DistributedExact {
            assert forall|b: int, j: int, d: int|
                in_shape(shape@, b, j, d) && candidate_times(interval, j).len() == 0 implies alike(
                #[trigger] trace_values(r)[b][j][d],
                float_from_f64(dtype, NEG_INFINITY_BITS),
            ) by {
                lemma_joined_steps(outputs@, b, j);
            }
        }
        if options.aggregation is Smooth {
            let bits = options.aggregation->scale.bits;
            assert forall|b: int, j: int, d: int| in_shape(shape@, b, j, d) implies smooth_until_value(
                u,
                shifted,
                candidate_times(interval, j),
                j,
                b,
                d,
                #[trigger] trace_values(r)[b][j][d],
                then,
                dtype,
                bits,
            ) by {
                lemma_joined_steps(outputs@, b, j);
            }
            assert(smooth_until_of(u, shifted, r, interval, shape@, then, dtype, bits));
        }
        assert(until_built(u, w, shifted, r, interval, overlap, shape@, options.aggregation, then, dtype));
        assert(robust(*lhs, *env, options, u));
        assert(robust(*rhs, *env, options, w));
    }
    Ok(r)
}

/// What a cumulative integral adds at time `k` before any clamping: the
/// sample itself for a Riemann sum; for the trapezoid rule zero at time 0 and
/// otherwise half the sum of the samples at `k - 1` and `k`, computed in the
/// trace's element type (a NaN where one of them is one).
pub open spec fn scheme_sample(x: Trace, scheme: IntegrationScheme, b: int, k: int, d: int) -> u64 {
    let dtype = trace_dtype(x);
    match scheme {
        IntegrationScheme::Riemann => trace_values(x)[b][k][d],
        IntegrationScheme::Trapezoid => if k == 0 {
            0
        } else {
            div_value(
                dtype,
                add_value(dtype, trace_values(x)[b][k - 1][d], trace_values(x)[b][k][d]),
                two_bits(),
            )
        },
    }
}

/// What a cumulative integral adds at time `k`: [`scheme_sample`], clamped at
/// zero when the options ask for it.
pub open spec fn integrand(x: Trace, options: IntegralOptions, b: int, k: int, d: int) -> u64 {
    if options.use_relu {
        rectified(scheme_sample(x, options.scheme, b, k, d))
    } else {
        scheme_sample(x, options.scheme, b, k, d)
    }
}

/// The integrand of feature `d` in batch `b` from time 0 to time `i`.
pub open spec fn integrand_prefix(x: Trace, options: IntegralOptions, b: int, i: int, d: int) -> Seq<u64> {
    Seq::new((i + 1) as nat, |k: int| integrand(x, options, b, k, d))
}

/// Each sample of `t` is the running sum, in `x`'s element type, of the
/// integrand of `x` from time 0 to its time (a NaN where one of its terms is
/// one); and, as IEEE arithmetic gives, the same sum over a trace that
/// differs from `x` only in the signs of zeros differs from it at most in
/// the sign of a zero.
pub open spec fn cumulative_of(x: Trace, t: Trace, options: IntegralOptions) -> bool {
    &&& forall|b: int, i: int, d: int|
        in_shape(trace_shape(x), b, i, d) ==> same_number(
            #[trigger] trace_values(t)[b][i][d],
            sum_value(trace_dtype(x), integrand_prefix(x, options, b, i, d)),
        )
    &&& forall|x2: Trace|
        #[trigger] alike_traces(x, x2, trace_shape(x)) && trace_dtype(x2) == trace_dtype(x) ==> forall|b: int, i: int, d: int|
            in_shape(trace_shape(x), b, i, d) ==> alike(
                #[trigger] trace_values(t)[b][i][d],
                sum_value(trace_dtype(x), integrand_prefix(x2, options, b, i, d)),
            )
}

/// The integral of a trace over time.
fn integral(trace: Trace, options: IntegralOptions) -> (r: Trace)
    requires
        trace_ready(trace),
    ensures
        conforms(r, trace),
        match options.interval {
            None => cumulative_of(trace, r, options),
            Some(interval) => windowed_of(trace, r, interval, options),
        },
{
    match options.interval {
        None => cumulative_integral(trace, options),
        Some(interval) => window_integral(trace, interval, options),
    }
}

/// The running integral from the oldest sample.
fn cumulative_integral(trace: Trace, options: IntegralOptions) -> (r: Trace)
    requires
        trace_ready(trace),
    ensures
        conforms(r, trace),
        cumulative_of(trace, r, options),
{
    let shape = dims(&trace);
    let time = shape[1];
    let ghost model = trace;
    let ghost dtype = trace_dtype(model);
    let signal = match options.scheme {
        IntegrationScheme::Riemann => trace,
        IntegrationScheme::Trapezoid => {
            let zeros = zeros_like(&trace);
            let ghost gz = zeros;
            let zero = narrow_time(zeros, 0, 1);
            proof {
                assert forall|b: int, d: int| 0 <= b < shape[0] && 0 <= d < shape[2] implies #[trigger] trace_values(zero)[b][0][d]
                    == 0 by {
                    assert(trace_values(zero)[b][0] == trace_values(gz)[b][0]);
                    assert(trace_values(gz)[b][0][d] == 0);
                }
            }
            if time <= 1 {
                assert(trace_shape(zero) =~= trace_shape(model));
                zero
            } else {
                let left = narrow_time(duplicate(&trace), 0, time - 1);
                let right = narrow_time(trace, 1, time - 1);
                proof {
                    lemma_broadcast_shapes(trace_shape(left), 0);
                }
                let ghost (gl, gr) = (left, right);
                let sum = plus(left, right);
                let ghost gs = sum;
                let half = halve(sum);
                proof {
                    assert forall|b: int, k: int, d: int|
                        0 <= b < shape[0] && 0 <= k < time - 1 && 0 <= d < shape[2] implies same_number(
                        #[trigger] trace_values(half)[b][k][d],
                        scheme_sample(model, options.scheme, b, k + 1, d),
                    ) by {
                        assert(in_shape(trace_shape(gs), b, k, d));
                        assert(crate::trace::nan_spreads(gl, gr, gs, b, k, d));
                        assert(element_at(gl, b, k, d) == trace_values(gl)[b][k][d]);
                        assert(element_at(gr, b, k, d) == trace_values(gr)[b][k][d]);
                        assert(trace_values(gl)[b][k] == trace_values(model)[b][k]);
                        assert(trace_values(gr)[b][k] == trace_values(model)[b][1 + k]);
                        assert(!is_nan_bits(two_bits()));
                        assert(is_nan_bits(crate::trace::nan_bits()));
                    }
                }
                let ghost gh = half;
                let mut parts: Vec<Trace> = Vec::new();
                parts.push(zero);
                parts.push(half);
                let ghost ps = parts@;
                proof {
                    assert(parts@.drop_last() =~= seq![parts@[0]]);
                    assert(seq![parts@[0]].drop_last() =~= Seq::<Trace>::empty());
                    assert(crate::trace::total_time(Seq::<Trace>::empty()) == 0);
                    assert(crate::trace::total_time(seq![parts@[0]]) == 1);
                    assert(crate::trace::total_time(parts@) == time);
                }
                let joined = cat_time(parts);
                assert(trace_shape(joined) =~= trace_shape(model));
                proof {
                    assert forall|b: int, k: int, d: int|
                        in_shape(trace_shape(model), b, k, d) implies same_number(
                        #[trigger] trace_values(joined)[b][k][d],
                        scheme_sample(model, options.scheme, b, k, d),
                    ) by {
                        assert(ps.drop_last() =~= seq![ps[0]]);
                        assert(seq![ps[0]].drop_last() =~= Seq::<Trace>::empty());
                        assert(trace_values(joined)[b][k] == crate::trace::joined_row(ps, b, k));
                        if k == 0 {
                            assert(crate::trace::joined_row(ps, b, k) == crate::trace::joined_row(seq![ps[0]], b, k));
                            assert(crate::trace::joined_row(seq![ps[0]], b, k) == trace_values(ps[0])[b][0]);
                        } else {
                            assert(crate::trace::joined_row(ps, b, k) == trace_values(gh)[b][k - 1]);
                        }
                    }
                    assert forall|x2: Trace|
                        #[trigger] alike_traces(model, x2, trace_shape(model)) && trace_dtype(x2) == trace_dtype(model) implies forall|b: int, k: int, d: int|
                        in_shape(trace_shape(model), b, k, d) ==> alike(
                            #[trigger] trace_values(joined)[b][k][d],
                            scheme_sample(x2, options.scheme, b, k, d),
                        ) by {
                        assert forall|b: int, k: int, d: int| in_shape(trace_shape(model), b, k, d) implies alike(
                            #[trigger] trace_values(joined)[b][k][d],
                            scheme_sample(x2, options.scheme, b, k, d),
                        ) by {
                            assert(ps.drop_last() =~= seq![ps[0]]);
                            assert(seq![ps[0]].drop_last() =~= Seq::<Trace>::empty());
                            assert(trace_values(joined)[b][k] == crate::trace::joined_row(ps, b, k));
                            if k == 0 {
                                assert(crate::trace::joined_row(ps, b, k) == crate::trace::joined_row(seq![ps[0]], b, k));
                                assert(crate::trace::joined_row(seq![ps[0]], b, k) == trace_values(ps[0])[b][0]);
                                lemma_alike_basics(0, 0, 0);
                            } else {
                                assert(crate::trace::joined_row(ps, b, k) == trace_values(gh)[b][k - 1]);
                                let j = k - 1;
                                assert(in_shape(trace_shape(gs), b, j, d));
                                assert(element_at(gl, b, j, d) == trace_values(gl)[b][j][d]);
                                assert(element_at(gr, b, j, d) == trace_values(gr)[b][j][d]);
                                assert(trace_values(gl)[b][j] == trace_values(model)[b][j]);
                                assert(trace_values(gr)[b][j] == trace_values(model)[b][1 + j]);
                                let y1 = trace_values(x2)[b][j][d];
                                let y2 = trace_values(x2)[b][k][d];
                                assert(in_shape(trace_shape(model), b, j, d));
                                assert(alike(y1, trace_values(model)[b][j][d]));
                                assert(alike(y2, trace_values(model)[b][k][d]));
                                let sv = add_value(dtype, y1, y2);
                                assert(alike(trace_values(gs)[b][j][d], sv));
                                lemma_alike_basics(trace_values(gs)[b][j][d], sv, 0);
                                assert(alike(trace_values(gh)[b][j][d], div_value(dtype, sv, two_bits())));
                            }
                        }
                    }
                }
                joined
            }
        },
    };
    let ghost pre = signal;
    proof {
        if options.scheme is Riemann {
            assert forall|x2: Trace|
                #[trigger] alike_traces(model, x2, trace_shape(model)) && trace_dtype(x2) == trace_dtype(model) implies forall|b: int, k: int, d: int|
                in_shape(trace_shape(model), b, k, d) ==> alike(
                    #[trigger] trace_values(pre)[b][k][d],
                    scheme_sample(x2, options.scheme, b, k, d),
                ) by {
                assert forall|b: int, k: int, d: int| in_shape(trace_shape(model), b, k, d) implies alike(
                    #[trigger] trace_values(pre)[b][k][d],
                    scheme_sample(x2, options.scheme, b, k, d),
                ) by {
                    lemma_alike_basics(trace_values(x2)[b][k][d], trace_values(model)[b][k][d], 0);
                }
            }
        } else if time <= 1 {
            assert forall|x2: Trace|
                #[trigger] alike_traces(model, x2, trace_shape(model)) && trace_dtype(x2) == trace_dtype(model) implies forall|b: int, k: int, d: int|
                in_shape(trace_shape(model), b, k, d) ==> alike(
                    #[trigger] trace_values(pre)[b][k][d],
                    scheme_sample(x2, options.scheme, b, k, d),
                ) by {
                assert forall|b: int, k: int, d: int| in_shape(trace_shape(model), b, k, d) implies alike(
                    #[trigger] trace_values(pre)[b][k][d],
                    scheme_sample(x2, options.scheme, b, k, d),
                ) by {
                    assert(k == 0);
                    lemma_alike_basics(0, 0, 0);
                }
            }
        }
        assert forall|b: int, k: int, d: int|
            in_shape(trace_shape(model), b, k, d) implies same_number(
            #[trigger] trace_values(pre)[b][k][d],
            scheme_sample(model, options.scheme, b, k, d),
        ) by {
            if options.scheme is Trapezoid && time <= 1 {
                assert(k == 0);
            }
        }
    }
    let signal = if options.use_relu {
        rectify(signal)
    } else {
        signal
    };
    let ghost sig = signal;
    proof {
        assert forall|b: int, k: int, d: int|
            in_shape(trace_shape(model), b, k, d) implies same_number(
            #[trigger] trace_values(sig)[b][k][d],
            integrand(model, options, b, k, d),
        ) by {
            let s = scheme_sample(model, options.scheme, b, k, d);
            if options.use_relu {
                lemma_same_number_ops(dtype, trace_values(pre)[b][k][d], s, 0, 0);
                assert(same_number(trace_values(sig)[b][k][d], rectified(trace_values(pre)[b][k][d])));
            }
        }
    }
    proof {
        assert forall|x2: Trace|
            #[trigger] alike_traces(model, x2, trace_shape(model)) && trace_dtype(x2) == trace_dtype(model) implies forall|b: int, k: int, d: int|
            in_shape(trace_shape(model), b, k, d) ==> alike(
                #[trigger] trace_values(sig)[b][k][d],
                integrand(x2, options, b, k, d),
            ) by {
            assert forall|b: int, k: int, d: int| in_shape(trace_shape(model), b, k, d) implies alike(
                #[trigger] trace_values(sig)[b][k][d],
                integrand(x2, options, b, k, d),
            ) by {
                let p = trace_values(pre)[b][k][d];
                let q = scheme_sample(x2, options.scheme, b, k, d);
                assert(alike(p, q));
                if options.use_relu {
                    lemma_rectified_alike(p, q);
                    assert(alike(trace_values(sig)[b][k][d], rectified(p)));
                    lemma_alike_basics(trace_values(sig)[b][k][d], rectified(p), rectified(q));
                }
            }
        }
    }
    let r = cumsum_time(signal);
    proof {
        assert forall|x2: Trace|
            #[trigger] alike_traces(model, x2, trace_shape(model)) && trace_dtype(x2) == trace_dtype(model) implies forall|b: int, i: int, d: int|
            in_shape(trace_shape(model), b, i, d) ==> alike(
                #[trigger] trace_values(r)[b][i][d],
                sum_value(dtype, integrand_prefix(x2, options, b, i, d)),
            ) by {
            assert forall|b: int, i: int, d: int| in_shape(trace_shape(model), b, i, d) implies alike(
                #[trigger] trace_values(r)[b][i][d],
                sum_value(dtype, integrand_prefix(x2, options, b, i, d)),
            ) by {
                let col = crate::trace::time_prefix(sig, b, i, d);
                let spec = integrand_prefix(x2, options, b, i, d);
                assert forall|k: int| 0 <= k < col.len() implies alike(#[trigger] spec[k], col[k]) by {
                    assert(in_shape(trace_shape(model), b, k, d));
                    lemma_alike_basics(col[k], spec[k], 0);
                }
                assert(alike_seqs(spec, col));
            }
        }
        assert forall|b: int, i: int, d: int|
            in_shape(trace_shape(model), b, i, d) implies same_number(
            #[trigger] trace_values(r)[b][i][d],
            sum_value(dtype, integrand_prefix(model, options, b, i, d)),
        ) by {
            let col = crate::trace::time_prefix(sig, b, i, d);
            let spec = integrand_prefix(model, options, b, i, d);
            assert forall|k: int| 0 <= k < col.len() implies same_number(#[trigger] col[k], spec[k]) by {
                assert(in_shape(trace_shape(model), b, k, d));
            }
            lemma_same_sum(dtype, col, spec, trace_values(r)[b][i][d]);
        }
    }
    r
}

/// What a finite-window integral reads, at feature `d` of batch `b`, for an
/// offset beyond the oldest sample: zero, the latest sample, or the custom
/// number converted to the trace's element type.
pub open spec fn padding_value(x: Trace, padding: PaddingMode, b: int, d: int) -> u64 {
    match padding {
        PaddingMode::Zero => 0,
        PaddingMode::Same => trace_values(x)[b][0][d],
        PaddingMode::Custom(value) => conv_value(trace_dtype(x), value.bits),
    }
}

/// The padding sample for offsets beyond the oldest sample, `[batch, 1, dim]`.
fn finite_padding(trace: &Trace, padding: PaddingMode) -> (r: Trace)
    requires
        trace_ready(*trace),
    ensures
        trace_shape(r) == trace_shape(*trace).update(1, 1usize),
        same_place(r, *trace),
        forall|b: int, d: int|
            0 <= b < trace_shape(*trace)[0] && 0 <= d < trace_shape(*trace)[2] ==> same_number(
                #[trigger] trace_values(r)[b][0][d],
                padding_value(*trace, padding, b, d),
            ),
{
    match padding {
        PaddingMode::Zero => {
            let zeros = zeros_like(trace);
            let ghost gz = zeros;
            let r = narrow_time(zeros, 0, 1);
            proof {
                assert forall|b: int, d: int|
                    0 <= b < trace_shape(*trace)[0] && 0 <= d < trace_shape(*trace)[2] implies #[trigger] trace_values(r)[b][0][d]
                        == 0 by {
                    assert(trace_values(r)[b][0] == trace_values(gz)[b][0]);
                    assert(in_shape(trace_shape(*trace), b, 0, d));
                }
            }
            r
        },
        PaddingMode::Same => select_time(trace, 0),
        PaddingMode::Custom(value) => {
            let shape = dims(trace);
            let c = constant(trace, value);
            let ghost gc = c;
            let r = expand(c, [shape[0], 1, shape[2]]);
            assert(trace_shape(r) =~= trace_shape(*trace).update(1, 1usize));
            proof {
                assert forall|b: int, d: int|
                    0 <= b < trace_shape(*trace)[0] && 0 <= d < trace_shape(*trace)[2] implies #[trigger] trace_values(r)[b][0][d]
                        == trace_values(gc)[0][0][0] by {
                    assert(in_shape(seq![shape[0], 1usize, shape[2]], b, 0, d));
                    assert(trace_values(r)[b][0][d] == element_at(gc, b, 0, d));
                }
            }
            r
        },
    }
}

/// The number a finite-window integral reads at its `k`-th offset, at step
/// `i`, before clamping: the sample that many steps back, or the padding
/// beyond the oldest sample, halved at both ends of the window by the
/// trapezoid rule when it holds more than one offset.
pub open spec fn window_base(x: Trace, interval: Interval, options: IntegralOptions, i: int, b: int, d: int, k: int) -> u64 {
    let offsets = integral_offsets(interval, i);
    let o = offsets[k] as int;
    let base = if o > i {
        padding_value(x, options.padding, b, d)
    } else {
        trace_values(x)[b][i - o][d]
    };
    if options.scheme is Trapezoid && offsets.len() > 1 && (k == 0 || k == offsets.len() - 1) {
        div_value(trace_dtype(x), base, two_bits())
    } else {
        base
    }
}

/// The numbers a finite-window integral sums at step `i`, clamped at zero
/// when the options ask for it; a single zero for a window without offsets.
pub open spec fn window_terms(x: Trace, interval: Interval, options: IntegralOptions, i: int, b: int, d: int) -> Seq<u64> {
    let n = integral_offsets(interval, i).len();
    if n == 0 {
        seq![0u64]
    } else {
        Seq::new(
            n,
            |k: int|
                if options.use_relu {
                    rectified(window_base(x, interval, options, i, b, d, k))
                } else {
                    window_base(x, interval, options, i, b, d, k)
                },
        )
    }
}

/// Each sample of `t` is the sum, in `x`'s element type, of what the
/// finite-window integral reads at its step (a NaN where one of those numbers
/// is one).
pub open spec fn windowed_of(x: Trace, t: Trace, interval: Interval, options: IntegralOptions) -> bool {
    &&& forall|b: int, i: int, d: int|
        in_shape(trace_shape(x), b, i, d) ==> same_number(
            #[trigger] trace_values(t)[b][i][d],
            sum_value(trace_dtype(x), window_terms(x, interval, options, i, b, d)),
        )
    &&& forall|x2: Trace|
        #[trigger] alike_traces(x, x2, trace_shape(x)) && trace_dtype(x2) == trace_dtype(x) ==> forall|b: int, i: int, d: int|
            in_shape(trace_shape(x), b, i, d) ==> alike(
                #[trigger] trace_values(t)[b][i][d],
                sum_value(trace_dtype(x), window_terms(x2, interval, options, i, b, d)),
            )
}

/// Over every trace that differs from `x` only in the signs of zeros, the
/// single step of each of `terms` is what the finite-window integral reads at
/// that offset of step `i`, up to the sign of a zero.
spec fn terms_alike(x: Trace, terms: Seq<Trace>, interval: Interval, options: IntegralOptions, i: int) -> bool {
    forall|x2: Trace|
        #[trigger] alike_traces(x, x2, trace_shape(x)) && trace_dtype(x2) == trace_dtype(x) ==> forall|j: int, b: int, d: int|
            0 <= j < terms.len() && 0 <= b < trace_shape(x)[0] && 0 <= d < trace_shape(x)[2] ==> alike(
                #[trigger] trace_values(terms[j])[b][0][d],
                window_base(x2, interval, options, i, b, d, j),
            )
}

/// Over every trace that differs from `x` only in the signs of zeros, the
/// single step of each of `steps` is the finite-window integral at its step,
/// up to the sign of a zero.
spec fn steps_alike(x: Trace, steps: Seq<Trace>, interval: Interval, options: IntegralOptions) -> bool {
    forall|x2: Trace|
        #[trigger] alike_traces(x, x2, trace_shape(x)) && trace_dtype(x2) == trace_dtype(x) ==> forall|j: int, b: int, d: int|
            0 <= j < steps.len() && 0 <= b < trace_shape(x)[0] && 0 <= d < trace_shape(x)[2] ==> alike(
                #[trigger] trace_values(steps[j])[b][0][d],
                sum_value(trace_dtype(x), window_terms(x2, interval, options, j, b, d)),
            )
}

/// The integral over a finite window at every step: the samples at the
/// window's offsets, padded beyond the oldest, halved at the ends for the
/// trapezoid rule, summed.
fn window_integral(trace: Trace, interval: Interval, options: IntegralOptions) -> (r: Trace)
    requires
        trace_ready(trace),
    ensures
        conforms(r, trace),
        windowed_of(trace, r, interval, options),
{
    let shape = dims(&trace);
    let time = shape[1];
    let ghost dtype = trace_dtype(trace);
    let mut outputs: Vec<Trace> = Vec::new();
    let mut i: usize = 0;
    while i < time
        invariant
            0 <= i <= time,
            trace_ready(trace),
            shape@ == trace_shape(trace),
            time == shape[1],
            dtype == trace_dtype(trace),
            outputs@.len() == i,
            forall|j: int|
                0 <= j < i ==> {
                    &&& trace_shape(#[trigger] outputs@[j]) == trace_shape(trace).update(1, 1usize)
                    &&& same_place(outputs@[j], trace)
                },
            forall|j: int, b: int, d: int|
                0 <= j < i && 0 <= b < shape[0] && 0 <= d < shape[2] ==> same_number(
                    #[trigger] trace_values(outputs@[j])[b][0][d],
                    sum_value(dtype, window_terms(trace, interval, options, j, b, d)),
                ),
            steps_alike(trace, outputs@, interval, options),
        decreases time - i,
    {
        let offsets = integral_window_offsets(interval, i);
        let count = offsets.len();
        let mut terms: Vec<Trace> = Vec::new();
        let mut term_index: usize = 0;
        while term_index < count
            invariant
                0 <= term_index <= count,
                count == offsets@.len(),
                offsets@ == integral_offsets(interval, i as int),
                i < time,
                trace_ready(trace),
                shape@ == trace_shape(trace),
                time == shape[1],
                dtype == trace_dtype(trace),
                terms@.len() == term_index,
                forall|j: int|
                    0 <= j < term_index ==> {
                        &&& trace_shape(#[trigger] terms@[j]) == trace_shape(trace).update(1, 1usize)
                        &&& same_place(terms@[j], trace)
                    },
                forall|j: int, b: int, d: int|
                    0 <= j < term_index && 0 <= b < shape[0] && 0 <= d < shape[2] ==> same_number(
                        #[trigger] trace_values(terms@[j])[b][0][d],
                        window_base(trace, interval, options, i as int, b, d, j),
                    ),
                terms_alike(trace, terms@, interval, options, i as int),
            decreases count - term_index,
        {
            let offset = offsets[term_index];
            let value = if offset > i {
                finite_padding(&trace, options.padding)
            } else {
                select_time(&trace, i - offset)
            };
            let ghost gv = value;
            let value = if options.scheme == IntegrationScheme::Trapezoid && count > 1 && (term_index == 0
                || term_index == count - 1) {
                halve(value)
            } else {
                value
            };
            proof {
                assert forall|b: int, d: int|
                    0 <= b < shape[0] && 0 <= d < shape[2] implies same_number(
                        #[trigger] trace_values(value)[b][0][d],
                        window_base(trace, interval, options, i as int, b, d, term_index as int),
                    ) by {
                    assert(in_shape(trace_shape(gv), b, 0, d));
                    assert(!is_nan_bits(two_bits()));
                    assert(is_nan_bits(crate::trace::nan_bits()));
                    if offset <= i {
                        assert(trace_values(gv)[b][0] == trace_values(trace)[b][(i - offset) as int]);
                    }
                }
            }
            proof {
                assert forall|x2: Trace|
                    #[trigger] alike_traces(trace, x2, trace_shape(trace)) && trace_dtype(x2) == trace_dtype(trace) implies forall|b: int, d: int|
                    0 <= b < shape[0] && 0 <= d < shape[2] ==> alike(
                        #[trigger] trace_values(value)[b][0][d],
                        window_base(x2, interval, options, i as int, b, d, term_index as int),
                    ) by {
                    assert forall|b: int, d: int| 0 <= b < shape[0] && 0 <= d < shape[2] implies alike(
                        #[trigger] trace_values(value)[b][0][d],
                        window_base(x2, interval, options, i as int, b, d, term_index as int),
                    ) by {
                        assert(in_shape(trace_shape(gv), b, 0, d));
                        assert(in_shape(trace_shape(trace), b, 0, d));
                        let base2 = if offset > i {
                            padding_value(x2, options.padding, b, d)
                        } else {
                            trace_values(x2)[b][(i - offset) as int][d]
                        };
                        if offset > i {
                            assert(same_number(trace_values(gv)[b][0][d], padding_value(trace, options.padding, b, d)));
                            lemma_alike_basics(trace_values(x2)[b][0][d], trace_values(trace)[b][0][d], 0);
                            lemma_alike_basics(padding_value(trace, options.padding, b, d), padding_value(x2, options.padding, b, d), 0);
                            lemma_alike_basics(trace_values(gv)[b][0][d], padding_value(trace, options.padding, b, d), base2);
                        } else {
                            assert(trace_values(gv)[b][0] == trace_values(trace)[b][(i - offset) as int]);
                            assert(in_shape(trace_shape(trace), b, (i - offset) as int, d));
                            lemma_alike_basics(base2, trace_values(gv)[b][0][d], 0);
                        }
                        assert(alike(trace_values(gv)[b][0][d], base2));
                        lemma_alike_basics(base2, trace_values(gv)[b][0][d], 0);
                    }
                }
            }
            let ghost before = terms@;
            terms.push(value);
            proof {
                assert forall|x2: Trace|
                    #[trigger] alike_traces(trace, x2, trace_shape(trace)) && trace_dtype(x2) == trace_dtype(trace) implies forall|j: int, b: int, d: int|
                    0 <= j < terms@.len() && 0 <= b < trace_shape(trace)[0] && 0 <= d < trace_shape(trace)[2] ==> alike(
                        #[trigger] trace_values(terms@[j])[b][0][d],
                        window_base(x2, interval, options, i as int, b, d, j),
                    ) by {
                    assert forall|j: int, b: int, d: int|
                        0 <= j < terms@.len() && 0 <= b < trace_shape(trace)[0] && 0 <= d < trace_shape(trace)[2] implies alike(
                        #[trigger] trace_values(terms@[j])[b][0][d],
                        window_base(x2, interval, options, i as int, b, d, j),
                    ) by {
                        if j < before.len() {
                            assert(terms@[j] == before[j]);
                            assert(terms_alike(trace, before, interval, options, i as int));
                        }
                    }
                }
            }
            term_index = term_index + 1;
        }
        if terms.len() == 0 {
            let zeros = zeros_like(&trace);
            let ghost gz = zeros;
            let zero = narrow_time(zeros, 0, 1);
            proof {
                assert forall|b: int, d: int| 0 <= b < shape[0] && 0 <= d < shape[2] implies #[trigger] trace_values(zero)[b][0][d]
                    == 0 by {
                    assert(trace_values(zero)[b][0] == trace_values(gz)[b][0]);
                    assert(in_shape(trace_shape(trace), b, 0, d));
                }
            }
            terms.push(zero);
        }
        let ghost ts = terms@;
        proof {
            lemma_total_time_of_steps(terms@);
        }
        let joined = cat_time(terms);
        let ghost gj = joined;
        let window = if options.use_relu {
            rectify(joined)
        } else {
            joined
        };
        let ghost gw = window;
        let summed = sum_time(window);
        assert(crate::trace::reduced(trace_shape(window), 1) =~= trace_shape(trace).update(1, 1usize));
        proof {
            assert forall|b: int, d: int|
                0 <= b < shape[0] && 0 <= d < shape[2] implies same_number(
                    #[trigger] trace_values(summed)[b][0][d],
                    sum_value(dtype, window_terms(trace, interval, options, i as int, b, d)),
                ) by {
                let col = time_column(gw, b, d);
                let spec = window_terms(trace, interval, options, i as int, b, d);
                if ts.len() >= 2 {
                    assert(trace_shape(ts[0])[1] == 1 && trace_shape(ts[1])[1] == 1);
                    assert(crate::trace::two_filled(ts));
                }
                assert forall|k: int| 0 <= k < col.len() implies same_number(#[trigger] col[k], spec[k]) by {
                    lemma_joined_steps(ts, b, k);
                    assert(trace_values(gj)[b][k] == trace_values(ts[k])[b][0]);
                    assert(in_shape(trace_shape(gj), b, k, d));
                    if options.use_relu && count > 0 {
                        lemma_same_number_ops(
                            dtype,
                            trace_values(gj)[b][k][d],
                            window_base(trace, interval, options, i as int, b, d, k),
                            0,
                            0,
                        );
                        assert(same_number(trace_values(gw)[b][k][d], rectified(trace_values(gj)[b][k][d])));
                    }
                }
                lemma_same_sum(dtype, col, spec, trace_values(summed)[b][0][d]);
            }
            assert forall|x2: Trace|
                #[trigger] alike_traces(trace, x2, trace_shape(trace)) && trace_dtype(x2) == trace_dtype(trace) implies forall|b: int, d: int|
                0 <= b < shape[0] && 0 <= d < shape[2] ==> alike(
                    #[trigger] trace_values(summed)[b][0][d],
                    sum_value(dtype, window_terms(x2, interval, options, i as int, b, d)),
                ) by {
                assert forall|b: int, d: int| 0 <= b < shape[0] && 0 <= d < shape[2] implies alike(
                    #[trigger] trace_values(summed)[b][0][d],
                    sum_value(dtype, window_terms(x2, interval, options, i as int, b, d)),
                ) by {
                    let col = time_column(gw, b, d);
                    let spec = window_terms(x2, interval, options, i as int, b, d);
                    if ts.len() >= 2 {
                        assert(trace_shape(ts[0])[1] == 1 && trace_shape(ts[1])[1] == 1);
                        assert(crate::trace::two_filled(ts));
                    }
                    assert forall|k: int| 0 <= k < col.len() implies alike(#[trigger] spec[k], col[k]) by {
                        lemma_joined_steps(ts, b, k);
                        assert(trace_values(gj)[b][k] == trace_values(ts[k])[b][0]);
                        assert(in_shape(trace_shape(gj), b, k, d));
                        let g = trace_values(gj)[b][k][d];
                        if count > 0 {
                            assert(terms_alike(trace, ts, interval, options, i as int));
                            let wb = window_base(x2, interval, options, i as int, b, d, k);
                            assert(alike(g, wb));
                            if options.use_relu {
                                lemma_rectified_alike(g, wb);
                                assert(alike(trace_values(gw)[b][k][d], rectified(g)));
                                lemma_alike_basics(trace_values(gw)[b][k][d], rectified(g), rectified(wb));
                            }
                        } else {
                            assert(g == 0);
                        }
                        lemma_alike_basics(col[k], spec[k], 0);
                    }
                    assert(alike_seqs(spec, col));
                }
            }
        }
        let ghost done = outputs@;
        outputs.push(summed);
        proof {
            assert forall|x2: Trace|
                #[trigger] alike_traces(trace, x2, trace_shape(trace)) && trace_dtype(x2) == trace_dtype(trace) implies forall|j: int, b: int, d: int|
                0 <= j < outputs@.len() && 0 <= b < trace_shape(trace)[0] && 0 <= d < trace_shape(trace)[2] ==> alike(
                    #[trigger] trace_values(outputs@[j])[b][0][d],
                    sum_value(trace_dtype(trace), window_terms(x2, interval, options, j, b, d)),
                ) by {
                assert forall|j: int, b: int, d: int|
                    0 <= j < outputs@.len() && 0 <= b < trace_shape(trace)[0] && 0 <= d < trace_shape(trace)[2] implies alike(
                    #[trigger] trace_values(outputs@[j])[b][0][d],
                    sum_value(trace_dtype(trace), window_terms(x2, interval, options, j, b, d)),
                ) by {
                    if j < done.len() {
                        assert(outputs@[j] == done[j]);
                        assert(steps_alike(trace, done, interval, options));
                    }
                }
            }
        }
        i = i + 1;
    }
    proof {
        lemma_total_time_of_steps(outputs@);
    }
    let r = cat_time(outputs);
    assert(trace_shape(r) =~= trace_shape(trace));
    proof {
        assert forall|b: int, j: int, d: int|
            in_shape(trace_shape(trace), b, j, d) implies same_number(
            #[trigger] trace_values(r)[b][j][d],
            sum_value(dtype, window_terms(trace, interval, options, j, b, d)),
        ) by {
            lemma_joined_steps(outputs@, b, j);
        }
        assert forall|x2: Trace|
            #[trigger] alike_traces(trace, x2, trace_shape(trace)) && trace_dtype(x2) == trace_dtype(trace) implies forall|b: int, j: int, d: int|
            in_shape(trace_shape(trace), b, j, d) ==> alike(
                #[trigger] trace_values(r)[b][j][d],
                sum_value(dtype, window_terms(x2, interval, options, j, b, d)),
            ) by {
            assert forall|b: int, j: int, d: int| in_shape(trace_shape(trace), b, j, d) implies alike(
                #[trigger] trace_values(r)[b][j][d],
                sum_value(dtype, window_terms(x2, interval, options, j, b, d)),
            ) by {
                lemma_joined_steps(outputs@, b, j);
                assert(steps_alike(trace, outputs@, interval, options));
            }
        }
    }
    r
}

impl core::ops::Not for Formula {
    type Output = Formula;

    /// Negation.
    fn not(self) -> (r: Formula)
        ensures
            r == Formula::Not(Box::new(self)),
    {
        Formula::Not(Box::new(self))
    }
}

impl NotSpecImpl for Formula {
    open spec fn obeys_not_spec() -> bool {
        true
    }

    open spec fn not_req(self) -> bool {
        true
    }

    open spec fn not_spec(self) -> Formula {
        Formula::Not(Box::new(self))
    }
}

} // verus!
