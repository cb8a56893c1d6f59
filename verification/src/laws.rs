//! Properties that relate several operations of the library.

use vstd::prelude::*;

use crate::env::{distinct_names, inserted, position, Entry};
use crate::error::first_of;
use crate::env::SignalEnv;
use crate::formula::{
    at_outcome, mask_at_outcome, mask_outcome, positive_at, positive_of, sample_of, trace_outcome,
    candidate_column, candidate_value, implication, implication_of as implication_spec, prefix_extreme,
    robust_children, span_column, until_value, windowing, combination, cumulative_of, integrand, integration, padding_value, scheme_sample, window_base, window_terms,
    windowed_of, combines_smoothly, IntegralOptions, IntegrationScheme, PaddingMode, children_fault, children_vars, conjuncts, disjuncts, formula_fault, formula_vars,
    combines, implication_of, lemma_flip_keeps_number, negation_of, robust, until_built,
    until_of, windows_of, Formula,
};
use crate::interval::{
    integral_offsets, candidate_times, closed_window_times, index_range, saturating_sub, window_times, Interval,
};
use crate::ops::{attains_extreme, children_column, window_column};
use crate::options::{Aggregation, EvalOptions};
use crate::scalar::NEG_INFINITY_BITS;
use crate::expr::{evaluates, Expr};
use crate::trace::{
    rectified, clear_sign, conv_value, div_value, two_bits, alike, alike_traces, attains_max, attains_min, lemma_same_number_ops, sum_value, trace_shape, lemma_sign_keeps_nan, same_number, flip_sign, float_from_f64, in_shape, is_nan_bits, no_nan, order_key, trace_dtype, trace_values,
    Trace,
};

verus! {

/// The first fault among two lists of children read in turn.
pub proof fn lemma_children_fault_append(a: Seq<Formula>, b: Seq<Formula>)
    ensures
        children_fault(a + b) == first_of(children_fault(a), children_fault(b)),
    decreases a.len(),
{
    if a.len() == 0 {
        assert(a + b =~= b);
    } else {
        assert((a + b).drop_first() =~= a.drop_first() + b);
        assert((a + b)[0] == a[0]);
        lemma_children_fault_append(a.drop_first(), b);
    }
}

/// The lookups of two lists of children read in turn.
pub proof fn lemma_children_vars_append(a: Seq<Formula>, b: Seq<Formula>)
    ensures
        children_vars(a + b) == children_vars(a) + children_vars(b),
    decreases a.len(),
{
    if a.len() == 0 {
        assert(a + b =~= b);
        assert(children_vars(a) + children_vars(b) =~= children_vars(b));
    } else {
        assert((a + b).drop_first() =~= a.drop_first() + b);
        assert((a + b)[0] == a[0]);
        lemma_children_vars_append(a.drop_first(), b);
        assert(children_vars(a + b) =~= children_vars(a) + children_vars(b));
    }
}

/// The formula is not a conjunction or a disjunction without children.
pub open spec fn not_empty_junction(f: Formula) -> bool {
    &&& !(f matches Formula::And(cs) && cs@.len() == 0)
    &&& !(f matches Formula::Or(cs) && cs@.len() == 0)
}

/// A list of one formula is as valid as the formula, and looks up what it does.
proof fn lemma_single(f: Formula)
    ensures
        children_fault(seq![f]) == formula_fault(f),
        children_vars(seq![f]) == formula_vars(f),
{
    let single = seq![f];
    assert(single.drop_first() =~= Seq::<Formula>::empty());
    assert(children_fault(Seq::<Formula>::empty()) is None);
    assert(children_vars(Seq::<Formula>::empty()) =~= Seq::<Seq<char>>::empty());
    assert(children_vars(single) =~= formula_vars(f));
}

/// The children a conjunction or disjunction starts from are, as a list, as
/// valid as the formula, unless it is one without children.
proof fn lemma_junction_fault(f: Formula)
    requires
        not_empty_junction(f),
    ensures
        children_fault(conjuncts(f)) == formula_fault(f),
        children_fault(disjuncts(f)) == formula_fault(f),
{
    lemma_single(f);
}

/// Flattening makes conjunction associative: `(a ∧ b) ∧ c` and `a ∧ (b ∧ c)`
/// have the same children in the same order.
pub proof fn law_and_associative(a: Formula, b: Formula, c: Formula, ab: Formula, bc: Formula)
    requires
        ab matches Formula::And(v) && v@ == conjuncts(a) + conjuncts(b),
        bc matches Formula::And(w) && w@ == conjuncts(b) + conjuncts(c),
    ensures
        conjuncts(ab) + conjuncts(c) == conjuncts(a) + conjuncts(bc),
{
    assert(conjuncts(ab) + conjuncts(c) =~= conjuncts(a) + conjuncts(bc));
}

/// Flattening makes disjunction associative: `(a ∨ b) ∨ c` and `a ∨ (b ∨ c)`
/// have the same children in the same order.
pub proof fn law_or_associative(a: Formula, b: Formula, c: Formula, ab: Formula, bc: Formula)
    requires
        ab matches Formula::Or(v) && v@ == disjuncts(a) + disjuncts(b),
        bc matches Formula::Or(w) && w@ == disjuncts(b) + disjuncts(c),
    ensures
        disjuncts(ab) + disjuncts(c) == disjuncts(a) + disjuncts(bc),
{
    assert(disjuncts(ab) + disjuncts(c) =~= disjuncts(a) + disjuncts(bc));
}

/// A conjunction built by `and` is valid exactly when both sides are, and
/// reports the left side's fault first; neither side may be a conjunction or
/// disjunction without children.
pub proof fn law_and_validates_sides(a: Formula, b: Formula, ab: Formula)
    requires
        not_empty_junction(a),
        not_empty_junction(b),
        ab matches Formula::And(v) && v@ == conjuncts(a) + conjuncts(b),
    ensures
        formula_fault(ab) == first_of(formula_fault(a), formula_fault(b)),
{
    lemma_children_fault_append(conjuncts(a), conjuncts(b));
    lemma_junction_fault(a);
    lemma_junction_fault(b);
}

/// A disjunction built by `or` is valid exactly when both sides are, and
/// reports the left side's fault first; neither side may be a conjunction or
/// disjunction without children.
pub proof fn law_or_validates_sides(a: Formula, b: Formula, ab: Formula)
    requires
        not_empty_junction(a),
        not_empty_junction(b),
        ab matches Formula::Or(v) && v@ == disjuncts(a) + disjuncts(b),
    ensures
        formula_fault(ab) == first_of(formula_fault(a), formula_fault(b)),
{
    lemma_children_fault_append(disjuncts(a), disjuncts(b));
    lemma_junction_fault(a);
    lemma_junction_fault(b);
}

/// A conjunction built by `and` looks up the left side's signals, then the
/// right side's, in their own orders.
pub proof fn law_and_reads_left_first(a: Formula, b: Formula, ab: Formula)
    requires
        ab matches Formula::And(v) && v@ == conjuncts(a) + conjuncts(b),
    ensures
        formula_vars(ab) == formula_vars(a) + formula_vars(b),
{
    lemma_children_vars_append(conjuncts(a), conjuncts(b));
    lemma_junction_vars(a);
    lemma_junction_vars(b);
}

/// A disjunction built by `or` looks up the left side's signals, then the
/// right side's, in their own orders.
pub proof fn law_or_reads_left_first(a: Formula, b: Formula, ab: Formula)
    requires
        ab matches Formula::Or(v) && v@ == disjuncts(a) + disjuncts(b),
    ensures
        formula_vars(ab) == formula_vars(a) + formula_vars(b),
{
    lemma_children_vars_append(disjuncts(a), disjuncts(b));
    lemma_junction_vars(a);
    lemma_junction_vars(b);
}

/// The children a junction starts from look up what the formula looks up.
proof fn lemma_junction_vars(f: Formula)
    ensures
        children_vars(conjuncts(f)) == formula_vars(f),
        children_vars(disjuncts(f)) == formula_vars(f),
{
    lemma_single(f);
}

/// After binding `name`, the name is found with the new trace; every other
/// name is found where, and with what, it was found before.
pub proof fn law_lookup_after_insert(entries: Seq<Entry>, name: Seq<char>, trace: Trace, other: Seq<char>)
    requires
        distinct_names(entries),
    ensures
        position(inserted(entries, name, trace), name) matches Some(k)
            && inserted(entries, name, trace)[k].1 == trace,
        other != name ==> position(inserted(entries, name, trace), other) == position(entries, other),
{
    let after = inserted(entries, name, trace);
    match position(entries, name) {
        Some(k) => {
            assert(after[k].0 == name);
        }
        None => {
            assert(after[entries.len() as int].0 == name);
        }
    }
    if other != name {
        if let Some(j) = position(entries, other) {
            assert(after[j].0 == other);
        }
        if let Some(j) = position(after, other) {
            assert(entries[j].0 == other);
        }
    }
}

/// Each sample of `t` inside `shape` is the same number as that of `u`.
pub open spec fn same_numbers(u: Trace, t: Trace, shape: Seq<usize>) -> bool {
    forall|b: int, i: int, d: int|
        0 <= b < shape[0] && 0 <= i < shape[1] && 0 <= d < shape[2] ==> same_number(
            #[trigger] trace_values(t)[b][i][d],
            trace_values(u)[b][i][d],
        )
}

/// Negating a formula twice gives back a robustness trace of the formula:
/// every robustness trace of `!!f` holds, sample by sample, the same numbers
/// as one of `f`.
pub proof fn law_double_negation(f: Formula, env: SignalEnv, options: EvalOptions, t: Trace)
    requires
        robust(Formula::Not(Box::new(Formula::Not(Box::new(f)))), env, options, t),
    ensures
        exists|u: Trace| #[trigger] same_numbers(u, t, env.expected_shape()) && robust(f, env, options, u),
{
    let shape = env.expected_shape();
    let v = choose|v: Trace| #[trigger] negation_of(v, t, shape) && robust(Formula::Not(Box::new(f)), env, options, v);
    let u = choose|u: Trace| #[trigger] negation_of(u, v, shape) && robust(f, env, options, u);
    assert forall|b: int, i: int, d: int|
        0 <= b < shape[0] && 0 <= i < shape[1] && 0 <= d < shape[2] implies same_number(
            #[trigger] trace_values(t)[b][i][d],
            trace_values(u)[b][i][d],
        ) by {
        let x = trace_values(u)[b][i][d];
        let y = trace_values(v)[b][i][d];
        if !is_nan_bits(x) {
            lemma_flip_keeps_number(x);
        }
        lemma_sign_keeps_nan(x);
        lemma_sign_keeps_nan(y);
        lemma_sign_keeps_nan(flip_sign(x));
        assert(same_number(y, flip_sign(x)));
        assert(same_number(trace_values(t)[b][i][d], flip_sign(y)));
    }
    assert(same_numbers(u, t, shape));
}

/// `f` is built from expressions, predicates, negations and integrals alone:
/// each of its samples follows from samples of its signals by arithmetic.
pub open spec fn pointwise(f: Formula) -> bool
    decreases f,
{
    match f {
        Formula::Expression(_) => true,
        Formula::Predicate { .. } => true,
        Formula::Not(s) => pointwise(*s),
        Formula::Integral { subformula, .. } => pointwise(*subformula),
        _ => false,
    }
}

/// Two encodings that are each the same number as a third are the same number.
proof fn lemma_same_number_through(x: u64, y: u64, a: u64)
    requires
        same_number(x, a),
        same_number(y, a),
    ensures
        same_number(x, y),
{
}

/// Columns that hold the same numbers place by place have sums that are the
/// same number.
proof fn lemma_sum_value_alike(dtype: int, s1: Seq<u64>, s2: Seq<u64>)
    requires
        s1.len() == s2.len(),
        forall|k: int| 0 <= k < s1.len() ==> same_number(#[trigger] s1[k], s2[k]),
    ensures
        same_number(sum_value(dtype, s1), sum_value(dtype, s2)),
{
    if no_nan(s1) {
        assert forall|k: int| 0 <= k < s2.len() implies !is_nan_bits(#[trigger] s2[k]) by {
            assert(same_number(s1[k], s2[k]));
        }
        assert(s1 =~= s2);
    } else {
        let k = choose|k: int| 0 <= k < s1.len() && is_nan_bits(#[trigger] s1[k]);
        assert(same_number(s1[k], s2[k]));
        assert(!no_nan(s2));
    }
}

/// Traces that hold the same numbers give integrands that are the same
/// number.
proof fn lemma_integrand_alike(u1: Trace, u2: Trace, options: IntegralOptions, shape: Seq<usize>, b: int, k: int, d: int)
    requires
        same_numbers(u1, u2, shape),
        trace_dtype(u1) == trace_dtype(u2),
        in_shape(shape, b, k, d),
    ensures
        same_number(integrand(u1, options, b, k, d), integrand(u2, options, b, k, d)),
{
    let dtype = trace_dtype(u1);
    let x1 = trace_values(u1)[b][k][d];
    let x2 = trace_values(u2)[b][k][d];
    assert(same_number(x2, x1));
    let s1 = scheme_sample(u1, options.scheme, b, k, d);
    let s2 = scheme_sample(u2, options.scheme, b, k, d);
    if options.scheme is Trapezoid && k > 0 {
        let y1 = trace_values(u1)[b][k - 1][d];
        let y2 = trace_values(u2)[b][k - 1][d];
        assert(same_number(y2, y1));
        lemma_same_number_ops(dtype, y1, y2, x1, x2);
        let a1 = crate::trace::add_value(dtype, y1, x1);
        let a2 = crate::trace::add_value(dtype, y2, x2);
        lemma_same_number_ops(dtype, a1, a2, crate::trace::two_bits(), crate::trace::two_bits());
    }
    assert(same_number(s1, s2));
    lemma_same_number_ops(dtype, s1, s2, 0, 0);
}

/// Traces that hold the same numbers give finite-window integrands that are
/// the same numbers.
proof fn lemma_window_terms_alike(
    u1: Trace,
    u2: Trace,
    interval: Interval,
    options: IntegralOptions,
    shape: Seq<usize>,
    i: int,
    b: int,
    d: int,
)
    requires
        same_numbers(u1, u2, shape),
        trace_dtype(u1) == trace_dtype(u2),
        in_shape(shape, b, i, d),
    ensures
        window_terms(u1, interval, options, i, b, d).len() == window_terms(u2, interval, options, i, b, d).len(),
        forall|k: int|
            0 <= k < window_terms(u1, interval, options, i, b, d).len() ==> same_number(
                #[trigger] window_terms(u1, interval, options, i, b, d)[k],
                window_terms(u2, interval, options, i, b, d)[k],
            ),
{
    let dtype = trace_dtype(u1);
    let offsets = integral_offsets(interval, i);
    if offsets.len() > 0 {
        assert forall|k: int| 0 <= k < offsets.len() implies same_number(
            #[trigger] window_terms(u1, interval, options, i, b, d)[k],
            window_terms(u2, interval, options, i, b, d)[k],
        ) by {
            let o = offsets[k] as int;
            let p1 = padding_value(u1, options.padding, b, d);
            let p2 = padding_value(u2, options.padding, b, d);
            assert(in_shape(shape, b, 0, d));
            assert(same_number(trace_values(u2)[b][0][d], trace_values(u1)[b][0][d]));
            assert(same_number(p1, p2));
            if o <= i {
                assert(in_shape(shape, b, i - o, d));
                assert(same_number(trace_values(u2)[b][i - o][d], trace_values(u1)[b][i - o][d]));
            }
            let base1 = if o > i { p1 } else { trace_values(u1)[b][i - o][d] };
            let base2 = if o > i { p2 } else { trace_values(u2)[b][i - o][d] };
            assert(same_number(base1, base2));
            lemma_same_number_ops(dtype, base1, base2, crate::trace::two_bits(), crate::trace::two_bits());
            let w1 = window_base(u1, interval, options, i, b, d, k);
            let w2 = window_base(u2, interval, options, i, b, d, k);
            assert(same_number(w1, w2));
            lemma_same_number_ops(dtype, w1, w2, 0, 0);
        }
    }
}

/// Robustness is determined on formulas built from expressions, predicates,
/// negations and integrals: any two robustness traces of such a formula
/// hold, sample by sample, the same numbers.
pub proof fn law_pointwise_robustness_is_determined(f: Formula, env: SignalEnv, options: EvalOptions, t1: Trace, t2: Trace)
    requires
        pointwise(f),
        robust(f, env, options, t1),
        robust(f, env, options, t2),
    ensures
        same_numbers(t1, t2, env.expected_shape()),
    decreases f,
{
    let shape = env.expected_shape();
    match f {
        Formula::Expression(_) => {
            assert forall|b: int, i: int, d: int| 0 <= b < shape[0] && 0 <= i < shape[1] && 0 <= d < shape[2] implies same_number(
                #[trigger] trace_values(t2)[b][i][d],
                trace_values(t1)[b][i][d],
            ) by {
                assert(in_shape(shape, b, i, d));
                lemma_same_number_through(
                    trace_values(t2)[b][i][d],
                    trace_values(t1)[b][i][d],
                    crate::formula::atom_value(f, env, options, b, i, d),
                );
            }
        },
        Formula::Predicate { .. } => {
            assert forall|b: int, i: int, d: int| 0 <= b < shape[0] && 0 <= i < shape[1] && 0 <= d < shape[2] implies same_number(
                #[trigger] trace_values(t2)[b][i][d],
                trace_values(t1)[b][i][d],
            ) by {
                assert(in_shape(shape, b, i, d));
                lemma_same_number_through(
                    trace_values(t2)[b][i][d],
                    trace_values(t1)[b][i][d],
                    crate::formula::atom_value(f, env, options, b, i, d),
                );
            }
        },
        Formula::Not(s) => {
            let u1 = choose|u: Trace| #[trigger] negation_of(u, t1, shape) && robust(*s, env, options, u);
            let u2 = choose|u: Trace| #[trigger] negation_of(u, t2, shape) && robust(*s, env, options, u);
            law_pointwise_robustness_is_determined(*s, env, options, u1, u2);
            assert forall|b: int, i: int, d: int| 0 <= b < shape[0] && 0 <= i < shape[1] && 0 <= d < shape[2] implies same_number(
                #[trigger] trace_values(t2)[b][i][d],
                trace_values(t1)[b][i][d],
            ) by {
                let x1 = trace_values(u1)[b][i][d];
                let x2 = trace_values(u2)[b][i][d];
                assert(same_number(x2, x1));
                lemma_same_number_ops(0, x2, x1, 0, 0);
                assert(same_number(trace_values(t1)[b][i][d], flip_sign(x1)));
                assert(same_number(trace_values(t2)[b][i][d], flip_sign(x2)));
                lemma_sign_keeps_nan(x1);
                lemma_sign_keeps_nan(x2);
            }
        },
        Formula::Integral { subformula, options: io } => {
            let u1 = choose|u: Trace| #[trigger] integration(u, t1, io) && robust(*subformula, env, options, u);
            let u2 = choose|u: Trace| #[trigger] integration(u, t2, io) && robust(*subformula, env, options, u);
            law_pointwise_robustness_is_determined(*subformula, env, options, u1, u2);
            let dtype = trace_dtype(u1);
            assert(trace_shape(u1) == shape && trace_shape(u2) == shape);
            assert(trace_dtype(u2) == dtype);
            assert forall|b: int, i: int, d: int| 0 <= b < shape[0] && 0 <= i < shape[1] && 0 <= d < shape[2] implies same_number(
                #[trigger] trace_values(t2)[b][i][d],
                trace_values(t1)[b][i][d],
            ) by {
                assert(in_shape(shape, b, i, d));
                match io.interval {
                    None => {
                        let p1 = crate::formula::integrand_prefix(u1, io, b, i, d);
                        let p2 = crate::formula::integrand_prefix(u2, io, b, i, d);
                        assert forall|k: int| 0 <= k < p1.len() implies same_number(#[trigger] p1[k], p2[k]) by {
                            lemma_integrand_alike(u1, u2, io, shape, b, k, d);
                        }
                        lemma_sum_value_alike(dtype, p1, p2);
                        assert(cumulative_of(u1, t1, io));
                        assert(cumulative_of(u2, t2, io));
                        lemma_same_number_ops(dtype, sum_value(dtype, p1), sum_value(dtype, p2), 0, 0);
                        assert(same_number(trace_values(t1)[b][i][d], sum_value(dtype, p1)));
                        assert(same_number(trace_values(t2)[b][i][d], sum_value(dtype, p2)));
                    },
                    Some(interval) => {
                        let w1 = window_terms(u1, interval, io, i, b, d);
                        let w2 = window_terms(u2, interval, io, i, b, d);
                        lemma_window_terms_alike(u1, u2, interval, io, shape, i, b, d);
                        lemma_sum_value_alike(dtype, w1, w2);
                        assert(windowed_of(u1, t1, interval, io));
                        assert(windowed_of(u2, t2, interval, io));
                        assert(same_number(trace_values(t1)[b][i][d], sum_value(dtype, w1)));
                        assert(same_number(trace_values(t2)[b][i][d], sum_value(dtype, w2)));
                    },
                }
            }
        },
        _ => {},
    }
}

/// [`alike`] is an equivalence that holds of the same numbers and survives
/// toggling the sign.
proof fn lemma_alike(x: u64, y: u64, z: u64)
    ensures
        alike(x, x),
        alike(x, y) ==> alike(y, x),
        alike(x, y) && alike(y, z) ==> alike(x, z),
        same_number(x, y) ==> alike(x, y),
        alike(x, y) ==> alike(flip_sign(x), flip_sign(y)),
{
    lemma_sign_keeps_nan(x);
    lemma_sign_keeps_nan(y);
    if !is_nan_bits(x) {
        lemma_flip_keeps_number(x);
    }
    if !is_nan_bits(y) {
        lemma_flip_keeps_number(y);
    }
}

/// Extremes of columns that are [`alike`] place by place are alike.
proof fn lemma_extreme_alike(c1: Seq<u64>, c2: Seq<u64>, v1: u64, v2: u64, is_min: bool)
    requires
        c1.len() == c2.len(),
        forall|k: int| 0 <= k < c1.len() ==> alike(#[trigger] c1[k], c2[k]),
        attains_extreme(c1, v1, is_min),
        attains_extreme(c2, v2, is_min),
    ensures
        alike(v1, v2),
{
    if no_nan(c1) {
        assert forall|k: int| 0 <= k < c2.len() implies !is_nan_bits(#[trigger] c2[k]) by {
            assert(alike(c1[k], c2[k]));
        }
        let m = choose|m: int| 0 <= m < c1.len() && c1[m] == v1;
        let j = choose|j: int| 0 <= j < c2.len() && c2[j] == v2;
        assert(alike(c1[m], c2[m]));
        assert(alike(c1[j], c2[j]));
        assert(!is_nan_bits(c1[m]) && !is_nan_bits(c2[j]));
    } else {
        let k = choose|k: int| 0 <= k < c1.len() && is_nan_bits(#[trigger] c1[k]);
        assert(alike(c1[k], c2[k]));
        assert(!no_nan(c2));
    }
}

/// The candidate times of an `until` or a `then` at `index` lie between 0
/// and `index`.
proof fn lemma_candidate_times_bounded(interval: Interval, index: int, k: int)
    requires
        0 <= index <= usize::MAX,
        0 <= k < candidate_times(interval, index).len(),
    ensures
        0 <= candidate_times(interval, index)[k] <= index,
{
}

/// The windows of traces that are [`alike`] hold alike samples.
proof fn lemma_window_alike(u1: Trace, u2: Trace, interval: Interval, shape: Seq<usize>, i: int, b: int, d: int)
    requires
        alike_traces(u1, u2, shape),
        0 <= b < shape[0] && 0 <= i < shape[1] && 0 <= d < shape[2],
    ensures
        window_column(u1, interval, i, b, d).len() == window_column(u2, interval, i, b, d).len(),
        forall|k: int|
            0 <= k < window_column(u1, interval, i, b, d).len() ==> alike(
                #[trigger] window_column(u1, interval, i, b, d)[k],
                window_column(u2, interval, i, b, d)[k],
            ),
{
    assert forall|k: int| 0 <= k < window_column(u1, interval, i, b, d).len() implies alike(
        #[trigger] window_column(u1, interval, i, b, d)[k],
        window_column(u2, interval, i, b, d)[k],
    ) by {
        lemma_window_times_bounded(interval, i, k);
        let t = window_times(interval, i)[k] as int;
        lemma_alike(trace_values(u2)[b][t][d], trace_values(u1)[b][t][d], 0);
    }
}

/// Robustness traces of the children of a conjunction or a disjunction are
/// alike child by child.
proof fn lemma_children_alike(cs: Seq<Formula>, env: SignalEnv, options: EvalOptions, ts1: Seq<Trace>, ts2: Seq<Trace>)
    requires
        options.aggregation is Exact,
        robust_children(cs, env, options, ts1),
        robust_children(cs, env, options, ts2),
    ensures
        ts1.len() == cs.len() && ts2.len() == cs.len(),
        forall|k: int| 0 <= k < cs.len() ==> alike_traces(#[trigger] ts1[k], ts2[k], env.expected_shape()),
    decreases cs,
{
    if cs.len() > 0 {
        law_exact_robustness_is_determined(cs[0], env, options, ts1[0], ts2[0]);
        lemma_children_alike(cs.drop_first(), env, options, ts1.drop_first(), ts2.drop_first());
        assert forall|k: int| 0 <= k < cs.len() implies alike_traces(#[trigger] ts1[k], ts2[k], env.expected_shape()) by {
            if k > 0 {
                assert(ts1[k] == ts1.drop_first()[k - 1]);
                assert(ts2[k] == ts2.drop_first()[k - 1]);
            }
        }
    }
}

/// With exact aggregation robustness is determined up to the sign of a zero:
/// any two robustness traces of a formula stand, sample by sample, for the
/// same number, or are both NaNs there.
pub proof fn law_exact_robustness_is_determined(f: Formula, env: SignalEnv, options: EvalOptions, t1: Trace, t2: Trace)
    requires
        options.aggregation is Exact,
        robust(f, env, options, t1),
        robust(f, env, options, t2),
    ensures
        alike_traces(t2, t1, env.expected_shape()),
    decreases f,
{
    let shape = env.expected_shape();
    let dtype = trace_dtype(env.entries()[0].1);
    match f {
        Formula::Expression(_) => {
            law_pointwise_robustness_is_determined(f, env, options, t1, t2);
            assert forall|b: int, i: int, d: int| 0 <= b < shape[0] && 0 <= i < shape[1] && 0 <= d < shape[2] implies alike(
                #[trigger] trace_values(t1)[b][i][d],
                trace_values(t2)[b][i][d],
            ) by {
                lemma_alike(trace_values(t2)[b][i][d], trace_values(t1)[b][i][d], 0);
                lemma_alike(trace_values(t1)[b][i][d], trace_values(t2)[b][i][d], 0);
            }
        },
        Formula::Predicate { .. } => {
            law_pointwise_robustness_is_determined(f, env, options, t1, t2);
            assert forall|b: int, i: int, d: int| 0 <= b < shape[0] && 0 <= i < shape[1] && 0 <= d < shape[2] implies alike(
                #[trigger] trace_values(t1)[b][i][d],
                trace_values(t2)[b][i][d],
            ) by {
                lemma_alike(trace_values(t2)[b][i][d], trace_values(t1)[b][i][d], 0);
                lemma_alike(trace_values(t1)[b][i][d], trace_values(t2)[b][i][d], 0);
            }
        },
        Formula::Integral { subformula, options: io } => {
            let u1 = choose|u: Trace| #[trigger] integration(u, t1, io) && robust(*subformula, env, options, u);
            let u2 = choose|u: Trace| #[trigger] integration(u, t2, io) && robust(*subformula, env, options, u);
            law_exact_robustness_is_determined(*subformula, env, options, u1, u2);
            assert(trace_shape(u1) == shape && trace_dtype(u2) == trace_dtype(u1));
            assert(alike_traces(u1, u2, trace_shape(u1)));
            let dtype1 = trace_dtype(u1);
            assert forall|b: int, i: int, d: int| 0 <= b < shape[0] && 0 <= i < shape[1] && 0 <= d < shape[2] implies alike(
                #[trigger] trace_values(t1)[b][i][d],
                trace_values(t2)[b][i][d],
            ) by {
                assert(in_shape(shape, b, i, d));
                match io.interval {
                    None => {
                        let p2 = crate::formula::integrand_prefix(u2, io, b, i, d);
                        assert(cumulative_of(u1, t1, io));
                        assert(cumulative_of(u2, t2, io));
                        assert(alike(trace_values(t1)[b][i][d], sum_value(dtype1, p2)));
                        assert(same_number(trace_values(t2)[b][i][d], sum_value(dtype1, p2)));
                        lemma_alike(trace_values(t2)[b][i][d], sum_value(dtype1, p2), 0);
                        lemma_alike(sum_value(dtype1, p2), trace_values(t2)[b][i][d], 0);
                        lemma_alike(trace_values(t1)[b][i][d], sum_value(dtype1, p2), trace_values(t2)[b][i][d]);
                    },
                    Some(interval) => {
                        let w2 = window_terms(u2, interval, io, i, b, d);
                        assert(windowed_of(u1, t1, interval, io));
                        assert(windowed_of(u2, t2, interval, io));
                        assert(alike(trace_values(t1)[b][i][d], sum_value(dtype1, w2)));
                        assert(same_number(trace_values(t2)[b][i][d], sum_value(dtype1, w2)));
                        lemma_alike(trace_values(t2)[b][i][d], sum_value(dtype1, w2), 0);
                        lemma_alike(sum_value(dtype1, w2), trace_values(t2)[b][i][d], 0);
                        lemma_alike(trace_values(t1)[b][i][d], sum_value(dtype1, w2), trace_values(t2)[b][i][d]);
                    },
                }
            }
        },
        Formula::Not(s) => {
            let u1 = choose|u: Trace| #[trigger] negation_of(u, t1, shape) && robust(*s, env, options, u);
            let u2 = choose|u: Trace| #[trigger] negation_of(u, t2, shape) && robust(*s, env, options, u);
            law_exact_robustness_is_determined(*s, env, options, u1, u2);
            assert forall|b: int, i: int, d: int| 0 <= b < shape[0] && 0 <= i < shape[1] && 0 <= d < shape[2] implies alike(
                #[trigger] trace_values(t1)[b][i][d],
                trace_values(t2)[b][i][d],
            ) by {
                let x1 = trace_values(u1)[b][i][d];
                let x2 = trace_values(u2)[b][i][d];
                let y1 = trace_values(t1)[b][i][d];
                let y2 = trace_values(t2)[b][i][d];
                lemma_alike(x2, x1, 0);
                lemma_alike(x1, x2, 0);
                lemma_alike(y1, flip_sign(x1), flip_sign(x2));
                lemma_alike(flip_sign(x2), y2, 0);
                lemma_alike(y2, flip_sign(x2), 0);
                lemma_alike(y1, flip_sign(x2), y2);
            }
        },
        Formula::And(cs) => {
            let ts1 = choose|ts: Seq<Trace>| #[trigger] combination(ts, t1, shape, options.aggregation, true) && robust_children(cs@, env, options, ts);
            let ts2 = choose|ts: Seq<Trace>| #[trigger] combination(ts, t2, shape, options.aggregation, true) && robust_children(cs@, env, options, ts);
            lemma_children_alike(cs@, env, options, ts1, ts2);
            assert forall|b: int, i: int, d: int| 0 <= b < shape[0] && 0 <= i < shape[1] && 0 <= d < shape[2] implies alike(
                #[trigger] trace_values(t1)[b][i][d],
                trace_values(t2)[b][i][d],
            ) by {
                let c1 = children_column(ts1, b, i, d);
                let c2 = children_column(ts2, b, i, d);
                assert forall|k: int| 0 <= k < c1.len() implies alike(#[trigger] c1[k], c2[k]) by {
                    assert(alike_traces(ts1[k], ts2[k], shape));
                    lemma_alike(trace_values(ts2[k])[b][i][d], trace_values(ts1[k])[b][i][d], 0);
                }
                lemma_extreme_alike(c1, c2, trace_values(t1)[b][i][d], trace_values(t2)[b][i][d], true);
            }
        },
        Formula::Or(cs) => {
            let ts1 = choose|ts: Seq<Trace>| #[trigger] combination(ts, t1, shape, options.aggregation, false) && robust_children(cs@, env, options, ts);
            let ts2 = choose|ts: Seq<Trace>| #[trigger] combination(ts, t2, shape, options.aggregation, false) && robust_children(cs@, env, options, ts);
            lemma_children_alike(cs@, env, options, ts1, ts2);
            assert forall|b: int, i: int, d: int| 0 <= b < shape[0] && 0 <= i < shape[1] && 0 <= d < shape[2] implies alike(
                #[trigger] trace_values(t1)[b][i][d],
                trace_values(t2)[b][i][d],
            ) by {
                let c1 = children_column(ts1, b, i, d);
                let c2 = children_column(ts2, b, i, d);
                assert forall|k: int| 0 <= k < c1.len() implies alike(#[trigger] c1[k], c2[k]) by {
                    assert(alike_traces(ts1[k], ts2[k], shape));
                    lemma_alike(trace_values(ts2[k])[b][i][d], trace_values(ts1[k])[b][i][d], 0);
                }
                lemma_extreme_alike(c1, c2, trace_values(t1)[b][i][d], trace_values(t2)[b][i][d], false);
            }
        },
        Formula::Implies(l, r) => {
            let (u1, w1) = choose|u: Trace, w: Trace|
                #[trigger] implication(u, w, t1, shape, options.aggregation) && robust(*l, env, options, u) && robust(*r, env, options, w);
            let (u2, w2) = choose|u: Trace, w: Trace|
                #[trigger] implication(u, w, t2, shape, options.aggregation) && robust(*l, env, options, u) && robust(*r, env, options, w);
            law_exact_robustness_is_determined(*l, env, options, u1, u2);
            law_exact_robustness_is_determined(*r, env, options, w1, w2);
            assert forall|b: int, i: int, d: int| 0 <= b < shape[0] && 0 <= i < shape[1] && 0 <= d < shape[2] implies alike(
                #[trigger] trace_values(t1)[b][i][d],
                trace_values(t2)[b][i][d],
            ) by {
                let x1 = trace_values(u1)[b][i][d];
                let x2 = trace_values(u2)[b][i][d];
                let c1 = seq![flip_sign(x1), trace_values(w1)[b][i][d]];
                let c2 = seq![flip_sign(x2), trace_values(w2)[b][i][d]];
                assert(implication_spec(u1, w1, t1, shape));
                assert(implication_spec(u2, w2, t2, shape));
                lemma_alike(x2, x1, 0);
                lemma_alike(x1, x2, 0);
                lemma_alike(trace_values(w2)[b][i][d], trace_values(w1)[b][i][d], 0);
                assert forall|k: int| 0 <= k < c1.len() implies alike(#[trigger] c1[k], c2[k]) by {}
                lemma_extreme_alike(c1, c2, trace_values(t1)[b][i][d], trace_values(t2)[b][i][d], false);
            }
        },
        Formula::Always { subformula, interval } => {
            let u1 = choose|u: Trace| #[trigger] windowing(u, t1, interval, shape, options.aggregation, true) && robust(*subformula, env, options, u);
            let u2 = choose|u: Trace| #[trigger] windowing(u, t2, interval, shape, options.aggregation, true) && robust(*subformula, env, options, u);
            law_exact_robustness_is_determined(*subformula, env, options, u1, u2);
            assert forall|b: int, i: int, d: int| 0 <= b < shape[0] && 0 <= i < shape[1] && 0 <= d < shape[2] implies alike(
                #[trigger] trace_values(t1)[b][i][d],
                trace_values(t2)[b][i][d],
            ) by {
                assert(alike_traces(u2, u1, shape));
                lemma_alike_traces_flip(u2, u1, shape);
                lemma_window_alike(u1, u2, interval, shape, i, b, d);
                assert(windows_of(u1, t1, interval, shape, true));
                assert(windows_of(u2, t2, interval, shape, true));
                lemma_extreme_alike(
                    window_column(u1, interval, i, b, d),
                    window_column(u2, interval, i, b, d),
                    trace_values(t1)[b][i][d],
                    trace_values(t2)[b][i][d],
                    true,
                );
            }
        },
        Formula::Eventually { subformula, interval } => {
            let u1 = choose|u: Trace| #[trigger] windowing(u, t1, interval, shape, options.aggregation, false) && robust(*subformula, env, options, u);
            let u2 = choose|u: Trace| #[trigger] windowing(u, t2, interval, shape, options.aggregation, false) && robust(*subformula, env, options, u);
            law_exact_robustness_is_determined(*subformula, env, options, u1, u2);
            assert forall|b: int, i: int, d: int| 0 <= b < shape[0] && 0 <= i < shape[1] && 0 <= d < shape[2] implies alike(
                #[trigger] trace_values(t1)[b][i][d],
                trace_values(t2)[b][i][d],
            ) by {
                lemma_alike_traces_flip(u2, u1, shape);
                lemma_window_alike(u1, u2, interval, shape, i, b, d);
                assert(windows_of(u1, t1, interval, shape, false));
                assert(windows_of(u2, t2, interval, shape, false));
                lemma_extreme_alike(
                    window_column(u1, interval, i, b, d),
                    window_column(u2, interval, i, b, d),
                    trace_values(t1)[b][i][d],
                    trace_values(t2)[b][i][d],
                    false,
                );
            }
        },
        Formula::Until { lhs, rhs, interval, overlap } => {
            let (u1, w1, s1) = choose|u: Trace, w: Trace, shifted: Trace|
                #[trigger] until_built(u, w, shifted, t1, interval, overlap, shape, options.aggregation, false, dtype) && robust(*lhs, env, options, u)
                    && robust(*rhs, env, options, w);
            let (u2, w2, s2) = choose|u: Trace, w: Trace, shifted: Trace|
                #[trigger] until_built(u, w, shifted, t2, interval, overlap, shape, options.aggregation, false, dtype) && robust(*lhs, env, options, u)
                    && robust(*rhs, env, options, w);
            law_exact_robustness_is_determined(*lhs, env, options, u1, u2);
            law_exact_robustness_is_determined(*rhs, env, options, w1, w2);
            lemma_until_alike(u1, w1, s1, t1, u2, w2, s2, t2, interval, overlap, shape, false, dtype);
        },
        Formula::Then { lhs, rhs, interval, overlap } => {
            let (u1, w1, s1) = choose|u: Trace, w: Trace, shifted: Trace|
                #[trigger] until_built(u, w, shifted, t1, interval, overlap, shape, options.aggregation, true, dtype) && robust(*lhs, env, options, u)
                    && robust(*rhs, env, options, w);
            let (u2, w2, s2) = choose|u: Trace, w: Trace, shifted: Trace|
                #[trigger] until_built(u, w, shifted, t2, interval, overlap, shape, options.aggregation, true, dtype) && robust(*lhs, env, options, u)
                    && robust(*rhs, env, options, w);
            law_exact_robustness_is_determined(*lhs, env, options, u1, u2);
            law_exact_robustness_is_determined(*rhs, env, options, w1, w2);
            lemma_until_alike(u1, w1, s1, t1, u2, w2, s2, t2, interval, overlap, shape, true, dtype);
        },
    }
}

/// [`alike_traces`] read the other way round.
proof fn lemma_alike_traces_flip(u: Trace, t: Trace, shape: Seq<usize>)
    requires
        alike_traces(u, t, shape),
    ensures
        alike_traces(t, u, shape),
{
    assert forall|b: int, i: int, d: int| 0 <= b < shape[0] && 0 <= i < shape[1] && 0 <= d < shape[2] implies alike(
        #[trigger] trace_values(u)[b][i][d],
        trace_values(t)[b][i][d],
    ) by {
        lemma_alike(trace_values(t)[b][i][d], trace_values(u)[b][i][d], 0);
    }
}

/// What one candidate time gives is alike over alike sides.
proof fn lemma_candidate_alike(
    u1: Trace,
    s1: Trace,
    u2: Trace,
    s2: Trace,
    shape: Seq<usize>,
    c: int,
    i: int,
    b: int,
    d: int,
    x1: u64,
    x2: u64,
    then: bool,
)
    requires
        alike_traces(u1, u2, shape),
        alike_traces(s1, s2, shape),
        0 <= c <= i,
        0 <= b < shape[0] && 0 <= i < shape[1] && 0 <= d < shape[2],
        candidate_value(u1, s1, c, i, b, d, x1, then),
        candidate_value(u2, s2, c, i, b, d, x2, then),
    ensures
        alike(x1, x2),
{
    let y1 = choose|y: u64|
        #[trigger] prefix_extreme(span_column(u1, c, i, b, d), y, then) && attains_min(seq![trace_values(s1)[b][c][d], y], x1);
    let y2 = choose|y: u64|
        #[trigger] prefix_extreme(span_column(u2, c, i, b, d), y, then) && attains_min(seq![trace_values(s2)[b][c][d], y], x2);
    let sp1 = span_column(u1, c, i, b, d);
    let sp2 = span_column(u2, c, i, b, d);
    assert forall|m: int| 0 <= m < sp1.len() implies alike(#[trigger] sp1[m], sp2[m]) by {
        lemma_alike(trace_values(u2)[b][c + m][d], trace_values(u1)[b][c + m][d], 0);
    }
    lemma_extreme_alike(sp1, sp2, y1, y2, !then);
    lemma_alike(trace_values(s2)[b][c][d], trace_values(s1)[b][c][d], 0);
    let p1 = seq![trace_values(s1)[b][c][d], y1];
    let p2 = seq![trace_values(s2)[b][c][d], y2];
    assert forall|m: int| 0 <= m < p1.len() implies alike(#[trigger] p1[m], p2[m]) by {}
    lemma_extreme_alike(p1, p2, x1, x2, true);
}

/// What an `until` or a `then` gives at one place is alike over alike sides.
proof fn lemma_until_place_alike(
    u1: Trace,
    s1: Trace,
    u2: Trace,
    s2: Trace,
    interval: Interval,
    shape: Seq<usize>,
    i: int,
    b: int,
    d: int,
    v1: u64,
    v2: u64,
    then: bool,
    dtype: int,
)
    requires
        alike_traces(u1, u2, shape),
        alike_traces(s1, s2, shape),
        0 <= b < shape[0] && 0 <= i < shape[1] && 0 <= d < shape[2],
        until_value(u1, s1, candidate_times(interval, i), i, b, d, v1, then, dtype),
        until_value(u2, s2, candidate_times(interval, i), i, b, d, v2, then, dtype),
    ensures
        alike(v1, v2),
{
    let cs = candidate_times(interval, i);
    if cs.len() == 0 {
        lemma_alike(v1, v2, 0);
    } else {
        let col1 = choose|col: Seq<u64>| #[trigger] candidate_column(u1, s1, cs, i, b, d, col, then) && attains_max(col, v1);
        let col2 = choose|col: Seq<u64>| #[trigger] candidate_column(u2, s2, cs, i, b, d, col, then) && attains_max(col, v2);
        assert forall|k: int| 0 <= k < col1.len() implies alike(#[trigger] col1[k], col2[k]) by {
            lemma_candidate_times_bounded(interval, i, k);
            lemma_candidate_alike(u1, s1, u2, s2, shape, cs[k] as int, i, b, d, col1[k], col2[k], then);
        }
        lemma_extreme_alike(col1, col2, v1, v2, false);
    }
}

/// An `until` or a `then` built from alike sides is alike.
proof fn lemma_until_alike(
    u1: Trace,
    w1: Trace,
    s1: Trace,
    t1: Trace,
    u2: Trace,
    w2: Trace,
    s2: Trace,
    t2: Trace,
    interval: Interval,
    overlap: bool,
    shape: Seq<usize>,
    then: bool,
    dtype: int,
)
    requires
        until_built(u1, w1, s1, t1, interval, overlap, shape, Aggregation::Exact, then, dtype),
        until_built(u2, w2, s2, t2, interval, overlap, shape, Aggregation::Exact, then, dtype),
        alike_traces(u2, u1, shape),
        alike_traces(w2, w1, shape),
    ensures
        alike_traces(t2, t1, shape),
{
    lemma_alike_traces_flip(u2, u1, shape);
    lemma_shifted_alike(u1, w1, s1, t1, u2, w2, s2, t2, interval, overlap, shape, then, then, dtype);
    lemma_alike_traces_flip(s2, s1, shape);
    assert(until_of(u1, s1, t1, interval, shape, then, dtype));
    assert(until_of(u2, s2, t2, interval, shape, then, dtype));
    assert forall|b: int, i: int, d: int| 0 <= b < shape[0] && 0 <= i < shape[1] && 0 <= d < shape[2] implies alike(
        #[trigger] trace_values(t1)[b][i][d],
        trace_values(t2)[b][i][d],
    ) by {
        lemma_until_place_alike(u1, s1, u2, s2, interval, shape, i, b, d, trace_values(t1)[b][i][d], trace_values(t2)[b][i][d], then, dtype);
    }
}

/// The right-hand sides that an `until` or a `then` reads are alike over
/// alike right-hand sides.
proof fn lemma_shifted_alike(
    u1: Trace,
    w1: Trace,
    s1: Trace,
    t1: Trace,
    u2: Trace,
    w2: Trace,
    s2: Trace,
    t2: Trace,
    interval: Interval,
    overlap: bool,
    shape: Seq<usize>,
    then1: bool,
    then2: bool,
    dtype: int,
)
    requires
        until_built(u1, w1, s1, t1, interval, overlap, shape, Aggregation::Exact, then1, dtype),
        until_built(u2, w2, s2, t2, interval, overlap, shape, Aggregation::Exact, then2, dtype),
        alike_traces(w2, w1, shape),
    ensures
        alike_traces(s2, s1, shape),
{
    lemma_alike_traces_flip(w2, w1, shape);
    if !overlap {
        let iv = Interval::Closed { start: 0, end: 1 };
        assert(windows_of(w1, s1, iv, shape, false));
        assert(windows_of(w2, s2, iv, shape, false));
        assert forall|b: int, i: int, d: int| 0 <= b < shape[0] && 0 <= i < shape[1] && 0 <= d < shape[2] implies alike(
            #[trigger] trace_values(s2)[b][i][d],
            trace_values(s1)[b][i][d],
        ) by {
            lemma_window_alike(w1, w2, iv, shape, i, b, d);
            lemma_extreme_alike(
                window_column(w1, iv, i, b, d),
                window_column(w2, iv, i, b, d),
                trace_values(s1)[b][i][d],
                trace_values(s2)[b][i][d],
                false,
            );
            lemma_alike(trace_values(s1)[b][i][d], trace_values(s2)[b][i][d], 0);
        }
    }
}

/// With exact aggregation, what `robustness_at` gives is, up to the sign of
/// a zero, the sample at that time of what `robustness_trace` gives.
pub proof fn law_robustness_at_reads_the_trace(
    f: Formula,
    env: SignalEnv,
    time: usize,
    options: EvalOptions,
    t: Trace,
    s: Trace,
)
    requires
        options.aggregation is Exact,
        trace_outcome(Ok(t), f, env, options),
        at_outcome(Ok(s), f, env, time, options),
    ensures
        forall|b: int, d: int|
            0 <= b < env.expected_shape()[0] && 0 <= d < env.expected_shape()[2] ==> alike(
                #[trigger] trace_values(s)[b][0][d],
                trace_values(t)[b][env.expected_shape()[1] - 1 - time][d],
            ),
{
    let shape = env.expected_shape();
    let full = choose|full: Trace| #[trigger] sample_of(full, s, time, shape) && robust(f, env, options, full);
    law_exact_robustness_is_determined(f, env, options, t, full);
    assert forall|b: int, d: int| 0 <= b < shape[0] && 0 <= d < shape[2] implies alike(
        #[trigger] trace_values(s)[b][0][d],
        trace_values(t)[b][shape[1] - 1 - time][d],
    ) by {
        assert(trace_values(s)[b][0] == trace_values(full)[b][shape[1] - 1 - time]);
        assert(0 <= shape[1] - 1 - time < shape[1]);
    }
}

/// With exact aggregation, `eval_trace` marks exactly where what
/// `robustness_trace` gives is greater than zero.
pub proof fn law_eval_trace_marks_positive_robustness(f: Formula, env: SignalEnv, options: EvalOptions, t: Trace, m: crate::trace::BoolTrace)
    requires
        options.aggregation is Exact,
        trace_outcome(Ok(t), f, env, options),
        mask_outcome(Ok(m), f, env, options),
    ensures
        positive_of(t, m, env.expected_shape()),
{
    let shape = env.expected_shape();
    let full = choose|full: Trace| #[trigger] positive_of(full, m, shape) && robust(f, env, options, full);
    law_exact_robustness_is_determined(f, env, options, t, full);
    assert forall|b: int, i: int, d: int| 0 <= b < shape[0] && 0 <= i < shape[1] && 0 <= d < shape[2] implies #[trigger] crate::trace::mask_values(m)[b][i][d]
        == crate::trace::above_zero(trace_values(t)[b][i][d]) by {
        assert(alike(trace_values(full)[b][i][d], trace_values(t)[b][i][d]));
    }
}

/// With exact aggregation, `eval_at` tells whether what `robustness_trace`
/// gives at that time is greater than zero.
pub proof fn law_eval_at_reads_positive_robustness(
    f: Formula,
    env: SignalEnv,
    time: usize,
    options: EvalOptions,
    t: Trace,
    m: crate::trace::BoolTrace,
)
    requires
        options.aggregation is Exact,
        trace_outcome(Ok(t), f, env, options),
        mask_at_outcome(Ok(m), f, env, time, options),
    ensures
        positive_at(t, m, time, env.expected_shape()),
{
    let shape = env.expected_shape();
    let full = choose|full: Trace| #[trigger] positive_at(full, m, time, shape) && robust(f, env, options, full);
    law_exact_robustness_is_determined(f, env, options, t, full);
    assert forall|b: int, d: int| 0 <= b < shape[0] && 0 <= d < shape[2] implies #[trigger] crate::trace::mask_values(m)[b][0][d]
        == crate::trace::above_zero(trace_values(t)[b][shape[1] - 1 - time][d]) by {
        assert(0 <= shape[1] - 1 - time < shape[1]);
        assert(alike(
            trace_values(full)[b][shape[1] - 1 - time][d],
            trace_values(t)[b][shape[1] - 1 - time][d],
        ));
    }
}

/// A robustness trace of each child of `cs` stands at its place in `ts`.
proof fn lemma_robust_children_at(cs: Seq<Formula>, env: SignalEnv, options: EvalOptions, ts: Seq<Trace>, k: int)
    requires
        robust_children(cs, env, options, ts),
        0 <= k < cs.len(),
    ensures
        robust(cs[k], env, options, ts[k]),
    decreases cs,
{
    if k > 0 {
        lemma_robust_children_at(cs.drop_first(), env, options, ts.drop_first(), k - 1);
        assert(cs.drop_first()[k - 1] == cs[k]);
        assert(ts.drop_first()[k - 1] == ts[k]);
    }
}

/// The largest of a column of negated samples is alike the negated smallest
/// sample.
proof fn lemma_flip_extreme(c: Seq<u64>, c2: Seq<u64>, m: u64, e: u64)
    requires
        c.len() == c2.len(),
        forall|k: int| 0 <= k < c.len() ==> alike(#[trigger] c2[k], flip_sign(c[k])),
        attains_min(c, m),
        attains_max(c2, e),
    ensures
        alike(e, flip_sign(m)),
{
    if no_nan(c) {
        assert forall|k: int| 0 <= k < c2.len() implies !is_nan_bits(#[trigger] c2[k]) && order_key(c2[k]) == -order_key(c[k]) by {
            lemma_flip_keeps_number(c[k]);
            assert(alike(c2[k], flip_sign(c[k])));
        }
        let i = choose|i: int| 0 <= i < c.len() && c[i] == m;
        let j = choose|j: int| 0 <= j < c2.len() && c2[j] == e;
        assert(order_key(c2[i]) == -order_key(c[i]));
        assert(order_key(c2[j]) == -order_key(c[j]));
        lemma_flip_keeps_number(m);
    } else {
        let k = choose|k: int| 0 <= k < c.len() && is_nan_bits(#[trigger] c[k]);
        lemma_sign_keeps_nan(c[k]);
        assert(alike(c2[k], flip_sign(c[k])));
        assert(!no_nan(c2));
        lemma_sign_keeps_nan(m);
    }
}

/// `a => b` is `!a || b`: with exact aggregation, robustness traces of the
/// two formulas agree up to the sign of a zero.
pub proof fn law_implies_formula_is_or_of_not(
    a: Formula,
    b: Formula,
    disjuncts: Vec<Formula>,
    env: SignalEnv,
    options: EvalOptions,
    t1: Trace,
    t2: Trace,
)
    requires
        options.aggregation is Exact,
        disjuncts@ == seq![Formula::Not(Box::new(a)), b],
        robust(Formula::Implies(Box::new(a), Box::new(b)), env, options, t1),
        robust(Formula::Or(disjuncts), env, options, t2),
    ensures
        alike_traces(t2, t1, env.expected_shape()),
{
    let shape = env.expected_shape();
    let cs = disjuncts@;
    let (u1, w1) = choose|u: Trace, w: Trace|
        #[trigger] implication(u, w, t1, shape, options.aggregation) && robust(a, env, options, u) && robust(b, env, options, w);
    let ts = choose|ts: Seq<Trace>| #[trigger] combination(ts, t2, shape, options.aggregation, false) && robust_children(cs, env, options, ts);
    lemma_robust_children_at(cs, env, options, ts, 0);
    lemma_robust_children_at(cs, env, options, ts, 1);
    let u2 = choose|u: Trace| #[trigger] negation_of(u, ts[0], shape) && robust(a, env, options, u);
    law_exact_robustness_is_determined(a, env, options, u1, u2);
    law_exact_robustness_is_determined(b, env, options, w1, ts[1]);
    assert(implication_spec(u1, w1, t1, shape));
    assert forall|bb: int, i: int, d: int| 0 <= bb < shape[0] && 0 <= i < shape[1] && 0 <= d < shape[2] implies alike(
        #[trigger] trace_values(t1)[bb][i][d],
        trace_values(t2)[bb][i][d],
    ) by {
        let x1 = trace_values(u1)[bb][i][d];
        let x2 = trace_values(u2)[bb][i][d];
        let c1 = seq![flip_sign(x1), trace_values(w1)[bb][i][d]];
        let c2 = children_column(ts, bb, i, d);
        lemma_alike(x2, x1, 0);
        lemma_alike(x1, x2, 0);
        lemma_alike(trace_values(ts[0])[bb][i][d], flip_sign(x2), flip_sign(x1));
        lemma_alike(flip_sign(x1), flip_sign(x2), trace_values(ts[0])[bb][i][d]);
        lemma_alike(flip_sign(x2), trace_values(ts[0])[bb][i][d], 0);
        lemma_alike(trace_values(ts[1])[bb][i][d], trace_values(w1)[bb][i][d], 0);
        assert(c2.len() == 2 && c2[0] == trace_values(ts[0])[bb][i][d] && c2[1] == trace_values(ts[1])[bb][i][d]);
        assert forall|k: int| 0 <= k < c1.len() implies alike(#[trigger] c1[k], c2[k]) by {}
        lemma_extreme_alike(c1, c2, trace_values(t1)[bb][i][d], trace_values(t2)[bb][i][d], false);
    }
}

/// `always` is the negation of `eventually` of the negation: with exact
/// aggregation, robustness traces of the two formulas agree up to the sign of
/// a zero.
pub proof fn law_always_formula_is_not_eventually_not(f: Formula, interval: Interval, env: SignalEnv, options: EvalOptions, t1: Trace, t2: Trace)
    requires
        options.aggregation is Exact,
        robust(Formula::Always { subformula: Box::new(f), interval }, env, options, t1),
        robust(
            Formula::Not(Box::new(Formula::Eventually { subformula: Box::new(Formula::Not(Box::new(f))), interval })),
            env,
            options,
            t2,
        ),
    ensures
        alike_traces(t2, t1, env.expected_shape()),
{
    let shape = env.expected_shape();
    let nf = Formula::Not(Box::new(f));
    let ev = Formula::Eventually { subformula: Box::new(nf), interval };
    let u1 = choose|u: Trace| #[trigger] windowing(u, t1, interval, shape, options.aggregation, true) && robust(f, env, options, u);
    let v = choose|v: Trace| #[trigger] negation_of(v, t2, shape) && robust(ev, env, options, v);
    let n = choose|n: Trace| #[trigger] windowing(n, v, interval, shape, options.aggregation, false) && robust(nf, env, options, n);
    let u2 = choose|u: Trace| #[trigger] negation_of(u, n, shape) && robust(f, env, options, u);
    law_exact_robustness_is_determined(f, env, options, u1, u2);
    assert(windows_of(u1, t1, interval, shape, true));
    assert(windows_of(n, v, interval, shape, false));
    assert forall|b: int, i: int, d: int| 0 <= b < shape[0] && 0 <= i < shape[1] && 0 <= d < shape[2] implies alike(
        #[trigger] trace_values(t1)[b][i][d],
        trace_values(t2)[b][i][d],
    ) by {
        let c = window_column(u1, interval, i, b, d);
        let c2 = window_column(n, interval, i, b, d);
        assert forall|k: int| 0 <= k < c.len() implies alike(#[trigger] c2[k], flip_sign(c[k])) by {
            lemma_window_times_bounded(interval, i, k);
            let tk = window_times(interval, i)[k] as int;
            let x1 = trace_values(u1)[b][tk][d];
            let x2 = trace_values(u2)[b][tk][d];
            lemma_alike(x2, x1, 0);
            lemma_alike(trace_values(n)[b][tk][d], flip_sign(x2), flip_sign(x1));
        }
        let m = trace_values(t1)[b][i][d];
        let e = trace_values(v)[b][i][d];
        lemma_flip_extreme(c, c2, m, e);
        lemma_alike(e, flip_sign(m), 0);
        lemma_alike(trace_values(t2)[b][i][d], flip_sign(e), flip_sign(flip_sign(m)));
        lemma_sign_keeps_nan(m);
        lemma_sign_keeps_nan(flip_sign(m));
        if !is_nan_bits(m) {
            lemma_flip_keeps_number(m);
        }
        lemma_alike(trace_values(t2)[b][i][d], flip_sign(flip_sign(m)), m);
        lemma_alike(trace_values(t2)[b][i][d], m, 0);
    }
}

/// De Morgan: a conjunction is the negated disjunction of the negated
/// children. With exact aggregation, robustness traces of the two formulas
/// agree up to the sign of a zero.
pub proof fn law_and_is_not_or_of_nots(
    children: Vec<Formula>,
    negated: Vec<Formula>,
    env: SignalEnv,
    options: EvalOptions,
    t1: Trace,
    t2: Trace,
)
    requires
        options.aggregation is Exact,
        negated@.len() == children@.len(),
        forall|k: int| 0 <= k < children@.len() ==> #[trigger] negated@[k] == Formula::Not(Box::new(children@[k])),
        robust(Formula::And(children), env, options, t1),
        robust(Formula::Not(Box::new(Formula::Or(negated))), env, options, t2),
    ensures
        alike_traces(t2, t1, env.expected_shape()),
{
    let shape = env.expected_shape();
    let cs = children@;
    let ns = negated@;
    let ts1 = choose|ts: Seq<Trace>| #[trigger] combination(ts, t1, shape, options.aggregation, true) && robust_children(cs, env, options, ts);
    let v = choose|v: Trace| #[trigger] negation_of(v, t2, shape) && robust(Formula::Or(negated), env, options, v);
    let ts2 = choose|ts: Seq<Trace>| #[trigger] combination(ts, v, shape, options.aggregation, false) && robust_children(ns, env, options, ts);
    assert(ts1.len() == cs.len() && ts2.len() == ns.len()) by {
        lemma_children_len(cs, env, options, ts1);
        lemma_children_len(ns, env, options, ts2);
    }
    assert forall|k: int| 0 <= k < cs.len() implies #[trigger] negated_alike(ts1[k], ts2[k], shape) by {
        lemma_robust_children_at(cs, env, options, ts1, k);
        lemma_robust_children_at(ns, env, options, ts2, k);
        let u = choose|u: Trace| #[trigger] negation_of(u, ts2[k], shape) && robust(cs[k], env, options, u);
        law_exact_robustness_is_determined(cs[k], env, options, ts1[k], u);
        assert forall|b: int, i: int, d: int| 0 <= b < shape[0] && 0 <= i < shape[1] && 0 <= d < shape[2] implies alike(
            #[trigger] trace_values(ts2[k])[b][i][d],
            flip_sign(trace_values(ts1[k])[b][i][d]),
        ) by {
            let x1 = trace_values(ts1[k])[b][i][d];
            let x = trace_values(u)[b][i][d];
            lemma_alike(x, x1, 0);
            lemma_alike(trace_values(ts2[k])[b][i][d], flip_sign(x), flip_sign(x1));
        }
    }
    assert forall|b: int, i: int, d: int| 0 <= b < shape[0] && 0 <= i < shape[1] && 0 <= d < shape[2] implies alike(
        #[trigger] trace_values(t1)[b][i][d],
        trace_values(t2)[b][i][d],
    ) by {
        let c = children_column(ts1, b, i, d);
        let c2 = children_column(ts2, b, i, d);
        assert forall|k: int| 0 <= k < c.len() implies alike(#[trigger] c2[k], flip_sign(c[k])) by {
            assert(negated_alike(ts1[k], ts2[k], shape));
        }
        let m = trace_values(t1)[b][i][d];
        let e = trace_values(v)[b][i][d];
        lemma_flip_extreme(c, c2, m, e);
        lemma_alike(e, flip_sign(m), 0);
        lemma_alike(trace_values(t2)[b][i][d], flip_sign(e), flip_sign(flip_sign(m)));
        lemma_sign_keeps_nan(m);
        lemma_sign_keeps_nan(flip_sign(m));
        if !is_nan_bits(m) {
            lemma_flip_keeps_number(m);
        }
        lemma_alike(trace_values(t2)[b][i][d], flip_sign(flip_sign(m)), m);
        lemma_alike(trace_values(t2)[b][i][d], m, 0);
    }
}

/// Each sample of `t` inside `shape` is [`alike`] the negated sample of `u`.
pub open spec fn negated_alike(u: Trace, t: Trace, shape: Seq<usize>) -> bool {
    forall|b: int, i: int, d: int|
        0 <= b < shape[0] && 0 <= i < shape[1] && 0 <= d < shape[2] ==> alike(
            #[trigger] trace_values(t)[b][i][d],
            flip_sign(trace_values(u)[b][i][d]),
        )
}

/// Robustness traces of children come one per child.
proof fn lemma_children_len(cs: Seq<Formula>, env: SignalEnv, options: EvalOptions, ts: Seq<Trace>)
    requires
        robust_children(cs, env, options, ts),
    ensures
        ts.len() == cs.len(),
{
}

/// `x` is a NaN exactly where `y` is one, and otherwise no larger.
pub open spec fn at_most(x: u64, y: u64) -> bool {
    &&& is_nan_bits(x) == is_nan_bits(y)
    &&& !is_nan_bits(x) ==> order_key(x) <= order_key(y)
}

/// Extremes of columns that are [`at_most`] place by place keep that order.
proof fn lemma_extreme_monotone(c1: Seq<u64>, c2: Seq<u64>, v1: u64, v2: u64, is_min: bool)
    requires
        c1.len() == c2.len(),
        forall|k: int| 0 <= k < c1.len() ==> at_most(#[trigger] c1[k], c2[k]),
        attains_extreme(c1, v1, is_min),
        attains_extreme(c2, v2, is_min),
    ensures
        at_most(v1, v2),
{
    if no_nan(c1) {
        assert forall|k: int| 0 <= k < c2.len() implies !is_nan_bits(#[trigger] c2[k]) by {
            assert(at_most(c1[k], c2[k]));
        }
        let m = choose|m: int| 0 <= m < c1.len() && c1[m] == v1;
        let j = choose|j: int| 0 <= j < c2.len() && c2[j] == v2;
        assert(at_most(c1[m], c2[m]));
        assert(at_most(c1[j], c2[j]));
    } else {
        let k = choose|k: int| 0 <= k < c1.len() && is_nan_bits(#[trigger] c1[k]);
        assert(at_most(c1[k], c2[k]));
        assert(!no_nan(c2));
    }
}

/// What a candidate time gives to an `until` is at most what it gives to a
/// `then` over alike sides.
proof fn lemma_candidate_monotone(
    u1: Trace,
    s1: Trace,
    u2: Trace,
    s2: Trace,
    shape: Seq<usize>,
    c: int,
    i: int,
    b: int,
    d: int,
    x1: u64,
    x2: u64,
)
    requires
        alike_traces(u1, u2, shape),
        alike_traces(s1, s2, shape),
        0 <= c <= i,
        0 <= b < shape[0] && 0 <= i < shape[1] && 0 <= d < shape[2],
        candidate_value(u1, s1, c, i, b, d, x1, false),
        candidate_value(u2, s2, c, i, b, d, x2, true),
    ensures
        at_most(x1, x2),
{
    let y1 = choose|y: u64|
        #[trigger] prefix_extreme(span_column(u1, c, i, b, d), y, false) && attains_min(seq![trace_values(s1)[b][c][d], y], x1);
    let y2 = choose|y: u64|
        #[trigger] prefix_extreme(span_column(u2, c, i, b, d), y, true) && attains_min(seq![trace_values(s2)[b][c][d], y], x2);
    let sp1 = span_column(u1, c, i, b, d);
    let sp2 = span_column(u2, c, i, b, d);
    assert forall|m: int| 0 <= m < sp1.len() implies alike(#[trigger] sp1[m], sp2[m]) by {
        lemma_alike(trace_values(u2)[b][c + m][d], trace_values(u1)[b][c + m][d], 0);
    }
    assert(at_most(y1, y2)) by {
        if no_nan(sp1) {
            assert forall|m: int| 0 <= m < sp2.len() implies !is_nan_bits(#[trigger] sp2[m]) by {
                assert(alike(sp1[m], sp2[m]));
            }
            assert(alike(sp1[0], sp2[0]));
            let m1 = choose|m: int| 0 <= m < sp1.len() && sp1[m] == y1;
            let m2 = choose|m: int| 0 <= m < sp2.len() && sp2[m] == y2;
            assert(!is_nan_bits(sp1[m1]) && !is_nan_bits(sp2[m2]));
            assert(order_key(y1) <= order_key(sp1[0]));
            assert(order_key(sp2[0]) <= order_key(y2));
        } else {
            let k = choose|k: int| 0 <= k < sp1.len() && is_nan_bits(#[trigger] sp1[k]);
            assert(alike(sp1[k], sp2[k]));
            assert(!no_nan(sp2));
        }
    }
    lemma_alike(trace_values(s2)[b][c][d], trace_values(s1)[b][c][d], 0);
    let p1 = seq![trace_values(s1)[b][c][d], y1];
    let p2 = seq![trace_values(s2)[b][c][d], y2];
    assert forall|m: int| 0 <= m < p1.len() implies at_most(#[trigger] p1[m], p2[m]) by {}
    lemma_extreme_monotone(p1, p2, x1, x2, true);
}

/// An `until` reads the smallest left-hand side since each candidate time,
/// a `then` the largest, so with exact aggregation the robustness of `until`
/// is a NaN exactly where that of `then` is one, and otherwise no larger.
pub proof fn law_until_is_at_most_then(
    lhs: Formula,
    rhs: Formula,
    interval: Interval,
    overlap: bool,
    env: SignalEnv,
    options: EvalOptions,
    t1: Trace,
    t2: Trace,
)
    requires
        options.aggregation is Exact,
        robust(Formula::Until { lhs: Box::new(lhs), rhs: Box::new(rhs), interval, overlap }, env, options, t1),
        robust(Formula::Then { lhs: Box::new(lhs), rhs: Box::new(rhs), interval, overlap }, env, options, t2),
    ensures
        forall|b: int, i: int, d: int|
            0 <= b < env.expected_shape()[0] && 0 <= i < env.expected_shape()[1] && 0 <= d < env.expected_shape()[2]
                ==> at_most(#[trigger] trace_values(t1)[b][i][d], trace_values(t2)[b][i][d]),
{
    let shape = env.expected_shape();
    let dtype = trace_dtype(env.entries()[0].1);
    let (u1, w1, s1) = choose|u: Trace, w: Trace, shifted: Trace|
        #[trigger] until_built(u, w, shifted, t1, interval, overlap, shape, options.aggregation, false, dtype) && robust(lhs, env, options, u)
            && robust(rhs, env, options, w);
    let (u2, w2, s2) = choose|u: Trace, w: Trace, shifted: Trace|
        #[trigger] until_built(u, w, shifted, t2, interval, overlap, shape, options.aggregation, true, dtype) && robust(lhs, env, options, u)
            && robust(rhs, env, options, w);
    law_exact_robustness_is_determined(lhs, env, options, u1, u2);
    law_exact_robustness_is_determined(rhs, env, options, w1, w2);
    lemma_alike_traces_flip(u2, u1, shape);
    lemma_shifted_alike(u1, w1, s1, t1, u2, w2, s2, t2, interval, overlap, shape, false, true, dtype);
    lemma_alike_traces_flip(s2, s1, shape);
    assert(until_of(u1, s1, t1, interval, shape, false, dtype));
    assert(until_of(u2, s2, t2, interval, shape, true, dtype));
    assert forall|b: int, i: int, d: int| 0 <= b < shape[0] && 0 <= i < shape[1] && 0 <= d < shape[2] implies at_most(
        #[trigger] trace_values(t1)[b][i][d],
        trace_values(t2)[b][i][d],
    ) by {
        let cs = candidate_times(interval, i);
        let v1 = trace_values(t1)[b][i][d];
        let v2 = trace_values(t2)[b][i][d];
        assert(until_value(u1, s1, cs, i, b, d, v1, false, dtype));
        assert(until_value(u2, s2, cs, i, b, d, v2, true, dtype));
        if cs.len() == 0 {
            lemma_alike(v1, v2, 0);
        } else {
            let col1 = choose|col: Seq<u64>| #[trigger] candidate_column(u1, s1, cs, i, b, d, col, false) && attains_max(col, v1);
            let col2 = choose|col: Seq<u64>| #[trigger] candidate_column(u2, s2, cs, i, b, d, col, true) && attains_max(col, v2);
            assert forall|k: int| 0 <= k < col1.len() implies at_most(#[trigger] col1[k], col2[k]) by {
                lemma_candidate_times_bounded(interval, i, k);
                lemma_candidate_monotone(u1, s1, u2, s2, shape, cs[k] as int, i, b, d, col1[k], col2[k]);
            }
            lemma_extreme_monotone(col1, col2, v1, v2, false);
        }
    }
}

/// `x` is the smaller of `a` and `y` (a NaN where either is one).
pub open spec fn smaller_of(a: u64, y: u64, x: u64) -> bool {
    attains_min(seq![a, y], x)
}

/// The samples of feature `d` in batch `b` of `u` from time `c` to time `i`.
pub open spec fn samples_from(u: Trace, c: int, i: int, b: int, d: int) -> Seq<u64> {
    Seq::new((i - c + 1) as nat, |j: int| trace_values(u)[b][c + j][d])
}

/// `x` is the smaller of the right-hand side `w` at time `c` and of the
/// smallest (`then`: largest) left-hand side `u` from `c` to step `i`.
pub open spec fn reads_candidate(u: Trace, w: Trace, c: int, i: int, b: int, d: int, x: u64, then: bool) -> bool {
    exists|y: u64|
        #[trigger] smaller_of(trace_values(w)[b][c][d], y, x) && if then {
            attains_max(samples_from(u, c, i, b, d), y)
        } else {
            attains_min(samples_from(u, c, i, b, d), y)
        }
}

/// At step `i`, each entry `col[k]` is what the `k`-th time of `cs` gives,
/// as [`reads_candidate`] says.
pub open spec fn reads_candidates(u: Trace, w: Trace, cs: Seq<usize>, i: int, b: int, d: int, col: Seq<u64>, then: bool) -> bool {
    &&& col.len() == cs.len()
    &&& forall|k: int| 0 <= k < col.len() ==> reads_candidate(u, w, cs[k] as int, i, b, d, #[trigger] col[k], then)
}

/// With exact aggregation and overlap, an `until` (or a `then`) reads the
/// right-hand side's own robustness at each candidate time `c`: its sample
/// at every place is the largest, over the candidate times, of the smaller
/// of the right-hand side at `c` and the smallest (`until`) or largest
/// (`then`) left-hand side from `c` to the current time.
pub proof fn law_overlapping_until_reads_the_right_hand_side(
    lhs: Formula,
    rhs: Formula,
    interval: Interval,
    then: bool,
    env: SignalEnv,
    options: EvalOptions,
    t: Trace,
)
    requires
        options.aggregation is Exact,
        robust(
            if then {
                Formula::Then { lhs: Box::new(lhs), rhs: Box::new(rhs), interval, overlap: true }
            } else {
                Formula::Until { lhs: Box::new(lhs), rhs: Box::new(rhs), interval, overlap: true }
            },
            env,
            options,
            t,
        ),
    ensures
        exists|u: Trace, w: Trace|
            #![trigger robust(lhs, env, options, u), robust(rhs, env, options, w)]
            robust(lhs, env, options, u) && robust(rhs, env, options, w) && forall|b: int, i: int, d: int|
                in_shape(env.expected_shape(), b, i, d) && candidate_times(interval, i).len() > 0 ==> exists|col: Seq<u64>|
                    #[trigger] reads_candidates(u, w, candidate_times(interval, i), i, b, d, col, then) && attains_max(
                        col,
                        trace_values(t)[b][i][d],
                    ),
{
    let shape = env.expected_shape();
    let dtype = trace_dtype(env.entries()[0].1);
    let (u, w, shifted) = choose|u: Trace, w: Trace, shifted: Trace|
        #[trigger] until_built(u, w, shifted, t, interval, true, shape, options.aggregation, then, dtype) && robust(lhs, env, options, u)
            && robust(rhs, env, options, w);
    assert(shifted == w);
    assert(until_of(u, w, t, interval, shape, then, dtype));
    assert forall|b: int, i: int, d: int|
        in_shape(shape, b, i, d) && candidate_times(interval, i).len() > 0 implies exists|col: Seq<u64>|
            #[trigger] reads_candidates(u, w, candidate_times(interval, i), i, b, d, col, then) && attains_max(
                col,
                trace_values(t)[b][i][d],
            ) by {
        let cs = candidate_times(interval, i);
        let v = trace_values(t)[b][i][d];
        assert(until_value(u, w, cs, i, b, d, v, then, dtype));
        let col = choose|col: Seq<u64>| #[trigger] candidate_column(u, w, cs, i, b, d, col, then) && attains_max(col, v);
        assert forall|k: int| 0 <= k < col.len() implies reads_candidate(u, w, cs[k] as int, i, b, d, #[trigger] col[k], then) by {
            let c = cs[k] as int;
            assert(candidate_value(u, w, c, i, b, d, col[k], then));
            let y = choose|y: u64|
                #[trigger] prefix_extreme(span_column(u, c, i, b, d), y, then) && attains_min(
                    seq![trace_values(w)[b][c][d], y],
                    col[k],
                );
            assert(span_column(u, c, i, b, d) =~= samples_from(u, c, i, b, d));
            assert(smaller_of(trace_values(w)[b][c][d], y, col[k]));
        }
        assert(reads_candidates(u, w, cs, i, b, d, col, then));
    }
}

/// With exact aggregation, an `always` (or `eventually`) at time `i` is the
/// smallest (largest) of the subformula's samples that its window reads:
/// every time from 0 to `i` for an unbounded window; every time from 0 to
/// `i - a` (or time 0 alone, while `i < a`) for `[a, inf)`; and times
/// `i - a` down to `i - b`, each clamped at 0, for `[a, b]`.
pub proof fn law_temporal_window_reads(
    f: Formula,
    interval: Interval,
    is_always: bool,
    env: SignalEnv,
    options: EvalOptions,
    t: Trace,
)
    requires
        options.aggregation is Exact,
        robust(
            if is_always {
                Formula::Always { subformula: Box::new(f), interval }
            } else {
                Formula::Eventually { subformula: Box::new(f), interval }
            },
            env,
            options,
            t,
        ),
    ensures
        exists|u: Trace|
            #[trigger] robust(f, env, options, u) && forall|b: int, i: int, d: int|
                #![trigger trace_values(t)[b][i][d]]
                in_shape(env.expected_shape(), b, i, d) ==> {
                    let col = match interval {
                        Interval::Unbounded => Seq::new((i + 1) as nat, |k: int| trace_values(u)[b][k][d]),
                        Interval::From { start } => Seq::new(
                            (if i < start { 1 } else { i - start + 1 }) as nat,
                            |k: int| trace_values(u)[b][k][d],
                        ),
                        Interval::Closed { start, end } => Seq::new(
                            (if end < start { 0 } else { end - start + 1 }) as nat,
                            |k: int| trace_values(u)[b][if i < start + k { 0 } else { i - start - k }][d],
                        ),
                    };
                    if is_always {
                        attains_min(col, trace_values(t)[b][i][d])
                    } else {
                        attains_max(col, trace_values(t)[b][i][d])
                    }
                },
{
    let shape = env.expected_shape();
    let u = choose|u: Trace| #[trigger] windowing(u, t, interval, shape, options.aggregation, is_always) && robust(f, env, options, u);
    assert(windows_of(u, t, interval, shape, is_always));
    assert forall|b: int, i: int, d: int| #![trigger trace_values(t)[b][i][d]] in_shape(shape, b, i, d) implies {
        let col = match interval {
            Interval::Unbounded => Seq::new((i + 1) as nat, |k: int| trace_values(u)[b][k][d]),
            Interval::From { start } => Seq::new(
                (if i < start { 1 } else { i - start + 1 }) as nat,
                |k: int| trace_values(u)[b][k][d],
            ),
            Interval::Closed { start, end } => Seq::new(
                (if end < start { 0 } else { end - start + 1 }) as nat,
                |k: int| trace_values(u)[b][if i < start + k { 0 } else { i - start - k }][d],
            ),
        };
        if is_always {
            attains_min(col, trace_values(t)[b][i][d])
        } else {
            attains_max(col, trace_values(t)[b][i][d])
        }
    } by {
        let wc = window_column(u, interval, i, b, d);
        assert(attains_extreme(wc, trace_values(t)[b][i][d], is_always));
        match interval {
            Interval::Unbounded => {
                assert(wc =~= Seq::new((i + 1) as nat, |k: int| trace_values(u)[b][k][d]));
            },
            Interval::From { start } => {
                assert(wc =~= Seq::new(
                    (if i < start { 1 } else { i - start + 1 }) as nat,
                    |k: int| trace_values(u)[b][k][d],
                ));
            },
            Interval::Closed { start, end } => {
                assert(wc =~= Seq::new(
                    (if end < start { 0 } else { end - start + 1 }) as nat,
                    |k: int| trace_values(u)[b][if i < start + k { 0 } else { i - start - k }][d],
                ));
            },
        }
    }
}

/// A trapezoid integral over a closed window `[a, b]` without clamping sums,
/// in the element type and oldest offset last, the subformula's samples at
/// offsets `a` to `b` back from the current time (the padding where an
/// offset reaches past the oldest sample), halving only the first and the
/// last term when there are at least two.
pub proof fn law_trapezoid_window_halves_only_the_ends(
    f: Formula,
    io: IntegralOptions,
    start: usize,
    end: usize,
    env: SignalEnv,
    options: EvalOptions,
    t: Trace,
)
    requires
        io.interval == Some(Interval::Closed { start, end }),
        start <= end,
        io.scheme is Trapezoid,
        !io.use_relu,
        robust(Formula::Integral { subformula: Box::new(f), options: io }, env, options, t),
    ensures
        exists|u: Trace|
            #[trigger] robust(f, env, options, u) && forall|b: int, i: int, d: int|
                #![trigger trace_values(t)[b][i][d]]
                in_shape(env.expected_shape(), b, i, d) ==> same_number(
                    trace_values(t)[b][i][d],
                    sum_value(
                        trace_dtype(u),
                        Seq::new(
                            (end - start + 1) as nat,
                            |k: int|
                                {
                                    let o = start + k;
                                    let base = if o > i {
                                        match io.padding {
                                            PaddingMode::Zero => 0u64,
                                            PaddingMode::Same => trace_values(u)[b][0][d],
                                            PaddingMode::Custom(v) => conv_value(trace_dtype(u), v.bits),
                                        }
                                    } else {
                                        trace_values(u)[b][i - o][d]
                                    };
                                    if end > start && (k == 0 || k == end - start) {
                                        div_value(trace_dtype(u), base, two_bits())
                                    } else {
                                        base
                                    }
                                },
                        ),
                    ),
                ),
{
    let shape = env.expected_shape();
    let interval = Interval::Closed { start, end };
    let u = choose|u: Trace| #[trigger] integration(u, t, io) && robust(f, env, options, u);
    assert(windowed_of(u, t, interval, io));
    assert(trace_shape(u) == shape);
    assert forall|b: int, i: int, d: int| #![trigger trace_values(t)[b][i][d]] in_shape(shape, b, i, d) implies same_number(
        trace_values(t)[b][i][d],
        sum_value(
            trace_dtype(u),
            Seq::new(
                (end - start + 1) as nat,
                |k: int|
                    {
                        let o = start + k;
                        let base = if o > i {
                            match io.padding {
                                PaddingMode::Zero => 0u64,
                                PaddingMode::Same => trace_values(u)[b][0][d],
                                PaddingMode::Custom(v) => conv_value(trace_dtype(u), v.bits),
                            }
                        } else {
                            trace_values(u)[b][i - o][d]
                        };
                        if end > start && (k == 0 || k == end - start) {
                            div_value(trace_dtype(u), base, two_bits())
                        } else {
                            base
                        }
                    },
            ),
        ),
    ) by {
        let expected = Seq::new(
            (end - start + 1) as nat,
            |k: int|
                {
                    let o = start + k;
                    let base = if o > i {
                        match io.padding {
                            PaddingMode::Zero => 0u64,
                            PaddingMode::Same => trace_values(u)[b][0][d],
                            PaddingMode::Custom(v) => conv_value(trace_dtype(u), v.bits),
                        }
                    } else {
                        trace_values(u)[b][i - o][d]
                    };
                    if end > start && (k == 0 || k == end - start) {
                        div_value(trace_dtype(u), base, two_bits())
                    } else {
                        base
                    }
                },
        );
        let terms = window_terms(u, interval, io, i, b, d);
        assert(integral_offsets(interval, i) =~= index_range(start as int, end as int));
        assert(integral_offsets(interval, i).len() == end - start + 1);
        assert forall|k: int| 0 <= k < expected.len() implies #[trigger] terms[k] == expected[k] by {
            assert(integral_offsets(interval, i)[k] == (start + k) as usize);
        }
        assert(terms =~= expected);
    }
}

/// The samples of `ts` at `[b][i][d]`, negated for a conjunction, each
/// times `scale` in the element type `dtype` (a NaN where either is one).
pub open spec fn junction_products(ts: Seq<Trace>, b: int, i: int, d: int, dtype: int, scale: u64, conjunction: bool) -> Seq<u64> {
    Seq::new(
        ts.len(),
        |k: int|
            crate::trace::mul_value(
                dtype,
                if conjunction {
                    flip_sign(trace_values(ts[k])[b][i][d])
                } else {
                    trace_values(ts[k])[b][i][d]
                },
                scale,
            ),
    )
}

/// The sample of `t` at `[b][i][d]` is some number plus the largest of
/// [`junction_products`] with the scale that `scale_bits` encodes (the
/// number and the sum negated for a conjunction), divided by that scale, in
/// the element type of `ts`.
pub open spec fn smooth_junction_at(ts: Seq<Trace>, t: Trace, b: int, i: int, d: int, scale_bits: u64, conjunction: bool) -> bool {
    let dtype = trace_dtype(ts[0]);
    let scale = conv_value(dtype, scale_bits);
    exists|l: u64, m: u64|
        #![trigger crate::trace::add_value(dtype, l, m)]
        {
            let sum = crate::trace::add_value(dtype, l, m);
            &&& attains_max(junction_products(ts, b, i, d, dtype, scale, conjunction), m)
            &&& same_number(
                trace_values(t)[b][i][d],
                div_value(dtype, if conjunction { flip_sign(sum) } else { sum }, scale),
            )
        }
}

/// Each sample of `t` inside `shape` is as [`smooth_junction_at`] says.
pub open spec fn smooth_junction_of(ts: Seq<Trace>, t: Trace, shape: Seq<usize>, scale_bits: u64, conjunction: bool) -> bool {
    forall|b: int, i: int, d: int|
        in_shape(shape, b, i, d) ==> #[trigger] smooth_junction_at(ts, t, b, i, d, scale_bits, conjunction)
}

/// With smooth aggregation, a disjunction reads its children's samples at
/// each place, multiplies each by the scale in the element type, and gives
/// some number plus the largest of those products, divided by the scale
/// (the log-sum-exp of the scaled samples, shifted by their largest, over
/// the scale); a conjunction does the same with the children's negated
/// samples and negates the sum before dividing.
pub proof fn law_smooth_junctions_scale_their_children(
    children: Vec<Formula>,
    conjunction: bool,
    env: SignalEnv,
    options: EvalOptions,
    t: Trace,
)
    requires
        options.aggregation is Smooth,
        robust(
            if conjunction {
                Formula::And(children)
            } else {
                Formula::Or(children)
            },
            env,
            options,
            t,
        ),
    ensures
        exists|ts: Seq<Trace>|
            #[trigger] robust_children(children@, env, options, ts) && smooth_junction_of(
                ts,
                t,
                env.expected_shape(),
                options.aggregation->scale.bits,
                conjunction,
            ),
{
    let shape = env.expected_shape();
    let ts = choose|ts: Seq<Trace>| #[trigger] combination(ts, t, shape, options.aggregation, conjunction) && robust_children(
        children@,
        env,
        options,
        ts,
    );
    let bits = options.aggregation->scale.bits;
    assert(combines_smoothly(ts, t, shape, bits, conjunction));
    assert(ts.len() == children@.len());
    assert forall|b: int, i: int, d: int|
        in_shape(env.expected_shape(), b, i, d) implies #[trigger] smooth_junction_at(ts, t, b, i, d, bits, conjunction) by {
        let dtype = trace_dtype(ts[0]);
        let scale = conv_value(dtype, bits);
        let col = children_column(ts, b, i, d);
        let products = junction_products(ts, b, i, d, dtype, scale, conjunction);
        let v = trace_values(t)[b][i][d];
        assert(crate::ops::smooth_extreme_of(v, col, dtype, bits, conjunction));
        if conjunction {
            assert(crate::ops::scaled_entries(crate::ops::negated_entries(col), dtype, bits) =~= products);
            let (l, m) = choose|l: u64, m: u64|
                #![trigger crate::trace::add_value(dtype, l, m)]
                attains_max(crate::ops::scaled_entries(crate::ops::negated_entries(col), dtype, bits), m) && same_number(
                    v,
                    div_value(dtype, flip_sign(crate::trace::add_value(dtype, l, m)), scale),
                );
            assert(attains_max(products, m));
        } else {
            assert(crate::ops::scaled_entries(col, dtype, bits) =~= products);
            let (l, m) = choose|l: u64, m: u64|
                #![trigger crate::trace::add_value(dtype, l, m)]
                attains_max(crate::ops::scaled_entries(col, dtype, bits), m) && same_number(
                    v,
                    div_value(dtype, crate::trace::add_value(dtype, l, m), scale),
                );
            assert(attains_max(products, m));
        }
    }
    assert(smooth_junction_of(ts, t, env.expected_shape(), bits, conjunction));
}

/// Evaluating a variable reads the signal last bound to its name: after
/// binding `name` to `signal`, every sample of the variable `name` is the
/// sample of `signal` at that place (up to the bits of a NaN), and a scalar
/// gives its value, in the signals' element type, at every sample.
pub proof fn law_variables_read_their_binding(
    entries: Seq<Entry>,
    env: SignalEnv,
    name: String,
    signal: Trace,
    t: Trace,
    value: crate::scalar::Binary64,
    c: Trace,
)
    requires
        distinct_names(entries),
        env.entries() == inserted(entries, name@, signal),
        evaluates(t, Expr::Var(name), env),
        evaluates(c, Expr::Scalar(value), env),
    ensures
        forall|b: int, i: int, d: int|
            in_shape(env.expected_shape(), b, i, d) ==> same_number(
                #[trigger] trace_values(t)[b][i][d],
                trace_values(signal)[b][i][d],
            ) && same_number(trace_values(c)[b][i][d], conv_value(trace_dtype(env.entries()[0].1), value.bits)),
{
    law_lookup_after_insert(entries, name@, signal, name@);
    assert forall|b: int, i: int, d: int| in_shape(env.expected_shape(), b, i, d) implies same_number(
        #[trigger] trace_values(t)[b][i][d],
        trace_values(signal)[b][i][d],
    ) && same_number(trace_values(c)[b][i][d], conv_value(trace_dtype(env.entries()[0].1), value.bits)) by {
        assert(same_number(trace_values(t)[b][i][d], crate::expr::expr_value(Expr::Var(name), env, b, i, d)));
        assert(same_number(trace_values(c)[b][i][d], crate::expr::expr_value(Expr::Scalar(value), env, b, i, d)));
    }
}

/// Evaluating the negation of an expression gives, at every sample, the
/// sign-toggled sample of evaluating the expression (a NaN stays a NaN); its
/// absolute value gives the sample with the sign cleared.
pub proof fn law_negation_and_absolute_value_act_on_every_sample(e: Expr, env: SignalEnv, u: Trace, neg: Trace, abs: Trace)
    requires
        evaluates(u, e, env),
        evaluates(neg, Expr::Neg(Box::new(e)), env),
        evaluates(abs, Expr::Abs(Box::new(e)), env),
    ensures
        forall|b: int, i: int, d: int|
            in_shape(env.expected_shape(), b, i, d) ==> same_number(
                #[trigger] trace_values(neg)[b][i][d],
                flip_sign(trace_values(u)[b][i][d]),
            ) && same_number(trace_values(abs)[b][i][d], clear_sign(trace_values(u)[b][i][d])),
{
    assert forall|b: int, i: int, d: int| in_shape(env.expected_shape(), b, i, d) implies same_number(
        #[trigger] trace_values(neg)[b][i][d],
        flip_sign(trace_values(u)[b][i][d]),
    ) && same_number(trace_values(abs)[b][i][d], clear_sign(trace_values(u)[b][i][d])) by {
        let x = trace_values(u)[b][i][d];
        let v = crate::expr::expr_value(e, env, b, i, d);
        assert(same_number(x, v));
        lemma_sign_keeps_nan(x);
        lemma_sign_keeps_nan(v);
        assert(same_number(trace_values(neg)[b][i][d], flip_sign(v)));
        assert(same_number(trace_values(abs)[b][i][d], clear_sign(v)));
    }
}

/// Evaluating a sum, difference, product or quotient of expressions gives,
/// at every sample, the IEEE operation in the signals' element type on the
/// samples of evaluating its two sides (a NaN where either is one).
pub proof fn law_arithmetic_acts_on_every_sample(
    l: Expr,
    r: Expr,
    env: SignalEnv,
    u: Trace,
    w: Trace,
    sum: Trace,
    difference: Trace,
    product: Trace,
    quotient: Trace,
)
    requires
        evaluates(u, l, env),
        evaluates(w, r, env),
        evaluates(sum, Expr::Add(Box::new(l), Box::new(r)), env),
        evaluates(difference, Expr::Sub(Box::new(l), Box::new(r)), env),
        evaluates(product, Expr::Mul(Box::new(l), Box::new(r)), env),
        evaluates(quotient, Expr::Div(Box::new(l), Box::new(r)), env),
    ensures
        forall|b: int, i: int, d: int|
            in_shape(env.expected_shape(), b, i, d) ==> {
                let dt = trace_dtype(env.entries()[0].1);
                let x = trace_values(u)[b][i][d];
                let y = trace_values(w)[b][i][d];
                &&& same_number(#[trigger] trace_values(sum)[b][i][d], crate::trace::add_value(dt, x, y))
                &&& same_number(trace_values(difference)[b][i][d], crate::trace::sub_value(dt, x, y))
                &&& same_number(trace_values(product)[b][i][d], crate::trace::mul_value(dt, x, y))
                &&& same_number(trace_values(quotient)[b][i][d], div_value(dt, x, y))
            },
{
    assert forall|b: int, i: int, d: int| in_shape(env.expected_shape(), b, i, d) implies {
        let dt = trace_dtype(env.entries()[0].1);
        let x = trace_values(u)[b][i][d];
        let y = trace_values(w)[b][i][d];
        &&& same_number(#[trigger] trace_values(sum)[b][i][d], crate::trace::add_value(dt, x, y))
        &&& same_number(trace_values(difference)[b][i][d], crate::trace::sub_value(dt, x, y))
        &&& same_number(trace_values(product)[b][i][d], crate::trace::mul_value(dt, x, y))
        &&& same_number(trace_values(quotient)[b][i][d], div_value(dt, x, y))
    } by {
        let dt = trace_dtype(env.entries()[0].1);
        let x = trace_values(u)[b][i][d];
        let y = trace_values(w)[b][i][d];
        let vx = crate::expr::expr_value(l, env, b, i, d);
        let vy = crate::expr::expr_value(r, env, b, i, d);
        assert(same_number(x, vx));
        assert(same_number(y, vy));
        lemma_same_number_ops(dt, vx, x, vy, y);
        lemma_same_number_ops(dt, x, vx, y, vy);
        assert(same_number(trace_values(sum)[b][i][d], crate::trace::add_value(dt, vx, vy)));
        assert(same_number(trace_values(difference)[b][i][d], crate::trace::sub_value(dt, vx, vy)));
        assert(same_number(trace_values(product)[b][i][d], crate::trace::mul_value(dt, vx, vy)));
        assert(same_number(trace_values(quotient)[b][i][d], div_value(dt, vx, vy)));
    }
}

/// A predicate's robustness is, at every sample, its margin times the
/// predicate scale in the signals' element type: `rhs - lhs` for `<=`,
/// `lhs - rhs` for `>=` and `-|lhs - rhs|` for equality, over the samples of
/// evaluating its two sides.
pub proof fn law_predicate_margins(
    lhs: Expr,
    op: crate::formula::PredicateOp,
    rhs: Expr,
    env: SignalEnv,
    options: EvalOptions,
    u: Trace,
    w: Trace,
    t: Trace,
)
    requires
        evaluates(u, lhs, env),
        evaluates(w, rhs, env),
        robust(Formula::Predicate { lhs, op, rhs }, env, options, t),
    ensures
        forall|b: int, i: int, d: int|
            in_shape(env.expected_shape(), b, i, d) ==> {
                let dt = trace_dtype(env.entries()[0].1);
                let x = trace_values(u)[b][i][d];
                let y = trace_values(w)[b][i][d];
                let margin = match op {
                    crate::formula::PredicateOp::LessEqual => crate::trace::sub_value(dt, y, x),
                    crate::formula::PredicateOp::GreaterEqual => crate::trace::sub_value(dt, x, y),
                    crate::formula::PredicateOp::Equal => flip_sign(clear_sign(crate::trace::sub_value(dt, x, y))),
                };
                same_number(
                    #[trigger] trace_values(t)[b][i][d],
                    crate::trace::mul_value(dt, margin, conv_value(dt, options.predicate_scale.bits)),
                )
            },
{
    assert forall|b: int, i: int, d: int| in_shape(env.expected_shape(), b, i, d) implies {
        let dt = trace_dtype(env.entries()[0].1);
        let x = trace_values(u)[b][i][d];
        let y = trace_values(w)[b][i][d];
        let margin = match op {
            crate::formula::PredicateOp::LessEqual => crate::trace::sub_value(dt, y, x),
            crate::formula::PredicateOp::GreaterEqual => crate::trace::sub_value(dt, x, y),
            crate::formula::PredicateOp::Equal => flip_sign(clear_sign(crate::trace::sub_value(dt, x, y))),
        };
        same_number(
            #[trigger] trace_values(t)[b][i][d],
            crate::trace::mul_value(dt, margin, conv_value(dt, options.predicate_scale.bits)),
        )
    } by {
        let dt = trace_dtype(env.entries()[0].1);
        let x = trace_values(u)[b][i][d];
        let y = trace_values(w)[b][i][d];
        let vx = crate::expr::expr_value(lhs, env, b, i, d);
        let vy = crate::expr::expr_value(rhs, env, b, i, d);
        let scale = conv_value(dt, options.predicate_scale.bits);
        assert(same_number(x, vx));
        assert(same_number(y, vy));
        lemma_same_number_ops(dt, vy, y, vx, x);
        lemma_same_number_ops(dt, vx, x, vy, y);
        let m1 = crate::trace::sub_value(dt, vx, vy);
        let m2 = crate::trace::sub_value(dt, x, y);
        lemma_same_number_ops(dt, m1, m2, 0, 0);
        lemma_same_number_ops(dt, clear_sign(m1), clear_sign(m2), 0, 0);
        let vm = crate::formula::margin_value(lhs, op, rhs, env, b, i, d);
        let margin = match op {
            crate::formula::PredicateOp::LessEqual => crate::trace::sub_value(dt, y, x),
            crate::formula::PredicateOp::GreaterEqual => m2,
            crate::formula::PredicateOp::Equal => flip_sign(clear_sign(m2)),
        };
        assert(same_number(vm, margin));
        lemma_same_number_ops(dt, vm, margin, scale, scale);
        assert(same_number(trace_values(t)[b][i][d], crate::formula::atom_value(Formula::Predicate { lhs, op, rhs }, env, options, b, i, d)));
        assert(crate::formula::atom_value(Formula::Predicate { lhs, op, rhs }, env, options, b, i, d) == crate::trace::mul_value(dt, vm, scale));
    }
}

/// A Riemann integral over a closed window `[a, b]` without clamping sums,
/// in the element type and oldest offset last, the subformula's samples at
/// offsets `a` to `b` back from the current time (the padding where an
/// offset reaches past the oldest sample), none of them halved.
pub proof fn law_riemann_window_sums_every_offset(
    f: Formula,
    io: IntegralOptions,
    start: usize,
    end: usize,
    env: SignalEnv,
    options: EvalOptions,
    t: Trace,
)
    requires
        io.interval == Some(Interval::Closed { start, end }),
        start <= end,
        io.scheme is Riemann,
        !io.use_relu,
        robust(Formula::Integral { subformula: Box::new(f), options: io }, env, options, t),
    ensures
        exists|u: Trace|
            #[trigger] robust(f, env, options, u) && forall|b: int, i: int, d: int|
                #![trigger trace_values(t)[b][i][d]]
                in_shape(env.expected_shape(), b, i, d) ==> same_number(
                    trace_values(t)[b][i][d],
                    sum_value(
                        trace_dtype(u),
                        Seq::new(
                            (end - start + 1) as nat,
                            |k: int|
                                if start + k > i {
                                    match io.padding {
                                        PaddingMode::Zero => 0u64,
                                        PaddingMode::Same => trace_values(u)[b][0][d],
                                        PaddingMode::Custom(v) => conv_value(trace_dtype(u), v.bits),
                                    }
                                } else {
                                    trace_values(u)[b][i - start - k][d]
                                },
                        ),
                    ),
                ),
{
    let shape = env.expected_shape();
    let interval = Interval::Closed { start, end };
    let u = choose|u: Trace| #[trigger] integration(u, t, io) && robust(f, env, options, u);
    assert(windowed_of(u, t, interval, io));
    assert forall|b: int, i: int, d: int| #![trigger trace_values(t)[b][i][d]] in_shape(shape, b, i, d) implies same_number(
        trace_values(t)[b][i][d],
        sum_value(
            trace_dtype(u),
            Seq::new(
                (end - start + 1) as nat,
                |k: int|
                    if start + k > i {
                        match io.padding {
                            PaddingMode::Zero => 0u64,
                            PaddingMode::Same => trace_values(u)[b][0][d],
                            PaddingMode::Custom(v) => conv_value(trace_dtype(u), v.bits),
                        }
                    } else {
                        trace_values(u)[b][i - start - k][d]
                    },
            ),
        ),
    ) by {
        let expected = Seq::new(
            (end - start + 1) as nat,
            |k: int|
                if start + k > i {
                    match io.padding {
                        PaddingMode::Zero => 0u64,
                        PaddingMode::Same => trace_values(u)[b][0][d],
                        PaddingMode::Custom(v) => conv_value(trace_dtype(u), v.bits),
                    }
                } else {
                    trace_values(u)[b][i - start - k][d]
                },
        );
        let terms = window_terms(u, interval, io, i, b, d);
        assert(integral_offsets(interval, i) =~= index_range(start as int, end as int));
        assert forall|k: int| 0 <= k < expected.len() implies #[trigger] terms[k] == expected[k] by {
            assert(integral_offsets(interval, i)[k] == (start + k) as usize);
        }
        assert(terms =~= expected);
    }
}

/// An integral over a closed window `[a, b]` that clamps sums, in the
/// element type and oldest offset last, the subformula's samples at offsets
/// `a` to `b` back from the current time (the padding where an offset reaches
/// past the oldest sample), each halved as the trapezoid rule asks and then
/// clamped at zero.
pub proof fn law_clamped_window_sums_clamped_terms(
    f: Formula,
    io: IntegralOptions,
    start: usize,
    end: usize,
    env: SignalEnv,
    options: EvalOptions,
    t: Trace,
)
    requires
        io.interval == Some(Interval::Closed { start, end }),
        start <= end,
        io.use_relu,
        robust(Formula::Integral { subformula: Box::new(f), options: io }, env, options, t),
    ensures
        exists|u: Trace|
            #[trigger] robust(f, env, options, u) && forall|b: int, i: int, d: int|
                #![trigger trace_values(t)[b][i][d]]
                in_shape(env.expected_shape(), b, i, d) ==> same_number(
                    trace_values(t)[b][i][d],
                    sum_value(
                        trace_dtype(u),
                        Seq::new(
                            (end - start + 1) as nat,
                            |k: int|
                                {
                                    let o = start + k;
                                    let base = if o > i {
                                        match io.padding {
                                            PaddingMode::Zero => 0u64,
                                            PaddingMode::Same => trace_values(u)[b][0][d],
                                            PaddingMode::Custom(v) => conv_value(trace_dtype(u), v.bits),
                                        }
                                    } else {
                                        trace_values(u)[b][i - o][d]
                                    };
                                    rectified(
                                        if io.scheme is Trapezoid && end > start && (k == 0 || k == end - start) {
                                            div_value(trace_dtype(u), base, two_bits())
                                        } else {
                                            base
                                        },
                                    )
                                },
                        ),
                    ),
                ),
{
    let shape = env.expected_shape();
    let interval = Interval::Closed { start, end };
    let u = choose|u: Trace| #[trigger] integration(u, t, io) && robust(f, env, options, u);
    assert(windowed_of(u, t, interval, io));
    assert forall|b: int, i: int, d: int| #![trigger trace_values(t)[b][i][d]] in_shape(shape, b, i, d) implies same_number(
        trace_values(t)[b][i][d],
        sum_value(
            trace_dtype(u),
            Seq::new(
                (end - start + 1) as nat,
                |k: int|
                    {
                                    let o = start + k;
                                    let base = if o > i {
                                        match io.padding {
                                            PaddingMode::Zero => 0u64,
                                            PaddingMode::Same => trace_values(u)[b][0][d],
                                            PaddingMode::Custom(v) => conv_value(trace_dtype(u), v.bits),
                                        }
                                    } else {
                                        trace_values(u)[b][i - o][d]
                                    };
                                    rectified(
                                        if io.scheme is Trapezoid && end > start && (k == 0 || k == end - start) {
                                            div_value(trace_dtype(u), base, two_bits())
                                        } else {
                                            base
                                        },
                                    )
                                },
            ),
        ),
    ) by {
        let expected = Seq::new(
            (end - start + 1) as nat,
            |k: int|
                {
                                    let o = start + k;
                                    let base = if o > i {
                                        match io.padding {
                                            PaddingMode::Zero => 0u64,
                                            PaddingMode::Same => trace_values(u)[b][0][d],
                                            PaddingMode::Custom(v) => conv_value(trace_dtype(u), v.bits),
                                        }
                                    } else {
                                        trace_values(u)[b][i - o][d]
                                    };
                                    rectified(
                                        if io.scheme is Trapezoid && end > start && (k == 0 || k == end - start) {
                                            div_value(trace_dtype(u), base, two_bits())
                                        } else {
                                            base
                                        },
                                    )
                                },
        );
        let terms = window_terms(u, interval, io, i, b, d);
        assert(integral_offsets(interval, i) =~= index_range(start as int, end as int));
        assert(integral_offsets(interval, i).len() == end - start + 1);
        assert forall|k: int| 0 <= k < expected.len() implies #[trigger] terms[k] == expected[k] by {
            assert(integral_offsets(interval, i)[k] == (start + k) as usize);
        }
        assert(terms =~= expected);
    }
}

/// The offsets that a finite-window integral sums at time `index`: every
/// offset from 0 to `index` for an unbounded interval; for `[a, b]` every
/// offset from `a` to `b`; for `[a, inf)` every offset from `a` to `index`,
/// or the offset `a` alone (read as padding) where `index < a`.
pub proof fn law_integral_offsets_follow_the_interval(interval: Interval, index: int, k: int)
    requires
        0 <= index <= usize::MAX,
        interval.well_formed(),
    ensures
        interval is Unbounded ==> integral_offsets(interval, index).len() == index + 1 && (0 <= k <= index
            ==> integral_offsets(interval, index)[k] == k),
        interval matches Interval::Closed { start, end } ==> {
            &&& integral_offsets(interval, index).len() == end - start + 1
            &&& 0 <= k <= end - start ==> integral_offsets(interval, index)[k] == start + k
        },
        interval matches Interval::From { start } ==> {
            &&& index < start ==> integral_offsets(interval, index).len() == 1 && integral_offsets(interval, index)[0]
                == start
            &&& start <= index ==> integral_offsets(interval, index).len() == index - start + 1
            &&& start <= index && 0 <= k <= index - start ==> integral_offsets(interval, index)[k] == start + k
        },
{
}

/// A running integral without clamping sums, in the element type and in
/// order from time 0, the subformula's samples (Riemann), or zero and then
/// the halved sums of neighbouring samples (trapezoid).
pub proof fn law_running_integral_sums_from_the_oldest(
    f: Formula,
    io: IntegralOptions,
    env: SignalEnv,
    options: EvalOptions,
    t: Trace,
)
    requires
        io.interval is None,
        !io.use_relu,
        robust(Formula::Integral { subformula: Box::new(f), options: io }, env, options, t),
    ensures
        exists|u: Trace|
            #[trigger] robust(f, env, options, u) && forall|b: int, i: int, d: int|
                #![trigger trace_values(t)[b][i][d]]
                in_shape(env.expected_shape(), b, i, d) ==> same_number(
                    trace_values(t)[b][i][d],
                    sum_value(
                        trace_dtype(u),
                        Seq::new(
                            (i + 1) as nat,
                            |k: int|
                                if io.scheme is Riemann {
                                    trace_values(u)[b][k][d]
                                } else if k == 0 {
                                    0u64
                                } else {
                                    div_value(
                                        trace_dtype(u),
                                        crate::trace::add_value(
                                            trace_dtype(u),
                                            trace_values(u)[b][k - 1][d],
                                            trace_values(u)[b][k][d],
                                        ),
                                        two_bits(),
                                    )
                                },
                        ),
                    ),
                ),
{
    let shape = env.expected_shape();
    let u = choose|u: Trace| #[trigger] integration(u, t, io) && robust(f, env, options, u);
    assert(cumulative_of(u, t, io));
    assert forall|b: int, i: int, d: int| #![trigger trace_values(t)[b][i][d]] in_shape(shape, b, i, d) implies same_number(
        trace_values(t)[b][i][d],
        sum_value(
            trace_dtype(u),
            Seq::new(
                (i + 1) as nat,
                |k: int|
                    if io.scheme is Riemann {
                        trace_values(u)[b][k][d]
                    } else if k == 0 {
                        0u64
                    } else {
                        div_value(
                            trace_dtype(u),
                            crate::trace::add_value(trace_dtype(u), trace_values(u)[b][k - 1][d], trace_values(u)[b][k][d]),
                            two_bits(),
                        )
                    },
            ),
        ),
    ) by {
        let expected = Seq::new(
            (i + 1) as nat,
            |k: int|
                if io.scheme is Riemann {
                    trace_values(u)[b][k][d]
                } else if k == 0 {
                    0u64
                } else {
                    div_value(
                        trace_dtype(u),
                        crate::trace::add_value(trace_dtype(u), trace_values(u)[b][k - 1][d], trace_values(u)[b][k][d]),
                        two_bits(),
                    )
                },
        );
        let terms = crate::formula::integrand_prefix(u, io, b, i, d);
        assert(terms =~= expected);
    }
}

/// A running integral that clamps sums, in the element type and in order
/// from time 0, the subformula's samples (Riemann), or zero and then the
/// halved sums of neighbouring samples (trapezoid), each clamped at zero.
pub proof fn law_clamped_running_integral_sums_clamped_terms(
    f: Formula,
    io: IntegralOptions,
    env: SignalEnv,
    options: EvalOptions,
    t: Trace,
)
    requires
        io.interval is None,
        io.use_relu,
        robust(Formula::Integral { subformula: Box::new(f), options: io }, env, options, t),
    ensures
        exists|u: Trace|
            #[trigger] robust(f, env, options, u) && forall|b: int, i: int, d: int|
                #![trigger trace_values(t)[b][i][d]]
                in_shape(env.expected_shape(), b, i, d) ==> same_number(
                    trace_values(t)[b][i][d],
                    sum_value(
                        trace_dtype(u),
                        Seq::new(
                            (i + 1) as nat,
                            |k: int|
                                rectified(
                                    if io.scheme is Riemann {
                                        trace_values(u)[b][k][d]
                                    } else if k == 0 {
                                        0u64
                                    } else {
                                        div_value(
                                            trace_dtype(u),
                                            crate::trace::add_value(
                                                trace_dtype(u),
                                                trace_values(u)[b][k - 1][d],
                                                trace_values(u)[b][k][d],
                                            ),
                                            two_bits(),
                                        )
                                    },
                                ),
                        ),
                    ),
                ),
{
    let shape = env.expected_shape();
    let u = choose|u: Trace| #[trigger] integration(u, t, io) && robust(f, env, options, u);
    assert(cumulative_of(u, t, io));
    assert forall|b: int, i: int, d: int| #![trigger trace_values(t)[b][i][d]] in_shape(shape, b, i, d) implies same_number(
        trace_values(t)[b][i][d],
        sum_value(
            trace_dtype(u),
            Seq::new(
                (i + 1) as nat,
                |k: int|
                    rectified(
                                    if io.scheme is Riemann {
                                        trace_values(u)[b][k][d]
                                    } else if k == 0 {
                                        0u64
                                    } else {
                                        div_value(
                                            trace_dtype(u),
                                            crate::trace::add_value(
                                                trace_dtype(u),
                                                trace_values(u)[b][k - 1][d],
                                                trace_values(u)[b][k][d],
                                            ),
                                            two_bits(),
                                        )
                                    },
                                ),
            ),
        ),
    ) by {
        let expected = Seq::new(
            (i + 1) as nat,
            |k: int|
                rectified(
                                    if io.scheme is Riemann {
                                        trace_values(u)[b][k][d]
                                    } else if k == 0 {
                                        0u64
                                    } else {
                                        div_value(
                                            trace_dtype(u),
                                            crate::trace::add_value(
                                                trace_dtype(u),
                                                trace_values(u)[b][k - 1][d],
                                                trace_values(u)[b][k][d],
                                            ),
                                            two_bits(),
                                        )
                                    },
                                ),
        );
        let terms = crate::formula::integrand_prefix(u, io, b, i, d);
        assert(terms =~= expected);
    }
}

/// Each sample of `s` inside `shape` is the larger of the samples of `w` at
/// that time and one step earlier (at time 0 for time 0).
pub open spec fn larger_of_step_back(w: Trace, s: Trace, shape: Seq<usize>) -> bool {
    forall|b: int, i: int, d: int|
        in_shape(shape, b, i, d) ==> attains_max(
            seq![trace_values(w)[b][i][d], trace_values(w)[b][if i == 0 { 0 } else { i - 1 }][d]],
            #[trigger] trace_values(s)[b][i][d],
        )
}

/// Each sample of `t` inside `shape` with candidate times is the largest of
/// what the candidate times give over the left-hand side `u` and the
/// right-hand side `s`, as [`reads_candidates`] says.
pub open spec fn best_candidate(u: Trace, s: Trace, t: Trace, interval: Interval, shape: Seq<usize>, then: bool) -> bool {
    forall|b: int, i: int, d: int|
        in_shape(shape, b, i, d) && candidate_times(interval, i).len() > 0 ==> #[trigger] best_candidate_at(
            u,
            s,
            trace_values(t)[b][i][d],
            candidate_times(interval, i),
            b,
            i,
            d,
            then,
        )
}

/// The sample `x` at time `i` is the largest of what the candidate times
/// `cs` give over the left-hand side `u` and the right-hand side `s`.
pub open spec fn best_candidate_at(u: Trace, s: Trace, x: u64, cs: Seq<usize>, b: int, i: int, d: int, then: bool) -> bool {
    exists|col: Seq<u64>| #[trigger] reads_candidates(u, s, cs, i, b, d, col, then) && attains_max(col, x)
}

/// With exact aggregation and without overlap, an `until` (or a `then`)
/// reads at each candidate time `c` the larger of the right-hand side at `c`
/// and at `c - 1` (at 0 for `c = 0`): its sample at every place is the
/// largest, over the candidate times, of the smaller of that and of the
/// smallest (`until`) or largest (`then`) left-hand side from `c` to the
/// current time.
pub proof fn law_separate_until_reads_the_right_hand_side_a_step_back(
    lhs: Formula,
    rhs: Formula,
    interval: Interval,
    then: bool,
    env: SignalEnv,
    options: EvalOptions,
    t: Trace,
)
    requires
        options.aggregation is Exact,
        robust(
            if then {
                Formula::Then { lhs: Box::new(lhs), rhs: Box::new(rhs), interval, overlap: false }
            } else {
                Formula::Until { lhs: Box::new(lhs), rhs: Box::new(rhs), interval, overlap: false }
            },
            env,
            options,
            t,
        ),
    ensures
        exists|u: Trace, w: Trace, s: Trace|
            #![trigger robust(lhs, env, options, u), robust(rhs, env, options, w), larger_of_step_back(w, s, env.expected_shape())]
            robust(lhs, env, options, u) && robust(rhs, env, options, w) && larger_of_step_back(w, s, env.expected_shape())
                && best_candidate(u, s, t, interval, env.expected_shape(), then),
{
    let shape = env.expected_shape();
    let dtype = trace_dtype(env.entries()[0].1);
    let (u, w, s) = choose|u: Trace, w: Trace, shifted: Trace|
        #[trigger] until_built(u, w, shifted, t, interval, false, shape, options.aggregation, then, dtype) && robust(lhs, env, options, u)
            && robust(rhs, env, options, w);
    let iv = Interval::Closed { start: 0, end: 1 };
    assert(windows_of(w, s, iv, shape, false));
    assert(until_of(u, s, t, interval, shape, then, dtype));
    assert forall|b: int, i: int, d: int| in_shape(shape, b, i, d) implies attains_max(
        seq![trace_values(w)[b][i][d], trace_values(w)[b][if i == 0 { 0 } else { i - 1 }][d]],
        #[trigger] trace_values(s)[b][i][d],
    ) by {
        assert(window_column(w, iv, i, b, d) =~= seq![trace_values(w)[b][i][d], trace_values(w)[b][if i == 0 { 0 } else { i - 1 }][d]]);
    }
    assert(larger_of_step_back(w, s, shape));
    assert forall|b: int, i: int, d: int|
        in_shape(shape, b, i, d) && candidate_times(interval, i).len() > 0 implies #[trigger] best_candidate_at(
            u,
            s,
            trace_values(t)[b][i][d],
            candidate_times(interval, i),
            b,
            i,
            d,
            then,
        ) by {
        let cs = candidate_times(interval, i);
        let v = trace_values(t)[b][i][d];
        assert(until_value(u, s, cs, i, b, d, v, then, dtype));
        let col = choose|col: Seq<u64>| #[trigger] candidate_column(u, s, cs, i, b, d, col, then) && attains_max(col, v);
        assert forall|k: int| 0 <= k < col.len() implies reads_candidate(u, s, cs[k] as int, i, b, d, #[trigger] col[k], then) by {
            let c = cs[k] as int;
            assert(candidate_value(u, s, c, i, b, d, col[k], then));
            let y = choose|y: u64|
                #[trigger] prefix_extreme(span_column(u, c, i, b, d), y, then) && attains_min(
                    seq![trace_values(s)[b][c][d], y],
                    col[k],
                );
            assert(span_column(u, c, i, b, d) =~= samples_from(u, c, i, b, d));
            assert(smaller_of(trace_values(s)[b][c][d], y, col[k]));
        }
        assert(reads_candidates(u, s, cs, i, b, d, col, then));
    }
    assert(best_candidate(u, s, t, interval, shape, then));
}

/// The times that an `always` or `eventually` reads at time `index`: every
/// time from 0 to `index` for an unbounded interval; every time from 0 to
/// `index - a` (to 0 where `index < a`) for `[a, inf)`; and, for `[a, b]`,
/// the `b - a + 1` times `index - a - k`, each clamped at 0.
pub proof fn law_window_times_follow_the_interval(interval: Interval, index: int, k: int)
    requires
        0 <= index <= usize::MAX,
        interval.well_formed(),
    ensures
        interval is Unbounded ==> window_times(interval, index).len() == index + 1 && (0 <= k <= index
            ==> window_times(interval, index)[k] == k),
        interval matches Interval::From { start } ==> {
            let last = if index < start { 0 } else { index - start };
            &&& window_times(interval, index).len() == last + 1
            &&& 0 <= k <= last ==> window_times(interval, index)[k] == k
        },
        interval matches Interval::Closed { start, end } ==> {
            &&& window_times(interval, index).len() == end - start + 1
            &&& 0 <= k <= end - start ==> window_times(interval, index)[k] == if index < start + k {
                0
            } else {
                index - start - k
            }
        },
{
}

/// The candidate times of an `until` or `then` at time `index`: every time
/// from 0 to `index` for an unbounded interval; for `[a, inf)` every time
/// from 0 to `index - a`, and none where `index < a`; for `[a, b]` every
/// time from `index - b` to `index - a`, and none where `index < b`.
pub proof fn law_candidate_times_follow_the_interval(interval: Interval, index: int, k: int)
    requires
        0 <= index <= usize::MAX,
        interval.well_formed(),
    ensures
        interval is Unbounded ==> candidate_times(interval, index).len() == index + 1 && (0 <= k <= index
            ==> candidate_times(interval, index)[k] == k),
        interval matches Interval::From { start } ==> {
            &&& index < start ==> candidate_times(interval, index).len() == 0
            &&& start <= index ==> candidate_times(interval, index).len() == index - start + 1
            &&& start <= index && 0 <= k <= index - start ==> candidate_times(interval, index)[k] == k
        },
        interval matches Interval::Closed { start, end } ==> {
            &&& index < end ==> candidate_times(interval, index).len() == 0
            &&& end <= index ==> candidate_times(interval, index).len() == end - start + 1
            &&& end <= index && 0 <= k <= end - start ==> candidate_times(interval, index)[k] == index - end + k
        },
{
}

/// The times that a window reads at `index` are no later than `index`.
pub proof fn lemma_window_times_bounded(interval: Interval, index: int, k: int)
    requires
        0 <= index <= usize::MAX,
        0 <= k < window_times(interval, index).len(),
    ensures
        window_times(interval, index)[k] <= index,
{
    match interval {
        Interval::Closed { start, end } => {
            assert(closed_window_times(index, start as int, end as int)[k] == saturating_sub(
                index,
                start + k,
            ) as usize);
        },
        Interval::Unbounded => {
            assert(index_range(0, index)[k] == k as usize);
        },
        Interval::From { start } => {
            assert(index_range(0, saturating_sub(index, start as int))[k] == k as usize);
        },
    }
}

/// `always` is the negation of `eventually` of the negation: over one
/// robustness trace `u` of a subformula, with exact aggregation, the
/// `always` of `u` and the negated `eventually` of the negated `u` stand at
/// every sample for the same number up to the sign of a zero, or are both
/// NaNs.
pub proof fn law_always_is_not_eventually_not(
    u: Trace,
    negated: Trace,
    eventually: Trace,
    always: Trace,
    dual: Trace,
    interval: Interval,
    shape: Seq<usize>,
)
    requires
        windows_of(u, always, interval, shape, true),
        negation_of(u, negated, shape),
        windows_of(negated, eventually, interval, shape, false),
        negation_of(eventually, dual, shape),
    ensures
        alike_traces(dual, always, shape),
{
    assert forall|b: int, i: int, d: int| 0 <= b < shape[0] && 0 <= i < shape[1] && 0 <= d < shape[2] implies alike(
        #[trigger] trace_values(always)[b][i][d],
        trace_values(dual)[b][i][d],
    ) by {
        let col = window_column(u, interval, i, b, d);
        let ncol = window_column(negated, interval, i, b, d);
        assert forall|k: int| 0 <= k < col.len() implies alike(#[trigger] ncol[k], flip_sign(col[k])) by {
            lemma_window_times_bounded(interval, i, k);
            let t = window_times(interval, i)[k] as int;
            assert(same_number(trace_values(negated)[b][t][d], flip_sign(trace_values(u)[b][t][d])));
            lemma_alike(ncol[k], flip_sign(col[k]), 0);
        }
        let m = trace_values(always)[b][i][d];
        let e = trace_values(eventually)[b][i][d];
        lemma_flip_extreme(col, ncol, m, e);
        lemma_alike(e, flip_sign(m), 0);
        lemma_alike(trace_values(dual)[b][i][d], flip_sign(e), flip_sign(flip_sign(m)));
        lemma_sign_keeps_nan(m);
        lemma_sign_keeps_nan(flip_sign(m));
        if !is_nan_bits(m) {
            lemma_flip_keeps_number(m);
        }
        lemma_alike(trace_values(dual)[b][i][d], flip_sign(flip_sign(m)), m);
        lemma_alike(trace_values(dual)[b][i][d], m, 0);
    }
}

/// `a => b` is `!a || b`: over robustness traces `u` of `a` and `w` of `b`,
/// with exact aggregation, the implication built from them and the
/// disjunction of the negated `u` with `w` stand at every sample for the
/// same number up to the sign of a zero, or are both NaNs.
pub proof fn law_implies_is_or_of_negation(
    u: Trace,
    w: Trace,
    negated: Trace,
    implication: Trace,
    disjunction: Trace,
    shape: Seq<usize>,
)
    requires
        implication_of(u, w, implication, shape),
        negation_of(u, negated, shape),
        combines(seq![negated, w], disjunction, shape, false),
    ensures
        alike_traces(disjunction, implication, shape),
{
    assert forall|b: int, i: int, d: int| 0 <= b < shape[0] && 0 <= i < shape[1] && 0 <= d < shape[2] implies alike(
        #[trigger] trace_values(implication)[b][i][d],
        trace_values(disjunction)[b][i][d],
    ) by {
        let x = trace_values(u)[b][i][d];
        let c1 = seq![flip_sign(x), trace_values(w)[b][i][d]];
        let c2 = children_column(seq![negated, w], b, i, d);
        assert(c2.len() == 2 && c2[0] == trace_values(negated)[b][i][d] && c2[1] == trace_values(w)[b][i][d]);
        lemma_alike(trace_values(negated)[b][i][d], flip_sign(x), 0);
        lemma_alike(trace_values(w)[b][i][d], 0, 0);
        assert forall|k: int| 0 <= k < c1.len() implies alike(#[trigger] c1[k], c2[k]) by {}
        lemma_extreme_alike(c1, c2, trace_values(implication)[b][i][d], trace_values(disjunction)[b][i][d], false);
    }
}

/// Evaluating a formula negated twice gives, with exact aggregation, what
/// evaluating the formula gives, up to the sign of a zero.
pub proof fn law_double_negation_evaluates_alike(f: Formula, env: SignalEnv, options: EvalOptions, t: Trace, u: Trace)
    requires
        options.aggregation is Exact,
        robust(Formula::Not(Box::new(Formula::Not(Box::new(f)))), env, options, t),
        robust(f, env, options, u),
    ensures
        alike_traces(u, t, env.expected_shape()),
{
    let shape = env.expected_shape();
    law_double_negation(f, env, options, t);
    let w = choose|w: Trace| #[trigger] same_numbers(w, t, shape) && robust(f, env, options, w);
    law_exact_robustness_is_determined(f, env, options, u, w);
    assert forall|b: int, i: int, d: int| 0 <= b < shape[0] && 0 <= i < shape[1] && 0 <= d < shape[2] implies alike(
        #[trigger] trace_values(t)[b][i][d],
        trace_values(u)[b][i][d],
    ) by {
        lemma_alike(trace_values(t)[b][i][d], trace_values(w)[b][i][d], trace_values(u)[b][i][d]);
    }
}

/// On a formula built from expressions, predicates, negations and
/// integrals, evaluating it negated twice gives, under any aggregation, the
/// same numbers as evaluating it.
pub proof fn law_double_negation_of_pointwise_evaluates_the_same(
    f: Formula,
    env: SignalEnv,
    options: EvalOptions,
    t: Trace,
    u: Trace,
)
    requires
        pointwise(f),
        robust(Formula::Not(Box::new(Formula::Not(Box::new(f)))), env, options, t),
        robust(f, env, options, u),
    ensures
        same_numbers(u, t, env.expected_shape()),
{
    let shape = env.expected_shape();
    law_double_negation(f, env, options, t);
    let w = choose|w: Trace| #[trigger] same_numbers(w, t, shape) && robust(f, env, options, w);
    law_pointwise_robustness_is_determined(f, env, options, u, w);
    assert forall|b: int, i: int, d: int| 0 <= b < shape[0] && 0 <= i < shape[1] && 0 <= d < shape[2] implies same_number(
        #[trigger] trace_values(t)[b][i][d],
        trace_values(u)[b][i][d],
    ) by {
        let x = trace_values(t)[b][i][d];
        let y = trace_values(w)[b][i][d];
        let z = trace_values(u)[b][i][d];
        assert(same_number(x, y));
        assert(same_number(y, z));
    }
}

/// The unbounded window holds every window: over one trace `u`, with exact
/// aggregation, the unbounded `always` is a NaN where any `always` is one,
/// and otherwise no larger; the unbounded `eventually` is a NaN where any
/// `eventually` is one, and otherwise no smaller.
pub proof fn law_unbounded_window_bounds_every_window(
    u: Trace,
    whole: Trace,
    part: Trace,
    interval: Interval,
    shape: Seq<usize>,
    is_always: bool,
)
    requires
        windows_of(u, whole, Interval::Unbounded, shape, is_always),
        windows_of(u, part, interval, shape, is_always),
    ensures
        forall|b: int, i: int, d: int|
            0 <= b < shape[0] && 0 <= i < shape[1] && 0 <= d < shape[2] ==> {
                &&& is_nan_bits(trace_values(part)[b][i][d]) ==> is_nan_bits(#[trigger] trace_values(whole)[b][i][d])
                &&& !is_nan_bits(trace_values(whole)[b][i][d]) ==> !is_nan_bits(trace_values(part)[b][i][d]) && if is_always {
                    order_key(trace_values(whole)[b][i][d]) <= order_key(trace_values(part)[b][i][d])
                } else {
                    order_key(trace_values(part)[b][i][d]) <= order_key(trace_values(whole)[b][i][d])
                }
            },
{
    assert forall|b: int, i: int, d: int| 0 <= b < shape[0] && 0 <= i < shape[1] && 0 <= d < shape[2] implies {
        &&& is_nan_bits(trace_values(part)[b][i][d]) ==> is_nan_bits(#[trigger] trace_values(whole)[b][i][d])
        &&& !is_nan_bits(trace_values(whole)[b][i][d]) ==> !is_nan_bits(trace_values(part)[b][i][d]) && if is_always {
            order_key(trace_values(whole)[b][i][d]) <= order_key(trace_values(part)[b][i][d])
        } else {
            order_key(trace_values(part)[b][i][d]) <= order_key(trace_values(whole)[b][i][d])
        }
    } by {
        let big = window_column(u, Interval::Unbounded, i, b, d);
        let small = window_column(u, interval, i, b, d);
        let w = trace_values(whole)[b][i][d];
        let p = trace_values(part)[b][i][d];
        assert(attains_extreme(big, w, is_always));
        assert(attains_extreme(small, p, is_always));
        assert forall|k: int| 0 <= k < small.len() implies #[trigger] small[k] == big[window_times(interval, i)[k] as int]
            && 0 <= window_times(interval, i)[k] < big.len() by {
            lemma_window_times_bounded(interval, i, k);
            let t = window_times(interval, i)[k] as int;
            assert(index_range(0, i)[t] == t as usize);
        }
        if !no_nan(small) {
            let k = choose|k: int| 0 <= k < small.len() && is_nan_bits(#[trigger] small[k]);
            assert(small[k] == big[window_times(interval, i)[k] as int]);
            assert(!no_nan(big));
        }
        if no_nan(big) {
            assert forall|k: int| 0 <= k < small.len() implies !is_nan_bits(#[trigger] small[k]) by {
                assert(small[k] == big[window_times(interval, i)[k] as int]);
            }
            let m = choose|m: int| 0 <= m < small.len() && small[m] == p;
            assert(small[m] == big[window_times(interval, i)[m] as int]);
        }
    }
}

/// Where an `until` or a `then` has no candidate time for its right-hand
/// side (a bounded window that reaches past the oldest sample), its
/// robustness with exact aggregation is negative infinity, in the element
/// type of the signals; with distributed exact aggregation it is the same
/// number.
pub proof fn law_empty_window_is_negative_infinity(
    f: Formula,
    env: SignalEnv,
    options: EvalOptions,
    t: Trace,
    b: int,
    i: int,
    d: int,
)
    requires
        f is Until || f is Then,
        robust(f, env, options, t),
        options.aggregation is Exact || options.aggregation is DistributedExact,
        in_shape(env.expected_shape(), b, i, d),
        candidate_times(
            match f {
                Formula::Until { interval, .. } => interval,
                Formula::Then { interval, .. } => interval,
                _ => Interval::Unbounded,
            },
            i,
        ).len() == 0,
    ensures
        alike(trace_values(t)[b][i][d], float_from_f64(trace_dtype(env.entries()[0].1), NEG_INFINITY_BITS)),
        options.aggregation is Exact ==> trace_values(t)[b][i][d] == float_from_f64(
            trace_dtype(env.entries()[0].1),
            NEG_INFINITY_BITS,
        ),
{
    let shape = env.expected_shape();
    let dtype = trace_dtype(env.entries()[0].1);
    match f {
        Formula::Until { lhs, rhs, interval, overlap } => {
            let (u, w, shifted) = choose|u: Trace, w: Trace, shifted: Trace|
                #[trigger] until_built(u, w, shifted, t, interval, overlap, shape, options.aggregation, false, dtype)
                    && robust(*lhs, env, options, u) && robust(*rhs, env, options, w);
            if options.aggregation is Exact {
                assert(until_of(u, shifted, t, interval, shape, false, dtype));
                lemma_alike(trace_values(t)[b][i][d], 0, 0);
            }
        },
        Formula::Then { lhs, rhs, interval, overlap } => {
            let (u, w, shifted) = choose|u: Trace, w: Trace, shifted: Trace|
                #[trigger] until_built(u, w, shifted, t, interval, overlap, shape, options.aggregation, true, dtype)
                    && robust(*lhs, env, options, u) && robust(*rhs, env, options, w);
            if options.aggregation is Exact {
                assert(until_of(u, shifted, t, interval, shape, true, dtype));
                lemma_alike(trace_values(t)[b][i][d], 0, 0);
            }
        },
        _ => {},
    }
}

} // verus!
