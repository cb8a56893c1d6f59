//! Robust minima and maxima, and the temporal windows they are taken over.

use vstd::prelude::*;

use crate::interval::{closed_window_indices, closed_window_times, window_times, Interval};
use crate::options::Aggregation;
use crate::trace::{
    broadcast, broadcastable, cat_time, conforms, constant, divide, dims, dtype_is_float,
    duplicate, equal_mask, exponential, fill_one, lift, logarithm, lower, mask_device, mask_shape,
    max_time, min_time, minus, narrow_time, negate, plus, reduced, same_place, stack_cat,
    stack_constant, stack_device, stack_divide, stack_dtype, stack_duplicate, stack_equal_mask,
    stack_exponential, stack_fill_one, stack_in_place, stack_logarithm, stack_mask_device,
    stack_mask_shape, stack_max, stack_min, stack_minus, stack_negate, stack_plus,
    stack_same_place, stack_shape, stack_sum, stack_times, stack_zeros_like, sum_time, times,
    attains_max, attains_min, entries_at, joined_row, no_nan, stack_values, time_column,
    total_time, trace_device, trace_dtype, trace_shape, trace_values, zeros_like, BoolTrace, Stack,
    StackMask, Trace, alike, all_zero_but, float_equal, in_stack, is_finite_bits, is_nan_bits,
    is_zero_bits, lemma_alike_basics, one_bits, order_key, same_number, stack_mask_values,
    element_at, conv_value, div_value, float_div, float_from_f64, flip_sign, add_value, mul_value,
    lemma_same_number_ops, lemma_sign_keeps_nan,
};

verus! {

/// Broadcasting a shape with itself, or with itself reduced on one axis,
/// gives the shape back.
pub proof fn lemma_broadcast_shapes(s: Seq<usize>, axis: int)
    requires
        0 <= axis < s.len(),
    ensures
        broadcastable(s, s),
        broadcast(s, s) == s,
        broadcastable(s, reduced(s, axis)),
        broadcast(s, reduced(s, axis)) == s,
        broadcastable(reduced(s, axis), reduced(s, axis)),
        broadcast(reduced(s, axis), reduced(s, axis)) == reduced(s, axis),
{
    assert(broadcast(s, s) =~= s);
    assert(broadcast(s, reduced(s, axis)) =~= s);
    assert(broadcast(reduced(s, axis), reduced(s, axis)) =~= reduced(s, axis));
}

/// Broadcasting a shape with an all-ones shape of its rank gives it back.
pub proof fn lemma_broadcast_ones(s: Seq<usize>, ones: Seq<usize>)
    requires
        ones.len() == s.len(),
        forall|i: int| 0 <= i < ones.len() ==> ones[i] == 1,
    ensures
        broadcastable(s, ones),
        broadcast(s, ones) == s,
{
    assert(broadcast(s, ones) =~= s);
}

/// A float stack with a non-empty last axis, ready to be reduced over it.
pub open spec fn stack_ready(x: Stack) -> bool {
    &&& stack_shape(x).len() == 4
    &&& stack_shape(x)[3] > 0
    &&& dtype_is_float(stack_dtype(x))
}

/// A float trace with a non-empty time axis, ready to be reduced over it.
pub open spec fn trace_ready(x: Trace) -> bool {
    &&& trace_shape(x).len() == 3
    &&& trace_shape(x)[1] > 0
    &&& dtype_is_float(trace_dtype(x))
}

/// In `col`, entry `k` is the single largest (`is_max`) or smallest, and
/// every other entry is finite.
pub open spec fn top_at(col: Seq<u64>, k: int, is_max: bool) -> bool {
    &&& 0 <= k < col.len()
    &&& forall|j: int|
        0 <= j < col.len() && j != k ==> is_finite_bits(#[trigger] col[j]) && if is_max {
            order_key(col[j]) < order_key(col[k])
        } else {
            order_key(col[k]) < order_key(col[j])
        }
}

/// `col` holds no NaN, its largest (`is_max`) or smallest number stands at
/// a single entry, and every other entry is finite.
pub open spec fn single_extreme(col: Seq<u64>, is_max: bool) -> bool {
    &&& no_nan(col)
    &&& exists|k: int| #[trigger] top_at(col, k, is_max)
}

/// `v` is, up to the sign of a zero, the single largest (`is_max`) or
/// smallest entry of `col`.
pub open spec fn reaches_extreme(col: Seq<u64>, v: u64, is_max: bool) -> bool {
    exists|k: int| #[trigger] top_at(col, k, is_max) && alike(v, col[k])
}

/// The mask of the place `[b][i][d]` of a boolean stack holds at entry `k`
/// alone.
pub open spec fn lone_entry(m: StackMask, b: int, i: int, d: int, k: int, len: int) -> bool {
    forall|j: int| 0 <= j < len ==> #[trigger] stack_mask_values(m)[b][i][d][j] == (j == k)
}

/// `log(sum(exp(x)))` over the last axis, shifted by the maximum for
/// stability: the logarithm of the sum of the exponentials of the entries
/// less their largest, plus that largest (see [`plus_largest`]); a NaN where
/// a place holds one, since the maximum added back is then a NaN.
pub fn logsumexp(x: Stack) -> (r: Stack)
    requires
        stack_ready(x),
    ensures
        stack_shape(r) == reduced(stack_shape(x), 3),
        stack_same_place(r, x),
        forall|b: int, i: int, d: int|
            0 <= b < stack_shape(x)[0] && 0 <= i < stack_shape(x)[1] && 0 <= d < stack_shape(x)[2]
                && !no_nan(entries_at(x, b, i, d)) ==> is_nan_bits(#[trigger] stack_values(r)[b][i][d][0]),
        forall|b: int, i: int, d: int|
            0 <= b < stack_shape(x)[0] && 0 <= i < stack_shape(x)[1] && 0 <= d < stack_shape(x)[2]
                ==> plus_largest(#[trigger] stack_values(r)[b][i][d][0], entries_at(x, b, i, d), stack_dtype(x)),
{
    proof {
        lemma_broadcast_shapes(stack_shape(x), 3);
    }
    let ghost gx = x;
    let max = stack_max(stack_duplicate(&x));
    let ghost gm = max;
    let centered = stack_minus(x, stack_duplicate(&max));
    let summed = stack_sum(stack_exponential(centered));
    let logged = stack_logarithm(summed);
    let ghost gl = logged;
    let r = stack_plus(logged, max);
    proof {
        assert forall|b: int, i: int, d: int|
            0 <= b < stack_shape(gx)[0] && 0 <= i < stack_shape(gx)[1] && 0 <= d < stack_shape(gx)[2]
                && !no_nan(entries_at(gx, b, i, d)) implies is_nan_bits(#[trigger] stack_values(r)[b][i][d][0]) by {
            assert(attains_max(entries_at(gx, b, i, d), stack_values(gm)[b][i][d][0]));
            assert(in_stack(stack_shape(gm), b, i, d, 0));
        }
        assert forall|b: int, i: int, d: int|
            0 <= b < stack_shape(gx)[0] && 0 <= i < stack_shape(gx)[1] && 0 <= d < stack_shape(gx)[2]
                implies plus_largest(#[trigger] stack_values(r)[b][i][d][0], entries_at(gx, b, i, d), stack_dtype(gx)) by {
            let l = stack_values(gl)[b][i][d][0];
            let m = stack_values(gm)[b][i][d][0];
            assert(attains_max(entries_at(gx, b, i, d), m));
            assert(in_stack(stack_shape(gm), b, i, d, 0));
            assert(same_number(stack_values(r)[b][i][d][0], add_value(stack_dtype(gx), l, m)));
        }
    }
    r
}

/// The mean of `x` over the last axis, counting only where `mask` holds.
/// Where the mask of a place holds at a single entry and every other entry
/// of `x` there is finite, the mean is that entry, up to the sign of a zero
/// (the order of the additions does not matter there).
pub fn masked_mean(x: Stack, mask: StackMask) -> (r: Stack)
    requires
        stack_ready(x),
        stack_mask_shape(mask) == stack_shape(x),
        stack_mask_device(mask) == stack_device(x),
    ensures
        stack_shape(r) == reduced(stack_shape(x), 3),
        stack_same_place(r, x),
        forall|b: int, i: int, d: int, k: int|
            in_stack(stack_shape(x), b, i, d, k) && #[trigger] lone_entry(mask, b, i, d, k, stack_shape(x)[3] as int) && (
            forall|j: int|
                0 <= j < stack_shape(x)[3] && j != k ==> is_finite_bits(#[trigger] stack_values(x)[b][i][d][j]))
                ==> alike(stack_values(r)[b][i][d][0], stack_values(x)[b][i][d][k]),
{
    proof {
        lemma_broadcast_shapes(stack_shape(x), 3);
    }
    let zeros = stack_zeros_like(&x);
    let weights = stack_fill_one(zeros, mask);
    let ghost gw = weights;
    let copy = stack_duplicate(&weights);
    let ghost gx = x;
    let product = stack_times(x, copy);
    let ghost gp = product;
    let sum = stack_sum(product);
    let count = stack_sum(weights);
    let ghost (gs, gc) = (sum, count);
    let r = stack_divide(sum, count);
    proof {
        let n = stack_shape(gx)[3] as int;
        assert forall|b: int, i: int, d: int, k: int|
            in_stack(stack_shape(gx), b, i, d, k) && #[trigger] lone_entry(mask, b, i, d, k, n) && (forall|j: int|
                0 <= j < n && j != k ==> is_finite_bits(#[trigger] stack_values(gx)[b][i][d][j])) implies alike(
            stack_values(r)[b][i][d][0],
            stack_values(gx)[b][i][d][k],
        ) by {
            let pe = entries_at(gp, b, i, d);
            let we = entries_at(gw, b, i, d);
            assert forall|j: int| 0 <= j < n && j != k implies is_zero_bits(#[trigger] pe[j]) by {
                assert(in_stack(stack_shape(gx), b, i, d, j));
                assert(stack_mask_values(mask)[b][i][d][j] == (j == k));
                assert(stack_values(gw)[b][i][d][j] == 0);
            }
            assert forall|j: int| 0 <= j < n && j != k implies is_zero_bits(#[trigger] we[j]) by {
                assert(in_stack(stack_shape(gx), b, i, d, j));
                assert(stack_mask_values(mask)[b][i][d][j] == (j == k));
            }
            assert(all_zero_but(pe, k));
            assert(all_zero_but(we, k));
            assert(stack_mask_values(mask)[b][i][d][k]);
            assert(stack_values(gw)[b][i][d][k] == one_bits());
            assert(same_number(pe[k], stack_values(gx)[b][i][d][k]));
            assert(alike(stack_values(gs)[b][i][d][0], pe[k]));
            assert(alike(stack_values(gc)[b][i][d][0], we[k]));
            lemma_alike_basics(stack_values(gc)[b][i][d][0], one_bits(), one_bits());
            assert(in_stack(stack_shape(gs), b, i, d, 0));
            assert(same_number(stack_values(r)[b][i][d][0], stack_values(gs)[b][i][d][0]));
            lemma_alike_basics(stack_values(r)[b][i][d][0], stack_values(gs)[b][i][d][0], pe[k]);
            lemma_alike_basics(pe[k], stack_values(gx)[b][i][d][k], 0);
            lemma_alike_basics(stack_values(r)[b][i][d][0], pe[k], stack_values(gx)[b][i][d][k]);
        }
    }
    r
}

/// The extremum over the last axis, averaged over the entries that attain
/// it. Where a place holds no NaN and its extremum stands at a single entry,
/// every other entry finite, the result is that entry up to the sign of a
/// zero.
pub fn distributed_extreme(x: Stack, is_max: bool) -> (r: Stack)
    requires
        stack_ready(x),
    ensures
        stack_shape(r) == reduced(stack_shape(x), 3),
        stack_same_place(r, x),
        forall|b: int, i: int, d: int|
            0 <= b < stack_shape(x)[0] && 0 <= i < stack_shape(x)[1] && 0 <= d < stack_shape(x)[2]
                && single_extreme(entries_at(x, b, i, d), is_max) ==> reaches_extreme(
                entries_at(x, b, i, d),
                #[trigger] stack_values(r)[b][i][d][0],
                is_max,
            ),
{
    proof {
        lemma_broadcast_shapes(stack_shape(x), 3);
    }
    let ghost gx = x;
    let extreme = if is_max {
        stack_max(stack_duplicate(&x))
    } else {
        stack_min(stack_duplicate(&x))
    };
    let ghost ge = extreme;
    let mask = stack_equal_mask(stack_duplicate(&x), extreme);
    assert(stack_shape(gx).update(3, 1usize) =~= reduced(stack_shape(gx), 3));
    let r = masked_mean(x, mask);
    proof {
        let n = stack_shape(gx)[3] as int;
        assert forall|b: int, i: int, d: int|
            0 <= b < stack_shape(gx)[0] && 0 <= i < stack_shape(gx)[1] && 0 <= d < stack_shape(gx)[2]
                && single_extreme(entries_at(gx, b, i, d), is_max) implies reaches_extreme(
            entries_at(gx, b, i, d),
            #[trigger] stack_values(r)[b][i][d][0],
            is_max,
        ) by {
            let col = entries_at(gx, b, i, d);
            let k = choose|k: int| #[trigger] top_at(col, k, is_max);
            let e = stack_values(ge)[b][i][d][0];
            if is_max {
                assert(attains_max(col, e));
            } else {
                assert(attains_min(col, e));
            }
            let m = choose|m: int| 0 <= m < col.len() && col[m] == e;
            if m != k {
                assert(top_at(col, k, is_max));
                assert(is_max ==> order_key(col[m]) < order_key(col[k]));
                assert(!is_max ==> order_key(col[k]) < order_key(col[m]));
            }
            assert(e == col[k]);
            assert forall|j: int| 0 <= j < n implies #[trigger] stack_mask_values(mask)[b][i][d][j] == (j == k) by {
                assert(in_stack(stack_shape(gx), b, i, d, j));
                assert(col[j] == stack_values(gx)[b][i][d][j]);
                if j != k {
                    assert(top_at(col, k, is_max));
                }
            }
            assert(lone_entry(mask, b, i, d, k, n));
            assert(in_stack(stack_shape(gx), b, i, d, k));
            assert forall|j: int| 0 <= j < n && j != k implies is_finite_bits(#[trigger] stack_values(gx)[b][i][d][j]) by {
                assert(col[j] == stack_values(gx)[b][i][d][j]);
            }
            assert(alike(stack_values(r)[b][i][d][0], col[k]));
        }
    }
    r
}

/// `v` is, in the element type `dtype`, a number divided by the scale that
/// `scale_bits` encodes (converted to that type), that number a NaN where
/// `nan_in` holds; a NaN scale gives a NaN.
pub open spec fn quotient_by_scale(v: u64, dtype: int, scale_bits: u64, nan_in: bool) -> bool {
    &&& is_nan_bits(scale_bits) ==> is_nan_bits(v)
    &&& !is_nan_bits(scale_bits) ==> exists|l: u64|
        {
            &&& nan_in ==> #[trigger] is_nan_bits(l)
            &&& is_nan_bits(l) ==> is_nan_bits(v)
            &&& !is_nan_bits(l) ==> same_number(v, float_div(dtype, l, float_from_f64(dtype, scale_bits)))
        }
}

/// `v` is, in the element type `dtype`, the sum of some number and the
/// largest entry of `col`: what adding the maximum back gives.
pub open spec fn plus_largest(v: u64, col: Seq<u64>, dtype: int) -> bool {
    exists|l: u64, m: u64|
        #![trigger add_value(dtype, l, m)]
        attains_max(col, m) && same_number(v, add_value(dtype, l, m))
}

/// The entries of `col` times the scale that `scale_bits` encodes, in the
/// element type `dtype` (a NaN where either is one).
pub open spec fn scaled_entries(col: Seq<u64>, dtype: int, scale_bits: u64) -> Seq<u64> {
    Seq::new(col.len(), |k: int| mul_value(dtype, col[k], conv_value(dtype, scale_bits)))
}

/// The entries of `col` with their signs toggled.
pub open spec fn negated_entries(col: Seq<u64>) -> Seq<u64> {
    Seq::new(col.len(), |k: int| flip_sign(col[k]))
}

/// `v` is the smooth maximum of `col` with the scale that `scale_bits`
/// encodes: some number plus the largest of the entries times the scale
/// (the log-sum-exp of the scaled entries, shifted by their maximum), divided
/// by the scale, in the element type `dtype`.
pub open spec fn smooth_max_of(v: u64, col: Seq<u64>, dtype: int, scale_bits: u64) -> bool {
    exists|l: u64, m: u64|
        #![trigger add_value(dtype, l, m)]
        attains_max(scaled_entries(col, dtype, scale_bits), m) && same_number(
            v,
            div_value(dtype, add_value(dtype, l, m), conv_value(dtype, scale_bits)),
        )
}

/// `v` is the smooth minimum of `col` with the scale that `scale_bits`
/// encodes: the negation of some number plus the largest of the negated
/// entries times the scale (the log-sum-exp of the negated scaled entries,
/// shifted by their maximum), divided by the scale, in the element type
/// `dtype`.
pub open spec fn smooth_min_of(v: u64, col: Seq<u64>, dtype: int, scale_bits: u64) -> bool {
    exists|l: u64, m: u64|
        #![trigger add_value(dtype, l, m)]
        attains_max(scaled_entries(negated_entries(col), dtype, scale_bits), m) && same_number(
            v,
            div_value(dtype, flip_sign(add_value(dtype, l, m)), conv_value(dtype, scale_bits)),
        )
}

/// `v` is the smooth minimum (`is_min`) or maximum of `col`, as
/// [`smooth_min_of`] and [`smooth_max_of`] say.
pub open spec fn smooth_extreme_of(v: u64, col: Seq<u64>, dtype: int, scale_bits: u64, is_min: bool) -> bool {
    if is_min {
        smooth_min_of(v, col, dtype, scale_bits)
    } else {
        smooth_max_of(v, col, dtype, scale_bits)
    }
}

/// Columns that hold, entry by entry, the same numbers have the same
/// largest entry.
pub proof fn lemma_attains_max_same_numbers(a: Seq<u64>, c: Seq<u64>, m: u64)
    requires
        a.len() == c.len(),
        forall|k: int| 0 <= k < a.len() ==> same_number(#[trigger] a[k], c[k]),
        attains_max(a, m),
    ensures
        attains_max(c, m),
{
    if no_nan(a) {
        assert forall|k: int| 0 <= k < c.len() implies !is_nan_bits(#[trigger] c[k]) by {
            assert(same_number(a[k], c[k]));
        }
        assert(a =~= c);
    } else {
        let k = choose|k: int| 0 <= k < a.len() && is_nan_bits(#[trigger] a[k]);
        assert(same_number(a[k], c[k]));
        assert(is_nan_bits(c[k]));
    }
}

/// A robust maximum over the last axis. With smooth aggregation it is the
/// log-sum-exp of the entries times the scale, divided by the scale in the
/// element type: the largest scaled entry plus the logarithm of a sum of
/// exponentials, which rests on functions of unspecified precision and is
/// left open (a NaN where an entry is one), as [`smooth_max_of`] says.
pub fn maxish(x: Stack, aggregation: Aggregation) -> (r: Stack)
    requires
        stack_ready(x),
    ensures
        stack_shape(r) == reduced(stack_shape(x), 3),
        stack_same_place(r, x),
        aggregation is Exact ==> forall|b: int, i: int, d: int|
            0 <= b < stack_shape(x)[0] && 0 <= i < stack_shape(x)[1] && 0 <= d < stack_shape(x)[2]
                ==> attains_max(
                entries_at(x, b, i, d),
                #[trigger] stack_values(r)[b][i][d][0],
            ),
        aggregation is DistributedExact ==> forall|b: int, i: int, d: int|
            0 <= b < stack_shape(x)[0] && 0 <= i < stack_shape(x)[1] && 0 <= d < stack_shape(x)[2]
                && single_extreme(entries_at(x, b, i, d), true) ==> reaches_extreme(
                entries_at(x, b, i, d),
                #[trigger] stack_values(r)[b][i][d][0],
                true,
            ),
        aggregation is Smooth ==> forall|b: int, i: int, d: int|
            0 <= b < stack_shape(x)[0] && 0 <= i < stack_shape(x)[1] && 0 <= d < stack_shape(x)[2] ==> quotient_by_scale(
                #[trigger] stack_values(r)[b][i][d][0],
                stack_dtype(x),
                aggregation->scale.bits,
                !no_nan(entries_at(x, b, i, d)),
            ),
        aggregation is Smooth ==> forall|b: int, i: int, d: int|
            0 <= b < stack_shape(x)[0] && 0 <= i < stack_shape(x)[1] && 0 <= d < stack_shape(x)[2] ==> smooth_max_of(
                #[trigger] stack_values(r)[b][i][d][0],
                entries_at(x, b, i, d),
                stack_dtype(x),
                aggregation->scale.bits,
            ),
{
    match aggregation {
        Aggregation::Exact => stack_max(x),
        Aggregation::DistributedExact => distributed_extreme(x, true),
        Aggregation::Smooth { scale } => {
            let factor = stack_constant(&x, scale);
            let divisor = stack_constant(&x, scale);
            proof {
                lemma_broadcast_ones(stack_shape(x), stack_shape(factor));
                lemma_broadcast_ones(reduced(stack_shape(x), 3), stack_shape(divisor));
            }
            let ghost gx = x;
            let ghost gf = factor;
            let ghost gd = divisor;
            let scaled = stack_times(x, factor);
            let ghost gs = scaled;
            proof {
                assert(stack_shape(gs) == stack_shape(gx));
                assert forall|b: int, i: int, d: int|
                    0 <= b < stack_shape(gx)[0] && 0 <= i < stack_shape(gx)[1] && 0 <= d < stack_shape(gx)[2] && !no_nan(
                        entries_at(gx, b, i, d),
                    ) implies !no_nan(#[trigger] entries_at(gs, b, i, d)) by {
                    let k = choose|k: int| 0 <= k < entries_at(gx, b, i, d).len() && is_nan_bits(#[trigger] entries_at(gx, b, i, d)[k]);
                    assert(in_stack(stack_shape(gx), b, i, d, k));
                    assert(is_nan_bits(entries_at(gs, b, i, d)[k]));
                }
                let dtype = stack_dtype(gx);
                let conv = conv_value(dtype, scale.bits);
                let dv = stack_values(gd)[0][0][0][0];
                assert(same_number(dv, conv));
                assert forall|b: int, i: int, d: int|
                    #![trigger entries_at(gs, b, i, d)]
                    0 <= b < stack_shape(gx)[0] && 0 <= i < stack_shape(gx)[1] && 0 <= d < stack_shape(gx)[2] implies
                        forall|m: u64| #[trigger] attains_max(entries_at(gs, b, i, d), m) ==> attains_max(
                            scaled_entries(entries_at(gx, b, i, d), dtype, scale.bits),
                            m,
                        ) by {
                    let fv = stack_values(gf)[0][0][0][0];
                    assert(same_number(fv, conv));
                    let col = entries_at(gx, b, i, d);
                    let spec_col = scaled_entries(col, dtype, scale.bits);
                    let scol = entries_at(gs, b, i, d);
                    assert forall|k: int| 0 <= k < scol.len() implies same_number(#[trigger] scol[k], spec_col[k]) by {
                        assert(in_stack(stack_shape(gx), b, i, d, k));
                        lemma_same_number_ops(dtype, col[k], col[k], fv, conv);
                    }
                    assert forall|m: u64| #[trigger] attains_max(scol, m) implies attains_max(spec_col, m) by {
                        lemma_attains_max_same_numbers(scol, spec_col, m);
                    }
                }
                assert forall|x: u64, l: u64, m: u64|
                    #![trigger div_value(dtype, x, dv), add_value(dtype, l, m)]
                    same_number(x, add_value(dtype, l, m)) implies same_number(
                        div_value(dtype, x, dv),
                        div_value(dtype, add_value(dtype, l, m), conv),
                    ) by {
                    lemma_same_number_ops(dtype, x, add_value(dtype, l, m), dv, conv);
                }
            }
            stack_divide(logsumexp(scaled), divisor)
        }
    }
}

/// `v` is, in the element type `dtype`, the negation of a number divided by
/// the scale that `scale_bits` encodes (converted to that type), that number
/// a NaN where `nan_in` holds; a NaN scale gives a NaN.
pub open spec fn negated_quotient_by_scale(v: u64, dtype: int, scale_bits: u64, nan_in: bool) -> bool {
    &&& is_nan_bits(scale_bits) ==> is_nan_bits(v)
    &&& !is_nan_bits(scale_bits) ==> exists|l: u64|
        {
            &&& nan_in ==> #[trigger] is_nan_bits(l)
            &&& is_nan_bits(l) ==> is_nan_bits(v)
            &&& !is_nan_bits(l) ==> same_number(v, float_div(dtype, flip_sign(l), float_from_f64(dtype, scale_bits)))
        }
}

/// A robust minimum over the last axis. With smooth aggregation it is the
/// negated log-sum-exp of the negated entries times the scale, divided by
/// the scale in the element type, as [`smooth_min_of`] says (the logarithm
/// of the sum of exponentials is left open; it is a NaN where an entry is
/// one).
pub fn minish(x: Stack, aggregation: Aggregation) -> (r: Stack)
    requires
        stack_ready(x),
    ensures
        stack_shape(r) == reduced(stack_shape(x), 3),
        stack_same_place(r, x),
        aggregation is Exact ==> forall|b: int, i: int, d: int|
            0 <= b < stack_shape(x)[0] && 0 <= i < stack_shape(x)[1] && 0 <= d < stack_shape(x)[2]
                ==> attains_min(
                entries_at(x, b, i, d),
                #[trigger] stack_values(r)[b][i][d][0],
            ),
        aggregation is DistributedExact ==> forall|b: int, i: int, d: int|
            0 <= b < stack_shape(x)[0] && 0 <= i < stack_shape(x)[1] && 0 <= d < stack_shape(x)[2]
                && single_extreme(entries_at(x, b, i, d), false) ==> reaches_extreme(
                entries_at(x, b, i, d),
                #[trigger] stack_values(r)[b][i][d][0],
                false,
            ),
        aggregation is Smooth ==> forall|b: int, i: int, d: int|
            0 <= b < stack_shape(x)[0] && 0 <= i < stack_shape(x)[1] && 0 <= d < stack_shape(x)[2]
                ==> negated_quotient_by_scale(
                #[trigger] stack_values(r)[b][i][d][0],
                stack_dtype(x),
                aggregation->scale.bits,
                !no_nan(entries_at(x, b, i, d)),
            ),
        aggregation is Smooth ==> forall|b: int, i: int, d: int|
            0 <= b < stack_shape(x)[0] && 0 <= i < stack_shape(x)[1] && 0 <= d < stack_shape(x)[2]
                ==> smooth_min_of(
                #[trigger] stack_values(r)[b][i][d][0],
                entries_at(x, b, i, d),
                stack_dtype(x),
                aggregation->scale.bits,
            ),
{
    match aggregation {
        Aggregation::Exact => stack_min(x),
        Aggregation::DistributedExact => distributed_extreme(x, false),
        Aggregation::Smooth { scale } => {
            let factor = stack_constant(&x, scale);
            let divisor = stack_constant(&x, scale);
            proof {
                lemma_broadcast_ones(stack_shape(x), stack_shape(factor));
                lemma_broadcast_ones(reduced(stack_shape(x), 3), stack_shape(divisor));
            }
            let ghost gx = x;
            let ghost gf = factor;
            let ghost gd = divisor;
            let negated = stack_negate(x);
            let ghost gn = negated;
            let scaled = stack_times(negated, factor);
            let ghost gs = scaled;
            proof {
                assert forall|b: int, i: int, d: int|
                    0 <= b < stack_shape(gx)[0] && 0 <= i < stack_shape(gx)[1] && 0 <= d < stack_shape(gx)[2] && !no_nan(
                        entries_at(gx, b, i, d),
                    ) implies !no_nan(#[trigger] entries_at(gs, b, i, d)) by {
                    let k = choose|k: int| 0 <= k < entries_at(gx, b, i, d).len() && is_nan_bits(#[trigger] entries_at(gx, b, i, d)[k]);
                    assert(in_stack(stack_shape(gx), b, i, d, k));
                    assert(is_nan_bits(stack_values(gn)[b][i][d][k]));
                    assert(is_nan_bits(entries_at(gs, b, i, d)[k]));
                }
            }
            let summary = logsumexp(scaled);
            let ghost gl = summary;
            let flipped = stack_negate(summary);
            let ghost gm = flipped;
            let r = stack_divide(flipped, divisor);
            proof {
                assert forall|b: int, i: int, d: int|
                    0 <= b < stack_shape(gx)[0] && 0 <= i < stack_shape(gx)[1] && 0 <= d < stack_shape(gx)[2]
                        implies smooth_min_of(
                        #[trigger] stack_values(r)[b][i][d][0],
                        entries_at(gx, b, i, d),
                        stack_dtype(gx),
                        aggregation->scale.bits,
                    ) by {
                    let dtype = stack_dtype(gx);
                    let bits = aggregation->scale.bits;
                    let conv = conv_value(dtype, bits);
                    let fv = stack_values(gf)[0][0][0][0];
                    assert(same_number(fv, conv));
                    let col = entries_at(gx, b, i, d);
                    let spec_col = scaled_entries(negated_entries(col), dtype, bits);
                    let scol = entries_at(gs, b, i, d);
                    assert forall|k: int| 0 <= k < scol.len() implies same_number(#[trigger] scol[k], spec_col[k]) by {
                        assert(in_stack(stack_shape(gx), b, i, d, k));
                        let nk = stack_values(gn)[b][i][d][k];
                        lemma_sign_keeps_nan(col[k]);
                        assert(same_number(nk, flip_sign(col[k])));
                        lemma_same_number_ops(dtype, nk, flip_sign(col[k]), fv, conv);
                    }
                    assert(in_stack(stack_shape(gl), b, i, d, 0));
                    let lse = stack_values(gl)[b][i][d][0];
                    assert(plus_largest(lse, scol, dtype));
                    let (l, m) = choose|l: u64, m: u64|
                        #![trigger add_value(dtype, l, m)]
                        attains_max(scol, m) && same_number(lse, add_value(dtype, l, m));
                    lemma_attains_max_same_numbers(scol, spec_col, m);
                    let a = add_value(dtype, l, m);
                    lemma_sign_keeps_nan(lse);
                    lemma_sign_keeps_nan(a);
                    let fl = stack_values(gm)[b][i][d][0];
                    assert(same_number(fl, flip_sign(a)));
                    let dv = stack_values(gd)[0][0][0][0];
                    assert(same_number(dv, conv));
                    let v = stack_values(r)[b][i][d][0];
                    assert(same_number(v, div_value(dtype, fl, dv)));
                    lemma_same_number_ops(dtype, fl, flip_sign(a), dv, conv);
                    assert(same_number(v, div_value(dtype, flip_sign(a), conv)));
                }
                assert forall|b: int, i: int, d: int|
                    0 <= b < stack_shape(gx)[0] && 0 <= i < stack_shape(gx)[1] && 0 <= d < stack_shape(gx)[2]
                        implies negated_quotient_by_scale(
                        #[trigger] stack_values(r)[b][i][d][0],
                        stack_dtype(gx),
                        aggregation->scale.bits,
                        !no_nan(entries_at(gx, b, i, d)),
                    ) by {
                    assert(in_stack(stack_shape(gl), b, i, d, 0));
                    let l = stack_values(gl)[b][i][d][0];
                    assert(is_nan_bits(l) || !is_nan_bits(l));
                }
            }
            r
        }
    }
}

/// The mask holds at time `k` alone in feature `d` of batch `b`.
pub open spec fn lone_sample(m: BoolTrace, b: int, d: int, k: int, len: int) -> bool {
    forall|j: int| 0 <= j < len ==> #[trigger] crate::trace::mask_values(m)[b][j][d] == (j == k)
}

/// `log(sum(exp(x)))` over time, shifted by the maximum for stability: the
/// logarithm of the sum of the exponentials of the samples less their
/// largest, plus that largest (see [`plus_largest`]); a NaN where a column
/// holds one, since the maximum added back is then a NaN.
pub fn logsumexp3(x: Trace) -> (r: Trace)
    requires
        trace_ready(x),
    ensures
        trace_shape(r) == reduced(trace_shape(x), 1),
        same_place(r, x),
        forall|b: int, d: int|
            0 <= b < trace_shape(x)[0] && 0 <= d < trace_shape(x)[2] && !no_nan(time_column(x, b, d))
                ==> is_nan_bits(#[trigger] trace_values(r)[b][0][d]),
        forall|b: int, d: int|
            0 <= b < trace_shape(x)[0] && 0 <= d < trace_shape(x)[2] ==> plus_largest(
                #[trigger] trace_values(r)[b][0][d],
                time_column(x, b, d),
                trace_dtype(x),
            ),
{
    proof {
        lemma_broadcast_shapes(trace_shape(x), 1);
    }
    let ghost gx = x;
    let max = max_time(duplicate(&x));
    let ghost gm = max;
    let centered = minus(x, duplicate(&max));
    let summed = sum_time(exponential(centered));
    let logged = logarithm(summed);
    let ghost gl = logged;
    let r = plus(logged, max);
    proof {
        assert forall|b: int, d: int|
            0 <= b < trace_shape(gx)[0] && 0 <= d < trace_shape(gx)[2] && !no_nan(time_column(gx, b, d))
                implies is_nan_bits(#[trigger] trace_values(r)[b][0][d]) by {
            assert(attains_max(time_column(gx, b, d), trace_values(gm)[b][0][d]));
            assert(crate::trace::in_shape(trace_shape(r), b, 0, d));
            assert(crate::trace::nan_spreads(gl, gm, r, b, 0, d));
            assert(element_at(gm, b, 0, d) == trace_values(gm)[b][0][d]);
        }
        assert forall|b: int, d: int|
            0 <= b < trace_shape(gx)[0] && 0 <= d < trace_shape(gx)[2] implies plus_largest(
                #[trigger] trace_values(r)[b][0][d],
                time_column(gx, b, d),
                trace_dtype(gx),
            ) by {
            let l = trace_values(gl)[b][0][d];
            let m = trace_values(gm)[b][0][d];
            assert(time_column(gm, b, d).len() >= 0);
            assert(attains_max(time_column(gx, b, d), m));
            assert(crate::trace::in_shape(trace_shape(r), b, 0, d));
            assert(crate::trace::nan_spreads(gl, gm, r, b, 0, d));
            assert(element_at(gm, b, 0, d) == m);
            assert(element_at(gl, b, 0, d) == l);
            assert(same_number(trace_values(r)[b][0][d], add_value(trace_dtype(gx), l, m)));
        }
    }
    r
}

/// The mean of `x` over time, counting only where `mask` holds. Where the
/// mask of a column holds at a single time and every other sample of `x`
/// there is finite, the mean is that sample, up to the sign of a zero.
pub fn masked_mean3(x: Trace, mask: BoolTrace) -> (r: Trace)
    requires
        trace_ready(x),
        mask_shape(mask) == trace_shape(x),
        mask_device(mask) == trace_device(x),
    ensures
        trace_shape(r) == reduced(trace_shape(x), 1),
        same_place(r, x),
        forall|b: int, d: int, k: int|
            0 <= b < trace_shape(x)[0] && 0 <= d < trace_shape(x)[2] && 0 <= k < trace_shape(x)[1]
                && #[trigger] lone_sample(mask, b, d, k, trace_shape(x)[1] as int) && (forall|j: int|
                0 <= j < trace_shape(x)[1] && j != k ==> is_finite_bits(#[trigger] trace_values(x)[b][j][d]))
                ==> alike(trace_values(r)[b][0][d], trace_values(x)[b][k][d]),
{
    proof {
        lemma_broadcast_shapes(trace_shape(x), 1);
    }
    let ghost gx = x;
    let zeros = zeros_like(&x);
    let weights = fill_one(zeros, mask);
    let ghost gw = weights;
    let copy = duplicate(&weights);
    let ghost gcopy = copy;
    let product = times(x, copy);
    let ghost gp = product;
    let sum = sum_time(product);
    let count = sum_time(weights);
    let ghost (gs, gc) = (sum, count);
    let r = divide(sum, count);
    proof {
        let n = trace_shape(gx)[1] as int;
        assert forall|b: int, d: int, k: int|
            0 <= b < trace_shape(gx)[0] && 0 <= d < trace_shape(gx)[2] && 0 <= k < n
                && #[trigger] lone_sample(mask, b, d, k, n) && (forall|j: int|
                0 <= j < n && j != k ==> is_finite_bits(#[trigger] trace_values(gx)[b][j][d])) implies alike(
            trace_values(r)[b][0][d],
            trace_values(gx)[b][k][d],
        ) by {
            let pe = time_column(gp, b, d);
            let we = time_column(gw, b, d);
            assert forall|j: int| 0 <= j < n implies #[trigger] element_at(gcopy, b, j, d) == trace_values(gw)[b][j][d]
                && element_at(gx, b, j, d) == trace_values(gx)[b][j][d] && crate::trace::in_shape(trace_shape(gp), b, j, d) by {
            }
            assert forall|j: int| 0 <= j < n && j != k implies is_zero_bits(#[trigger] pe[j]) by {
                assert(crate::trace::mask_values(mask)[b][j][d] == (j == k));
                assert(crate::trace::in_shape(trace_shape(gx), b, j, d));
                assert(trace_values(gw)[b][j][d] == 0);
                assert(element_at(gcopy, b, j, d) == trace_values(gw)[b][j][d]);
            }
            assert forall|j: int| 0 <= j < n && j != k implies is_zero_bits(#[trigger] we[j]) by {
                assert(crate::trace::mask_values(mask)[b][j][d] == (j == k));
                assert(crate::trace::in_shape(trace_shape(gx), b, j, d));
            }
            assert(all_zero_but(pe, k));
            assert(all_zero_but(we, k));
            assert(crate::trace::mask_values(mask)[b][k][d]);
            assert(crate::trace::in_shape(trace_shape(gx), b, k, d));
            assert(trace_values(gw)[b][k][d] == one_bits());
            assert(element_at(gcopy, b, k, d) == one_bits());
            assert(same_number(pe[k], trace_values(gx)[b][k][d]));
            assert(alike(trace_values(gs)[b][0][d], pe[k]));
            assert(alike(trace_values(gc)[b][0][d], we[k]));
            lemma_alike_basics(trace_values(gc)[b][0][d], one_bits(), one_bits());
            assert(crate::trace::in_shape(trace_shape(r), b, 0, d));
            assert(element_at(gc, b, 0, d) == trace_values(gc)[b][0][d]);
            assert(element_at(gs, b, 0, d) == trace_values(gs)[b][0][d]);
            assert(same_number(trace_values(r)[b][0][d], trace_values(gs)[b][0][d]));
            lemma_alike_basics(trace_values(r)[b][0][d], trace_values(gs)[b][0][d], pe[k]);
            lemma_alike_basics(pe[k], trace_values(gx)[b][k][d], 0);
            lemma_alike_basics(trace_values(r)[b][0][d], pe[k], trace_values(gx)[b][k][d]);
        }
    }
    r
}

/// The extremum over time, averaged over the samples that attain it. Where
/// a column holds no NaN and its extremum stands at a single time, every
/// other sample finite, the result is that sample up to the sign of a zero.
pub fn distributed_extreme3(x: Trace, is_max: bool) -> (r: Trace)
    requires
        trace_ready(x),
    ensures
        trace_shape(r) == reduced(trace_shape(x), 1),
        same_place(r, x),
        forall|b: int, d: int|
            0 <= b < trace_shape(x)[0] && 0 <= d < trace_shape(x)[2] && single_extreme(time_column(x, b, d), is_max)
                ==> reaches_extreme(time_column(x, b, d), #[trigger] trace_values(r)[b][0][d], is_max),
{
    proof {
        lemma_broadcast_shapes(trace_shape(x), 1);
    }
    let ghost gx = x;
    let extreme = if is_max {
        max_time(duplicate(&x))
    } else {
        min_time(duplicate(&x))
    };
    let ghost ge = extreme;
    let copy = duplicate(&x);
    let ghost gcopy = copy;
    let mask = equal_mask(copy, extreme);
    assert(broadcast(trace_shape(gx), trace_shape(ge)) =~= trace_shape(gx));
    let r = masked_mean3(x, mask);
    proof {
        let n = trace_shape(gx)[1] as int;
        assert forall|b: int, d: int|
            0 <= b < trace_shape(gx)[0] && 0 <= d < trace_shape(gx)[2] && single_extreme(time_column(gx, b, d), is_max)
                implies reaches_extreme(time_column(gx, b, d), #[trigger] trace_values(r)[b][0][d], is_max) by {
            let col = time_column(gx, b, d);
            let k = choose|k: int| #[trigger] top_at(col, k, is_max);
            let e = trace_values(ge)[b][0][d];
            if is_max {
                assert(attains_max(col, e));
            } else {
                assert(attains_min(col, e));
            }
            let m = choose|m: int| 0 <= m < col.len() && col[m] == e;
            if m != k {
                assert(top_at(col, k, is_max));
                assert(is_max ==> order_key(col[m]) < order_key(col[k]));
                assert(!is_max ==> order_key(col[k]) < order_key(col[m]));
            }
            assert(e == col[k]);
            assert forall|j: int| 0 <= j < n implies #[trigger] crate::trace::mask_values(mask)[b][j][d] == (j == k) by {
                assert(crate::trace::in_shape(trace_shape(gx), b, j, d));
                assert(element_at(gcopy, b, j, d) == trace_values(gx)[b][j][d]);
                assert(element_at(ge, b, j, d) == e);
                assert(col[j] == trace_values(gx)[b][j][d]);
                if j != k {
                    assert(top_at(col, k, is_max));
                }
            }
            assert(lone_sample(mask, b, d, k, n));
            assert forall|j: int| 0 <= j < n && j != k implies is_finite_bits(#[trigger] trace_values(gx)[b][j][d]) by {
                assert(col[j] == trace_values(gx)[b][j][d]);
            }
            assert(alike(trace_values(r)[b][0][d], col[k]));
        }
    }
    r
}

/// A robust maximum over time. With smooth aggregation it is the
/// log-sum-exp of the samples times the scale, divided by the scale in the
/// element type, as [`smooth_max_of`] says (the logarithm of the sum of
/// exponentials is left open; it is a NaN where a sample is one).
pub fn maxish3(x: Trace, aggregation: Aggregation) -> (r: Trace)
    requires
        trace_ready(x),
    ensures
        trace_shape(r) == reduced(trace_shape(x), 1),
        same_place(r, x),
        aggregation is Exact ==> forall|b: int, d: int|
            0 <= b < trace_shape(x)[0] && 0 <= d < trace_shape(x)[2] ==> attains_max(
                time_column(x, b, d),
                #[trigger] trace_values(r)[b][0][d],
            ),
        aggregation is DistributedExact ==> forall|b: int, d: int|
            0 <= b < trace_shape(x)[0] && 0 <= d < trace_shape(x)[2] && single_extreme(time_column(x, b, d), true)
                ==> reaches_extreme(time_column(x, b, d), #[trigger] trace_values(r)[b][0][d], true),
        aggregation is Smooth ==> forall|b: int, d: int|
            0 <= b < trace_shape(x)[0] && 0 <= d < trace_shape(x)[2] ==> quotient_by_scale(
                #[trigger] trace_values(r)[b][0][d],
                trace_dtype(x),
                aggregation->scale.bits,
                !no_nan(time_column(x, b, d)),
            ),
        aggregation is Smooth ==> forall|b: int, d: int|
            0 <= b < trace_shape(x)[0] && 0 <= d < trace_shape(x)[2] ==> smooth_max_of(
                #[trigger] trace_values(r)[b][0][d],
                time_column(x, b, d),
                trace_dtype(x),
                aggregation->scale.bits,
            ),
{
    match aggregation {
        Aggregation::Exact => max_time(x),
        Aggregation::DistributedExact => distributed_extreme3(x, true),
        Aggregation::Smooth { scale } => {
            let factor = constant(&x, scale);
            let divisor = constant(&x, scale);
            proof {
                lemma_broadcast_ones(trace_shape(x), trace_shape(factor));
                lemma_broadcast_ones(reduced(trace_shape(x), 1), trace_shape(divisor));
            }
            let ghost gx = x;
            let ghost gf = factor;
            let ghost gd = divisor;
            let scaled = times(x, factor);
            let ghost gs = scaled;
            let summary = logsumexp3(scaled);
            let ghost gl = summary;
            let r = divide(summary, divisor);
            proof {
                assert(aggregation->scale == scale);
                assert(trace_shape(gs) == trace_shape(gx));
                assert forall|b: int, d: int|
                    0 <= b < trace_shape(gx)[0] && 0 <= d < trace_shape(gx)[2] implies quotient_by_scale(
                        #[trigger] trace_values(r)[b][0][d],
                        trace_dtype(gx),
                        aggregation->scale.bits,
                        !no_nan(time_column(gx, b, d)),
                    ) by {
                    let l = trace_values(gl)[b][0][d];
                    if !no_nan(time_column(gx, b, d)) {
                        let k = choose|k: int| 0 <= k < time_column(gx, b, d).len() && is_nan_bits(#[trigger] time_column(gx, b, d)[k]);
                        assert(crate::trace::in_shape(trace_shape(gs), b, k, d));
                        assert(element_at(gx, b, k, d) == trace_values(gx)[b][k][d]);
                        assert(crate::trace::nan_spreads(gx, gf, gs, b, k, d));
                        assert(is_nan_bits(time_column(gs, b, d)[k]));
                        assert(!no_nan(time_column(gs, b, d)));
                    }
                    assert(crate::trace::in_shape(trace_shape(r), b, 0, d));
                    assert(element_at(gl, b, 0, d) == l);
                    assert(element_at(gd, b, 0, d) == trace_values(gd)[0][0][0]);
                    let bits = aggregation->scale.bits;
                    assert(is_nan_bits(trace_values(gd)[0][0][0]) == is_nan_bits(bits));
                    assert(!is_nan_bits(bits) ==> trace_values(gd)[0][0][0] == float_from_f64(trace_dtype(gx), bits));
                    assert(crate::trace::nan_spreads(gl, gd, r, b, 0, d));
                    if !is_nan_bits(bits) {
                        let v = trace_values(r)[b][0][d];
                        let q = float_div(trace_dtype(gx), l, float_from_f64(trace_dtype(gx), bits));
                        assert(!no_nan(time_column(gx, b, d)) ==> is_nan_bits(l));
                        assert(is_nan_bits(l) ==> is_nan_bits(v));
                        assert(!is_nan_bits(l) ==> same_number(v, q));
                    }
                }
                assert forall|b: int, d: int|
                    0 <= b < trace_shape(gx)[0] && 0 <= d < trace_shape(gx)[2] implies smooth_max_of(
                        #[trigger] trace_values(r)[b][0][d],
                        time_column(gx, b, d),
                        trace_dtype(gx),
                        aggregation->scale.bits,
                    ) by {
                    let dtype = trace_dtype(gx);
                    let bits = aggregation->scale.bits;
                    let conv = conv_value(dtype, bits);
                    let fv = trace_values(gf)[0][0][0];
                    assert(same_number(fv, conv));
                    let col = time_column(gx, b, d);
                    let spec_col = scaled_entries(col, dtype, bits);
                    let scol = time_column(gs, b, d);
                    assert forall|k: int| 0 <= k < scol.len() implies same_number(#[trigger] scol[k], spec_col[k]) by {
                        assert(crate::trace::in_shape(trace_shape(gs), b, k, d));
                        assert(element_at(gx, b, k, d) == col[k]);
                        assert(element_at(gf, b, k, d) == fv);
                        assert(crate::trace::nan_spreads(gx, gf, gs, b, k, d));
                        lemma_same_number_ops(dtype, col[k], col[k], fv, conv);
                    }
                    let lse = trace_values(gl)[b][0][d];
                    assert(plus_largest(lse, scol, dtype));
                    let (l, m) = choose|l: u64, m: u64|
                        #![trigger add_value(dtype, l, m)]
                        attains_max(scol, m) && same_number(lse, add_value(dtype, l, m));
                    lemma_attains_max_same_numbers(scol, spec_col, m);
                    let dv = trace_values(gd)[0][0][0];
                    assert(same_number(dv, conv));
                    assert(crate::trace::in_shape(trace_shape(r), b, 0, d));
                    assert(element_at(gl, b, 0, d) == lse);
                    assert(element_at(gd, b, 0, d) == dv);
                    assert(crate::trace::nan_spreads(gl, gd, r, b, 0, d));
                    let v = trace_values(r)[b][0][d];
                    assert(same_number(v, div_value(dtype, lse, dv)));
                    lemma_same_number_ops(dtype, lse, add_value(dtype, l, m), dv, conv);
                    assert(same_number(v, div_value(dtype, add_value(dtype, l, m), conv)));
                }
            }
            r
        }
    }
}

/// A robust minimum over time. With smooth aggregation it is the negated
/// log-sum-exp of the negated samples times the scale, divided by the scale
/// in the element type, as [`smooth_min_of`] says (the logarithm of the sum
/// of exponentials is left open; it is a NaN where a sample is one).
pub fn minish3(x: Trace, aggregation: Aggregation) -> (r: Trace)
    requires
        trace_ready(x),
    ensures
        trace_shape(r) == reduced(trace_shape(x), 1),
        same_place(r, x),
        aggregation is Exact ==> forall|b: int, d: int|
            0 <= b < trace_shape(x)[0] && 0 <= d < trace_shape(x)[2] ==> attains_min(
                time_column(x, b, d),
                #[trigger] trace_values(r)[b][0][d],
            ),
        aggregation is DistributedExact ==> forall|b: int, d: int|
            0 <= b < trace_shape(x)[0] && 0 <= d < trace_shape(x)[2] && single_extreme(time_column(x, b, d), false)
                ==> reaches_extreme(time_column(x, b, d), #[trigger] trace_values(r)[b][0][d], false),
        aggregation is Smooth ==> forall|b: int, d: int|
            0 <= b < trace_shape(x)[0] && 0 <= d < trace_shape(x)[2] ==> negated_quotient_by_scale(
                #[trigger] trace_values(r)[b][0][d],
                trace_dtype(x),
                aggregation->scale.bits,
                !no_nan(time_column(x, b, d)),
            ),
        aggregation is Smooth ==> forall|b: int, d: int|
            0 <= b < trace_shape(x)[0] && 0 <= d < trace_shape(x)[2] ==> smooth_min_of(
                #[trigger] trace_values(r)[b][0][d],
                time_column(x, b, d),
                trace_dtype(x),
                aggregation->scale.bits,
            ),
{
    match aggregation {
        Aggregation::Exact => min_time(x),
        Aggregation::DistributedExact => distributed_extreme3(x, false),
        Aggregation::Smooth { scale } => {
            let factor = constant(&x, scale);
            let divisor = constant(&x, scale);
            proof {
                lemma_broadcast_ones(trace_shape(x), trace_shape(factor));
                lemma_broadcast_ones(reduced(trace_shape(x), 1), trace_shape(divisor));
            }
            let ghost gx = x;
            let ghost gf = factor;
            let ghost gd = divisor;
            let negated = negate(x);
            let ghost gn = negated;
            let scaled = times(negated, factor);
            let ghost gs = scaled;
            let summary = logsumexp3(scaled);
            let ghost gl = summary;
            let flipped = negate(summary);
            let ghost gm = flipped;
            let r = divide(flipped, divisor);
            proof {
                assert(aggregation->scale == scale);
                assert(trace_shape(gs) == trace_shape(gx));
                assert forall|b: int, d: int|
                    0 <= b < trace_shape(gx)[0] && 0 <= d < trace_shape(gx)[2] implies negated_quotient_by_scale(
                        #[trigger] trace_values(r)[b][0][d],
                        trace_dtype(gx),
                        aggregation->scale.bits,
                        !no_nan(time_column(gx, b, d)),
                    ) by {
                    let l = trace_values(gl)[b][0][d];
                    if !no_nan(time_column(gx, b, d)) {
                        let k = choose|k: int| 0 <= k < time_column(gx, b, d).len() && is_nan_bits(#[trigger] time_column(gx, b, d)[k]);
                        assert(crate::trace::in_shape(trace_shape(gs), b, k, d));
                        assert(is_nan_bits(trace_values(gn)[b][k][d]));
                        assert(element_at(gn, b, k, d) == trace_values(gn)[b][k][d]);
                        assert(crate::trace::nan_spreads(gn, gf, gs, b, k, d));
                        assert(is_nan_bits(time_column(gs, b, d)[k]));
                        assert(!no_nan(time_column(gs, b, d)));
                    }
                    assert(crate::trace::in_shape(trace_shape(r), b, 0, d));
                    assert(crate::trace::in_shape(trace_shape(gl), b, 0, d));
                    let m = trace_values(gm)[b][0][d];
                    assert(is_nan_bits(m) == is_nan_bits(l));
                    assert(!is_nan_bits(l) ==> m == flip_sign(l));
                    assert(element_at(gm, b, 0, d) == m);
                    assert(element_at(gd, b, 0, d) == trace_values(gd)[0][0][0]);
                    let bits = aggregation->scale.bits;
                    assert(is_nan_bits(trace_values(gd)[0][0][0]) == is_nan_bits(bits));
                    assert(!is_nan_bits(bits) ==> trace_values(gd)[0][0][0] == float_from_f64(trace_dtype(gx), bits));
                    assert(crate::trace::nan_spreads(gm, gd, r, b, 0, d));
                    if !is_nan_bits(bits) {
                        let v = trace_values(r)[b][0][d];
                        let q = float_div(trace_dtype(gx), flip_sign(l), float_from_f64(trace_dtype(gx), bits));
                        assert(!no_nan(time_column(gx, b, d)) ==> is_nan_bits(l));
                        assert(is_nan_bits(l) ==> is_nan_bits(v));
                        assert(!is_nan_bits(l) ==> same_number(v, q));
                    }
                }
                assert forall|b: int, d: int|
                    0 <= b < trace_shape(gx)[0] && 0 <= d < trace_shape(gx)[2] implies smooth_min_of(
                        #[trigger] trace_values(r)[b][0][d],
                        time_column(gx, b, d),
                        trace_dtype(gx),
                        aggregation->scale.bits,
                    ) by {
                    let dtype = trace_dtype(gx);
                    let bits = aggregation->scale.bits;
                    let conv = conv_value(dtype, bits);
                    let fv = trace_values(gf)[0][0][0];
                    assert(same_number(fv, conv));
                    let col = time_column(gx, b, d);
                    let spec_col = scaled_entries(negated_entries(col), dtype, bits);
                    let scol = time_column(gs, b, d);
                    assert forall|k: int| 0 <= k < scol.len() implies same_number(#[trigger] scol[k], spec_col[k]) by {
                        assert(crate::trace::in_shape(trace_shape(gs), b, k, d));
                        let nk = trace_values(gn)[b][k][d];
                        assert(element_at(gn, b, k, d) == nk);
                        lemma_sign_keeps_nan(col[k]);
                        assert(same_number(nk, flip_sign(col[k])));
                        assert(element_at(gf, b, k, d) == fv);
                        assert(crate::trace::nan_spreads(gn, gf, gs, b, k, d));
                        lemma_same_number_ops(dtype, nk, flip_sign(col[k]), fv, conv);
                    }
                    let lse = trace_values(gl)[b][0][d];
                    assert(plus_largest(lse, scol, dtype));
                    let (l, m) = choose|l: u64, m: u64|
                        #![trigger add_value(dtype, l, m)]
                        attains_max(scol, m) && same_number(lse, add_value(dtype, l, m));
                    lemma_attains_max_same_numbers(scol, spec_col, m);
                    let a = add_value(dtype, l, m);
                    lemma_sign_keeps_nan(lse);
                    lemma_sign_keeps_nan(a);
                    let fl = trace_values(gm)[b][0][d];
                    assert(crate::trace::in_shape(trace_shape(gl), b, 0, d));
                    assert(same_number(fl, flip_sign(a)));
                    let dv = trace_values(gd)[0][0][0];
                    assert(same_number(dv, conv));
                    assert(crate::trace::in_shape(trace_shape(r), b, 0, d));
                    assert(element_at(gm, b, 0, d) == fl);
                    assert(element_at(gd, b, 0, d) == dv);
                    assert(crate::trace::nan_spreads(gm, gd, r, b, 0, d));
                    let v = trace_values(r)[b][0][d];
                    assert(same_number(v, div_value(dtype, fl, dv)));
                    lemma_same_number_ops(dtype, fl, flip_sign(a), dv, conv);
                    assert(same_number(v, div_value(dtype, flip_sign(a), conv)));
                }
            }
            r
        }
    }
}

/// Traces of one shape, device and element type, with at least one of them
/// and a float element type.
pub open spec fn uniform(ts: Seq<Trace>) -> bool {
    &&& ts.len() > 0
    &&& trace_shape(ts[0]).len() == 3
    &&& dtype_is_float(trace_dtype(ts[0]))
    &&& forall|k: int| 0 <= k < ts.len() ==> conforms(#[trigger] ts[k], ts[0])
}

/// Stacks the traces along a new last axis.
pub fn stack_last(traces: Vec<Trace>) -> (r: Stack)
    requires
        uniform(traces@),
    ensures
        stack_shape(r) == trace_shape(traces@[0]).push(traces@.len() as usize),
        stack_in_place(r, traces@[0]),
        forall|b: int, i: int, d: int, k: int|
            0 <= b < trace_shape(traces@[0])[0] && 0 <= i < trace_shape(traces@[0])[1] && 0 <= d
                < trace_shape(traces@[0])[2] && 0 <= k < traces@.len() ==> #[trigger] stack_values(
                r,
            )[b][i][d][k] == trace_values(traces@[k])[b][i][d],
{
    let ghost first = traces@[0];
    let len = traces.len();
    let mut lifted: Vec<Stack> = Vec::new();
    let mut i: usize = 0;
    while i < len
        invariant
            len == traces@.len(),
            0 <= i <= len,
            lifted@.len() == i,
            uniform(traces@),
            first == traces@[0],
            forall|k: int|
                0 <= k < i ==> {
                    &&& stack_shape(#[trigger] lifted@[k]) == trace_shape(first).push(1)
                    &&& stack_in_place(lifted@[k], first)
                },
            forall|k: int, b: int, t: int, d: int|
                0 <= k < i && 0 <= b < trace_shape(first)[0] && 0 <= t < trace_shape(first)[1] && 0
                    <= d < trace_shape(first)[2] ==> #[trigger] stack_values(lifted@[k])[b][t][d][0]
                    == trace_values(traces@[k])[b][t][d],
        decreases len - i,
    {
        assert(conforms(traces@[i as int], traces@[0]));
        let copy = duplicate(&traces[i]);
        let one = lift(copy);
        proof {
            assert forall|b: int, t: int, d: int|
                0 <= b < trace_shape(first)[0] && 0 <= t < trace_shape(first)[1] && 0 <= d
                    < trace_shape(first)[2] implies #[trigger] stack_values(one)[b][t][d][0]
                    == trace_values(traces@[i as int])[b][t][d] by {
                assert(trace_values(copy) == trace_values(traces@[i as int]));
            }
        }
        lifted.push(one);
        i = i + 1;
    }
    let ghost parts = lifted@;
    let stacked = stack_cat(lifted);
    assert(trace_shape(first).push(1).update(3, len) =~= trace_shape(first).push(len));
    proof {
        assert forall|b: int, t: int, d: int, k: int|
            0 <= b < trace_shape(first)[0] && 0 <= t < trace_shape(first)[1] && 0 <= d < trace_shape(
                first,
            )[2] && 0 <= k < len implies #[trigger] stack_values(stacked)[b][t][d][k] == trace_values(
                traces@[k],
            )[b][t][d] by {
            assert(stack_shape(parts[0]) == trace_shape(first).push(1));
            assert(stack_values(stacked)[b][t][d][k] == stack_values(parts[k])[b][t][d][0]);
        }
    }
    stacked
}

/// The element `[b][i][d]` of each trace, in order.
pub open spec fn children_column(ts: Seq<Trace>, b: int, i: int, d: int) -> Seq<u64> {
    Seq::new(ts.len(), |k: int| trace_values(ts[k])[b][i][d])
}

/// The robust minimum, element by element, of traces of one shape.
pub fn reduce_last_min(traces: Vec<Trace>, aggregation: Aggregation) -> (r: Trace)
    requires
        uniform(traces@),
    ensures
        conforms(r, traces@[0]),
        aggregation is Exact ==> forall|b: int, i: int, d: int|
            0 <= b < trace_shape(traces@[0])[0] && 0 <= i < trace_shape(traces@[0])[1] && 0 <= d
                < trace_shape(traces@[0])[2] ==> attains_min(
                children_column(traces@, b, i, d),
                #[trigger] trace_values(r)[b][i][d],
            ),
        aggregation is DistributedExact ==> forall|b: int, i: int, d: int|
            0 <= b < trace_shape(traces@[0])[0] && 0 <= i < trace_shape(traces@[0])[1] && 0 <= d
                < trace_shape(traces@[0])[2] && single_extreme(children_column(traces@, b, i, d), false)
                ==> reaches_extreme(children_column(traces@, b, i, d), #[trigger] trace_values(r)[b][i][d], false),
        aggregation is Smooth ==> forall|b: int, i: int, d: int|
            0 <= b < trace_shape(traces@[0])[0] && 0 <= i < trace_shape(traces@[0])[1] && 0 <= d
                < trace_shape(traces@[0])[2] ==> smooth_min_of(
                #[trigger] trace_values(r)[b][i][d],
                children_column(traces@, b, i, d),
                trace_dtype(traces@[0]),
                aggregation->scale.bits,
            ),
{
    let ghost first = traces@[0];
    let ghost ts = traces@;
    let n = traces.len();
    assert(trace_shape(first).len() == 3);
    let stacked = stack_last(traces);
    assert(trace_shape(first).push(n)[3] == n);
    let reduced_stack = minish(stacked, aggregation);
    assert(reduced(trace_shape(first).push(stacked_len(stack_shape(stacked))), 3)
        =~= trace_shape(first).push(1));
    let r = lower(reduced_stack);
    assert(trace_shape(first).push(1).drop_last() =~= trace_shape(first));
    proof {
        if aggregation is Exact {
            assert forall|b: int, i: int, d: int|
                0 <= b < trace_shape(first)[0] && 0 <= i < trace_shape(first)[1] && 0 <= d
                    < trace_shape(first)[2] implies attains_min(
                    children_column(ts, b, i, d),
                    #[trigger] trace_values(r)[b][i][d],
                ) by {
                assert forall|k: int| 0 <= k < n implies #[trigger] entries_at(stacked, b, i, d)[k]
                    == children_column(ts, b, i, d)[k] by {
                    assert(stack_values(stacked)[b][i][d][k] == trace_values(ts[k])[b][i][d]);
                }
                assert(entries_at(stacked, b, i, d) =~= children_column(ts, b, i, d));
                assert(trace_values(r)[b][i][d] == stack_values(reduced_stack)[b][i][d][0]);
            }
        }
        if aggregation is DistributedExact {
            assert forall|b: int, i: int, d: int|
                0 <= b < trace_shape(first)[0] && 0 <= i < trace_shape(first)[1] && 0 <= d
                    < trace_shape(first)[2] && single_extreme(children_column(ts, b, i, d), false) implies reaches_extreme(
                    children_column(ts, b, i, d),
                    #[trigger] trace_values(r)[b][i][d],
                    false,
                ) by {
                assert forall|k: int| 0 <= k < n implies #[trigger] entries_at(stacked, b, i, d)[k]
                    == children_column(ts, b, i, d)[k] by {
                    assert(stack_values(stacked)[b][i][d][k] == trace_values(ts[k])[b][i][d]);
                }
                assert(entries_at(stacked, b, i, d) =~= children_column(ts, b, i, d));
                assert(trace_values(r)[b][i][d] == stack_values(reduced_stack)[b][i][d][0]);
            }
        }
        if aggregation is Smooth {
            assert forall|b: int, i: int, d: int|
                0 <= b < trace_shape(first)[0] && 0 <= i < trace_shape(first)[1] && 0 <= d
                    < trace_shape(first)[2] implies smooth_min_of(
                    #[trigger] trace_values(r)[b][i][d],
                    children_column(ts, b, i, d),
                    trace_dtype(first),
                    aggregation->scale.bits,
                ) by {
                assert forall|k: int| 0 <= k < n implies #[trigger] entries_at(stacked, b, i, d)[k]
                    == children_column(ts, b, i, d)[k] by {
                    assert(stack_values(stacked)[b][i][d][k] == trace_values(ts[k])[b][i][d]);
                }
                assert(entries_at(stacked, b, i, d) =~= children_column(ts, b, i, d));
                assert(trace_values(r)[b][i][d] == stack_values(reduced_stack)[b][i][d][0]);
            }
        }
    }
    r
}

/// The size of the last axis of a rank-4 shape.
pub open spec fn stacked_len(s: Seq<usize>) -> usize {
    s[3]
}

/// The robust maximum, element by element, of traces of one shape.
pub fn reduce_last_max(traces: Vec<Trace>, aggregation: Aggregation) -> (r: Trace)
    requires
        uniform(traces@),
    ensures
        conforms(r, traces@[0]),
        aggregation is Exact ==> forall|b: int, i: int, d: int|
            0 <= b < trace_shape(traces@[0])[0] && 0 <= i < trace_shape(traces@[0])[1] && 0 <= d
                < trace_shape(traces@[0])[2] ==> attains_max(
                children_column(traces@, b, i, d),
                #[trigger] trace_values(r)[b][i][d],
            ),
        aggregation is DistributedExact ==> forall|b: int, i: int, d: int|
            0 <= b < trace_shape(traces@[0])[0] && 0 <= i < trace_shape(traces@[0])[1] && 0 <= d
                < trace_shape(traces@[0])[2] && single_extreme(children_column(traces@, b, i, d), true)
                ==> reaches_extreme(children_column(traces@, b, i, d), #[trigger] trace_values(r)[b][i][d], true),
        aggregation is Smooth ==> forall|b: int, i: int, d: int|
            0 <= b < trace_shape(traces@[0])[0] && 0 <= i < trace_shape(traces@[0])[1] && 0 <= d
                < trace_shape(traces@[0])[2] ==> smooth_max_of(
                #[trigger] trace_values(r)[b][i][d],
                children_column(traces@, b, i, d),
                trace_dtype(traces@[0]),
                aggregation->scale.bits,
            ),
{
    let ghost first = traces@[0];
    let ghost ts = traces@;
    let n = traces.len();
    assert(trace_shape(first).len() == 3);
    let stacked = stack_last(traces);
    assert(trace_shape(first).push(n)[3] == n);
    let reduced_stack = maxish(stacked, aggregation);
    assert(reduced(trace_shape(first).push(stacked_len(stack_shape(stacked))), 3)
        =~= trace_shape(first).push(1));
    let r = lower(reduced_stack);
    assert(trace_shape(first).push(1).drop_last() =~= trace_shape(first));
    proof {
        if aggregation is Exact {
            assert forall|b: int, i: int, d: int|
                0 <= b < trace_shape(first)[0] && 0 <= i < trace_shape(first)[1] && 0 <= d
                    < trace_shape(first)[2] implies attains_max(
                    children_column(ts, b, i, d),
                    #[trigger] trace_values(r)[b][i][d],
                ) by {
                assert forall|k: int| 0 <= k < n implies #[trigger] entries_at(stacked, b, i, d)[k]
                    == children_column(ts, b, i, d)[k] by {
                    assert(stack_values(stacked)[b][i][d][k] == trace_values(ts[k])[b][i][d]);
                }
                assert(entries_at(stacked, b, i, d) =~= children_column(ts, b, i, d));
                assert(trace_values(r)[b][i][d] == stack_values(reduced_stack)[b][i][d][0]);
            }
        }
        if aggregation is DistributedExact {
            assert forall|b: int, i: int, d: int|
                0 <= b < trace_shape(first)[0] && 0 <= i < trace_shape(first)[1] && 0 <= d
                    < trace_shape(first)[2] && single_extreme(children_column(ts, b, i, d), true) implies reaches_extreme(
                    children_column(ts, b, i, d),
                    #[trigger] trace_values(r)[b][i][d],
                    true,
                ) by {
                assert forall|k: int| 0 <= k < n implies #[trigger] entries_at(stacked, b, i, d)[k]
                    == children_column(ts, b, i, d)[k] by {
                    assert(stack_values(stacked)[b][i][d][k] == trace_values(ts[k])[b][i][d]);
                }
                assert(entries_at(stacked, b, i, d) =~= children_column(ts, b, i, d));
                assert(trace_values(r)[b][i][d] == stack_values(reduced_stack)[b][i][d][0]);
            }
        }
        if aggregation is Smooth {
            assert forall|b: int, i: int, d: int|
                0 <= b < trace_shape(first)[0] && 0 <= i < trace_shape(first)[1] && 0 <= d
                    < trace_shape(first)[2] implies smooth_max_of(
                    #[trigger] trace_values(r)[b][i][d],
                    children_column(ts, b, i, d),
                    trace_dtype(first),
                    aggregation->scale.bits,
                ) by {
                assert forall|k: int| 0 <= k < n implies #[trigger] entries_at(stacked, b, i, d)[k]
                    == children_column(ts, b, i, d)[k] by {
                    assert(stack_values(stacked)[b][i][d][k] == trace_values(ts[k])[b][i][d]);
                }
                assert(entries_at(stacked, b, i, d) =~= children_column(ts, b, i, d));
                assert(trace_values(r)[b][i][d] == stack_values(reduced_stack)[b][i][d][0]);
            }
        }
    }
    r
}

/// The single time step `index` of a trace.
pub fn select_time(trace: &Trace, index: usize) -> (r: Trace)
    requires
        trace_shape(*trace).len() == 3,
        index < trace_shape(*trace)[1],
    ensures
        trace_shape(r) == trace_shape(*trace).update(1, 1),
        same_place(r, *trace),
        forall|b: int|
            0 <= b < trace_shape(*trace)[0] ==> #[trigger] trace_values(r)[b][0] == trace_values(
                *trace,
            )[b][index as int],
{
    narrow_time(duplicate(trace), index, 1)
}

/// A sequence of traces with time length one each has total time its length.
pub proof fn lemma_total_time_of_steps(ts: Seq<Trace>)
    requires
        forall|k: int| 0 <= k < ts.len() ==> trace_shape(#[trigger] ts[k])[1] == 1,
    ensures
        total_time(ts) == ts.len(),
    decreases ts.len(),
{
    if ts.len() > 0 {
        lemma_total_time_of_steps(ts.drop_last());
    }
}

/// In traces of one step each, row `k` of their join is the step of the
/// `k`-th trace.
pub proof fn lemma_joined_steps(ts: Seq<Trace>, b: int, k: int)
    requires
        forall|j: int| 0 <= j < ts.len() ==> trace_shape(#[trigger] ts[j])[1] == 1,
        0 <= k < ts.len(),
    ensures
        joined_row(ts, b, k) == trace_values(ts[k])[b][0],
    decreases ts.len(),
{
    let init = ts.drop_last();
    assert forall|j: int| 0 <= j < init.len() implies trace_shape(#[trigger] init[j])[1] == 1 by {
        assert(init[j] == ts[j]);
    }
    lemma_total_time_of_steps(init);
    if k < ts.len() - 1 {
        lemma_joined_steps(init, b, k);
    }
}

/// The samples of `trace` that a temporal operator aggregates at `index`.
pub fn window_for_interval(trace: &Trace, index: usize, interval: Interval) -> (r: Trace)
    requires
        trace_shape(*trace).len() == 3,
        index < trace_shape(*trace)[1],
        interval.well_formed(),
    ensures
        trace_shape(r).len() == 3,
        trace_shape(r)[0] == trace_shape(*trace)[0],
        trace_shape(r)[1] > 0,
        trace_shape(r)[1] == window_times(interval, index as int).len(),
        trace_shape(r)[2] == trace_shape(*trace)[2],
        same_place(r, *trace),
        forall|b: int, k: int|
            0 <= b < trace_shape(*trace)[0] && 0 <= k < window_times(interval, index as int).len()
                ==> #[trigger] trace_values(r)[b][k] == trace_values(*trace)[b][window_times(
                interval,
                index as int,
            )[k] as int],
{
    match interval {
        Interval::Unbounded => narrow_time(duplicate(trace), 0, index + 1),
        Interval::Closed { start, end } => {
            let indices = closed_window_indices(index, start, end);
            let mut slices: Vec<Trace> = Vec::new();
            let mut k: usize = 0;
            while k < indices.len()
                invariant
                    0 <= k <= indices@.len(),
                    indices@ == closed_window_times(index as int, start as int, end as int),
                    forall|j: int| 0 <= j < indices@.len() ==> indices@[j] <= index,
                    trace_shape(*trace).len() == 3,
                    index < trace_shape(*trace)[1],
                    slices@.len() == k,
                    forall|j: int|
                        0 <= j < k ==> {
                            &&& trace_shape(#[trigger] slices@[j]) == trace_shape(*trace).update(1, 1)
                            &&& same_place(slices@[j], *trace)
                        },
                    forall|j: int, b: int|
                        0 <= j < k && 0 <= b < trace_shape(*trace)[0] ==> #[trigger] trace_values(
                            slices@[j],
                        )[b][0] == trace_values(*trace)[b][indices@[j] as int],
                decreases indices@.len() - k,
            {
                slices.push(select_time(trace, indices[k]));
                k = k + 1;
            }
            proof {
                lemma_total_time_of_steps(slices@);
            }
            let r = cat_time(slices);
            proof {
                assert forall|b: int, j: int|
                    0 <= b < trace_shape(*trace)[0] && 0 <= j < indices@.len() implies #[trigger] trace_values(r)[b][j]
                        == trace_values(*trace)[b][indices@[j] as int] by {
                    lemma_joined_steps(slices@, b, j);
                }
            }
            r
        }
        Interval::From { start } => narrow_time(duplicate(trace), 0, index.saturating_sub(start) + 1),
    }
}

/// The samples of feature `d` in batch `b` that an `always` or `eventually`
/// over `interval` reads at `index`, in window order.
pub open spec fn window_column(t: Trace, interval: Interval, index: int, b: int, d: int) -> Seq<u64> {
    Seq::new(
        window_times(interval, index).len(),
        |k: int| trace_values(t)[b][window_times(interval, index)[k] as int][d],
    )
}

/// `v` is the smallest of `col` for an `always`, the largest for an
/// `eventually`.
pub open spec fn attains_extreme(col: Seq<u64>, v: u64, is_always: bool) -> bool {
    if is_always {
        attains_min(col, v)
    } else {
        attains_max(col, v)
    }
}

/// An `always` (robust minimum) or `eventually` (robust maximum) over the
/// window of `interval`, at every time step. With exact aggregation each
/// sample of the result is a NaN where its window holds one, and otherwise
/// one of the window's samples and their minimum or maximum.
pub fn temporal(trace: Trace, interval: Interval, aggregation: Aggregation, is_always: bool) -> (r: Trace)
    requires
        trace_ready(trace),
        interval.well_formed(),
    ensures
        conforms(r, trace),
        aggregation is Exact ==> forall|b: int, i: int, d: int|
            0 <= b < trace_shape(trace)[0] && 0 <= i < trace_shape(trace)[1] && 0 <= d
                < trace_shape(trace)[2] ==> attains_extreme(
                window_column(trace, interval, i, b, d),
                #[trigger] trace_values(r)[b][i][d],
                is_always,
            ),
        aggregation is DistributedExact ==> forall|b: int, i: int, d: int|
            0 <= b < trace_shape(trace)[0] && 0 <= i < trace_shape(trace)[1] && 0 <= d
                < trace_shape(trace)[2] && single_extreme(window_column(trace, interval, i, b, d), !is_always)
                ==> reaches_extreme(window_column(trace, interval, i, b, d), #[trigger] trace_values(r)[b][i][d], !is_always),
        aggregation is Smooth ==> forall|b: int, i: int, d: int|
            0 <= b < trace_shape(trace)[0] && 0 <= i < trace_shape(trace)[1] && 0 <= d
                < trace_shape(trace)[2] ==> smooth_extreme_of(
                #[trigger] trace_values(r)[b][i][d],
                window_column(trace, interval, i, b, d),
                trace_dtype(trace),
                aggregation->scale.bits,
                is_always,
            ),
{
    let time = dims(&trace)[1];
    let mut outputs: Vec<Trace> = Vec::new();
    let mut i: usize = 0;
    while i < time
        invariant
            0 <= i <= time,
            time == trace_shape(trace)[1],
            trace_ready(trace),
            interval.well_formed(),
            outputs@.len() == i,
            forall|j: int|
                0 <= j < i ==> {
                    &&& trace_shape(#[trigger] outputs@[j]) == trace_shape(trace).update(1, 1)
                    &&& same_place(outputs@[j], trace)
                },
            aggregation is Exact ==> forall|j: int, b: int, d: int|
                0 <= j < i && 0 <= b < trace_shape(trace)[0] && 0 <= d < trace_shape(trace)[2]
                    ==> attains_extreme(
                    window_column(trace, interval, j, b, d),
                    #[trigger] trace_values(outputs@[j])[b][0][d],
                    is_always,
                ),
            aggregation is DistributedExact ==> forall|j: int, b: int, d: int|
                0 <= j < i && 0 <= b < trace_shape(trace)[0] && 0 <= d < trace_shape(trace)[2]
                    && single_extreme(window_column(trace, interval, j, b, d), !is_always) ==> reaches_extreme(
                    window_column(trace, interval, j, b, d),
                    #[trigger] trace_values(outputs@[j])[b][0][d],
                    !is_always,
                ),
            aggregation is Smooth ==> forall|j: int, b: int, d: int|
                0 <= j < i && 0 <= b < trace_shape(trace)[0] && 0 <= d < trace_shape(trace)[2]
                    ==> smooth_extreme_of(
                    #[trigger] trace_values(outputs@[j])[b][0][d],
                    window_column(trace, interval, j, b, d),
                    trace_dtype(trace),
                    aggregation->scale.bits,
                    is_always,
                ),
        decreases time - i,
    {
        let window = window_for_interval(&trace, i, interval);
        let value = if is_always {
            minish3(window, aggregation)
        } else {
            maxish3(window, aggregation)
        };
        proof {
            if aggregation is Exact {
                assert forall|b: int, d: int|
                    0 <= b < trace_shape(trace)[0] && 0 <= d < trace_shape(trace)[2] implies attains_extreme(
                        window_column(trace, interval, i as int, b, d),
                        #[trigger] trace_values(value)[b][0][d],
                        is_always,
                    ) by {
                    assert forall|k: int| 0 <= k < window_times(interval, i as int).len() implies #[trigger] time_column(window, b, d)[k]
                        == window_column(trace, interval, i as int, b, d)[k] by {
                        assert(trace_values(window)[b][k] == trace_values(trace)[b][window_times(
                            interval,
                            i as int,
                        )[k] as int]);
                    }
                    assert(time_column(window, b, d) =~= window_column(trace, interval, i as int, b, d));
                }
            }
            if aggregation is DistributedExact {
                assert forall|b: int, d: int|
                    0 <= b < trace_shape(trace)[0] && 0 <= d < trace_shape(trace)[2] && single_extreme(
                        window_column(trace, interval, i as int, b, d),
                        !is_always,
                    ) implies reaches_extreme(
                        window_column(trace, interval, i as int, b, d),
                        #[trigger] trace_values(value)[b][0][d],
                        !is_always,
                    ) by {
                    assert forall|k: int| 0 <= k < window_times(interval, i as int).len() implies #[trigger] time_column(window, b, d)[k]
                        == window_column(trace, interval, i as int, b, d)[k] by {
                        assert(trace_values(window)[b][k] == trace_values(trace)[b][window_times(
                            interval,
                            i as int,
                        )[k] as int]);
                    }
                    assert(time_column(window, b, d) =~= window_column(trace, interval, i as int, b, d));
                }
            }
            if aggregation is Smooth {
                assert forall|b: int, d: int|
                    0 <= b < trace_shape(trace)[0] && 0 <= d < trace_shape(trace)[2] implies smooth_extreme_of(
                        #[trigger] trace_values(value)[b][0][d],
                        window_column(trace, interval, i as int, b, d),
                        trace_dtype(trace),
                        aggregation->scale.bits,
                        is_always,
                    ) by {
                    assert forall|k: int| 0 <= k < window_times(interval, i as int).len() implies #[trigger] time_column(window, b, d)[k]
                        == window_column(trace, interval, i as int, b, d)[k] by {
                        assert(trace_values(window)[b][k] == trace_values(trace)[b][window_times(
                            interval,
                            i as int,
                        )[k] as int]);
                    }
                    assert(time_column(window, b, d) =~= window_column(trace, interval, i as int, b, d));
                }
            }
        }
        assert(reduced(trace_shape(window), 1) =~= trace_shape(trace).update(1, 1));
        outputs.push(value);
        i = i + 1;
    }
    proof {
        lemma_total_time_of_steps(outputs@);
    }
    let r = cat_time(outputs);
    proof {
        if aggregation is Exact {
            assert forall|b: int, j: int, d: int|
                0 <= b < trace_shape(trace)[0] && 0 <= j < trace_shape(trace)[1] && 0 <= d
                    < trace_shape(trace)[2] implies attains_extreme(
                    window_column(trace, interval, j, b, d),
                    #[trigger] trace_values(r)[b][j][d],
                    is_always,
                ) by {
                lemma_joined_steps(outputs@, b, j);
                assert(trace_values(r)[b][j] == trace_values(outputs@[j])[b][0]);
            }
        }
        if aggregation is DistributedExact {
            assert forall|b: int, j: int, d: int|
                0 <= b < trace_shape(trace)[0] && 0 <= j < trace_shape(trace)[1] && 0 <= d
                    < trace_shape(trace)[2] && single_extreme(window_column(trace, interval, j, b, d), !is_always)
                    implies reaches_extreme(
                    window_column(trace, interval, j, b, d),
                    #[trigger] trace_values(r)[b][j][d],
                    !is_always,
                ) by {
                lemma_joined_steps(outputs@, b, j);
                assert(trace_values(r)[b][j] == trace_values(outputs@[j])[b][0]);
            }
        }
        if aggregation is Smooth {
            assert forall|b: int, j: int, d: int|
                0 <= b < trace_shape(trace)[0] && 0 <= j < trace_shape(trace)[1] && 0 <= d
                    < trace_shape(trace)[2] implies smooth_extreme_of(
                    #[trigger] trace_values(r)[b][j][d],
                    window_column(trace, interval, j, b, d),
                    trace_dtype(trace),
                    aggregation->scale.bits,
                    is_always,
                ) by {
                lemma_joined_steps(outputs@, b, j);
                assert(trace_values(r)[b][j] == trace_values(outputs@[j])[b][0]);
            }
        }
    }
    assert(trace_shape(r) =~= trace_shape(trace));
    r
}

} // verus!
