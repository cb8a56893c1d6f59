//! Burn tensors as the library carries them, and the tensor operations it
//! calls.
//!
//! The values inside a tensor are floating-point numbers, which the library
//! does not compute with; it knows a tensor by names below: its shape, its
//! device, its element type and its elements, each by the encoding of its
//! value widened to binary64. Every trusted function here makes one Burn
//! tensor operation and states how the shape, device and element type of the
//! result follow from those of its arguments, which arguments it must not get
//! because Burn panics on them, and what it does to the elements as far as
//! that is the same on every machine: where each element comes from when an
//! operation only moves elements; that an extremum is a NaN where one of its
//! entries is one and otherwise the smallest or largest entry; and, where no
//! operand is a NaN, the correctly rounded sum, difference, product,
//! quotient, negation or absolute value, named by element type, a NaN
//! operand giving a NaN. The operations that compute take plain float
//! traces only: on a quantized tensor Burn dequantizes first, and the element
//! type of the result is no longer that of the argument. Running sums, and
//! sums over a trace held in order, add in order and are named by element
//! type; other sums take a SIMD path chosen at run time, of which only what
//! holds in every order is said (a NaN spreads; zeros added to a number leave
//! it); exponentials and logarithms keep only shape, device and element
//! type; and the bits of a NaN result differ between processors, so they are
//! left unsaid.

use vstd::prelude::*;

use burn::tensor::{Bool, DType, Tensor, TensorData};

use crate::scalar::Binary64;

verus! {

/// A rank-3 float tensor `[batch, time, dim]`. Its values are opaque to the
/// library.
#[verifier::external_body]
#[derive(Debug)]
pub struct Trace(pub Tensor<3>);

/// A rank-3 boolean tensor `[batch, time, dim]`.
#[verifier::external_body]
#[derive(Debug)]
pub struct BoolTrace(pub Tensor<3, Bool>);

/// A rank-4 float tensor: rank-3 traces stacked along a last axis.
#[verifier::external_body]
pub struct Stack(pub Tensor<4>);

/// A rank-4 boolean tensor.
#[verifier::external_body]
pub struct StackMask(pub Tensor<4, Bool>);

/// The dimensions of a trace (`Tensor::dims`).
pub uninterp spec fn trace_shape(t: Trace) -> Seq<usize>;

/// The elements of a trace, indexed `[batch][time][dim]`, each by the
/// encoding of its value widened to binary64 (`Tensor::into_data`).
pub uninterp spec fn trace_values(t: Trace) -> Seq<Seq<Seq<u64>>>;

/// The device of a trace, as an identity: two traces are on the same device
/// exactly when these are equal (`Tensor::device`).
pub uninterp spec fn trace_device(t: Trace) -> int;

/// The element type of a trace, as an identity (`Tensor::dtype`).
pub uninterp spec fn trace_dtype(t: Trace) -> int;

/// The element type with this identity is one of `DType::F64`, `F32`,
/// `F16` and `BF16`, the float types that every tensor operation of the
/// Flex backend supports.
pub uninterp spec fn dtype_is_float(dtype: int) -> bool;

/// Burn holds the trace's elements in one contiguous row-major block
/// (`Layout::is_contiguous` of the backend tensor).
pub uninterp spec fn laid_out_in_order(t: Trace) -> bool;

/// The dimensions of a stack.
pub uninterp spec fn stack_shape(s: Stack) -> Seq<usize>;

/// The device of a stack, as an identity comparable with [`trace_device`].
pub uninterp spec fn stack_device(s: Stack) -> int;

/// The element type of a stack, as an identity comparable with [`trace_dtype`].
pub uninterp spec fn stack_dtype(s: Stack) -> int;

/// The elements of a stack, indexed `[batch][time][dim][entry]`, each by the
/// encoding of its value widened to binary64.
pub uninterp spec fn stack_values(s: Stack) -> Seq<Seq<Seq<Seq<u64>>>>;

/// The dimensions of a boolean trace.
pub uninterp spec fn mask_shape(m: BoolTrace) -> Seq<usize>;

/// The device of a boolean trace, as an identity comparable with [`trace_device`].
pub uninterp spec fn mask_device(m: BoolTrace) -> int;

/// The elements of a boolean trace, indexed `[batch][time][dim]`.
pub uninterp spec fn mask_values(m: BoolTrace) -> Seq<Seq<Seq<bool>>>;

/// The dimensions of a rank-4 boolean tensor.
pub uninterp spec fn stack_mask_shape(m: StackMask) -> Seq<usize>;

/// The device of a rank-4 boolean tensor.
pub uninterp spec fn stack_mask_device(m: StackMask) -> int;

/// The elements of a boolean stack, indexed `[batch][time][dim][entry]`.
pub uninterp spec fn stack_mask_values(m: StackMask) -> Seq<Seq<Seq<Seq<bool>>>>;

/// The three dimensions `[batch, time, dim]`.
pub open spec fn shape3(batch: usize, time: usize, dim: usize) -> Seq<usize> {
    seq![batch, time, dim]
}

/// The trace lives where `other` lives: same device, same element type.
pub open spec fn same_place(t: Trace, other: Trace) -> bool {
    trace_device(t) == trace_device(other) && trace_dtype(t) == trace_dtype(other)
}

/// The trace has the shape and the place of `model`.
pub open spec fn conforms(t: Trace, model: Trace) -> bool {
    trace_shape(t) == trace_shape(model) && same_place(t, model)
}

/// The stack lives on the device and in the element type of the trace.
pub open spec fn stack_in_place(s: Stack, t: Trace) -> bool {
    stack_device(s) == trace_device(t) && stack_dtype(s) == trace_dtype(t)
}

/// Two shapes of one rank that Burn broadcasts: on each axis the sizes agree
/// or one of them is 1.
pub open spec fn broadcastable(a: Seq<usize>, b: Seq<usize>) -> bool {
    &&& a.len() == b.len()
    &&& forall|i: int| 0 <= i < a.len() ==> a[i] == b[i] || a[i] == 1 || b[i] == 1
}

/// The shape that broadcasting `a` with `b` gives.
pub open spec fn broadcast(a: Seq<usize>, b: Seq<usize>) -> Seq<usize> {
    Seq::new(a.len(), |i: int| if a[i] == 1 { b[i] } else { a[i] })
}

/// The shape `s` with axis `axis` reduced to size 1.
pub open spec fn reduced(s: Seq<usize>, axis: int) -> Seq<usize> {
    s.update(axis, 1usize)
}

/// `Tensor::dims`: the dimensions of the trace.
#[verifier::external_body]
pub(crate) fn dims(t: &Trace) -> (r: [usize; 3])
    ensures
        r@ == trace_shape(*t),
{
    t.0.dims()
}

/// `Tensor::device` compared with `==`: whether two traces share a device.
#[verifier::external_body]
pub(crate) fn same_device(a: &Trace, b: &Trace) -> (r: bool)
    ensures
        r == (trace_device(*a) == trace_device(*b)),
{
    a.0.device() == b.0.device()
}

/// `Tensor::dtype` compared with `==`: whether two traces share an element type.
#[verifier::external_body]
pub(crate) fn same_dtype(a: &Trace, b: &Trace) -> (r: bool)
    ensures
        r == (trace_dtype(*a) == trace_dtype(*b)),
{
    a.0.dtype() == b.0.dtype()
}

/// `Tensor::dtype` told apart by variant: the trace holds `F64`, `F32`, `F16`
/// or `BF16` elements (not quantized ones, nor `Flex32`, on which Flex's
/// operations panic).
#[verifier::external_body]
pub(crate) fn has_float_dtype(t: &Trace) -> (r: bool)
    ensures
        r == dtype_is_float(trace_dtype(*t)),
{
    matches!(t.0.dtype(), DType::F64 | DType::F32 | DType::F16 | DType::BF16)
}

/// `Tensor::clone`: a copy with the same shape, device, element type and
/// elements.
#[verifier::external_body]
pub(crate) fn duplicate(t: &Trace) -> (r: Trace)
    ensures
        conforms(r, *t),
        trace_values(r) == trace_values(*t),
{
    Trace(t.0.clone())
}

impl Clone for Trace {
    /// A copy with the same shape, device, element type and elements.
    fn clone(&self) -> (r: Self)
        ensures
            conforms(r, *self),
            trace_values(r) == trace_values(*self),
    {
        duplicate(self)
    }
}

/// `Tensor::zeros_like`: a trace of zeros (`+0.0`, encoded as 0) of the same
/// shape, device and element type; Burn panics on quantized element types.
#[verifier::external_body]
pub(crate) fn zeros_like(t: &Trace) -> (r: Trace)
    requires
        dtype_is_float(trace_dtype(*t)),
    ensures
        conforms(r, *t),
        forall|b: int, i: int, d: int| in_shape(trace_shape(*t), b, i, d) ==> #[trigger] trace_values(r)[b][i][d] == 0,
{
    Trace(t.0.zeros_like())
}

/// The number that `bits` encodes converted to the element type with
/// identity `dtype`, widened back to binary64 (`TensorData` conversion).
pub uninterp spec fn float_from_f64(dtype: int, bits: u64) -> u64;

/// The sum, in the element type with identity `dtype`, of the numbers that
/// `x` and `y` encode (elementwise `Tensor::add`), widened to binary64. Like
/// the other arithmetic names below, it is a NaN exactly where IEEE 754
/// arithmetic gives a NaN, whose bits are left unsaid.
pub uninterp spec fn float_add(dtype: int, x: u64, y: u64) -> u64;

/// The difference `x - y` in the element type (elementwise `Tensor::sub`).
pub uninterp spec fn float_sub(dtype: int, x: u64, y: u64) -> u64;

/// The product in the element type (elementwise `Tensor::mul`).
pub uninterp spec fn float_mul(dtype: int, x: u64, y: u64) -> u64;

/// The quotient `x / y` in the element type (elementwise `Tensor::div`).
pub uninterp spec fn float_div(dtype: int, x: u64, y: u64) -> u64;

/// The element of `t` that broadcasting reads for the place `[b][i][d]`:
/// an axis of size 1 is read at 0.
pub open spec fn element_at(t: Trace, b: int, i: int, d: int) -> u64 {
    let s = trace_shape(t);
    trace_values(t)[if s[0] == 1 {
        0
    } else {
        b
    }][if s[1] == 1 {
        0
    } else {
        i
    }][if s[2] == 1 {
        0
    } else {
        d
    }]
}

/// The place `[b][i][d]` lies inside `shape`.
pub open spec fn in_shape(shape: Seq<usize>, b: int, i: int, d: int) -> bool {
    0 <= b < shape[0] && 0 <= i < shape[1] && 0 <= d < shape[2]
}

/// Encoding of `1.0`, which every float element type holds exactly.
pub open spec fn one_bits() -> u64 {
    0x3ff0_0000_0000_0000u64
}

/// The encoding stands for a zero of either sign.
pub open spec fn is_zero_bits(bits: u64) -> bool {
    bits % 0x8000_0000_0000_0000u64 == 0
}

/// The encoding stands for a finite number: neither infinite nor a NaN.
pub open spec fn is_finite_bits(bits: u64) -> bool {
    bits % 0x8000_0000_0000_0000u64 < 0x7ff0_0000_0000_0000u64
}

/// IEEE equality: both numbers, equal in the order of the numbers (the two
/// zeros are equal; a NaN equals nothing).
pub open spec fn float_equal(x: u64, y: u64) -> bool {
    !is_nan_bits(x) && !is_nan_bits(y) && order_key(x) == order_key(y)
}

/// Two encodings stand for one number up to the sign of a zero, or are both
/// NaNs.
pub open spec fn alike(x: u64, y: u64) -> bool {
    if is_nan_bits(x) {
        is_nan_bits(y)
    } else {
        !is_nan_bits(y) && order_key(x) == order_key(y)
    }
}

/// [`alike`] is an equivalence that holds of the same numbers; the only
/// number alike `1.0` is `1.0` itself.
pub proof fn lemma_alike_basics(x: u64, y: u64, z: u64)
    ensures
        alike(x, x),
        alike(x, y) ==> alike(y, x),
        alike(x, y) && alike(y, z) ==> alike(x, z),
        same_number(x, y) ==> alike(x, y),
        alike(x, one_bits()) ==> x == one_bits(),
{
}

/// `c` and `col` have one length and are [`alike`] place by place.
pub open spec fn alike_seqs(c: Seq<u64>, col: Seq<u64>) -> bool {
    &&& c.len() == col.len()
    &&& forall|k: int| 0 <= k < col.len() ==> alike(#[trigger] c[k], col[k])
}

/// Each sample of `t` inside `shape` is [`alike`] that of `u`.
pub open spec fn alike_traces(u: Trace, t: Trace, shape: Seq<usize>) -> bool {
    forall|b: int, i: int, d: int|
        0 <= b < shape[0] && 0 <= i < shape[1] && 0 <= d < shape[2] ==> alike(
            #[trigger] trace_values(t)[b][i][d],
            trace_values(u)[b][i][d],
        )
}

/// Clamping at zero keeps encodings [`alike`].
pub proof fn lemma_rectified_alike(x: u64, y: u64)
    requires
        alike(x, y),
    ensures
        alike(rectified(x), rectified(y)),
{
}

/// Every element of `col` but the `k`-th is a zero.
pub open spec fn all_zero_but(col: Seq<u64>, k: int) -> bool {
    forall|j: int| 0 <= j < col.len() && j != k ==> is_zero_bits(#[trigger] col[j])
}

/// The place `[b][i][d]`, entry `k`, lies inside the rank-4 `shape`.
pub open spec fn in_stack(shape: Seq<usize>, b: int, i: int, d: int, k: int) -> bool {
    0 <= b < shape[0] && 0 <= i < shape[1] && 0 <= d < shape[2] && 0 <= k < shape[3]
}

/// A NaN with a quiet fraction, for the NaN results of the library's specs.
pub open spec fn nan_bits() -> u64 {
    0x7ff8_0000_0000_0000u64
}

/// Two encodings stand for the same number, or are both NaNs.
pub open spec fn same_number(x: u64, y: u64) -> bool {
    x == y || (is_nan_bits(x) && is_nan_bits(y))
}

/// [`float_add`] of two encodings, a NaN where either is one.
pub open spec fn add_value(dtype: int, x: u64, y: u64) -> u64 {
    if is_nan_bits(x) || is_nan_bits(y) {
        nan_bits()
    } else {
        float_add(dtype, x, y)
    }
}

/// [`float_sub`] of two encodings, a NaN where either is one.
pub open spec fn sub_value(dtype: int, x: u64, y: u64) -> u64 {
    if is_nan_bits(x) || is_nan_bits(y) {
        nan_bits()
    } else {
        float_sub(dtype, x, y)
    }
}

/// [`float_mul`] of two encodings, a NaN where either is one.
pub open spec fn mul_value(dtype: int, x: u64, y: u64) -> u64 {
    if is_nan_bits(x) || is_nan_bits(y) {
        nan_bits()
    } else {
        float_mul(dtype, x, y)
    }
}

/// [`float_div`] of two encodings, a NaN where either is one.
pub open spec fn div_value(dtype: int, x: u64, y: u64) -> u64 {
    if is_nan_bits(x) || is_nan_bits(y) {
        nan_bits()
    } else {
        float_div(dtype, x, y)
    }
}

/// [`float_from_f64`] of an encoding, a NaN where it is one.
pub open spec fn conv_value(dtype: int, bits: u64) -> u64 {
    if is_nan_bits(bits) {
        nan_bits()
    } else {
        float_from_f64(dtype, bits)
    }
}

/// [`float_sum`] of a column, a NaN where one of its numbers is one.
pub open spec fn sum_value(dtype: int, col: Seq<u64>) -> u64 {
    if no_nan(col) {
        float_sum(dtype, col)
    } else {
        nan_bits()
    }
}

/// Same numbers in give same numbers out, through each arithmetic value and
/// sign operation; and same numbers chain.
pub proof fn lemma_same_number_ops(dtype: int, x: u64, xx: u64, y: u64, yy: u64)
    requires
        same_number(x, xx),
        same_number(y, yy),
    ensures
        same_number(add_value(dtype, x, y), add_value(dtype, xx, yy)),
        same_number(sub_value(dtype, x, y), sub_value(dtype, xx, yy)),
        same_number(mul_value(dtype, x, y), mul_value(dtype, xx, yy)),
        same_number(div_value(dtype, x, y), div_value(dtype, xx, yy)),
        same_number(flip_sign(x), flip_sign(xx)),
        same_number(clear_sign(x), clear_sign(xx)),
        same_number(rectified(x), rectified(xx)),
        forall|z: u64| same_number(xx, z) ==> same_number(x, z),
{
    lemma_sign_keeps_nan(x);
    lemma_sign_keeps_nan(xx);
}

/// A column that holds, place by place, the same numbers as `spec`, summed
/// as `Tensor::cumsum` and `Tensor::sum_dim` sum it (a NaN where one of its
/// numbers is one, [`float_sum`] otherwise), gives the same number as
/// [`sum_value`] of `spec`.
pub proof fn lemma_same_sum(dtype: int, col: Seq<u64>, spec: Seq<u64>, r: u64)
    requires
        col.len() == spec.len(),
        forall|k: int| 0 <= k < col.len() ==> same_number(#[trigger] col[k], spec[k]),
        !no_nan(col) ==> is_nan_bits(r),
        no_nan(col) ==> same_number(r, float_sum(dtype, col)),
    ensures
        same_number(r, sum_value(dtype, spec)),
{
    if no_nan(col) {
        assert forall|k: int| 0 <= k < spec.len() implies !is_nan_bits(#[trigger] spec[k]) by {
            assert(!is_nan_bits(col[k]));
        }
        assert(col =~= spec);
    } else {
        let k = choose|k: int| 0 <= k < col.len() && is_nan_bits(#[trigger] col[k]);
        assert(same_number(col[k], spec[k]));
        assert(is_nan_bits(spec[k]));
        assert(!no_nan(spec));
        assert(is_nan_bits(nan_bits()));
    }
}

/// What the clause of a binary operation says of an element, as a value:
/// the result is the same number as the operation's value of its operands.
pub proof fn lemma_binary_value(r: u64, x: u64, y: u64, named: u64, value: u64)
    requires
        is_nan_bits(x) || is_nan_bits(y) ==> is_nan_bits(r),
        !is_nan_bits(x) && !is_nan_bits(y) ==> same_number(r, named),
        value == (if is_nan_bits(x) || is_nan_bits(y) {
            nan_bits()
        } else {
            named
        }),
    ensures
        same_number(r, value),
{
}

/// Toggling or clearing the sign keeps a NaN a NaN and a number a number.
pub proof fn lemma_sign_keeps_nan(x: u64)
    ensures
        is_nan_bits(flip_sign(x)) == is_nan_bits(x),
        is_nan_bits(clear_sign(x)) == is_nan_bits(x),
{
}

/// At the place `[b][i][d]`, a NaN in either operand gives a NaN.
pub open spec fn nan_spreads(x: Trace, y: Trace, r: Trace, b: int, i: int, d: int) -> bool {
    is_nan_bits(element_at(x, b, i, d)) || is_nan_bits(element_at(y, b, i, d)) ==> is_nan_bits(
        trace_values(r)[b][i][d],
    )
}

/// `Tensor::from_data` on the device and in the element type of `like`: a
/// `[1, 1, 1]` trace holding the number that `value` encodes, converted to
/// that element type. Burn panics when the target type is not a plain float.
#[verifier::external_body]
pub(crate) fn constant(like: &Trace, value: Binary64) -> (r: Trace)
    requires
        dtype_is_float(trace_dtype(*like)),
    ensures
        trace_shape(r) == shape3(1, 1, 1),
        same_place(r, *like),
        is_nan_bits(trace_values(r)[0][0][0]) == is_nan_bits(value.bits),
        !is_nan_bits(value.bits) ==> trace_values(r)[0][0][0] == float_from_f64(trace_dtype(*like), value.bits),
{
    let data = TensorData::from_bytes_vec(value.bits.to_le_bytes().to_vec(), [1, 1, 1], DType::F64);
    Trace(Tensor::from_data(data, (&like.0.device(), like.0.dtype())))
}

/// `Tensor::expand`: broadcasts a trace to `shape`, each place reading the
/// element that broadcasting gives it; Burn panics unless each axis already
/// has that size or size 1.
#[verifier::external_body]
pub(crate) fn expand(t: Trace, shape: [usize; 3]) -> (r: Trace)
    requires
        dtype_is_float(trace_dtype(t)),
        trace_shape(t).len() == 3,
        forall|i: int| 0 <= i < 3 ==> trace_shape(t)[i] == shape@[i] || trace_shape(t)[i] == 1,
    ensures
        trace_shape(r) == shape@,
        same_place(r, t),
        forall|b: int, i: int, d: int|
            in_shape(shape@, b, i, d) ==> #[trigger] trace_values(r)[b][i][d] == element_at(t, b, i, d),
{
    Trace(t.0.expand(shape))
}

/// The encoding of the negated number: the sign bit toggled.
pub open spec fn flip_sign(bits: u64) -> u64 {
    if bits >= 0x8000_0000_0000_0000u64 {
        (bits - 0x8000_0000_0000_0000u64) as u64
    } else {
        (bits + 0x8000_0000_0000_0000u64) as u64
    }
}

/// No element of `col` is a NaN.
pub open spec fn no_nan(col: Seq<u64>) -> bool {
    forall|k: int| 0 <= k < col.len() ==> !is_nan_bits(#[trigger] col[k])
}

/// `Tensor::neg`: the elementwise negation `-x`, of the same shape, device
/// and element type; each element that is not a NaN has its sign toggled
/// (what NaN payloads become is left unsaid).
#[verifier::external_body]
pub(crate) fn negate(t: Trace) -> (r: Trace)
    requires
        dtype_is_float(trace_dtype(t)),
    ensures
        conforms(r, t),
        forall|b: int, i: int, d: int|
            in_shape(trace_shape(t), b, i, d) ==> {
                &&& is_nan_bits(#[trigger] trace_values(r)[b][i][d]) == is_nan_bits(trace_values(t)[b][i][d])
                &&& !is_nan_bits(trace_values(t)[b][i][d]) ==> trace_values(r)[b][i][d] == flip_sign(
                    trace_values(t)[b][i][d],
                )
            },
{
    Trace(t.0.neg())
}

/// The encoding of the absolute value: the sign bit cleared.
pub open spec fn clear_sign(bits: u64) -> u64 {
    if bits >= 0x8000_0000_0000_0000u64 {
        (bits - 0x8000_0000_0000_0000u64) as u64
    } else {
        bits
    }
}

/// `Tensor::abs`: the elementwise absolute value, of the same shape, device
/// and element type; each element that is not a NaN has its sign cleared.
#[verifier::external_body]
pub(crate) fn absolute(t: Trace) -> (r: Trace)
    requires
        dtype_is_float(trace_dtype(t)),
    ensures
        conforms(r, t),
        forall|b: int, i: int, d: int|
            in_shape(trace_shape(t), b, i, d) ==> {
                &&& is_nan_bits(#[trigger] trace_values(r)[b][i][d]) == is_nan_bits(trace_values(t)[b][i][d])
                &&& !is_nan_bits(trace_values(t)[b][i][d]) ==> trace_values(r)[b][i][d] == clear_sign(
                    trace_values(t)[b][i][d],
                )
            },
{
    Trace(t.0.abs())
}

/// `Tensor::exp`: the elementwise exponential, claimed here only to keep the
/// shape, device and element type.
#[verifier::external_body]
pub(crate) fn exponential(t: Trace) -> (r: Trace)
    requires
        dtype_is_float(trace_dtype(t)),
    ensures
        conforms(r, t),
{
    Trace(t.0.exp())
}

/// `Tensor::log`: the elementwise natural logarithm, claimed here only to
/// keep the shape, device and element type.
#[verifier::external_body]
pub(crate) fn logarithm(t: Trace) -> (r: Trace)
    requires
        dtype_is_float(trace_dtype(t)),
    ensures
        conforms(r, t),
{
    Trace(t.0.log())
}

/// What `relu` makes of an element: itself where it is above zero, `+0.0`
/// otherwise (a NaN stays a NaN).
pub open spec fn rectified(bits: u64) -> u64 {
    if is_nan_bits(bits) || above_zero(bits) {
        bits
    } else {
        0
    }
}

/// `burn::tensor::activation::relu`: the elementwise `max(x, 0)`, of the same
/// shape, device and element type; Burn keeps an element above zero, gives
/// `+0.0` for any other number and keeps a NaN a NaN.
#[verifier::external_body]
pub(crate) fn rectify(t: Trace) -> (r: Trace)
    requires
        dtype_is_float(trace_dtype(t)),
    ensures
        conforms(r, t),
        forall|b: int, i: int, d: int|
            in_shape(trace_shape(t), b, i, d) ==> {
                &&& is_nan_bits(#[trigger] trace_values(r)[b][i][d]) == is_nan_bits(trace_values(t)[b][i][d])
                &&& !is_nan_bits(trace_values(t)[b][i][d]) ==> trace_values(r)[b][i][d] == rectified(
                    trace_values(t)[b][i][d],
                )
            },
        laid_out_in_order(t) ==> laid_out_in_order(r),
{
    Trace(burn::tensor::activation::relu(t.0))
}

/// Encoding of `2.0`, which every float element type holds exactly.
pub open spec fn two_bits() -> u64 {
    0x4000_0000_0000_0000u64
}

/// `Tensor::div_scalar` by two: each element divided by `2.0` in the element
/// type, as [`float_div`] divides, of the same shape, device and element
/// type; an element is a NaN exactly where it was one, and halving numbers
/// that differ only in the sign of a zero gives such numbers.
#[verifier::external_body]
pub(crate) fn halve(t: Trace) -> (r: Trace)
    requires
        dtype_is_float(trace_dtype(t)),
    ensures
        conforms(r, t),
        forall|b: int, i: int, d: int|
            in_shape(trace_shape(t), b, i, d) ==> {
                &&& is_nan_bits(#[trigger] trace_values(r)[b][i][d]) == is_nan_bits(trace_values(t)[b][i][d])
                &&& !is_nan_bits(trace_values(t)[b][i][d]) ==> trace_values(r)[b][i][d] == float_div(
                    trace_dtype(t),
                    trace_values(t)[b][i][d],
                    two_bits(),
                )
                &&& forall|x: u64|
                    alike(x, trace_values(t)[b][i][d]) ==> alike(
                        trace_values(r)[b][i][d],
                        #[trigger] div_value(trace_dtype(t), x, two_bits()),
                    )
            },
{
    Trace(t.0.div_scalar(2))
}

/// `Tensor::add`, broadcasting: the broadcast shape, on the first trace's
/// device and element type; Burn panics on other shapes or on two devices.
/// Each place holds [`float_add`] of the elements that broadcasting reads there,
/// up to the bits of a NaN, where neither is a NaN; a NaN operand gives a NaN.
/// Operands that differ only in the sign of a zero give sums that differ at
/// most in the sign of a zero, as IEEE addition does.
#[verifier::external_body]
pub(crate) fn plus(a: Trace, b: Trace) -> (r: Trace)
    requires
        dtype_is_float(trace_dtype(a)),
        broadcastable(trace_shape(a), trace_shape(b)),
        same_place(a, b),
    ensures
        trace_shape(r) == broadcast(trace_shape(a), trace_shape(b)),
        same_place(r, a),
        forall|p: int, i: int, d: int|
            in_shape(trace_shape(r), p, i, d) ==> {
                &&& nan_spreads(a, b, r, p, i, d)
                &&& !is_nan_bits(element_at(a, p, i, d)) && !is_nan_bits(element_at(b, p, i, d)) ==> same_number(
                    #[trigger] trace_values(r)[p][i][d],
                    float_add(trace_dtype(a), element_at(a, p, i, d), element_at(b, p, i, d)),
                )
                &&& forall|x: u64, y: u64|
                    alike(x, element_at(a, p, i, d)) && alike(y, element_at(b, p, i, d)) ==> alike(
                        trace_values(r)[p][i][d],
                        #[trigger] add_value(trace_dtype(a), x, y),
                    )
            },
{
    Trace(a.0.add(b.0))
}

/// `Tensor::sub`, broadcasting: the broadcast shape, on the first trace's
/// device and element type; Burn panics on other shapes or on two devices.
/// Each place holds [`float_sub`] of the elements that broadcasting reads there,
/// up to the bits of a NaN, where neither is a NaN; a NaN operand gives a NaN.
#[verifier::external_body]
pub(crate) fn minus(a: Trace, b: Trace) -> (r: Trace)
    requires
        dtype_is_float(trace_dtype(a)),
        broadcastable(trace_shape(a), trace_shape(b)),
        same_place(a, b),
    ensures
        trace_shape(r) == broadcast(trace_shape(a), trace_shape(b)),
        same_place(r, a),
        forall|p: int, i: int, d: int|
            in_shape(trace_shape(r), p, i, d) ==> {
                &&& nan_spreads(a, b, r, p, i, d)
                &&& !is_nan_bits(element_at(a, p, i, d)) && !is_nan_bits(element_at(b, p, i, d)) ==> same_number(
                    #[trigger] trace_values(r)[p][i][d],
                    float_sub(trace_dtype(a), element_at(a, p, i, d), element_at(b, p, i, d)),
                )
            },
{
    Trace(a.0.sub(b.0))
}

/// `Tensor::mul`, broadcasting: the broadcast shape, on the first trace's
/// device and element type; Burn panics on other shapes or on two devices.
/// Each place holds [`float_mul`] of the elements that broadcasting reads there,
/// up to the bits of a NaN, where neither is a NaN; a NaN operand gives a NaN.
/// As IEEE multiplication gives, times `1.0` an element is itself, and a
/// finite element times `+0.0` is a zero.
#[verifier::external_body]
pub(crate) fn times(a: Trace, b: Trace) -> (r: Trace)
    requires
        dtype_is_float(trace_dtype(a)),
        broadcastable(trace_shape(a), trace_shape(b)),
        same_place(a, b),
    ensures
        trace_shape(r) == broadcast(trace_shape(a), trace_shape(b)),
        same_place(r, a),
        forall|p: int, i: int, d: int|
            in_shape(trace_shape(r), p, i, d) ==> {
                &&& nan_spreads(a, b, r, p, i, d)
                &&& !is_nan_bits(element_at(a, p, i, d)) && !is_nan_bits(element_at(b, p, i, d)) ==> same_number(
                    #[trigger] trace_values(r)[p][i][d],
                    float_mul(trace_dtype(a), element_at(a, p, i, d), element_at(b, p, i, d)),
                )
                &&& element_at(b, p, i, d) == one_bits() ==> same_number(
                    trace_values(r)[p][i][d],
                    element_at(a, p, i, d),
                )
                &&& element_at(b, p, i, d) == 0 && is_finite_bits(element_at(a, p, i, d)) ==> is_zero_bits(
                    trace_values(r)[p][i][d],
                )
            },
{
    Trace(a.0.mul(b.0))
}

/// `Tensor::div`, broadcasting: the broadcast shape, on the first trace's
/// device and element type; Burn panics on other shapes or on two devices.
/// Each place holds [`float_div`] of the elements that broadcasting reads there,
/// up to the bits of a NaN, where neither is a NaN; a NaN operand gives a NaN;
/// divided by `1.0` an element is itself.
#[verifier::external_body]
pub(crate) fn divide(a: Trace, b: Trace) -> (r: Trace)
    requires
        dtype_is_float(trace_dtype(a)),
        broadcastable(trace_shape(a), trace_shape(b)),
        same_place(a, b),
    ensures
        trace_shape(r) == broadcast(trace_shape(a), trace_shape(b)),
        same_place(r, a),
        forall|p: int, i: int, d: int|
            in_shape(trace_shape(r), p, i, d) ==> {
                &&& nan_spreads(a, b, r, p, i, d)
                &&& !is_nan_bits(element_at(a, p, i, d)) && !is_nan_bits(element_at(b, p, i, d)) ==> same_number(
                    #[trigger] trace_values(r)[p][i][d],
                    float_div(trace_dtype(a), element_at(a, p, i, d), element_at(b, p, i, d)),
                )
                &&& element_at(b, p, i, d) == one_bits() ==> same_number(
                    trace_values(r)[p][i][d],
                    element_at(a, p, i, d),
                )
            },
{
    Trace(a.0.div(b.0))
}

/// `Tensor::narrow` on the time axis; Burn panics on an empty or out-of-range
/// window.
#[verifier::external_body]
pub(crate) fn narrow_time(t: Trace, start: usize, length: usize) -> (r: Trace)
    requires
        trace_shape(t).len() == 3,
        0 < length,
        start + length <= trace_shape(t)[1],
    ensures
        trace_shape(r) == trace_shape(t).update(1, length),
        same_place(r, t),
        forall|b: int, i: int|
            0 <= b < trace_shape(t)[0] && 0 <= i < length ==> #[trigger] trace_values(r)[b][i]
                == trace_values(t)[b][start + i],
{
    Trace(t.0.narrow(1, start, length))
}

/// The sum of the time lengths of a sequence of traces.
pub open spec fn total_time(ts: Seq<Trace>) -> int
    decreases ts.len(),
{
    if ts.len() == 0 {
        0
    } else {
        total_time(ts.drop_last()) + trace_shape(ts.last())[1]
    }
}

/// Row `i`, in batch `b`, of the traces joined along time: the row of the
/// trace that time `i` falls in, at the offset of `i` within it.
pub open spec fn joined_row(ts: Seq<Trace>, b: int, i: int) -> Seq<u64>
    decreases ts.len(),
{
    if ts.len() == 0 {
        Seq::empty()
    } else if i < total_time(ts.drop_last()) {
        joined_row(ts.drop_last(), b, i)
    } else {
        trace_values(ts.last())[b][i - total_time(ts.drop_last())]
    }
}

/// Traces that `Tensor::cat` joins along time without panicking: at least
/// one, all with the batch and feature sizes and the place of the first.
pub open spec fn joinable(ts: Seq<Trace>) -> bool {
    &&& ts.len() > 0
    &&& forall|k: int|
        0 <= k < ts.len() ==> {
            &&& trace_shape(#[trigger] ts[k]).len() == 3
            &&& trace_shape(ts[k])[0] == trace_shape(ts[0])[0]
            &&& trace_shape(ts[k])[2] == trace_shape(ts[0])[2]
            &&& same_place(ts[k], ts[0])
        }
}

/// At least two of the traces have a time step: Burn drops the traces
/// without one, and the backend lays out anew what it joins from two or more.
pub open spec fn two_filled(ts: Seq<Trace>) -> bool {
    exists|j: int, k: int|
        0 <= j < k < ts.len() && trace_shape(#[trigger] ts[j])[1] > 0 && trace_shape(#[trigger] ts[k])[1] > 0
}

/// `Tensor::cat` along the time axis: the traces' rows one after another.
#[verifier::external_body]
pub(crate) fn cat_time(ts: Vec<Trace>) -> (r: Trace)
    requires
        joinable(ts@),
    ensures
        trace_shape(r) == shape3(trace_shape(ts@[0])[0], total_time(ts@) as usize, trace_shape(ts@[0])[2]),
        same_place(r, ts@[0]),
        forall|b: int, i: int|
            0 <= b < trace_shape(ts@[0])[0] && 0 <= i < total_time(ts@) ==> #[trigger] trace_values(r)[b][i]
                == joined_row(ts@, b, i),
        two_filled(ts@) ==> laid_out_in_order(r),
{
    Trace(Tensor::cat(ts.into_iter().map(|t| t.0).collect(), 1))
}

/// The binary64 encoding is a NaN: exponent bits all set, fraction not zero.
pub open spec fn is_nan_bits(bits: u64) -> bool {
    bits % 0x8000_0000_0000_0000u64 > 0x7ff0_0000_0000_0000u64
}

/// Where a binary64 encoding that is not a NaN falls in the order of the
/// numbers: its magnitude bits, negated when the sign bit is set, so that
/// both zeros fall at 0.
pub open spec fn order_key(bits: u64) -> int {
    if bits >= 0x8000_0000_0000_0000u64 {
        -(bits - 0x8000_0000_0000_0000u64)
    } else {
        bits as int
    }
}

/// `v` is the largest of `col`: a NaN where one of its elements is one;
/// otherwise one of its elements, and no smaller than any.
pub open spec fn attains_max(col: Seq<u64>, v: u64) -> bool {
    if no_nan(col) {
        &&& col.contains(v)
        &&& forall|k: int| 0 <= k < col.len() ==> order_key(#[trigger] col[k]) <= order_key(v)
    } else {
        is_nan_bits(v)
    }
}

/// `v` is the smallest of `col`: a NaN where one of its elements is one;
/// otherwise one of its elements, and no larger than any.
pub open spec fn attains_min(col: Seq<u64>, v: u64) -> bool {
    if no_nan(col) {
        &&& col.contains(v)
        &&& forall|k: int| 0 <= k < col.len() ==> order_key(v) <= order_key(#[trigger] col[k])
    } else {
        is_nan_bits(v)
    }
}

/// The samples of feature `d` in batch `b` of a trace, oldest index last.
pub open spec fn time_column(t: Trace, b: int, d: int) -> Seq<u64> {
    Seq::new(trace_shape(t)[1] as nat, |k: int| trace_values(t)[b][k][d])
}

/// `Tensor::max_dim` over time: the time axis reduced to one sample, on the
/// same device and element type; Burn panics on an empty axis. Along an axis
/// other than the last Burn keeps, scanning each column, the first element
/// that beats the best so far (a NaN beats any number, and nothing beats a
/// NaN), so the result is a NaN where the column holds one, and otherwise an
/// element of the column and its largest.
#[verifier::external_body]
pub(crate) fn max_time(t: Trace) -> (r: Trace)
    requires
        dtype_is_float(trace_dtype(t)),
        trace_shape(t).len() == 3,
        trace_shape(t)[1] > 0,
    ensures
        trace_shape(r) == reduced(trace_shape(t), 1),
        same_place(r, t),
        forall|b: int, d: int|
            0 <= b < trace_shape(t)[0] && 0 <= d < trace_shape(t)[2] ==> attains_max(
                time_column(t, b, d),
                #[trigger] trace_values(r)[b][0][d],
            ),
{
    Trace(t.0.max_dim(1))
}

/// `Tensor::min_dim` over time: the time axis reduced to one sample, on the
/// same device and element type; Burn panics on an empty axis. As for
/// [`max_time`], the result is a NaN where the column holds one, and
/// otherwise an element of the column and its smallest.
#[verifier::external_body]
pub(crate) fn min_time(t: Trace) -> (r: Trace)
    requires
        dtype_is_float(trace_dtype(t)),
        trace_shape(t).len() == 3,
        trace_shape(t)[1] > 0,
    ensures
        trace_shape(r) == reduced(trace_shape(t), 1),
        same_place(r, t),
        forall|b: int, d: int|
            0 <= b < trace_shape(t)[0] && 0 <= d < trace_shape(t)[2] ==> attains_min(
                time_column(t, b, d),
                #[trigger] trace_values(r)[b][0][d],
            ),
{
    Trace(t.0.min_dim(1))
}

/// `Tensor::sum_dim` over time: the time axis reduced to one sample, on the
/// same device and element type. On a trace held in order, or with a single
/// time step, Burn adds each column's samples in order to zero, as
/// `Tensor::cumsum` does, so each place holds [`float_sum`] of its column (up
/// to the bits of a NaN) where no sample is a NaN, and a NaN where one is; on
/// other layouts the order of the additions follows the SIMD path of the
/// machine and is left unsaid, save what holds in every order: a NaN where a
/// sample is one, and, where every sample but one is a zero, that sample up
/// to the sign of a zero.
#[verifier::external_body]
pub(crate) fn sum_time(t: Trace) -> (r: Trace)
    requires
        dtype_is_float(trace_dtype(t)),
        trace_shape(t).len() == 3,
        trace_shape(t)[1] > 0,
    ensures
        trace_shape(r) == reduced(trace_shape(t), 1),
        same_place(r, t),
        laid_out_in_order(t) || trace_shape(t)[1] == 1 ==> forall|b: int, d: int|
            0 <= b < trace_shape(t)[0] && 0 <= d < trace_shape(t)[2] ==> {
                &&& !no_nan(time_column(t, b, d)) ==> is_nan_bits(#[trigger] trace_values(r)[b][0][d])
                &&& no_nan(time_column(t, b, d)) ==> same_number(
                    trace_values(r)[b][0][d],
                    float_sum(trace_dtype(t), time_column(t, b, d)),
                )
                &&& forall|c: Seq<u64>|
                    #[trigger] alike_seqs(c, time_column(t, b, d)) ==> alike(
                        trace_values(r)[b][0][d],
                        sum_value(trace_dtype(t), c),
                    )
            },
        forall|b: int, d: int|
            0 <= b < trace_shape(t)[0] && 0 <= d < trace_shape(t)[2] ==> {
                &&& !no_nan(time_column(t, b, d)) ==> is_nan_bits(#[trigger] trace_values(r)[b][0][d])
                &&& forall|k: int|
                    0 <= k < trace_shape(t)[1] && all_zero_but(time_column(t, b, d), k) ==> alike(
                        trace_values(r)[b][0][d],
                        #[trigger] time_column(t, b, d)[k],
                    )
            },
{
    Trace(t.0.sum_dim(1))
}

/// The numbers of `col` added in order to zero, in the element type with
/// identity `dtype` (for the half-width types, in `f32` and rounded to the
/// element type at the end), widened to binary64: what `Tensor::cumsum`
/// gives at the end of a prefix, which Burn computes by a plain sequential
/// loop.
pub uninterp spec fn float_sum(dtype: int, col: Seq<u64>) -> u64;

/// The samples of feature `d` in batch `b` of a trace from time 0 to time `i`.
pub open spec fn time_prefix(t: Trace, b: int, i: int, d: int) -> Seq<u64> {
    Seq::new((i + 1) as nat, |k: int| trace_values(t)[b][k][d])
}

/// `Tensor::cumsum` over time: running sums, of the same shape, device and
/// element type. Each place holds [`float_sum`] of its prefix (up to the
/// bits of a NaN) where no sample of the prefix is a NaN, and a NaN where one
/// is. Adding in order, numbers that differ only in the sign of a zero give
/// sums that differ at most in the sign of a zero, as IEEE addition does.
#[verifier::external_body]
pub(crate) fn cumsum_time(t: Trace) -> (r: Trace)
    requires
        dtype_is_float(trace_dtype(t)),
        trace_shape(t).len() == 3,
    ensures
        conforms(r, t),
        forall|b: int, i: int, d: int|
            in_shape(trace_shape(t), b, i, d) ==> {
                &&& !no_nan(time_prefix(t, b, i, d)) ==> is_nan_bits(#[trigger] trace_values(r)[b][i][d])
                &&& no_nan(time_prefix(t, b, i, d)) ==> same_number(
                    trace_values(r)[b][i][d],
                    float_sum(trace_dtype(t), time_prefix(t, b, i, d)),
                )
                &&& forall|c: Seq<u64>|
                    #[trigger] alike_seqs(c, time_prefix(t, b, i, d)) ==> alike(
                        trace_values(r)[b][i][d],
                        sum_value(trace_dtype(t), c),
                    )
            },
{
    Trace(t.0.cumsum(1))
}

/// `Tensor::flip` of the time axis: time `i` of the result is time
/// `len - 1 - i` of the trace.
#[verifier::external_body]
pub(crate) fn flip_time(t: Trace) -> (r: Trace)
    requires
        trace_shape(t).len() == 3,
    ensures
        conforms(r, t),
        forall|b: int, i: int|
            0 <= b < trace_shape(t)[0] && 0 <= i < trace_shape(t)[1] ==> #[trigger] trace_values(r)[b][i]
                == trace_values(t)[b][trace_shape(t)[1] - 1 - i],
{
    Trace(t.0.flip([1]))
}

/// The encoding stands for a number greater than zero: not a NaN, and above
/// both zeros in the order of the numbers.
pub open spec fn above_zero(bits: u64) -> bool {
    !is_nan_bits(bits) && order_key(bits) > 0
}

/// `Tensor::greater_elem` with zero: where the trace is greater than zero
/// (never at a NaN or a zero), as a boolean trace of its shape on its device.
#[verifier::external_body]
pub(crate) fn positive(t: Trace) -> (r: BoolTrace)
    ensures
        mask_shape(r) == trace_shape(t),
        mask_device(r) == trace_device(t),
        forall|b: int, i: int, d: int|
            0 <= b < trace_shape(t)[0] && 0 <= i < trace_shape(t)[1] && 0 <= d < trace_shape(t)[2]
                ==> #[trigger] mask_values(r)[b][i][d] == above_zero(trace_values(t)[b][i][d]),
{
    BoolTrace(t.0.greater_elem(0))
}

/// `Tensor::equal`, broadcasting: a boolean trace of the broadcast shape on
/// the first trace's device; Burn panics on other shapes or on two devices.
/// Each place holds IEEE equality of the elements broadcasting reads there.
#[verifier::external_body]
pub(crate) fn equal_mask(a: Trace, b: Trace) -> (r: BoolTrace)
    requires
        broadcastable(trace_shape(a), trace_shape(b)),
        same_place(a, b),
    ensures
        mask_shape(r) == broadcast(trace_shape(a), trace_shape(b)),
        mask_device(r) == trace_device(a),
        forall|p: int, i: int, d: int|
            in_shape(broadcast(trace_shape(a), trace_shape(b)), p, i, d) ==> #[trigger] mask_values(r)[p][i][d]
                == float_equal(element_at(a, p, i, d), element_at(b, p, i, d)),
{
    BoolTrace(a.0.equal(b.0))
}

/// `Tensor::mask_fill` with one where the mask holds: the same shape, device
/// and element type; the mask must have the trace's shape and device. Where
/// the mask holds the element is `1.0`, elsewhere it is kept.
#[verifier::external_body]
pub(crate) fn fill_one(t: Trace, m: BoolTrace) -> (r: Trace)
    requires
        dtype_is_float(trace_dtype(t)),
        mask_shape(m) == trace_shape(t),
        mask_device(m) == trace_device(t),
    ensures
        conforms(r, t),
        forall|p: int, i: int, d: int|
            in_shape(trace_shape(t), p, i, d) ==> #[trigger] trace_values(r)[p][i][d] == if mask_values(m)[p][i][d] {
                one_bits()
            } else {
                trace_values(t)[p][i][d]
            },
{
    Trace(t.0.mask_fill(m.0, 1))
}

/// `Tensor::unsqueeze_dim` at the new last axis: `[b, t, d]` becomes
/// `[b, t, d, 1]`, each element moving to entry 0 of its place.
#[verifier::external_body]
pub(crate) fn lift(t: Trace) -> (r: Stack)
    requires
        trace_shape(t).len() == 3,
    ensures
        stack_shape(r) == trace_shape(t).push(1),
        stack_in_place(r, t),
        forall|b: int, i: int, d: int|
            0 <= b < trace_shape(t)[0] && 0 <= i < trace_shape(t)[1] && 0 <= d < trace_shape(t)[2]
                ==> #[trigger] stack_values(r)[b][i][d][0] == trace_values(t)[b][i][d],
{
    Stack(t.0.unsqueeze_dim::<4>(3))
}

/// `Tensor::squeeze_dim` of the last axis, which Burn requires to have size
/// 1: entry 0 of each place becomes the element.
#[verifier::external_body]
pub(crate) fn lower(s: Stack) -> (r: Trace)
    requires
        stack_shape(s).len() == 4,
        stack_shape(s)[3] == 1,
    ensures
        trace_shape(r) == stack_shape(s).drop_last(),
        stack_in_place(s, r),
        forall|b: int, i: int, d: int|
            0 <= b < stack_shape(s)[0] && 0 <= i < stack_shape(s)[1] && 0 <= d < stack_shape(s)[2]
                ==> #[trigger] trace_values(r)[b][i][d] == stack_values(s)[b][i][d][0],
{
    Trace(s.0.squeeze_dim::<3>(3))
}

/// Stacks that `Tensor::cat` joins along the last axis: at least one, all
/// of the shape and place of the first.
pub open spec fn stackable(ss: Seq<Stack>) -> bool {
    &&& ss.len() > 0
    &&& stack_shape(ss[0]).len() == 4
    &&& forall|k: int|
        0 <= k < ss.len() ==> {
            &&& stack_shape(#[trigger] ss[k]) == stack_shape(ss[0])
            &&& stack_device(ss[k]) == stack_device(ss[0])
            &&& stack_dtype(ss[k]) == stack_dtype(ss[0])
        }
}

/// `Tensor::cat` along the last axis of stacks of size 1 there: entry `k`
/// of each place comes from the `k`-th stack.
#[verifier::external_body]
pub(crate) fn stack_cat(ss: Vec<Stack>) -> (r: Stack)
    requires
        stackable(ss@),
        stack_shape(ss@[0])[3] == 1,
    ensures
        stack_shape(r) == stack_shape(ss@[0]).update(3, ss@.len() as usize),
        stack_device(r) == stack_device(ss@[0]),
        stack_dtype(r) == stack_dtype(ss@[0]),
        forall|b: int, i: int, d: int, k: int|
            0 <= b < stack_shape(ss@[0])[0] && 0 <= i < stack_shape(ss@[0])[1] && 0 <= d < stack_shape(
                ss@[0],
            )[2] && 0 <= k < ss@.len() ==> #[trigger] stack_values(r)[b][i][d][k] == stack_values(
                ss@[k],
            )[b][i][d][0],
{
    Stack(Tensor::cat(ss.into_iter().map(|s| s.0).collect(), 3))
}

/// Same shape, device and element type.
pub open spec fn stack_conforms(s: Stack, model: Stack) -> bool {
    &&& stack_shape(s) == stack_shape(model)
    &&& stack_device(s) == stack_device(model)
    &&& stack_dtype(s) == stack_dtype(model)
}

/// Same device and element type.
pub open spec fn stack_same_place(s: Stack, model: Stack) -> bool {
    stack_device(s) == stack_device(model) && stack_dtype(s) == stack_dtype(model)
}

/// `Tensor::clone` of a stack: the same shape, device, element type and
/// elements.
#[verifier::external_body]
pub(crate) fn stack_duplicate(s: &Stack) -> (r: Stack)
    ensures
        stack_conforms(r, *s),
        stack_values(r) == stack_values(*s),
{
    Stack(s.0.clone())
}

/// `Tensor::zeros_like` of a stack, which panics on quantized element types:
/// the same shape, device and element type, every element `+0.0`.
#[verifier::external_body]
pub(crate) fn stack_zeros_like(s: &Stack) -> (r: Stack)
    requires
        dtype_is_float(stack_dtype(*s)),
    ensures
        stack_conforms(r, *s),
        forall|b: int, i: int, d: int, k: int|
            in_stack(stack_shape(*s), b, i, d, k) ==> #[trigger] stack_values(r)[b][i][d][k] == 0,
{
    Stack(s.0.zeros_like())
}

/// `Tensor::from_data`: a `[1, 1, 1, 1]` stack holding the number that
/// `value` encodes, converted to the element type of `like`, on its device.
#[verifier::external_body]
pub(crate) fn stack_constant(like: &Stack, value: Binary64) -> (r: Stack)
    requires
        dtype_is_float(stack_dtype(*like)),
    ensures
        stack_shape(r) == seq![1usize, 1usize, 1usize, 1usize],
        stack_same_place(r, *like),
        is_nan_bits(stack_values(r)[0][0][0][0]) == is_nan_bits(value.bits),
        !is_nan_bits(value.bits) ==> stack_values(r)[0][0][0][0] == float_from_f64(stack_dtype(*like), value.bits),
{
    let data = TensorData::from_bytes_vec(value.bits.to_le_bytes().to_vec(), [1, 1, 1, 1], DType::F64);
    Stack(Tensor::from_data(data, (&like.0.device(), like.0.dtype())))
}

/// `Tensor::neg` of a stack: the elementwise negation `-x`, of the same
/// shape, device and element type; each element that is not a NaN has its
/// sign toggled, and a NaN stays a NaN (what its payload becomes is left
/// unsaid).
#[verifier::external_body]
pub(crate) fn stack_negate(s: Stack) -> (r: Stack)
    requires
        dtype_is_float(stack_dtype(s)),
    ensures
        stack_conforms(r, s),
        forall|p: int, i: int, d: int, k: int|
            in_stack(stack_shape(s), p, i, d, k) ==> {
                &&& is_nan_bits(#[trigger] stack_values(r)[p][i][d][k]) == is_nan_bits(stack_values(s)[p][i][d][k])
                &&& !is_nan_bits(stack_values(s)[p][i][d][k]) ==> stack_values(r)[p][i][d][k] == flip_sign(
                    stack_values(s)[p][i][d][k],
                )
            },
{
    Stack(s.0.neg())
}

/// `Tensor::exp` of a stack, claimed here only to keep the shape, device and
/// element type.
#[verifier::external_body]
pub(crate) fn stack_exponential(s: Stack) -> (r: Stack)
    requires
        dtype_is_float(stack_dtype(s)),
    ensures
        stack_conforms(r, s),
{
    Stack(s.0.exp())
}

/// `Tensor::log` of a stack, claimed here only to keep the shape, device and
/// element type.
#[verifier::external_body]
pub(crate) fn stack_logarithm(s: Stack) -> (r: Stack)
    requires
        dtype_is_float(stack_dtype(s)),
    ensures
        stack_conforms(r, s),
{
    Stack(s.0.log())
}

/// `Tensor::add` of stacks, broadcasting: the broadcast shape, on the first
/// stack's device and element type; Burn panics on other shapes or places.
/// Between stacks of one shape a NaN operand gives a NaN, and elements that
/// are not NaNs are added as [`float_add`] adds, up to the bits of a NaN.
#[verifier::external_body]
pub(crate) fn stack_plus(a: Stack, b: Stack) -> (r: Stack)
    requires
        dtype_is_float(stack_dtype(a)),
        broadcastable(stack_shape(a), stack_shape(b)),
        stack_same_place(a, b),
    ensures
        stack_shape(r) == broadcast(stack_shape(a), stack_shape(b)),
        stack_same_place(r, a),
        stack_shape(b) == stack_shape(a) ==> forall|p: int, i: int, d: int, k: int|
            in_stack(stack_shape(a), p, i, d, k) && (is_nan_bits(stack_values(a)[p][i][d][k]) || is_nan_bits(
                stack_values(b)[p][i][d][k],
            )) ==> is_nan_bits(#[trigger] stack_values(r)[p][i][d][k]),
        stack_shape(b) == stack_shape(a) ==> forall|p: int, i: int, d: int, k: int|
            in_stack(stack_shape(a), p, i, d, k) && !is_nan_bits(stack_values(a)[p][i][d][k]) && !is_nan_bits(
                stack_values(b)[p][i][d][k],
            ) ==> same_number(
                #[trigger] stack_values(r)[p][i][d][k],
                float_add(stack_dtype(a), stack_values(a)[p][i][d][k], stack_values(b)[p][i][d][k]),
            ),
{
    Stack(a.0.add(b.0))
}

/// `Tensor::sub` of stacks, broadcasting: the broadcast shape, on the first
/// stack's device and element type; Burn panics on other shapes or places.
#[verifier::external_body]
pub(crate) fn stack_minus(a: Stack, b: Stack) -> (r: Stack)
    requires
        dtype_is_float(stack_dtype(a)),
        broadcastable(stack_shape(a), stack_shape(b)),
        stack_same_place(a, b),
    ensures
        stack_shape(r) == broadcast(stack_shape(a), stack_shape(b)),
        stack_same_place(r, a),
{
    Stack(a.0.sub(b.0))
}

/// `Tensor::mul` of stacks, broadcasting: the broadcast shape, on the first
/// stack's device and element type; Burn panics on other shapes or places.
/// Between stacks of one shape, as IEEE multiplication gives: a NaN stays a
/// NaN, times `1.0` an element is itself, and a finite element times `+0.0`
/// is a zero. By a single-element stack, each element is multiplied as
/// [`float_mul`] multiplies (a NaN operand giving a NaN).
#[verifier::external_body]
pub(crate) fn stack_times(a: Stack, b: Stack) -> (r: Stack)
    requires
        dtype_is_float(stack_dtype(a)),
        broadcastable(stack_shape(a), stack_shape(b)),
        stack_same_place(a, b),
    ensures
        stack_shape(r) == broadcast(stack_shape(a), stack_shape(b)),
        stack_same_place(r, a),
        stack_shape(b) == stack_shape(a) ==> forall|p: int, i: int, d: int, k: int|
            in_stack(stack_shape(a), p, i, d, k) ==> {
                &&& is_nan_bits(stack_values(a)[p][i][d][k]) ==> is_nan_bits(#[trigger] stack_values(r)[p][i][d][k])
                &&& stack_values(b)[p][i][d][k] == one_bits() ==> same_number(
                    stack_values(r)[p][i][d][k],
                    stack_values(a)[p][i][d][k],
                )
                &&& stack_values(b)[p][i][d][k] == 0 && is_finite_bits(stack_values(a)[p][i][d][k])
                    ==> is_zero_bits(stack_values(r)[p][i][d][k])
            },
        stack_shape(b) == seq![1usize, 1usize, 1usize, 1usize] ==> forall|p: int, i: int, d: int, k: int|
            in_stack(stack_shape(a), p, i, d, k) ==> {
                &&& is_nan_bits(stack_values(a)[p][i][d][k]) || is_nan_bits(stack_values(b)[0][0][0][0])
                    ==> is_nan_bits(#[trigger] stack_values(r)[p][i][d][k])
                &&& !is_nan_bits(stack_values(a)[p][i][d][k]) && !is_nan_bits(stack_values(b)[0][0][0][0])
                    ==> same_number(
                    stack_values(r)[p][i][d][k],
                    float_mul(stack_dtype(a), stack_values(a)[p][i][d][k], stack_values(b)[0][0][0][0]),
                )
            },
{
    Stack(a.0.mul(b.0))
}

/// `Tensor::div` of stacks, broadcasting: the broadcast shape, on the first
/// stack's device and element type; Burn panics on other shapes or places.
/// Between stacks of one shape a NaN stays a NaN and an element divided by
/// `1.0` is itself. By a single-element stack, each element is divided as
/// [`float_div`] divides (a NaN operand giving a NaN), which is what
/// [`div_value`] gives up to the bits of a NaN.
#[verifier::external_body]
pub(crate) fn stack_divide(a: Stack, b: Stack) -> (r: Stack)
    requires
        dtype_is_float(stack_dtype(a)),
        broadcastable(stack_shape(a), stack_shape(b)),
        stack_same_place(a, b),
    ensures
        stack_shape(r) == broadcast(stack_shape(a), stack_shape(b)),
        stack_same_place(r, a),
        stack_shape(b) == stack_shape(a) ==> forall|p: int, i: int, d: int, k: int|
            in_stack(stack_shape(a), p, i, d, k) ==> {
                &&& is_nan_bits(stack_values(a)[p][i][d][k]) ==> is_nan_bits(#[trigger] stack_values(r)[p][i][d][k])
                &&& stack_values(b)[p][i][d][k] == one_bits() ==> same_number(
                    stack_values(r)[p][i][d][k],
                    stack_values(a)[p][i][d][k],
                )
            },
        stack_shape(b) == seq![1usize, 1usize, 1usize, 1usize] ==> forall|p: int, i: int, d: int, k: int|
            in_stack(stack_shape(a), p, i, d, k) ==> {
                &&& is_nan_bits(stack_values(a)[p][i][d][k]) || is_nan_bits(stack_values(b)[0][0][0][0])
                    ==> is_nan_bits(#[trigger] stack_values(r)[p][i][d][k])
                &&& !is_nan_bits(stack_values(a)[p][i][d][k]) && !is_nan_bits(stack_values(b)[0][0][0][0])
                    ==> same_number(
                    stack_values(r)[p][i][d][k],
                    float_div(stack_dtype(a), stack_values(a)[p][i][d][k], stack_values(b)[0][0][0][0]),
                )
                &&& same_number(
                    stack_values(r)[p][i][d][k],
                    div_value(stack_dtype(a), stack_values(a)[p][i][d][k], stack_values(b)[0][0][0][0]),
                )
            },
{
    Stack(a.0.div(b.0))
}

/// The entries of the place `[b][i][d]` of a stack.
pub open spec fn entries_at(s: Stack, b: int, i: int, d: int) -> Seq<u64> {
    Seq::new(stack_shape(s)[3] as nat, |k: int| stack_values(s)[b][i][d][k])
}

/// `Tensor::max_dim` over the last axis: that axis reduced to size 1, on the
/// same device and element type; Burn panics on an empty axis. On each of
/// its paths (a scan, or for `f32` rows a SIMD pass that records NaN lanes)
/// Burn gives a NaN where an entry of the place is one, and otherwise one of
/// the entries and the largest; which of two zeros of opposite sign the
/// SIMD pass keeps is left unsaid.
#[verifier::external_body]
pub(crate) fn stack_max(s: Stack) -> (r: Stack)
    requires
        dtype_is_float(stack_dtype(s)),
        stack_shape(s).len() == 4,
        stack_shape(s)[3] > 0,
    ensures
        stack_shape(r) == reduced(stack_shape(s), 3),
        stack_same_place(r, s),
        forall|b: int, i: int, d: int|
            0 <= b < stack_shape(s)[0] && 0 <= i < stack_shape(s)[1] && 0 <= d < stack_shape(s)[2]
                ==> attains_max(
                entries_at(s, b, i, d),
                #[trigger] stack_values(r)[b][i][d][0],
            ),
{
    Stack(s.0.max_dim(3))
}

/// `Tensor::min_dim` over the last axis: that axis reduced to size 1, on the
/// same device and element type; Burn panics on an empty axis. As for
/// [`stack_max`], the result is a NaN where an entry of the place is one,
/// and otherwise one of the entries and the smallest.
#[verifier::external_body]
pub(crate) fn stack_min(s: Stack) -> (r: Stack)
    requires
        dtype_is_float(stack_dtype(s)),
        stack_shape(s).len() == 4,
        stack_shape(s)[3] > 0,
    ensures
        stack_shape(r) == reduced(stack_shape(s), 3),
        stack_same_place(r, s),
        forall|b: int, i: int, d: int|
            0 <= b < stack_shape(s)[0] && 0 <= i < stack_shape(s)[1] && 0 <= d < stack_shape(s)[2]
                ==> attains_min(
                entries_at(s, b, i, d),
                #[trigger] stack_values(r)[b][i][d][0],
            ),
{
    Stack(s.0.min_dim(3))
}

/// `Tensor::sum_dim` over the last axis: that axis reduced to size 1, on the
/// same device and element type. The order of the additions follows the
/// machine's SIMD width, but in every order IEEE addition gives a NaN where
/// an entry is one, and, where every entry but one is a zero, that entry up
/// to the sign of a zero.
#[verifier::external_body]
pub(crate) fn stack_sum(s: Stack) -> (r: Stack)
    requires
        dtype_is_float(stack_dtype(s)),
        stack_shape(s).len() == 4,
        stack_shape(s)[3] > 0,
    ensures
        stack_shape(r) == reduced(stack_shape(s), 3),
        stack_same_place(r, s),
        forall|b: int, i: int, d: int|
            0 <= b < stack_shape(s)[0] && 0 <= i < stack_shape(s)[1] && 0 <= d < stack_shape(s)[2] ==> {
                &&& !no_nan(entries_at(s, b, i, d)) ==> is_nan_bits(#[trigger] stack_values(r)[b][i][d][0])
                &&& forall|k: int|
                    0 <= k < stack_shape(s)[3] && all_zero_but(entries_at(s, b, i, d), k) ==> alike(
                        stack_values(r)[b][i][d][0],
                        #[trigger] entries_at(s, b, i, d)[k],
                    )
            },
{
    Stack(s.0.sum_dim(3))
}

/// `Tensor::equal` of stacks, broadcasting: a boolean tensor of the broadcast
/// shape on the first stack's device; Burn panics on other shapes or places.
/// Against one entry per place, each entry holds IEEE equality with it.
#[verifier::external_body]
pub(crate) fn stack_equal_mask(a: Stack, b: Stack) -> (r: StackMask)
    requires
        broadcastable(stack_shape(a), stack_shape(b)),
        stack_same_place(a, b),
    ensures
        stack_mask_shape(r) == broadcast(stack_shape(a), stack_shape(b)),
        stack_mask_device(r) == stack_device(a),
        stack_shape(b) == stack_shape(a).update(3, 1usize) ==> forall|p: int, i: int, d: int, k: int|
            in_stack(stack_shape(a), p, i, d, k) ==> #[trigger] stack_mask_values(r)[p][i][d][k] == float_equal(
                stack_values(a)[p][i][d][k],
                stack_values(b)[p][i][d][0],
            ),
{
    StackMask(a.0.equal(b.0))
}

/// `Tensor::mask_fill` of a stack with one where the mask holds: the same
/// shape, device and element type; the mask must have the stack's shape and
/// device. Where the mask holds the element is `1.0`, elsewhere it is kept.
#[verifier::external_body]
pub(crate) fn stack_fill_one(s: Stack, m: StackMask) -> (r: Stack)
    requires
        dtype_is_float(stack_dtype(s)),
        stack_mask_shape(m) == stack_shape(s),
        stack_mask_device(m) == stack_device(s),
    ensures
        stack_conforms(r, s),
        forall|p: int, i: int, d: int, k: int|
            in_stack(stack_shape(s), p, i, d, k) ==> #[trigger] stack_values(r)[p][i][d][k] == if stack_mask_values(
                m,
            )[p][i][d][k] {
                one_bits()
            } else {
                stack_values(s)[p][i][d][k]
            },
{
    Stack(s.0.mask_fill(m.0, 1))
}

} // verus!
