use vstd::prelude::*;
use vstd::std_specs::convert::FromSpecImpl;
use vstd::std_specs::ops::{AddSpecImpl, DivSpecImpl, MulSpecImpl, NegSpecImpl, SubSpecImpl};
use vstd::string::StringExecFns;

use crate::env::{position, SignalEnv};
use crate::error::{Fault, StlcgError};
use crate::formula::Formula;
use crate::ops::lemma_broadcast_shapes;
use crate::scalar::Binary64;
use crate::trace::{
    absolute, add_value, clear_sign, conforms, constant, conv_value, dims, div_value, divide,
    element_at, expand, flip_sign, in_shape, is_nan_bits, minus, mul_value, negate, plus,
    same_number, same_place, sub_value, times, trace_dtype, trace_shape, trace_values, Trace,
};

verus! {

/// Signal expression used in predicates.
#[derive(Debug)]
pub enum Expr {
    /// Named signal looked up in a [`SignalEnv`].
    Var(String),
    /// Scalar value broadcast to the current trace shape during evaluation.
    Scalar(Binary64),
    /// Unary negation.
    Neg(Box<Expr>),
    /// Elementwise addition.
    Add(Box<Expr>, Box<Expr>),
    /// Elementwise subtraction.
    Sub(Box<Expr>, Box<Expr>),
    /// Elementwise multiplication.
    Mul(Box<Expr>, Box<Expr>),
    /// Elementwise division.
    Div(Box<Expr>, Box<Expr>),
    /// Elementwise absolute value.
    Abs(Box<Expr>),
}

/// The signal names that evaluating `e` looks up, in the order of lookup.
pub open spec fn expr_vars(e: Expr) -> Seq<Seq<char>>
    decreases e,
{
    match e {
        Expr::Var(name) => seq![name@],
        Expr::Scalar(_) => Seq::empty(),
        Expr::Neg(inner) => expr_vars(*inner),
        Expr::Abs(inner) => expr_vars(*inner),
        Expr::Add(l, r) => expr_vars(*l) + expr_vars(*r),
        Expr::Sub(l, r) => expr_vars(*l) + expr_vars(*r),
        Expr::Mul(l, r) => expr_vars(*l) + expr_vars(*r),
        Expr::Div(l, r) => expr_vars(*l) + expr_vars(*r),
    }
}

/// The error that evaluating `e` over an empty environment reports: that of
/// its leftmost leaf, a missing signal for a variable and an empty
/// environment for a scalar.
pub open spec fn leading_fault(e: Expr) -> Fault
    decreases e,
{
    match e {
        Expr::Var(name) => Fault::MissingSignal(name@),
        Expr::Scalar(_) => Fault::EmptySignalEnv,
        Expr::Neg(inner) => leading_fault(*inner),
        Expr::Abs(inner) => leading_fault(*inner),
        Expr::Add(l, _) => leading_fault(*l),
        Expr::Sub(l, _) => leading_fault(*l),
        Expr::Mul(l, _) => leading_fault(*l),
        Expr::Div(l, _) => leading_fault(*l),
    }
}

/// The environment binds `name`.
pub open spec fn bound(env: SignalEnv, name: Seq<char>) -> bool {
    position(env.entries(), name) is Some
}

/// The first of `names` that the environment does not bind.
pub open spec fn first_unbound(names: Seq<Seq<char>>, env: SignalEnv) -> Option<Seq<char>>
    decreases names.len(),
{
    if names.len() == 0 {
        None
    } else if !bound(env, names[0]) {
        Some(names[0])
    } else {
        first_unbound(names.drop_first(), env)
    }
}

/// The first unbound name of two lists read in turn is the first unbound
/// name of the first list, or else of the second.
pub proof fn lemma_first_unbound_append(a: Seq<Seq<char>>, b: Seq<Seq<char>>, env: SignalEnv)
    ensures
        first_unbound(a + b, env) == (match first_unbound(a, env) {
            Some(n) => Some(n),
            None => first_unbound(b, env),
        }),
    decreases a.len(),
{
    if a.len() > 0 {
        assert((a + b).drop_first() =~= a.drop_first() + b);
        lemma_first_unbound_append(a.drop_first(), b, env);
    } else {
        assert(a + b =~= b);
    }
}

/// The environment can evaluate expressions and formulas: its signals share
/// one shape with a non-empty time axis, one device and one float element type.
pub open spec fn ready_env(env: SignalEnv) -> bool {
    env.shapes_agree() && env.storage_agrees()
}

/// The trace of an evaluation has the shape and the place of the
/// environment's first signal.
pub open spec fn fits_env(t: Trace, env: SignalEnv) -> bool {
    conforms(t, env.entries()[0].1)
}

/// The outcome of an evaluation that looks up `names`: a missing-signal
/// error for the first unbound name, or a trace that fits the environment.
pub open spec fn lookup_outcome(r: Result<Trace, StlcgError>, names: Seq<Seq<char>>, env: SignalEnv) -> bool {
    match first_unbound(names, env) {
        Some(n) => r matches Err(e) && e@ == Fault::MissingSignal(n),
        None => r matches Ok(t) && fits_env(t, env),
    }
}

/// The number, as its encoding, that evaluating `e` over `env` gives at the
/// place `[b][i][d]`, computed in the element type of the environment's
/// signals; a NaN wherever evaluation gives one.
pub open spec fn expr_value(e: Expr, env: SignalEnv, b: int, i: int, d: int) -> u64
    decreases e,
{
    let dtype = trace_dtype(env.entries()[0].1);
    match e {
        Expr::Var(name) => match position(env.entries(), name@) {
            Some(k) => trace_values(env.entries()[k].1)[b][i][d],
            None => 0,
        },
        Expr::Scalar(value) => conv_value(dtype, value.bits),
        Expr::Neg(inner) => flip_sign(expr_value(*inner, env, b, i, d)),
        Expr::Abs(inner) => clear_sign(expr_value(*inner, env, b, i, d)),
        Expr::Add(l, r) => add_value(dtype, expr_value(*l, env, b, i, d), expr_value(*r, env, b, i, d)),
        Expr::Sub(l, r) => sub_value(dtype, expr_value(*l, env, b, i, d), expr_value(*r, env, b, i, d)),
        Expr::Mul(l, r) => mul_value(dtype, expr_value(*l, env, b, i, d), expr_value(*r, env, b, i, d)),
        Expr::Div(l, r) => div_value(dtype, expr_value(*l, env, b, i, d), expr_value(*r, env, b, i, d)),
    }
}

/// Each sample of `t` is what evaluating `e` gives there (up to the bits of
/// a NaN).
pub open spec fn evaluates(t: Trace, e: Expr, env: SignalEnv) -> bool {
    forall|b: int, i: int, d: int|
        in_shape(env.expected_shape(), b, i, d) ==> same_number(
            #[trigger] trace_values(t)[b][i][d],
            expr_value(e, env, b, i, d),
        )
}

/// Create a named signal expression.
pub fn var(name: &str) -> (r: Expr)
    ensures
        r matches Expr::Var(n) && n@ == name@,
{
    Expr::Var(String::from_str(name))
}

/// Create a scalar expression.
pub fn scalar(value: Binary64) -> (r: Expr)
    ensures
        r == Expr::Scalar(value),
{
    Expr::Scalar(value)
}

impl Expr {
    /// Take the elementwise absolute value of this expression.
    pub fn abs(self) -> (r: Self)
        ensures
            r == Expr::Abs(Box::new(self)),
    {
        Expr::Abs(Box::new(self))
    }

    /// Build a predicate whose robustness is positive when `self <= rhs`.
    pub fn le(self, rhs: Expr) -> (r: Formula)
        ensures
            r == (Formula::Predicate { lhs: self, op: crate::formula::PredicateOp::LessEqual, rhs }),
    {
        Formula::less_equal(self, rhs)
    }

    /// Build a predicate whose robustness is positive when `self >= rhs`.
    pub fn ge(self, rhs: Expr) -> (r: Formula)
        ensures
            r == (Formula::Predicate { lhs: self, op: crate::formula::PredicateOp::GreaterEqual, rhs }),
    {
        Formula::greater_equal(self, rhs)
    }

    /// Build an equality predicate with robustness `-abs(self - rhs)`.
    pub fn eq_value(self, rhs: Expr) -> (r: Formula)
        ensures
            r == (Formula::Predicate { lhs: self, op: crate::formula::PredicateOp::Equal, rhs }),
    {
        Formula::equal(self, rhs)
    }

    /// Treat this expression directly as a robustness-valued formula.
    pub fn into_formula(self) -> (r: Formula)
        ensures
            r == Formula::Expression(self),
    {
        Formula::expression(self)
    }

    /// Evaluate the expression elementwise over the environment's signals.
    pub(crate) fn eval(&self, env: &SignalEnv) -> (r: Result<Trace, StlcgError>)
        requires
            env.entries().len() > 0 ==> ready_env(*env),
        ensures
            env.entries().len() > 0 ==> lookup_outcome(r, expr_vars(*self), *env),
            env.entries().len() == 0 ==> (r matches Err(e) && e@ == leading_fault(*self)),
            r matches Ok(t) ==> evaluates(t, *self, *env),
        decreases self,
    {
        let ghost shape = env.expected_shape();
        let ghost dtype = trace_dtype(env.entries()[0].1);
        match self {
            Expr::Var(name) => {
                let r = env.get(name.as_str());
                proof {
                    assert(expr_vars(*self) == seq![name@]);
                    assert(seq![name@].drop_first() =~= Seq::<Seq<char>>::empty());
                    assert(first_unbound(Seq::<Seq<char>>::empty(), *env) is None);
                    assert(first_unbound(seq![name@], *env) == (if bound(*env, name@) {
                        None::<Seq<char>>
                    } else {
                        Some(name@)
                    }));
                    if let Some(k) = position(env.entries(), name@) {
                        assert(trace_shape(env.entries()[k].1) == env.expected_shape());
                        assert(same_place(env.entries()[k].1, env.entries()[0].1));
                    }
                    if r is Ok {
                        assert(evaluates(r->Ok_0, *self, *env));
                    }
                }
                r
            }
            Expr::Scalar(value) => {
                let template = match env.template() {
                    Ok(t) => t,
                    Err(e) => return Err(e),
                };
                let dimensions = dims(&template);
                let c = constant(&template, *value);
                let t = expand(c, dimensions);
                proof {
                    assert forall|b: int, i: int, d: int| in_shape(shape, b, i, d) implies same_number(
                        #[trigger] trace_values(t)[b][i][d],
                        expr_value(*self, *env, b, i, d),
                    ) by {
                        assert(trace_values(t)[b][i][d] == element_at(c, b, i, d));
                        assert(element_at(c, b, i, d) == trace_values(c)[0][0][0]);
                    }
                }
                Ok(t)
            }
            Expr::Neg(inner) => {
                let u = inner.eval(env)?;
                let ghost gu = u;
                let t = negate(u);
                proof {
                    assert(trace_shape(gu) == shape);
                    assert forall|b: int, i: int, d: int| in_shape(shape, b, i, d) implies same_number(
                        #[trigger] trace_values(t)[b][i][d],
                        expr_value(*self, *env, b, i, d),
                    ) by {
                        let x = expr_value(**inner, *env, b, i, d);
                        assert(same_number(trace_values(gu)[b][i][d], x));
                        crate::trace::lemma_sign_keeps_nan(x);
                        crate::trace::lemma_sign_keeps_nan(trace_values(gu)[b][i][d]);
                    }
                }
                Ok(t)
            }
            Expr::Abs(inner) => {
                let u = inner.eval(env)?;
                let ghost gu = u;
                let t = absolute(u);
                proof {
                    assert(trace_shape(gu) == shape);
                    assert forall|b: int, i: int, d: int| in_shape(shape, b, i, d) implies same_number(
                        #[trigger] trace_values(t)[b][i][d],
                        expr_value(*self, *env, b, i, d),
                    ) by {
                        let x = expr_value(**inner, *env, b, i, d);
                        assert(same_number(trace_values(gu)[b][i][d], x));
                        crate::trace::lemma_sign_keeps_nan(x);
                        crate::trace::lemma_sign_keeps_nan(trace_values(gu)[b][i][d]);
                    }
                }
                Ok(t)
            }
            Expr::Add(l, r) => {
                proof {
                    lemma_first_unbound_append(expr_vars(**l), expr_vars(**r), *env);
                    if env.entries().len() > 0 {
                        lemma_broadcast_shapes(env.expected_shape(), 0);
                    }
                }
                let a = l.eval(env)?;
                let b = r.eval(env)?;
                let ghost (va, vb) = (a, b);
                let t = plus(a, b);
                proof {
                    binary_evaluates(va, vb, t, **l, **r, *env);
                    assert forall|p: int, i: int, d: int| in_shape(shape, p, i, d) implies same_number(
                        #[trigger] trace_values(t)[p][i][d],
                        expr_value(*self, *env, p, i, d),
                    ) by {
                        assert(in_shape(trace_shape(t), p, i, d));
                        assert(crate::trace::nan_spreads(va, vb, t, p, i, d));
                    }
                }
                Ok(t)
            }
            Expr::Sub(l, r) => {
                proof {
                    lemma_first_unbound_append(expr_vars(**l), expr_vars(**r), *env);
                    if env.entries().len() > 0 {
                        lemma_broadcast_shapes(env.expected_shape(), 0);
                    }
                }
                let a = l.eval(env)?;
                let b = r.eval(env)?;
                let ghost (va, vb) = (a, b);
                let t = minus(a, b);
                proof {
                    binary_evaluates(va, vb, t, **l, **r, *env);
                    assert forall|p: int, i: int, d: int| in_shape(shape, p, i, d) implies same_number(
                        #[trigger] trace_values(t)[p][i][d],
                        expr_value(*self, *env, p, i, d),
                    ) by {
                        assert(in_shape(trace_shape(t), p, i, d));
                        assert(crate::trace::nan_spreads(va, vb, t, p, i, d));
                    }
                }
                Ok(t)
            }
            Expr::Mul(l, r) => {
                proof {
                    lemma_first_unbound_append(expr_vars(**l), expr_vars(**r), *env);
                    if env.entries().len() > 0 {
                        lemma_broadcast_shapes(env.expected_shape(), 0);
                    }
                }
                let a = l.eval(env)?;
                let b = r.eval(env)?;
                let ghost (va, vb) = (a, b);
                let t = times(a, b);
                proof {
                    binary_evaluates(va, vb, t, **l, **r, *env);
                    assert forall|p: int, i: int, d: int| in_shape(shape, p, i, d) implies same_number(
                        #[trigger] trace_values(t)[p][i][d],
                        expr_value(*self, *env, p, i, d),
                    ) by {
                        assert(in_shape(trace_shape(t), p, i, d));
                        assert(crate::trace::nan_spreads(va, vb, t, p, i, d));
                    }
                }
                Ok(t)
            }
            Expr::Div(l, r) => {
                proof {
                    lemma_first_unbound_append(expr_vars(**l), expr_vars(**r), *env);
                    if env.entries().len() > 0 {
                        lemma_broadcast_shapes(env.expected_shape(), 0);
                    }
                }
                let a = l.eval(env)?;
                let b = r.eval(env)?;
                let ghost (va, vb) = (a, b);
                let t = divide(a, b);
                proof {
                    binary_evaluates(va, vb, t, **l, **r, *env);
                    assert forall|p: int, i: int, d: int| in_shape(shape, p, i, d) implies same_number(
                        #[trigger] trace_values(t)[p][i][d],
                        expr_value(*self, *env, p, i, d),
                    ) by {
                        assert(in_shape(trace_shape(t), p, i, d));
                        assert(crate::trace::nan_spreads(va, vb, t, p, i, d));
                    }
                }
                Ok(t)
            }
        }
    }
}

/// The operands of a binary operation over the environment are read
/// unbroadcast, in the environment's element type, and hold what their
/// expressions give.
proof fn binary_evaluates(a: Trace, b: Trace, t: Trace, l: Expr, r: Expr, env: SignalEnv)
    requires
        ready_env(env),
        fits_env(a, env),
        fits_env(b, env),
        evaluates(a, l, env),
        evaluates(b, r, env),
        trace_shape(t) == env.expected_shape(),
    ensures
        trace_dtype(a) == trace_dtype(env.entries()[0].1),
        forall|p: int, i: int, d: int|
            #![trigger element_at(a, p, i, d)]
            #![trigger element_at(b, p, i, d)]
            in_shape(env.expected_shape(), p, i, d) ==> {
                &&& element_at(a, p, i, d) == trace_values(a)[p][i][d]
                &&& element_at(b, p, i, d) == trace_values(b)[p][i][d]
                &&& same_number(element_at(a, p, i, d), expr_value(l, env, p, i, d))
                &&& same_number(element_at(b, p, i, d), expr_value(r, env, p, i, d))
            },
{
    assert forall|p: int, i: int, d: int| in_shape(env.expected_shape(), p, i, d) implies {
        &&& element_at(a, p, i, d) == trace_values(a)[p][i][d]
        &&& element_at(b, p, i, d) == trace_values(b)[p][i][d]
        &&& same_number(element_at(a, p, i, d), expr_value(l, env, p, i, d))
        &&& same_number(element_at(b, p, i, d), expr_value(r, env, p, i, d))
    } by {
        assert(same_number(trace_values(a)[p][i][d], expr_value(l, env, p, i, d)));
        assert(same_number(trace_values(b)[p][i][d], expr_value(r, env, p, i, d)));
    }
}

impl core::ops::Add for Expr {
    type Output = Expr;

    /// Elementwise sum.
    fn add(self, rhs: Expr) -> (r: Expr)
        ensures
            r == Expr::Add(Box::new(self), Box::new(rhs)),
    {
        Expr::Add(Box::new(self), Box::new(rhs))
    }
}

impl AddSpecImpl for Expr {
    open spec fn obeys_add_spec() -> bool {
        true
    }

    open spec fn add_req(self, rhs: Expr) -> bool {
        true
    }

    open spec fn add_spec(self, rhs: Expr) -> Expr {
        Expr::Add(Box::new(self), Box::new(rhs))
    }
}

impl core::ops::Add<Binary64> for Expr {
    type Output = Expr;

    /// Elementwise sum with a scalar.
    fn add(self, rhs: Binary64) -> (r: Expr)
        ensures
            r == Expr::Add(Box::new(self), Box::new(Expr::Scalar(rhs))),
    {
        Expr::Add(Box::new(self), Box::new(Expr::Scalar(rhs)))
    }
}

impl AddSpecImpl<Binary64> for Expr {
    open spec fn obeys_add_spec() -> bool {
        true
    }

    open spec fn add_req(self, rhs: Binary64) -> bool {
        true
    }

    open spec fn add_spec(self, rhs: Binary64) -> Expr {
        Expr::Add(Box::new(self), Box::new(Expr::Scalar(rhs)))
    }
}

impl core::ops::Sub for Expr {
    type Output = Expr;

    /// Elementwise difference.
    fn sub(self, rhs: Expr) -> (r: Expr)
        ensures
            r == Expr::Sub(Box::new(self), Box::new(rhs)),
    {
        Expr::Sub(Box::new(self), Box::new(rhs))
    }
}

impl SubSpecImpl for Expr {
    open spec fn obeys_sub_spec() -> bool {
        true
    }

    open spec fn sub_req(self, rhs: Expr) -> bool {
        true
    }

    open spec fn sub_spec(self, rhs: Expr) -> Expr {
        Expr::Sub(Box::new(self), Box::new(rhs))
    }
}

impl core::ops::Sub<Binary64> for Expr {
    type Output = Expr;

    /// Elementwise difference with a scalar.
    fn sub(self, rhs: Binary64) -> (r: Expr)
        ensures
            r == Expr::Sub(Box::new(self), Box::new(Expr::Scalar(rhs))),
    {
        Expr::Sub(Box::new(self), Box::new(Expr::Scalar(rhs)))
    }
}

impl SubSpecImpl<Binary64> for Expr {
    open spec fn obeys_sub_spec() -> bool {
        true
    }

    open spec fn sub_req(self, rhs: Binary64) -> bool {
        true
    }

    open spec fn sub_spec(self, rhs: Binary64) -> Expr {
        Expr::Sub(Box::new(self), Box::new(Expr::Scalar(rhs)))
    }
}

impl core::ops::Mul for Expr {
    type Output = Expr;

    /// Elementwise product.
    fn mul(self, rhs: Expr) -> (r: Expr)
        ensures
            r == Expr::Mul(Box::new(self), Box::new(rhs)),
    {
        Expr::Mul(Box::new(self), Box::new(rhs))
    }
}

impl MulSpecImpl for Expr {
    open spec fn obeys_mul_spec() -> bool {
        true
    }

    open spec fn mul_req(self, rhs: Expr) -> bool {
        true
    }

    open spec fn mul_spec(self, rhs: Expr) -> Expr {
        Expr::Mul(Box::new(self), Box::new(rhs))
    }
}

impl core::ops::Mul<Binary64> for Expr {
    type Output = Expr;

    /// Elementwise product with a scalar.
    fn mul(self, rhs: Binary64) -> (r: Expr)
        ensures
            r == Expr::Mul(Box::new(self), Box::new(Expr::Scalar(rhs))),
    {
        Expr::Mul(Box::new(self), Box::new(Expr::Scalar(rhs)))
    }
}

impl MulSpecImpl<Binary64> for Expr {
    open spec fn obeys_mul_spec() -> bool {
        true
    }

    open spec fn mul_req(self, rhs: Binary64) -> bool {
        true
    }

    open spec fn mul_spec(self, rhs: Binary64) -> Expr {
        Expr::Mul(Box::new(self), Box::new(Expr::Scalar(rhs)))
    }
}

impl core::ops::Div for Expr {
    type Output = Expr;

    /// Elementwise quotient.
    fn div(self, rhs: Expr) -> (r: Expr)
        ensures
            r == Expr::Div(Box::new(self), Box::new(rhs)),
    {
        Expr::Div(Box::new(self), Box::new(rhs))
    }
}

impl DivSpecImpl for Expr {
    open spec fn obeys_div_spec() -> bool {
        true
    }

    open spec fn div_req(self, rhs: Expr) -> bool {
        true
    }

    open spec fn div_spec(self, rhs: Expr) -> Expr {
        Expr::Div(Box::new(self), Box::new(rhs))
    }
}

impl core::ops::Div<Binary64> for Expr {
    type Output = Expr;

    /// Elementwise quotient with a scalar.
    fn div(self, rhs: Binary64) -> (r: Expr)
        ensures
            r == Expr::Div(Box::new(self), Box::new(Expr::Scalar(rhs))),
    {
        Expr::Div(Box::new(self), Box::new(Expr::Scalar(rhs)))
    }
}

impl DivSpecImpl<Binary64> for Expr {
    open spec fn obeys_div_spec() -> bool {
        true
    }

    open spec fn div_req(self, rhs: Binary64) -> bool {
        true
    }

    open spec fn div_spec(self, rhs: Binary64) -> Expr {
        Expr::Div(Box::new(self), Box::new(Expr::Scalar(rhs)))
    }
}

impl core::ops::Neg for Expr {
    type Output = Expr;

    /// Elementwise negation.
    fn neg(self) -> (r: Expr)
        ensures
            r == Expr::Neg(Box::new(self)),
    {
        Expr::Neg(Box::new(self))
    }
}

impl NegSpecImpl for Expr {
    open spec fn obeys_neg_spec() -> bool {
        true
    }

    open spec fn neg_req(self) -> bool {
        true
    }

    open spec fn neg_spec(self) -> Expr {
        Expr::Neg(Box::new(self))
    }
}

impl From<Binary64> for Expr {
    /// A scalar expression.
    fn from(value: Binary64) -> (r: Expr)
        ensures
            r == Expr::Scalar(value),
    {
        Expr::Scalar(value)
    }
}

impl FromSpecImpl<Binary64> for Expr {
    open spec fn obeys_from_spec() -> bool {
        true
    }

    open spec fn from_spec(value: Binary64) -> Expr {
        Expr::Scalar(value)
    }
}

} // verus!
