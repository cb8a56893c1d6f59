//! Core Signal Temporal Logic robustness evaluation on Burn tensors.
//!
//! Traces are rank-3 tensors with shape `[batch, time, dim]`, and time is
//! expected to be reversed: index 0 holds the latest sample.

pub mod env;
pub mod error;
pub mod expr;
pub mod formula;
pub mod interval;
pub mod laws;
pub mod ops;
pub mod options;
pub mod scalar;
pub mod trace;

pub use env::SignalEnv;
pub use error::{Fault, Result, StlcgError};
pub use expr::{scalar, var, Expr};
pub use formula::{Formula, IntegralOptions, IntegrationScheme, PaddingMode, PredicateOp};
pub use interval::Interval;
pub use options::{Aggregation, EvalOptions};
pub use scalar::Binary64;
pub use trace::{BoolTrace, Trace};

use vstd::prelude::*;

use crate::trace::{same_place, trace_shape, trace_values};

verus! {

/// Reverse the time axis of a trace: time `i` of the result is time
/// `len - 1 - i` of the trace.
pub fn reverse_time(trace: Trace) -> (r: Trace)
    ensures
        trace::conforms(r, trace),
        forall|b: int, i: int|
            0 <= b < trace::trace_shape(trace)[0] && 0 <= i < trace::trace_shape(trace)[1]
                ==> #[trigger] trace::trace_values(r)[b][i] == trace::trace_values(trace)[b][
                trace::trace_shape(trace)[1] - 1 - i],
{
    let _ = trace::dims(&trace);
    trace::flip_time(trace)
}

/// The sample of a time-reversed trace at non-reversed time `time`, that is
/// at index `len - time - 1`, as a `[batch, 1, dim]` trace; an error when
/// the trace has no such time.
pub fn sample_at(trace: Trace, time: usize) -> (r: Result<Trace>)
    ensures
        trace_shape(trace).len() == 3,
        time >= trace_shape(trace)[1] ==> (r matches Err(e) && e@ == (Fault::TimeOutOfBounds {
            time,
            len: trace_shape(trace)[1],
        })),
        time < trace_shape(trace)[1] ==> (r matches Ok(t) && trace_shape(t).len() == 3 && trace_shape(t) == trace_shape(
            trace,
        ).update(1, 1usize) && same_place(t, trace) && forall|b: int|
            0 <= b < trace_shape(trace)[0] ==> #[trigger] trace_values(t)[b][0] == trace_values(
                trace,
            )[b][trace_shape(trace)[1] - 1 - time]),
{
    let len = trace::dims(&trace)[1];
    if time >= len {
        return Err(StlcgError::TimeOutOfBounds { time, len });
    }
    Ok(trace::narrow_time(trace, len - time - 1, 1))
}

} // verus!
