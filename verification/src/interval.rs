use vstd::prelude::*;
use vstd::string::StringExecFns;

use crate::error::{Fault, StlcgError};

verus! {

/// Temporal interval over integer trace indices.
#[derive(Debug, Clone, Copy, PartialEq, Eq, Structural)]
pub enum Interval {
    /// `[0, infinity)`.
    Unbounded,
    /// `[start, end]`, inclusive.
    Closed {
        /// Inclusive lower offset bound.
        start: usize,
        /// Inclusive upper offset bound.
        end: usize,
    },
    /// `[start, infinity)`.
    From {
        /// Inclusive lower offset bound.
        start: usize,
    },
}

impl Default for Interval {
    /// The unbounded interval.
    fn default() -> (r: Self)
        ensures
            r == Interval::Unbounded,
    {
        Interval::Unbounded
    }
}

/// The message of the error for a closed interval whose start lies after its end.
pub open spec fn closed_interval_message() -> Seq<char> {
    "closed interval start must be <= end"@
}

/// The consecutive indices `lo, lo + 1, ..., hi`; empty when `hi < lo`.
pub open spec fn index_range(lo: int, hi: int) -> Seq<usize> {
    Seq::new(if hi < lo { 0nat } else { (hi - lo + 1) as nat }, |k: int| (lo + k) as usize)
}

/// `a - b`, or zero where that would be negative.
pub open spec fn saturating_sub(a: int, b: int) -> int {
    if a < b { 0 } else { a - b }
}

impl Interval {
    /// Create an unbounded interval `[0, infinity)`.
    pub fn unbounded() -> (r: Self)
        ensures
            r == Interval::Unbounded,
    {
        Interval::Unbounded
    }

    /// Create a closed interval `[start, end]`.
    pub fn closed(start: usize, end: usize) -> (r: Self)
        ensures
            r == (Interval::Closed { start, end }),
    {
        Interval::Closed { start, end }
    }

    /// Create a lower-bounded interval `[start, infinity)`.
    pub fn from(start: usize) -> (r: Self)
        ensures
            r == (Interval::From { start }),
    {
        Interval::From { start }
    }

    /// The interval is well formed: a closed one does not start after it ends.
    pub open spec fn well_formed(self) -> bool {
        match self {
            Interval::Closed { start, end } => start <= end,
            _ => true,
        }
    }

    /// The fault that [`Interval::validate`] reports, if any.
    pub open spec fn fault(self) -> Option<Fault> {
        if self.well_formed() {
            None
        } else {
            Some(Fault::InvalidInterval(closed_interval_message()))
        }
    }

    /// Reject a closed interval whose start lies after its end.
    pub fn validate(self) -> (r: Result<(), StlcgError>)
        ensures
            r is Ok <==> self.well_formed(),
            r matches Err(e) ==> Some(e@) == self.fault(),
    {
        match self {
            Interval::Closed { start, end } => {
                if start > end {
                    Err(StlcgError::InvalidInterval(String::from_str("closed interval start must be <= end")))
                } else {
                    Ok(())
                }
            }
            _ => Ok(()),
        }
    }
}

/// The indices `lo..=hi` in increasing order.
pub fn range_inclusive(lo: usize, hi: usize) -> (r: Vec<usize>)
    ensures
        r@ == index_range(lo as int, hi as int),
{
    let mut out: Vec<usize> = Vec::new();
    if hi < lo {
        assert(out@ =~= index_range(lo as int, hi as int));
        return out;
    }
    let mut i: usize = lo;
    loop
        invariant_except_break
            out@ =~= index_range(lo as int, i as int - 1),
        invariant
            lo <= i <= hi,
        ensures
            out@ =~= index_range(lo as int, hi as int),
        decreases hi - i,
    {
        out.push(i);
        if i == hi {
            break;
        }
        i = i + 1;
    }
    out
}

/// The times, in the time-reversed trace, at which the right-hand side of an
/// `until` or `then` may hold for the formula evaluated at `index`.
pub open spec fn candidate_times(interval: Interval, index: int) -> Seq<usize> {
    match interval {
        Interval::Unbounded => index_range(0, index),
        Interval::Closed { start, end } => if index < end {
            Seq::empty()
        } else {
            index_range(index - end, index - start)
        },
        Interval::From { start } => if index < start {
            Seq::empty()
        } else {
            index_range(0, index - start)
        },
    }
}

/// Candidate right-hand-side times for `until` and `then` at `index`.
pub fn candidate_indices(interval: Interval, index: usize) -> (r: Vec<usize>)
    requires
        interval matches Interval::Closed { start, end } ==> index < end || start <= index,
    ensures
        r@ == candidate_times(interval, index as int),
        forall|k: int| 0 <= k < r@.len() ==> r@[k] <= index,
{
    match interval {
        Interval::Unbounded => range_inclusive(0, index),
        Interval::Closed { start, end } => {
            if index < end {
                Vec::new()
            } else {
                range_inclusive(index - end, index - start)
            }
        }
        Interval::From { start } => {
            if index < start {
                Vec::new()
            } else {
                range_inclusive(0, index - start)
            }
        }
    }
}

/// The times that a closed window `[start, end]` reads at `index`: one per
/// offset, clamped at the oldest sample.
pub open spec fn closed_window_times(index: int, start: int, end: int) -> Seq<usize> {
    Seq::new(
        if end < start { 0nat } else { (end - start + 1) as nat },
        |k: int| saturating_sub(index, start + k) as usize,
    )
}

/// The times that an `always` or `eventually` over `interval` reads at
/// `index`, in the order in which the window holds them.
pub open spec fn window_times(interval: Interval, index: int) -> Seq<usize> {
    match interval {
        Interval::Unbounded => index_range(0, index),
        Interval::Closed { start, end } => closed_window_times(index, start as int, end as int),
        Interval::From { start } => index_range(0, saturating_sub(index, start as int)),
    }
}

/// The times that a closed window `[start, end]` reads at `index`.
pub fn closed_window_indices(index: usize, start: usize, end: usize) -> (r: Vec<usize>)
    ensures
        r@ == closed_window_times(index as int, start as int, end as int),
        forall|k: int| 0 <= k < r@.len() ==> r@[k] <= index,
{
    let mut out: Vec<usize> = Vec::new();
    if end < start {
        assert(out@ =~= closed_window_times(index as int, start as int, end as int));
        return out;
    }
    let mut offset: usize = start;
    loop
        invariant_except_break
            out@ =~= closed_window_times(index as int, start as int, offset as int - 1),
        invariant
            start <= offset <= end,
            forall|k: int| 0 <= k < out@.len() ==> out@[k] <= index,
        ensures
            out@ =~= closed_window_times(index as int, start as int, end as int),
            forall|k: int| 0 <= k < out@.len() ==> out@[k] <= index,
        decreases end - offset,
    {
        out.push(index.saturating_sub(offset));
        if offset == end {
            break;
        }
        offset = offset + 1;
    }
    out
}

/// The offsets that a finite-window integral sums at `index`; an offset
/// beyond `index` reads padding.
pub open spec fn integral_offsets(interval: Interval, index: int) -> Seq<usize> {
    match interval {
        Interval::Unbounded => index_range(0, index),
        Interval::Closed { start, end } => index_range(start as int, end as int),
        Interval::From { start } => if start > index {
            seq![start]
        } else {
            index_range(start as int, index)
        },
    }
}

/// Offsets summed by a finite-window integral at `index`.
pub fn integral_window_offsets(interval: Interval, index: usize) -> (r: Vec<usize>)
    ensures
        r@ == integral_offsets(interval, index as int),
{
    match interval {
        Interval::Unbounded => range_inclusive(0, index),
        Interval::Closed { start, end } => range_inclusive(start, end),
        Interval::From { start } => {
            if start > index {
                let mut v: Vec<usize> = Vec::new();
                v.push(start);
                assert(v@ =~= seq![start]);
                v
            } else {
                range_inclusive(start, index)
            }
        }
    }
}

} // verus!
