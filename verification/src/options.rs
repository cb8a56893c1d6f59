use vstd::prelude::*;
use vstd::string::StringExecFns;

use crate::error::{Fault, StlcgError};
use crate::scalar::Binary64;

verus! {

/// Robust min/max aggregation mode.
#[derive(Debug, Clone, Copy)]
pub enum Aggregation {
    /// Exact min/max.
    Exact,
    /// Exact min/max with gradients distributed across tied extrema.
    DistributedExact,
    /// Smooth min/max using log-sum-exp with the given positive scale.
    Smooth {
        /// Temperature of the log-sum-exp.
        scale: Binary64,
    },
}

impl Aggregation {
    /// Smooth aggregation with the given scale.
    pub fn smooth(scale: Binary64) -> (r: Self)
        ensures
            r == (Aggregation::Smooth { scale }),
    {
        Aggregation::Smooth { scale }
    }
}

/// Evaluation options shared by all formulas.
#[derive(Debug, Clone, Copy)]
pub struct EvalOptions {
    /// Factor applied to predicate and expression robustness.
    pub predicate_scale: Binary64,
    /// How minima and maxima are taken.
    pub aggregation: Aggregation,
}

/// The message for a predicate scale that is not positive and finite.
pub open spec fn predicate_scale_message() -> Seq<char> {
    "predicate scale must be positive and finite"@
}

/// The message for a smooth scale that is not positive and finite.
pub open spec fn smooth_scale_message() -> Seq<char> {
    "smooth aggregation scale must be positive and finite"@
}

impl EvalOptions {
    /// Exact min/max with unit predicate scale.
    pub fn exact() -> (r: Self)
        ensures
            r.predicate_scale.bits == crate::scalar::ONE_BITS,
            r.aggregation == Aggregation::Exact,
    {
        EvalOptions { predicate_scale: Binary64::one(), aggregation: Aggregation::Exact }
    }

    /// Exact min/max distributing gradients across ties, with unit predicate scale.
    pub fn distributed_exact() -> (r: Self)
        ensures
            r.predicate_scale.bits == crate::scalar::ONE_BITS,
            r.aggregation == Aggregation::DistributedExact,
    {
        EvalOptions {
            predicate_scale: Binary64::one(),
            aggregation: Aggregation::DistributedExact,
        }
    }

    /// Smooth min/max with the given scale and unit predicate scale.
    pub fn smooth(scale: Binary64) -> (r: Self)
        ensures
            r.predicate_scale.bits == crate::scalar::ONE_BITS,
            r.aggregation == (Aggregation::Smooth { scale }),
    {
        EvalOptions { predicate_scale: Binary64::one(), aggregation: Aggregation::Smooth { scale } }
    }

    /// The same options with another predicate scale.
    pub fn with_predicate_scale(self, predicate_scale: Binary64) -> (r: Self)
        ensures
            r.predicate_scale == predicate_scale,
            r.aggregation == self.aggregation,
    {
        EvalOptions { predicate_scale, aggregation: self.aggregation }
    }

    /// The fault that [`EvalOptions::validate`] reports, if any: the
    /// predicate scale is checked first, then a smooth scale.
    pub open spec fn fault(self) -> Option<Fault> {
        if !self.predicate_scale.positive_finite() {
            Some(Fault::InvalidOption(predicate_scale_message()))
        } else {
            match self.aggregation {
                Aggregation::Smooth { scale } => if !scale.positive_finite() {
                    Some(Fault::InvalidOption(smooth_scale_message()))
                } else {
                    None
                },
                _ => None,
            }
        }
    }

    /// Reject a predicate scale or a smooth scale that is not a positive,
    /// finite number.
    pub fn validate(&self) -> (r: Result<(), StlcgError>)
        ensures
            r is Ok <==> self.fault() is None,
            r matches Err(e) ==> Some(e@) == self.fault(),
    {
        if !self.predicate_scale.is_positive_finite() {
            return Err(StlcgError::InvalidOption(String::from_str("predicate scale must be positive and finite")));
        }
        match self.aggregation {
            Aggregation::Smooth { scale } => {
                if !scale.is_positive_finite() {
                    return Err(StlcgError::InvalidOption(String::from_str("smooth aggregation scale must be positive and finite")));
                }
                Ok(())
            }
            _ => Ok(()),
        }
    }
}

impl Default for EvalOptions {
    fn default() -> (r: Self)
        ensures
            r.predicate_scale.bits == crate::scalar::ONE_BITS,
            r.aggregation == Aggregation::Exact,
    {
        Self::exact()
    }
}

} // verus!
