use vstd::prelude::*;

verus! {

/// What a failure means, with each message taken by its characters.
pub enum Fault {
    MissingSignal(Seq<char>),
    EmptySignalEnv,
    EmptyTimeDimension,
    InvalidInterval(Seq<char>),
    InvalidOption(Seq<char>),
    ShapeMismatch { name: Seq<char>, expected: Seq<usize>, actual: Seq<usize> },
    TimeOutOfBounds { time: usize, len: usize },
    EmptyFormulaSet,
}

/// Errors returned while building or evaluating STL formulas.
#[derive(Debug)]
pub enum StlcgError {
    /// A named signal was referenced by a formula but was not present in the environment.
    MissingSignal(String),
    /// Evaluation requires at least one signal so scalar expressions have a tensor template.
    EmptySignalEnv,
    /// Signal traces must contain at least one time step.
    EmptyTimeDimension,
    /// A temporal interval is malformed.
    InvalidInterval(String),
    /// Evaluation options are malformed.
    InvalidOption(String),
    /// Signal traces in the same environment do not share the same shape.
    ShapeMismatch {
        /// Name of the signal with the mismatched shape.
        name: String,
        /// Expected trace shape `[batch, time, dim]`.
        expected: [usize; 3],
        /// Actual trace shape `[batch, time, dim]`.
        actual: [usize; 3],
    },
    /// A requested time index is outside the evaluated trace.
    TimeOutOfBounds {
        /// Requested non-reversed time index.
        time: usize,
        /// Number of available time steps.
        len: usize,
    },
    /// A variadic formula such as conjunction or disjunction has no children.
    EmptyFormulaSet,
}

impl View for StlcgError {
    type V = Fault;

    open spec fn view(&self) -> Fault {
        match self {
            StlcgError::MissingSignal(name) => Fault::MissingSignal(name@),
            StlcgError::EmptySignalEnv => Fault::EmptySignalEnv,
            StlcgError::EmptyTimeDimension => Fault::EmptyTimeDimension,
            StlcgError::InvalidInterval(msg) => Fault::InvalidInterval(msg@),
            StlcgError::InvalidOption(msg) => Fault::InvalidOption(msg@),
            StlcgError::ShapeMismatch { name, expected, actual } => Fault::ShapeMismatch {
                name: name@,
                expected: expected@,
                actual: actual@,
            },
            StlcgError::TimeOutOfBounds { time, len } => Fault::TimeOutOfBounds {
                time: *time,
                len: *len,
            },
            StlcgError::EmptyFormulaSet => Fault::EmptyFormulaSet,
        }
    }
}

/// Result type used by this crate.
pub type Result<T> = core::result::Result<T, StlcgError>;

/// The first fault of two checks made in turn.
pub open spec fn first_of(a: Option<Fault>, b: Option<Fault>) -> Option<Fault> {
    match a {
        Some(x) => Some(x),
        None => b,
    }
}

} // verus!
