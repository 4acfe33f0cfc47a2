//! The error taxonomy of an aggregation run.
use vstd::prelude::*;

verus! {

/// A condition that aborts an aggregation run instead of silently producing
/// a wrong aggregate.
#[derive(Clone, Copy, Debug, PartialEq, Eq, Structural)]
pub enum AggError {
    /// An accumulated score sum would exceed the representable range; it must
    /// be surfaced to the caller, never wrapped.
    OverflowRisk,
    /// A mean was requested of an aggregate whose count is zero. The engine
    /// never produces such an entry, so observing this signals an
    /// internal-consistency fault of whatever produced the entry.
    DivisionUndefined,
}

} // verus!
