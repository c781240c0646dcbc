//! Categories of the spans recorded in the inspection trace.
use vstd::prelude::*;

verus! {

/// Which component produced a span of the inspection trace.
#[derive(Copy, Clone, Debug, PartialEq, Eq, Structural)]
pub enum InspectionSource {
    Sage,
    Solver,
}

/// How the children of a span of the inspection trace are ordered.
#[derive(Copy, Clone, Debug, PartialEq, Eq, Structural)]
pub enum InspectionChildOrder {
    Sequential,
    Unordered,
}

} // verus!
