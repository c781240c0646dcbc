//! Diagnostics as compared by the expectation harness: a severity, a
//! message and an absolute byte offset into the source file.
use vstd::prelude::*;

verus! {

#[derive(Copy, Clone, Debug, PartialEq, Eq, Structural, Hash)]
pub enum Severity {
    Error,
    Warning,
}

/// A diagnostic with a byte offset into the source file.
#[derive(Clone, Debug, PartialEq, Eq, Hash)]
pub struct SageDiagnostic {
    pub severity: Severity,
    pub message: String,
    /// Absolute byte offset into the source file.
    pub offset: u32,
}

} // verus!
