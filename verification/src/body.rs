//! Context recorded with type errors of a body.
use vstd::prelude::*;

use crate::ty::RelativeSpan;

verus! {

/// Why a type constraint was required.
#[derive(Copy, Clone, Debug, PartialEq, Eq, Structural)]
pub enum ErrorContext {
    ReturnType { ret_span: RelativeSpan },
    Argument { index: usize, call_span: RelativeSpan },
    FieldInit { field_span: RelativeSpan },
}

} // verus!
