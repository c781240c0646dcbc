//! Item shapes.
use vstd::prelude::*;

verus! {

/// The shape of a struct's fields.
#[derive(Copy, Clone, Debug, PartialEq, Eq, Structural, Hash)]
pub enum StructKind {
    Tuple,
    Unit,
    Braced,
}

} // verus!
