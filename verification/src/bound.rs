use vstd::prelude::*;

use crate::ty::TyId;

verus! {

/// The bound on an inference variable; it narrows monotonically.
#[derive(Copy, Clone, Debug, PartialEq, Eq, Structural)]
pub enum Bound {
    /// No information yet.
    Unknown,
    /// At least this type; more updates may come.
    AtLeast(TyId),
    /// Exactly this type; final.
    Exactly(TyId),
}

impl Bound {
    /// The type a bound names, if any.
    pub open spec fn spec_ty(self) -> Option<TyId> {
        match self {
            Bound::Unknown => None,
            Bound::AtLeast(ty) => Some(ty),
            Bound::Exactly(ty) => Some(ty),
        }
    }

    pub fn is_none(&self) -> (none: bool)
        ensures
            none == (*self is Unknown),
    {
        matches!(self, Bound::Unknown)
    }

    pub fn is_exactly(&self) -> (exactly: bool)
        ensures
            exactly == (*self is Exactly),
    {
        matches!(self, Bound::Exactly(_))
    }

    pub fn ty(&self) -> (ty: Option<TyId>)
        ensures
            ty == self.spec_ty(),
    {
        match self {
            Bound::Unknown => None,
            Bound::AtLeast(ty) => Some(*ty),
            Bound::Exactly(ty) => Some(*ty),
        }
    }
}

} // verus!
