//! What the trait solver supports of a declaration's generics and types.
use vstd::prelude::*;

use crate::generic_param::{GenericParam, GenericParamKind};
use crate::skeleton::{children, decompose};
use crate::ty::{Lifetime, Ty, TyId, TyStore};

verus! {

/// Whether the trait solver can reason about a declaration.
#[derive(Copy, Clone, Debug, PartialEq, Eq, Structural, Hash)]
pub enum SolverEligibility {
    Eligible,
    Unsupported,
}

impl SolverEligibility {
    /// Eligible only when both are.
    pub fn and(self, other: SolverEligibility) -> (both: SolverEligibility)
        ensures
            both == if self == SolverEligibility::Eligible && other == SolverEligibility::Eligible {
                SolverEligibility::Eligible
            } else {
                SolverEligibility::Unsupported
            },
    {
        match (self, other) {
            (SolverEligibility::Eligible, SolverEligibility::Eligible) => SolverEligibility::Eligible,
            _ => SolverEligibility::Unsupported,
        }
    }

    pub fn is_eligible(self) -> (eligible: bool)
        ensures
            eligible == (self == SolverEligibility::Eligible),
    {
        match self {
            SolverEligibility::Eligible => true,
            SolverEligibility::Unsupported => false,
        }
    }
}

/// The solver handles only type parameters.
pub fn type_only_generics(generics: &[GenericParam]) -> (eligibility: SolverEligibility)
    ensures
        eligibility == if forall|k: int|
            0 <= k < generics@.len() ==> (#[trigger] generics@[k]).spec_kind() == GenericParamKind::Type {
            SolverEligibility::Eligible
        } else {
            SolverEligibility::Unsupported
        },
{
    let mut i: usize = 0;
    while i < generics.len()
        invariant
            i <= generics@.len(),
            forall|k: int| 0 <= k < i ==> (#[trigger] generics@[k]).spec_kind() == GenericParamKind::Type,
        decreases generics@.len() - i,
    {
        if generics[i].kind() != GenericParamKind::Type {
            return SolverEligibility::Unsupported;
        }
        i += 1;
    }
    SolverEligibility::Eligible
}

/// An erased lifetime occurs in `ty` or in a type below it.
pub open spec fn has_erased_lifetime(stash: &TyStore, ty: TyId) -> bool
    decreases ty.0 as nat + 1, 0nat,
{
    match stash.types()[ty.0 as int] {
        Ty::Ref(_, _, Lifetime::Erased) => true,
        t => any_erased_lifetime(stash, children(t, stash.lists()), ty.0 as nat),
    }
}

/// An erased lifetime occurs in one of `ids` below `bound` or below it.
pub open spec fn any_erased_lifetime(stash: &TyStore, ids: Seq<TyId>, bound: nat) -> bool
    decreases bound, ids.len(),
{
    if ids.len() == 0 {
        false
    } else if ids[0].0 < bound {
        has_erased_lifetime(stash, ids[0]) || any_erased_lifetime(stash, ids.drop_first(), bound)
    } else {
        any_erased_lifetime(stash, ids.drop_first(), bound)
    }
}

/// Report whether an erased lifetime occurs in `ty`.
pub fn contains_erased_lifetime(stash: &TyStore, ty: TyId) -> (erased: bool)
    requires
        stash.wf(),
        ty.0 < stash.types().len(),
    ensures
        erased == has_erased_lifetime(stash, ty),
    decreases ty.0,
{
    if let Ty::Ref(_, _, Lifetime::Erased) = stash.get(ty) {
        return true;
    }
    let parts = decompose(stash, ty);
    let kids = parts.child_ids();
    let ghost bound = ty.0 as nat;
    proof {
        assert(kids@.skip(0) =~= kids@);
    }
    let mut i: usize = 0;
    while i < kids.len()
        invariant
            stash.wf(),
            bound == ty.0,
            ty.0 < stash.types().len(),
            has_erased_lifetime(stash, ty) == any_erased_lifetime(stash, kids@, bound),
            forall|k: int| 0 <= k < kids@.len() ==> (#[trigger] kids@[k]).0 < bound,
            i <= kids@.len(),
            any_erased_lifetime(stash, kids@, bound) == any_erased_lifetime(
                stash,
                kids@.skip(i as int),
                bound,
            ),
        decreases kids@.len() - i,
    {
        proof {
            assert(kids@.skip(i as int).drop_first() =~= kids@.skip(i + 1));
            assert(kids@.skip(i as int)[0] == kids@[i as int]);
        }
        if contains_erased_lifetime(stash, kids[i]) {
            return true;
        }
        i += 1;
    }
    proof {
        assert(kids@.skip(kids@.len() as int) =~= Seq::<TyId>::empty());
    }
    false
}

} // verus!
