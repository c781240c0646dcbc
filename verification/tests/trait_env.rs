use sage_ir::cst::Mutability;
use sage_ir::generic_param::{AlphaEquivParam, GenericParam, GenericParamKind};
use sage_ir::trait_env::{contains_erased_lifetime, type_only_generics, SolverEligibility};
use sage_ir::ty::{IntTy, Lifetime, Ty, TyStore};

#[test]
fn only_type_generics_are_eligible() {
    let t = GenericParam::AlphaEquiv(AlphaEquivParam::new(GenericParamKind::Type, 0));
    let l = GenericParam::AlphaEquiv(AlphaEquivParam::new(GenericParamKind::Lifetime, 1));
    assert_eq!(type_only_generics(&[]), SolverEligibility::Eligible);
    assert_eq!(type_only_generics(&[t, t]), SolverEligibility::Eligible);
    assert_eq!(type_only_generics(&[t, l]), SolverEligibility::Unsupported);
    assert_eq!(
        SolverEligibility::Eligible.and(SolverEligibility::Unsupported),
        SolverEligibility::Unsupported
    );
    assert!(SolverEligibility::Eligible.and(SolverEligibility::Eligible).is_eligible());
}

#[test]
fn erased_lifetimes_are_found_below_the_root() {
    let mut types = TyStore::new();
    let int = types.intern(Ty::Int(IntTy::I32));
    let erased = types.intern(Ty::Ref(int, Mutability::Shared, Lifetime::Erased));
    let stat = types.intern(Ty::Ref(int, Mutability::Shared, Lifetime::Static));
    let slice = types.intern(Ty::Slice(erased));
    assert!(!contains_erased_lifetime(&types, int));
    assert!(contains_erased_lifetime(&types, erased));
    assert!(!contains_erased_lifetime(&types, stat));
    assert!(contains_erased_lifetime(&types, slice));
}
