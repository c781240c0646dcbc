use sage_ir::bound::Bound;
use sage_ir::cst::Mutability;
use sage_ir::egraph::VersionedEGraph;
use sage_ir::generic_param::{AlphaEquivParam, GenericParam, GenericParamKind};
use sage_ir::ty::{Const, IntTy, Lifetime, Ty, TyId, TyStore};
use sage_ir::unify::{try_set_bound, try_unify, try_unify_batch, UnifyError};
use sage_ir::version::{Universe, Version};

fn variable(
    egraph: &mut VersionedEGraph,
    stash: &mut TyStore,
    version: Version,
    universe: Universe,
) -> TyId {
    let index = egraph.alloc_var(version, universe);
    stash.intern(Ty::InferVar(index))
}

#[test]
fn concrete_and_nested_unification() {
    let mut egraph = VersionedEGraph::new();
    let mut stash = TyStore::new();
    let variable = variable(&mut egraph, &mut stash, Version(0), Universe(0));
    let int = stash.intern(Ty::Int(IntTy::I32));
    let left_elements = stash.intern_list(&[variable]);
    let left = stash.intern(Ty::Tuple(left_elements));
    let right_elements = stash.intern_list(&[int]);
    let right = stash.intern(Ty::Tuple(right_elements));

    try_unify(&mut egraph, &mut stash, Version(0), left, right).unwrap();
    assert_eq!(egraph.find(Version(0), variable), int);
    assert_eq!(egraph.find(Version(0), left), egraph.find(Version(0), right));
}

#[test]
fn late_mismatch_rolls_back_earlier_equality() {
    let mut egraph = VersionedEGraph::new();
    let mut stash = TyStore::new();
    let variable = variable(&mut egraph, &mut stash, Version(0), Universe(0));
    let int = stash.intern(Ty::Int(IntTy::I32));
    let boolean = stash.intern(Ty::Bool);
    let left_elements = stash.intern_list(&[variable, boolean]);
    let left = stash.intern(Ty::Tuple(left_elements));
    let right_elements = stash.intern_list(&[int, int]);
    let right = stash.intern(Ty::Tuple(right_elements));
    let revision = egraph.semantic_revision(Version(0));

    assert!(matches!(
        try_unify(&mut egraph, &mut stash, Version(0), left, right),
        Err(UnifyError::Mismatch { .. })
    ));
    assert_eq!(egraph.find(Version(0), variable), variable);
    assert_eq!(egraph.semantic_revision(Version(0)), revision);
}

#[test]
fn batch_failure_is_atomic() {
    let mut egraph = VersionedEGraph::new();
    let mut stash = TyStore::new();
    let variable = variable(&mut egraph, &mut stash, Version(0), Universe(0));
    let int = stash.intern(Ty::Int(IntTy::I32));
    let boolean = stash.intern(Ty::Bool);

    assert!(try_unify_batch(
        &mut egraph,
        &mut stash,
        Version(0),
        &[(variable, int), (int, boolean)]
    )
    .is_err());
    assert_eq!(egraph.find(Version(0), variable), variable);
}

#[test]
fn direct_occurs_check_is_atomic() {
    let mut egraph = VersionedEGraph::new();
    let mut stash = TyStore::new();
    let variable = variable(&mut egraph, &mut stash, Version(0), Universe(0));
    let elements = stash.intern_list(&[variable]);
    let tuple = stash.intern(Ty::Tuple(elements));

    assert!(matches!(
        try_unify(&mut egraph, &mut stash, Version(0), variable, tuple),
        Err(UnifyError::OccursCheck { .. })
    ));
    assert_eq!(egraph.find(Version(0), variable), variable);
}

#[test]
fn nested_variable_ceiling_is_lowered_on_commit() {
    let mut egraph = VersionedEGraph::new();
    let mut stash = TyStore::new();
    let outer = variable(&mut egraph, &mut stash, Version(0), Universe(0));
    let inner = variable(&mut egraph, &mut stash, Version(0), Universe(1));
    let inner_index = match stash.get(inner) {
        Ty::InferVar(index) => index,
        _ => unreachable!(),
    };
    let elements = stash.intern_list(&[inner]);
    let tuple = stash.intern(Ty::Tuple(elements));

    let effects = try_unify(&mut egraph, &mut stash, Version(0), outer, tuple).unwrap();
    assert_eq!(egraph.current_universe(Version(0), inner_index), Universe(0));
    assert!(effects.wakes.contains(&inner_index));
}

#[test]
fn unequal_concrete_leaves_do_not_change_revision() {
    let mut egraph = VersionedEGraph::new();
    let mut stash = TyStore::new();
    let int = stash.intern(Ty::Int(IntTy::I32));
    let boolean = stash.intern(Ty::Bool);
    let revision = egraph.semantic_revision(Version(0));

    assert!(matches!(
        try_unify(&mut egraph, &mut stash, Version(0), int, boolean),
        Err(UnifyError::Mismatch { .. })
    ));
    assert_eq!(egraph.semantic_revision(Version(0)), revision);
}

#[test]
fn inference_variables_coalesce() {
    let mut egraph = VersionedEGraph::new();
    let mut stash = TyStore::new();
    let left = variable(&mut egraph, &mut stash, Version(0), Universe(2));
    let right = variable(&mut egraph, &mut stash, Version(0), Universe(1));

    try_unify(&mut egraph, &mut stash, Version(0), left, right).unwrap();
    assert_eq!(egraph.find(Version(0), left), egraph.find(Version(0), right));
}

#[test]
fn indirect_occurs_check_rolls_back() {
    let mut egraph = VersionedEGraph::new();
    let mut stash = TyStore::new();
    let left = variable(&mut egraph, &mut stash, Version(0), Universe(0));
    let right = variable(&mut egraph, &mut stash, Version(0), Universe(0));
    try_unify(&mut egraph, &mut stash, Version(0), left, right).unwrap();
    let root_before = egraph.find(Version(0), left);
    let elements = stash.intern_list(&[left]);
    let tuple = stash.intern(Ty::Tuple(elements));

    assert!(matches!(
        try_unify(&mut egraph, &mut stash, Version(0), right, tuple),
        Err(UnifyError::OccursCheck { .. })
    ));
    assert_eq!(egraph.find(Version(0), left), root_before);
}

#[test]
fn inaccessible_placeholder_and_bound_are_rejected_atomically() {
    let alpha = AlphaEquivParam::new(GenericParamKind::Type, 0);
    let param = GenericParam::AlphaEquiv(alpha);
    let mut egraph = VersionedEGraph::new();
    egraph.register_placeholder(param, Universe(1));
    let mut stash = TyStore::new();
    let variable = variable(&mut egraph, &mut stash, Version(0), Universe(0));
    let placeholder = stash.intern(Ty::Param(param));
    let revision = egraph.semantic_revision(Version(0));

    assert!(matches!(
        try_unify(&mut egraph, &mut stash, Version(0), variable, placeholder),
        Err(UnifyError::UniverseLeak { .. })
    ));
    assert_eq!(egraph.find(Version(0), variable), variable);
    assert_eq!(egraph.semantic_revision(Version(0)), revision);

    assert!(matches!(
        try_set_bound(
            &mut egraph,
            &mut stash,
            Version(0),
            variable,
            Bound::AtLeast(placeholder)
        ),
        Err(UnifyError::UniverseLeak { .. })
    ));
    assert_eq!(egraph.get_bound(Version(0), variable), Bound::Unknown);
}

#[test]
fn discarded_ceiling_lowering_has_no_effects() {
    let mut egraph = VersionedEGraph::new();
    let mut stash = TyStore::new();
    let outer = variable(&mut egraph, &mut stash, Version(0), Universe(0));
    let inner = variable(&mut egraph, &mut stash, Version(0), Universe(1));
    let inner_index = match stash.get(inner) {
        Ty::InferVar(index) => index,
        _ => unreachable!(),
    };
    let boolean = stash.intern(Ty::Bool);
    let int = stash.intern(Ty::Int(IntTy::I32));
    let elements = stash.intern_list(&[inner, boolean]);
    let tuple = stash.intern(Ty::Tuple(elements));
    let other_elements = stash.intern_list(&[outer, int]);
    let other = stash.intern(Ty::Tuple(other_elements));
    let revision = egraph.semantic_revision(Version(0));

    assert!(try_unify(&mut egraph, &mut stash, Version(0), tuple, other).is_err());
    assert_eq!(egraph.current_universe(Version(0), inner_index), Universe(1));
    assert_eq!(egraph.semantic_revision(Version(0)), revision);
}

#[test]
fn lifetime_and_const_leaves_compare_structurally() {
    let lifetime_a = GenericParam::AlphaEquiv(AlphaEquivParam::new(GenericParamKind::Lifetime, 0));
    let lifetime_b = GenericParam::AlphaEquiv(AlphaEquivParam::new(GenericParamKind::Lifetime, 1));
    let mut egraph = VersionedEGraph::new();
    let mut stash = TyStore::new();
    let int = stash.intern(Ty::Int(IntTy::I32));
    let left = stash.intern(Ty::Ref(int, Mutability::Shared, Lifetime::Param(lifetime_a)));
    let right = stash.intern(Ty::Ref(int, Mutability::Shared, Lifetime::Param(lifetime_b)));

    assert!(matches!(
        try_unify(&mut egraph, &mut stash, Version(0), left, right),
        Err(UnifyError::Mismatch { .. })
    ));

    let array_left = stash.intern(Ty::Array(int, Const::Literal(1)));
    let array_right = stash.intern(Ty::Array(int, Const::Literal(2)));
    assert!(matches!(
        try_unify(&mut egraph, &mut stash, Version(0), array_left, array_right),
        Err(UnifyError::Mismatch { .. })
    ));
}

#[test]
fn set_bound_records_the_bound_on_the_representative() {
    let mut egraph = VersionedEGraph::new();
    let mut stash = TyStore::new();
    let variable = variable(&mut egraph, &mut stash, Version(0), Universe(0));
    let int = stash.intern(Ty::Int(IntTy::I32));

    let effects = try_set_bound(&mut egraph, &mut stash, Version(0), variable, Bound::AtLeast(int)).unwrap();
    assert_eq!(egraph.get_bound(Version(0), variable), Bound::AtLeast(int));
    assert_eq!(effects.semantic_revision, egraph.semantic_revision(Version(0)));
    assert_eq!(effects.semantic_revision, 1);
}

#[test]
fn set_bound_on_a_concrete_type_is_a_mismatch() {
    let mut egraph = VersionedEGraph::new();
    let mut stash = TyStore::new();
    let int = stash.intern(Ty::Int(IntTy::I32));
    let boolean = stash.intern(Ty::Bool);

    assert_eq!(
        try_set_bound(&mut egraph, &mut stash, Version(0), int, Bound::Exactly(boolean)),
        Err(UnifyError::Mismatch { left: int, right: boolean })
    );
    assert_eq!(
        try_set_bound(&mut egraph, &mut stash, Version(0), int, Bound::Unknown),
        Err(UnifyError::Mismatch { left: int, right: int })
    );
}

#[test]
fn successful_batch_equates_every_pair() {
    let mut egraph = VersionedEGraph::new();
    let mut stash = TyStore::new();
    let a = variable(&mut egraph, &mut stash, Version(0), Universe(0));
    let b = variable(&mut egraph, &mut stash, Version(0), Universe(0));
    let int = stash.intern(Ty::Int(IntTy::I32));

    try_unify_batch(&mut egraph, &mut stash, Version(0), &[(a, b), (b, int)]).unwrap();
    assert_eq!(egraph.find(Version(0), a), int);
    assert_eq!(egraph.find(Version(0), b), int);
    assert_eq!(egraph.get_bound(Version(0), b), Bound::Exactly(int));
}
