use sage_ir::generic_param::{AlphaEquivParam, GenericParam, GenericParamKind};
use sage_ir::goal::{Atom, Goal, GoalStore, QueryResultData};
use sage_ir::merge::{
    contains_newer_parameter, directional_match_goal, directional_match_ty, flattened_goals,
    no_result, structural_ty_eq,
};
use sage_ir::ty::{IntTy, TraitRef, TraitSymbol, Ty, TyStore};

fn param(index: u32) -> AlphaEquivParam {
    AlphaEquivParam::new(GenericParamKind::Type, index)
}

#[test]
fn structure_of_interned_types_is_identity() {
    let mut types = TyStore::new();
    let int = types.intern(Ty::Int(IntTy::I32));
    let boolean = types.intern(Ty::Bool);
    let elems = types.intern_list(&[int, boolean]);
    let tuple = types.intern(Ty::Tuple(elems));
    let again = types.intern(Ty::Tuple(elems));
    assert!(structural_ty_eq(&types, tuple, again));
    assert!(!structural_ty_eq(&types, tuple, int));
    assert!(!structural_ty_eq(&types, int, boolean));
}

#[test]
fn newer_parameters_are_found_below_the_ceiling() {
    let mut types = TyStore::new();
    let old = types.intern(Ty::Param(GenericParam::AlphaEquiv(param(0))));
    let young = types.intern(Ty::Param(GenericParam::AlphaEquiv(param(1))));
    let slice = types.intern(Ty::Slice(young));
    let universes = [(param(0), 0), (param(1), 2)];
    assert!(!contains_newer_parameter(&types, old, 0, &universes));
    assert!(contains_newer_parameter(&types, slice, 1, &universes));
    assert!(!contains_newer_parameter(&types, slice, 2, &universes));
}

#[test]
fn flexible_parameter_binds_once_and_must_agree() {
    let mut types = TyStore::new();
    let int = types.intern(Ty::Int(IntTy::I32));
    let boolean = types.intern(Ty::Bool);
    let t = types.intern(Ty::Param(GenericParam::AlphaEquiv(param(0))));
    let pair_tt = types.intern_list(&[t, t]);
    let required = types.intern(Ty::Tuple(pair_tt));
    let pair_ii = types.intern_list(&[int, int]);
    let same = types.intern(Ty::Tuple(pair_ii));
    let pair_ib = types.intern_list(&[int, boolean]);
    let mixed = types.intern(Ty::Tuple(pair_ib));
    let flexible = [param(0)];
    let universes = [(param(0), 0)];

    let mut bindings = Vec::new();
    assert!(directional_match_ty(&types, required, same, &flexible, &universes, &mut bindings));
    assert_eq!(bindings, vec![(param(0), int)]);

    let mut bindings = Vec::new();
    assert!(!directional_match_ty(&types, required, mixed, &flexible, &universes, &mut bindings));

    let mut bindings = Vec::new();
    assert!(!directional_match_ty(&types, required, same, &[], &universes, &mut bindings));
    assert!(bindings.is_empty());
}

#[test]
fn witness_cannot_capture_a_newer_parameter() {
    let mut types = TyStore::new();
    let t = types.intern(Ty::Param(GenericParam::AlphaEquiv(param(0))));
    let rigid = types.intern(Ty::Param(GenericParam::AlphaEquiv(param(1))));
    let universes = [(param(0), 0), (param(1), 1)];
    let mut bindings = Vec::new();
    assert!(!directional_match_ty(&types, t, rigid, &[param(0)], &universes, &mut bindings));
    assert!(bindings.is_empty());
    let universes = [(param(0), 1), (param(1), 1)];
    assert!(directional_match_ty(&types, t, rigid, &[param(0)], &universes, &mut bindings));
    assert_eq!(bindings, vec![(param(0), rigid)]);
}

#[test]
fn equalities_match_either_way_round() {
    let mut types = TyStore::new();
    let int = types.intern(Ty::Int(IntTy::I32));
    let boolean = types.intern(Ty::Bool);
    let t = types.intern(Ty::Param(GenericParam::AlphaEquiv(param(0))));
    let required = Goal::Atom(Atom::Equals(t, boolean));
    let known = Goal::Atom(Atom::Equals(boolean, int));
    let mut bindings = Vec::new();
    assert!(directional_match_goal(&types, required, known, &[param(0)], &[], &mut bindings));
    assert_eq!(bindings, vec![(param(0), int)]);

    let args = types.intern_list(&[t]);
    let known_args = types.intern_list(&[int]);
    let required = Goal::Atom(Atom::TraitImpl {
        self_ty: int,
        trait_ref: TraitRef { trait_sym: TraitSymbol(3), args },
    });
    let same_trait = Goal::Atom(Atom::TraitImpl {
        self_ty: int,
        trait_ref: TraitRef { trait_sym: TraitSymbol(3), args: known_args },
    });
    let other_trait = Goal::Atom(Atom::TraitImpl {
        self_ty: int,
        trait_ref: TraitRef { trait_sym: TraitSymbol(4), args: known_args },
    });
    let mut bindings = Vec::new();
    assert!(directional_match_goal(&types, required, same_trait, &[param(0)], &[], &mut bindings));
    assert_eq!(bindings, vec![(param(0), int)]);
    let mut bindings = Vec::new();
    assert!(!directional_match_goal(&types, required, other_trait, &[param(0)], &[], &mut bindings));
    assert!(directional_match_goal(&types, Goal::Maybe, Goal::Maybe, &[], &[], &mut bindings));
    assert!(!directional_match_goal(&types, Goal::Maybe, required, &[], &[], &mut bindings));
}

#[test]
fn flattened_goals_keep_first_occurrences() {
    let mut types = TyStore::new();
    let int = types.intern(Ty::Int(IntTy::I32));
    let a = Goal::Atom(Atom::Equals(int, int));
    let mut stash = GoalStore::new();
    let inner = Goal::all(&mut stash, &[a, Goal::Maybe]);
    let outer = Goal::all(&mut stash, &[Goal::Maybe, inner, a]);
    assert_eq!(flattened_goals(&stash, outer), vec![Goal::Maybe, a]);
    assert_eq!(flattened_goals(&stash, a), vec![a]);
}

#[test]
fn no_result_has_no_response_variables() {
    let mut stash = GoalStore::new();
    let result = no_result(&mut stash);
    assert_eq!(result.value, QueryResultData::No);
    assert!(stash.response_vars(result.bound_vars).is_empty());
}
