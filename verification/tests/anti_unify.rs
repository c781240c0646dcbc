use sage_ir::anti_unify::{
    collect_used_witnesses, contains_inaccessible_input, empty_maybe, AntiUnifier,
};
use sage_ir::generic_param::{AlphaEquivParam, GenericParam, GenericParamKind};
use sage_ir::goal::{GoalStore, QueryResultData};
use sage_ir::solve::{ResponseVarInfo, SubstEntry};
use sage_ir::ty::{IntTy, Ty, TyStore};

fn param(index: u32) -> AlphaEquivParam {
    AlphaEquivParam::new(GenericParamKind::Type, index)
}

fn unifier(next: u32) -> AntiUnifier {
    AntiUnifier { next_param: next, key_universe: 3, witnesses: Vec::new() }
}

#[test]
fn shared_constructor_is_kept_and_divergent_component_becomes_witness() {
    let mut stash = TyStore::new();
    let int = stash.intern(Ty::Int(IntTy::I32));
    let boolean = stash.intern(Ty::Bool);
    let first = stash.intern_list(&[int, boolean]);
    let second = stash.intern_list(&[boolean, boolean]);
    let a = stash.intern(Ty::Tuple(first));
    let b = stash.intern(Ty::Tuple(second));

    let mut anti = unifier(5);
    let (merged, bare) = anti.merge_types(&mut stash, &[a, b]);
    assert!(!bare);
    let Ty::Tuple(elements) = stash.get(merged) else {
        panic!("expected tuple hint")
    };
    let elements = stash.list(elements).to_vec();
    assert_eq!(stash.get(elements[0]), Ty::Param(GenericParam::AlphaEquiv(param(5))));
    assert_eq!(stash.get(elements[1]), Ty::Bool);
    assert_eq!(anti.next_param, 6);
    assert_eq!(
        anti.witnesses,
        vec![ResponseVarInfo { param: param(5), kind: GenericParamKind::Type, relative_universe: 3 }]
    );
}

#[test]
fn equal_values_merge_to_themselves_and_divergent_ones_to_a_witness() {
    let mut stash = TyStore::new();
    let int = stash.intern(Ty::Int(IntTy::I32));
    let boolean = stash.intern(Ty::Bool);
    let mut anti = unifier(0);
    assert_eq!(anti.merge_types(&mut stash, &[int, int, int]), (int, false));
    assert!(anti.witnesses.is_empty());
    let (merged, bare) = anti.merge_types(&mut stash, &[int, boolean]);
    assert!(bare);
    assert_eq!(stash.get(merged), Ty::Param(GenericParam::AlphaEquiv(param(0))));
    assert_eq!(anti.next_param, 1);
}

#[test]
fn only_witnesses_named_by_values_are_used() {
    let mut stash = TyStore::new();
    let w0 = stash.intern(Ty::Param(GenericParam::AlphaEquiv(param(7))));
    let other = stash.intern(Ty::Param(GenericParam::AlphaEquiv(param(1))));
    let slice = stash.intern(Ty::Slice(w0));
    let witnesses = [
        ResponseVarInfo { param: param(7), kind: GenericParamKind::Type, relative_universe: 0 },
        ResponseVarInfo { param: param(8), kind: GenericParamKind::Type, relative_universe: 0 },
    ];
    let entries = [
        SubstEntry { key: param(0), value: slice },
        SubstEntry { key: param(2), value: other },
    ];
    assert_eq!(collect_used_witnesses(&stash, &entries, &witnesses), vec![param(7)]);
    assert!(collect_used_witnesses(&stash, &entries[1..], &witnesses).is_empty());
}

#[test]
fn inaccessible_inputs_are_newer_than_the_key() {
    let mut stash = TyStore::new();
    let young = stash.intern(Ty::Param(GenericParam::AlphaEquiv(param(1))));
    let slice = stash.intern(Ty::Slice(young));
    let universes = [(param(1), 2)];
    assert!(contains_inaccessible_input(&stash, slice, 1, &universes));
    assert!(!contains_inaccessible_input(&stash, slice, 2, &universes));
}

#[test]
fn empty_maybe_has_no_hints_and_no_variables() {
    let mut goals = GoalStore::new();
    let result = empty_maybe(&mut goals);
    let QueryResultData::Maybe { hints } = result.value else {
        panic!("expected an ambiguous answer")
    };
    assert!(goals.subst(hints).is_empty());
    assert!(goals.response_vars(result.bound_vars).is_empty());
}

#[test]
fn each_divergent_position_gets_its_own_witness_in_order() {
    let mut stash = TyStore::new();
    let int = stash.intern(Ty::Int(IntTy::I32));
    let boolean = stash.intern(Ty::Bool);
    let first = stash.intern_list(&[int, boolean]);
    let second = stash.intern_list(&[boolean, int]);
    let a = stash.intern(Ty::Tuple(first));
    let b = stash.intern(Ty::Tuple(second));

    let mut anti = unifier(2);
    let (merged, bare) = anti.merge_types(&mut stash, &[a, b]);
    assert!(!bare);
    let Ty::Tuple(elements) = stash.get(merged) else {
        panic!("expected tuple hint")
    };
    let elements = stash.list(elements).to_vec();
    assert_eq!(stash.get(elements[0]), Ty::Param(GenericParam::AlphaEquiv(param(2))));
    assert_eq!(stash.get(elements[1]), Ty::Param(GenericParam::AlphaEquiv(param(3))));
    assert_ne!(elements[0], elements[1]);
    assert_eq!(anti.next_param, 4);
    assert_eq!(anti.witnesses.len(), 2);
}
