use sage_ir::goal::{Assumption, Atom, Goal, GoalStore};
use sage_ir::ty::{IntTy, Ty, TyStore};

#[test]
fn conjunctions_are_flattened_and_empty_is_true() {
    let mut stash = GoalStore::new();
    let empty = Goal::true_(&mut stash);
    let maybe = Goal::Maybe;
    let nested = Goal::all(&mut stash, &[empty, maybe]);
    let all = Goal::all(&mut stash, &[nested, Goal::Maybe]);

    let Goal::All(goals) = all else {
        panic!("expected conjunction");
    };
    assert_eq!(stash.goal_list(goals), [Goal::Maybe, Goal::Maybe]);
}

#[test]
fn only_the_empty_conjunction_is_trivially_true() {
    let mut stash = GoalStore::new();
    let empty = Goal::true_(&mut stash);
    assert!(empty.is_trivially_true(&stash));
    assert!(!Goal::Maybe.is_trivially_true(&stash));
    let one = Goal::all(&mut stash, &[Goal::Maybe]);
    assert!(!one.is_trivially_true(&stash));
    let only_empty = Goal::all(&mut stash, &[empty, empty]);
    assert!(only_empty.is_trivially_true(&stash));
}

#[test]
fn conjunction_keeps_source_order_across_nesting() {
    let mut types = TyStore::new();
    let int = types.intern(Ty::Int(IntTy::I32));
    let boolean = types.intern(Ty::Bool);
    let first = Goal::Atom(Atom::Equals(int, int));
    let second = Goal::Atom(Atom::Equals(boolean, boolean));
    let third = Goal::Atom(Atom::Equals(int, boolean));

    let mut stash = GoalStore::new();
    let inner = Goal::all(&mut stash, &[second, third]);
    let all = Goal::all(&mut stash, &[first, inner, Goal::Maybe]);
    let Goal::All(goals) = all else {
        panic!("expected conjunction");
    };
    assert_eq!(stash.goal_list(goals), [first, second, third, Goal::Maybe]);
}

#[test]
fn assumption_groups_are_spliced_in_order() {
    let mut types = TyStore::new();
    let int = types.intern(Ty::Int(IntTy::I32));
    let mut stash = GoalStore::new();
    let normalizes = |ty| Assumption::NormalizesTo {
        alias: sage_ir::ty::AliasTy::Named(sage_ir::ty::NamedAliasTy {
            def: sage_ir::ty::TypeAliasSymbol(7),
            args: sage_ir::ty::TyList(0),
        }),
        ty,
    };
    let a = normalizes(int);
    let empty = stash.alloc_assumptions(&[]);
    let group = stash.alloc_assumptions(&[a, Assumption::All(empty)]);
    let outer = stash.alloc_assumptions(&[Assumption::All(group), a]);
    let flat = Assumption::flatten(&mut stash, &[Assumption::All(outer), a]);
    assert_eq!(stash.assumption_list(flat), [a, a, a]);
}

use sage_ir::boundary::{
    goal_contains_no_infer_vars, response_contains_no_infer_vars, ty_contains_no_infer_vars,
};
use sage_ir::generic_param::{AlphaEquivParam, GenericParam, GenericParamKind};
use sage_ir::goal::{
    validate_goal_query, Binder, GoalQueryData, QueryResult, QueryResultData, SolverGoal,
};
use sage_ir::solve::{
    validate_and_alloc_subst, CanonicalVarInfo, CanonicalVarRole, ResponseVarInfo, SubstEntry,
    SubstitutionError,
};
use sage_ir::ty::{Const, InferVarIndex};

fn alpha(kind: GenericParamKind, index: u32) -> AlphaEquivParam {
    AlphaEquivParam::new(kind, index)
}

fn existential(index: u32) -> CanonicalVarInfo {
    CanonicalVarInfo {
        param: alpha(GenericParamKind::Type, index),
        kind: GenericParamKind::Type,
        role: CanonicalVarRole::ExistentialInput,
        relative_universe: 0,
    }
}

fn query(
    stash: &mut GoalStore,
    vars: Vec<CanonicalVarInfo>,
    next: u32,
    goal: SolverGoal,
) -> GoalQueryData {
    let assumptions = stash.alloc_assumptions(&[]);
    GoalQueryData {
        local_crate: 0,
        canonical_universe: 0,
        canonical_vars: vars,
        next_response_param: next,
        assumptions_complete: true,
        assumptions,
        goal,
    }
}

fn equals(left: sage_ir::ty::TyId, right: sage_ir::ty::TyId) -> SolverGoal {
    SolverGoal::Prove(Goal::Atom(Atom::Equals(left, right)))
}

#[test]
fn canonical_query_with_visible_parameters_is_valid() {
    let mut types = TyStore::new();
    let int = types.intern(Ty::Int(IntTy::I32));
    let t = types.intern(Ty::Param(GenericParam::AlphaEquiv(alpha(GenericParamKind::Type, 0))));
    let mut stash = GoalStore::new();
    let q = query(&mut stash, vec![existential(0)], 1, equals(t, int));
    assert_eq!(validate_goal_query(&stash, &types, &q), Ok(()));
}

#[test]
fn canonical_variable_faults_are_reported_in_order() {
    let types = TyStore::new();
    let mut stash = GoalStore::new();

    let q = query(&mut stash, vec![existential(0), existential(0)], 1, SolverGoal::Prove(Goal::Maybe));
    assert_eq!(validate_goal_query(&stash, &types, &q), Err("duplicate canonical variable"));

    let mut lifetime = existential(0);
    lifetime.kind = GenericParamKind::Lifetime;
    lifetime.param = alpha(GenericParamKind::Lifetime, 0);
    let q = query(&mut stash, vec![lifetime], 1, SolverGoal::Prove(Goal::Maybe));
    assert_eq!(validate_goal_query(&stash, &types, &q), Err("non-type existential input"));

    let mut newer = existential(0);
    newer.relative_universe = 1;
    let q = query(&mut stash, vec![newer], 1, SolverGoal::Prove(Goal::Maybe));
    assert_eq!(
        validate_goal_query(&stash, &types, &q),
        Err("canonical input is newer than the query universe")
    );

    let q = query(&mut stash, vec![existential(3)], 1, SolverGoal::Prove(Goal::Maybe));
    assert_eq!(
        validate_goal_query(&stash, &types, &q),
        Err("inconsistent canonical variable metadata")
    );
}

#[test]
fn noncanonical_types_are_rejected() {
    let mut types = TyStore::new();
    let int = types.intern(Ty::Int(IntTy::I32));
    let var = types.intern(Ty::InferVar(InferVarIndex(0)));
    let hidden = types.intern(Ty::Param(GenericParam::AlphaEquiv(alpha(GenericParamKind::Type, 5))));
    let unbound = types.intern(Ty::Array(
        int,
        Const::Param(GenericParam::AlphaEquiv(alpha(GenericParamKind::Const, 4))),
    ));
    let bound_const = types.intern(Ty::Array(
        int,
        Const::Param(GenericParam::AlphaEquiv(alpha(GenericParamKind::Const, 0))),
    ));
    let refs_var = types.intern(Ty::Slice(var));
    let mut stash = GoalStore::new();

    let q = query(&mut stash, vec![], 0, equals(int, refs_var));
    assert_eq!(
        validate_goal_query(&stash, &types, &q),
        Err("canonical query contains a caller inference variable")
    );
    let q = query(&mut stash, vec![], 0, equals(hidden, int));
    assert_eq!(
        validate_goal_query(&stash, &types, &q),
        Err("canonical query contains a noncanonical parameter")
    );
    let q = query(&mut stash, vec![], 0, equals(unbound, int));
    assert_eq!(
        validate_goal_query(&stash, &types, &q),
        Err("canonical query contains an unbound const parameter")
    );
    let mut const_var = existential(0);
    const_var.kind = GenericParamKind::Const;
    const_var.param = alpha(GenericParamKind::Const, 0);
    const_var.role = CanonicalVarRole::RigidPlaceholder;
    let q = query(&mut stash, vec![const_var], 1, equals(bound_const, int));
    assert_eq!(
        validate_goal_query(&stash, &types, &q),
        Err("canonical query contains a noncanonical const parameter")
    );
}

#[test]
fn binder_parameters_are_visible_only_in_their_body() {
    let mut types = TyStore::new();
    let int = types.intern(Ty::Int(IntTy::I32));
    let u = types.intern(Ty::Param(GenericParam::AlphaEquiv(alpha(GenericParamKind::Type, 0))));
    let mut stash = GoalStore::new();
    let params = stash.alloc_params(&[GenericParam::AlphaEquiv(alpha(GenericParamKind::Type, 0))]);
    let body = stash.alloc_goal(Goal::Atom(Atom::Equals(u, int)));
    let exists = Goal::Exists(Binder { generics: params, value: body });

    let q = query(&mut stash, vec![], 1, SolverGoal::Prove(exists));
    assert_eq!(validate_goal_query(&stash, &types, &q), Ok(()));

    let after = Goal::Atom(Atom::Equals(u, int));
    let both = Goal::all(&mut stash, &[exists, after]);
    let q = query(&mut stash, vec![], 1, SolverGoal::Prove(both));
    assert_eq!(
        validate_goal_query(&stash, &types, &q),
        Err("canonical query contains a noncanonical parameter")
    );

    let q = query(&mut stash, vec![], 0, SolverGoal::Prove(exists));
    assert_eq!(
        validate_goal_query(&stash, &types, &q),
        Err("invalid existential binder parameter")
    );

    let rigid = stash.alloc_params(&[GenericParam::Ext(sage_ir::generic_param::ExtGenericParam {
        kind: GenericParamKind::Type,
        name: None,
        parent: sage_ir::ty::Symbol(1),
        index: 0,
    })]);
    let noncanonical = Goal::Exists(Binder { generics: rigid, value: body });
    let q = query(&mut stash, vec![], 1, SolverGoal::Prove(noncanonical));
    assert_eq!(
        validate_goal_query(&stash, &types, &q),
        Err("noncanonical existential binder")
    );
}

#[test]
fn inference_variables_are_found_through_goals_and_types() {
    let mut types = TyStore::new();
    let int = types.intern(Ty::Int(IntTy::I32));
    let var = types.intern(Ty::InferVar(InferVarIndex(2)));
    let elems = types.intern_list(&[int, var]);
    let tuple = types.intern(Ty::Tuple(elems));
    assert!(ty_contains_no_infer_vars(&types, int));
    assert!(!ty_contains_no_infer_vars(&types, var));
    assert!(!ty_contains_no_infer_vars(&types, tuple));

    let mut stash = GoalStore::new();
    let clean = Goal::Atom(Atom::Equals(int, int));
    let dirty = Goal::Atom(Atom::Equals(int, tuple));
    let inner = stash.alloc_goal(dirty);
    let premises = stash.alloc_assumptions(&[]);
    let implies = Goal::Implies(premises, inner);
    assert!(goal_contains_no_infer_vars(&stash, &types, clean));
    assert!(!goal_contains_no_infer_vars(&stash, &types, implies));
    let all = Goal::all(&mut stash, &[clean, Goal::Maybe]);
    assert!(goal_contains_no_infer_vars(&stash, &types, all));

    let vars = stash.alloc_response_vars(&[ResponseVarInfo {
        param: alpha(GenericParamKind::Type, 0),
        kind: GenericParamKind::Type,
        relative_universe: 0,
    }]);
    let subst = stash.alloc_subst(&[SubstEntry { key: alpha(GenericParamKind::Type, 0), value: int }]);
    let leaking = stash.alloc_subst(&[SubstEntry { key: alpha(GenericParamKind::Type, 0), value: var }]);
    let yes = QueryResult { bound_vars: vars, value: QueryResultData::Yes { subst, modulo: all } };
    assert!(response_contains_no_infer_vars(&stash, &types, yes));
    let residual = QueryResult { bound_vars: vars, value: QueryResultData::Yes { subst, modulo: implies } };
    assert!(!response_contains_no_infer_vars(&stash, &types, residual));
    let hint = QueryResult { bound_vars: vars, value: QueryResultData::Maybe { hints: leaking } };
    assert!(!response_contains_no_infer_vars(&stash, &types, hint));
    let no = QueryResult { bound_vars: vars, value: QueryResultData::No };
    assert!(response_contains_no_infer_vars(&stash, &types, no));
}

#[test]
fn substitutions_are_validated_and_ordered_by_variable() {
    let mut types = TyStore::new();
    let int = types.intern(Ty::Int(IntTy::I32));
    let boolean = types.intern(Ty::Bool);
    let mut stash = GoalStore::new();
    let mut rigid = existential(2);
    rigid.role = CanonicalVarRole::RigidPlaceholder;
    let mut lifetime = existential(3);
    lifetime.kind = GenericParamKind::Lifetime;
    let vars = [existential(0), existential(1), rigid, lifetime];
    let a = alpha(GenericParamKind::Type, 0);
    let b = alpha(GenericParamKind::Type, 1);

    let subst = validate_and_alloc_subst(&mut stash, &vars, &[(b, boolean), (a, int)]).unwrap();
    assert_eq!(
        stash.subst(subst),
        [SubstEntry { key: a, value: int }, SubstEntry { key: b, value: boolean }]
    );

    let before = stash.len();
    let unknown = alpha(GenericParamKind::Type, 9);
    assert_eq!(
        validate_and_alloc_subst(&mut stash, &vars, &[(a, int), (unknown, int)]),
        Err(SubstitutionError::UnknownKey(unknown))
    );
    assert_eq!(
        validate_and_alloc_subst(&mut stash, &vars, &[(vars[2].param, int)]),
        Err(SubstitutionError::RigidKey(vars[2].param))
    );
    assert_eq!(
        validate_and_alloc_subst(&mut stash, &vars, &[(vars[3].param, int)]),
        Err(SubstitutionError::NonTypeKey(vars[3].param))
    );
    assert_eq!(
        validate_and_alloc_subst(&mut stash, &vars, &[(a, int), (a, boolean)]),
        Err(SubstitutionError::DuplicateKey(a))
    );
    assert_eq!(stash.len(), before);
}
