//! Checks at the boundary of a canonical query: what crosses it must not
//! carry a proof-local inference variable.
use vstd::prelude::*;

use crate::goal::{
    alias_tys_ok, assumption_refs, assumption_tys_ok, assumptions_at, entry_tys_ok, goal_at,
    goal_refs, goal_tys_ok, goals_at, predicate_at, result_refs, result_tys_ok, stores_ok, subst_at,
    Assumption, Atom, Goal, GoalEntry, GoalStore, QueryResult, QueryResultData,
};
use crate::generic_param::{AlphaEquivParam, GenericParamKind};
use crate::solve::{
    find_position, first_position, known_key, lemma_first_position_unique, CallerCanonicalVar,
    CanonicalVarInfo, CanonicalVarRole, ResponseVarInfo, SubstEntry,
};
use crate::unify::UnifyError;
use crate::skeleton::{children, decompose};
use crate::ty::{AliasTy, Ty, TyId, TyStore};

verus! {

/// No inference variable occurs in `ty` or in a type below it.
pub open spec fn ty_free_of_vars(stash: &TyStore, ty: TyId) -> bool
    decreases ty.0 as nat + 1, 0nat,
{
    &&& !(stash.types()[ty.0 as int] is InferVar)
    &&& ids_free_of_vars(stash, children(stash.types()[ty.0 as int], stash.lists()), ty.0 as nat)
}

/// No inference variable occurs in those of `ids` below `bound`, nor in a
/// type below them.
pub open spec fn ids_free_of_vars(stash: &TyStore, ids: Seq<TyId>, bound: nat) -> bool
    decreases bound, ids.len(),
{
    if ids.len() == 0 {
        true
    } else {
        &&& ids_free_of_vars(stash, ids.drop_last(), bound)
        &&& if ids.last().0 < bound {
            ty_free_of_vars(stash, ids.last())
        } else {
            true
        }
    }
}

/// No inference variable occurs in any of `ids` nor below them.
pub open spec fn all_free_of_vars(stash: &TyStore, ids: Seq<TyId>) -> bool {
    ids_free_of_vars(stash, ids, stash.types().len())
}

/// No inference variable occurs in the types `alias` is applied to.
pub open spec fn alias_free_of_vars(stash: &TyStore, alias: AliasTy) -> bool {
    match alias {
        AliasTy::Named(a) => all_free_of_vars(stash, stash.lists()[a.args.0 as int]),
        AliasTy::Opaque(a) => all_free_of_vars(stash, stash.lists()[a.args.0 as int]),
        AliasTy::Associated(p) => {
            &&& ty_free_of_vars(stash, p.self_ty)
            &&& all_free_of_vars(stash, stash.lists()[p.trait_ref.args.0 as int])
            &&& all_free_of_vars(stash, stash.lists()[p.args.0 as int])
        },
    }
}

/// No inference variable occurs in goal `g`, reading nested entries below
/// `bound` of `e`.
pub open spec fn goal_free_of_vars(e: Seq<GoalEntry>, stash: &TyStore, g: Goal, bound: nat) -> bool
    decreases bound, 1nat,
{
    match g {
        Goal::Exists(b) => if b.value.0 < bound {
            goal_free_of_vars(e, stash, goal_at(e, b.value.0), b.value.0 as nat)
        } else {
            true
        },
        Goal::Implies(a, inner) => {
            &&& if a.0 < bound {
                assumptions_free_of_vars(e, stash, assumptions_at(e, a.0), a.0 as nat)
            } else {
                true
            }
            &&& if inner.0 < bound {
                goal_free_of_vars(e, stash, goal_at(e, inner.0), inner.0 as nat)
            } else {
                true
            }
        },
        Goal::All(gs) => if gs.0 < bound {
            goals_free_of_vars(e, stash, goals_at(e, gs.0), gs.0 as nat)
        } else {
            true
        },
        Goal::Atom(Atom::TraitImpl { self_ty, trait_ref }) => ty_free_of_vars(stash, self_ty)
            && all_free_of_vars(stash, stash.lists()[trait_ref.args.0 as int]),
        Goal::Atom(Atom::Equals(left, right)) => ty_free_of_vars(stash, left) && ty_free_of_vars(
            stash,
            right,
        ),
        Goal::Maybe => true,
    }
}

/// No inference variable occurs in any of `gs`.
pub open spec fn goals_free_of_vars(
    e: Seq<GoalEntry>,
    stash: &TyStore,
    gs: Seq<Goal>,
    bound: nat,
) -> bool
    decreases bound, gs.len() + 1,
{
    if gs.len() == 0 {
        true
    } else {
        goals_free_of_vars(e, stash, gs.drop_last(), bound) && goal_free_of_vars(
            e,
            stash,
            gs.last(),
            bound,
        )
    }
}

/// No inference variable occurs in assumption `a`.
pub open spec fn assumption_free_of_vars(
    e: Seq<GoalEntry>,
    stash: &TyStore,
    a: Assumption,
    bound: nat,
) -> bool
    decreases bound, 1nat,
{
    match a {
        Assumption::TraitImpl { self_ty, trait_ref } => ty_free_of_vars(stash, self_ty)
            && all_free_of_vars(stash, stash.lists()[trait_ref.args.0 as int]),
        Assumption::NormalizesTo { alias, ty } => alias_free_of_vars(stash, alias) && ty_free_of_vars(
            stash,
            ty,
        ),
        Assumption::Implies(conditions, consequence) => {
            &&& if conditions.0 < bound {
                goals_free_of_vars(e, stash, goals_at(e, conditions.0), conditions.0 as nat)
            } else {
                true
            }
            &&& ty_free_of_vars(stash, predicate_at(e, consequence.0).self_ty)
            &&& all_free_of_vars(
                stash,
                stash.lists()[predicate_at(e, consequence.0).trait_ref.args.0 as int],
            )
        },
        Assumption::All(xs) => if xs.0 < bound {
            assumptions_free_of_vars(e, stash, assumptions_at(e, xs.0), xs.0 as nat)
        } else {
            true
        },
    }
}

/// No inference variable occurs in any of `xs`.
pub open spec fn assumptions_free_of_vars(
    e: Seq<GoalEntry>,
    stash: &TyStore,
    xs: Seq<Assumption>,
    bound: nat,
) -> bool
    decreases bound, xs.len() + 1,
{
    if xs.len() == 0 {
        true
    } else {
        assumptions_free_of_vars(e, stash, xs.drop_last(), bound) && assumption_free_of_vars(
            e,
            stash,
            xs.last(),
            bound,
        )
    }
}

/// `ids_free_of_vars` holds exactly when each of `ids` below `bound` is free.
pub proof fn lemma_ids_free_of_vars(stash: &TyStore, ids: Seq<TyId>, bound: nat)
    ensures
        ids_free_of_vars(stash, ids, bound) <==> forall|k: int|
            0 <= k < ids.len() && (#[trigger] ids[k]).0 < bound ==> ty_free_of_vars(stash, ids[k]),
    decreases ids.len(),
{
    if ids.len() > 0 {
        lemma_ids_free_of_vars(stash, ids.drop_last(), bound);
        assert forall|k: int| 0 <= k < ids.len() - 1 implies #[trigger] ids.drop_last()[k] == ids[k] by {}
        if ids_free_of_vars(stash, ids, bound) {
            assert forall|k: int|
                0 <= k < ids.len() && (#[trigger] ids[k]).0 < bound implies ty_free_of_vars(stash, ids[k]) by {
                if k < ids.len() - 1 {
                    assert(ids.drop_last()[k] == ids[k]);
                }
            }
        }
    }
}

/// Report whether no inference variable occurs in `ty` or below it.
pub fn ty_contains_no_infer_vars(stash: &TyStore, ty: TyId) -> (free: bool)
    requires
        stash.wf(),
        ty.0 < stash.types().len(),
    ensures
        free == ty_free_of_vars(stash, ty),
    decreases ty.0,
{
    if let Ty::InferVar(_) = stash.get(ty) {
        return false;
    }
    let decomposed = decompose(stash, ty);
    let kids = decomposed.child_ids();
    let ghost bound = ty.0 as nat;
    let mut i: usize = 0;
    while i < kids.len()
        invariant
            stash.wf(),
            bound == ty.0,
            kids@ == children(stash.types()[ty.0 as int], stash.lists()),
            forall|k: int| 0 <= k < kids@.len() ==> (#[trigger] kids@[k]).0 < bound,
            bound < stash.types().len(),
            i <= kids@.len(),
            forall|k: int| 0 <= k < i ==> ty_free_of_vars(stash, #[trigger] kids@[k]),
        decreases kids@.len() - i,
    {
        if !ty_contains_no_infer_vars(stash, kids[i]) {
            proof {
                lemma_ids_free_of_vars(stash, kids@, bound);
                assert(kids@[i as int].0 < bound);
            }
            return false;
        }
        i += 1;
    }
    proof {
        lemma_ids_free_of_vars(stash, kids@, bound);
    }
    true
}

/// Report whether no inference variable occurs in any of `ids`.
fn all_contain_no_infer_vars(stash: &TyStore, ids: &[TyId]) -> (free: bool)
    requires
        stash.wf(),
        forall|k: int| 0 <= k < ids@.len() ==> (#[trigger] ids@[k]).0 < stash.types().len(),
    ensures
        free == all_free_of_vars(stash, ids@),
{
    let mut i: usize = 0;
    while i < ids.len()
        invariant
            stash.wf(),
            forall|k: int| 0 <= k < ids@.len() ==> (#[trigger] ids@[k]).0 < stash.types().len(),
            i <= ids@.len(),
            forall|k: int| 0 <= k < i ==> ty_free_of_vars(stash, #[trigger] ids@[k]),
        decreases ids@.len() - i,
    {
        if !ty_contains_no_infer_vars(stash, ids[i]) {
            proof {
                lemma_ids_free_of_vars(stash, ids@, stash.types().len());
                assert(ids@[i as int].0 < stash.types().len());
            }
            return false;
        }
        i += 1;
    }
    proof {
        lemma_ids_free_of_vars(stash, ids@, stash.types().len());
    }
    true
}

/// `goals_free_of_vars` holds exactly when each of `gs` is free.
pub proof fn lemma_goals_free_of_vars(e: Seq<GoalEntry>, stash: &TyStore, gs: Seq<Goal>, bound: nat)
    ensures
        goals_free_of_vars(e, stash, gs, bound) <==> forall|k: int|
            0 <= k < gs.len() ==> goal_free_of_vars(e, stash, #[trigger] gs[k], bound),
    decreases gs.len(),
{
    if gs.len() > 0 {
        lemma_goals_free_of_vars(e, stash, gs.drop_last(), bound);
        assert forall|k: int| 0 <= k < gs.len() - 1 implies #[trigger] gs.drop_last()[k] == gs[k] by {}
        if goals_free_of_vars(e, stash, gs, bound) {
            assert forall|k: int| 0 <= k < gs.len() implies goal_free_of_vars(e, stash, #[trigger] gs[k], bound) by {
                if k < gs.len() - 1 {
                    assert(gs.drop_last()[k] == gs[k]);
                }
            }
        }
    }
}

/// `assumptions_free_of_vars` holds exactly when each of `xs` is free.
pub proof fn lemma_assumptions_free_of_vars(
    e: Seq<GoalEntry>,
    stash: &TyStore,
    xs: Seq<Assumption>,
    bound: nat,
)
    ensures
        assumptions_free_of_vars(e, stash, xs, bound) <==> forall|k: int|
            0 <= k < xs.len() ==> assumption_free_of_vars(e, stash, #[trigger] xs[k], bound),
    decreases xs.len(),
{
    if xs.len() > 0 {
        lemma_assumptions_free_of_vars(e, stash, xs.drop_last(), bound);
        assert forall|k: int| 0 <= k < xs.len() - 1 implies #[trigger] xs.drop_last()[k] == xs[k] by {}
        if assumptions_free_of_vars(e, stash, xs, bound) {
            assert forall|k: int|
                0 <= k < xs.len() implies assumption_free_of_vars(e, stash, #[trigger] xs[k], bound) by {
                if k < xs.len() - 1 {
                    assert(xs.drop_last()[k] == xs[k]);
                }
            }
        }
    }
}

fn goal_free_below(store: &GoalStore, stash: &TyStore, goal: Goal, Ghost(bound): Ghost<nat>) -> (free: bool)
    requires
        stores_ok(store, stash),
        bound <= store.entries().len(),
        goal_refs(store.entries(), goal, bound),
        goal_tys_ok(stash, goal),
    ensures
        free == goal_free_of_vars(store.entries(), stash, goal, bound),
    decreases bound, 1nat,
{
    let ghost e = store.entries();
    match goal {
        Goal::Exists(binder) => {
            let v = binder.value;
            proof {
                assert(entry_refs_at(store, v.0 as int));
                assert(store.tys_ok(stash) ==> entry_tys_ok(stash, e[v.0 as int]));
            }
            goal_free_below(store, stash, store.goal(v), Ghost(v.0 as nat))
        },
        Goal::Implies(assumptions, inner) => {
            proof {
                assert(entry_refs_at(store, assumptions.0 as int));
                assert(entry_refs_at(store, inner.0 as int));
                assert(entry_tys_ok(stash, e[assumptions.0 as int]));
                assert(entry_tys_ok(stash, e[inner.0 as int]));
            }
            if !assumptions_free_below(
                store,
                stash,
                store.assumption_list(assumptions),
                Ghost(assumptions.0 as nat),
            ) {
                return false;
            }
            goal_free_below(store, stash, store.goal(inner), Ghost(inner.0 as nat))
        },
        Goal::All(goals) => {
            proof {
                assert(entry_refs_at(store, goals.0 as int));
                assert(entry_tys_ok(stash, e[goals.0 as int]));
            }
            goals_free_below(store, stash, store.goal_list(goals), Ghost(goals.0 as nat))
        },
        Goal::Atom(Atom::TraitImpl { self_ty, trait_ref }) => {
            ty_contains_no_infer_vars(stash, self_ty) && all_contain_no_infer_vars(
                stash,
                stash.list(trait_ref.args),
            )
        },
        Goal::Atom(Atom::Equals(left, right)) => {
            ty_contains_no_infer_vars(stash, left) && ty_contains_no_infer_vars(stash, right)
        },
        Goal::Maybe => true,
    }
}

/// Entry `i` refers only to entries below it.
spec fn entry_refs_at(store: &GoalStore, i: int) -> bool {
    0 <= i < store.entries().len() ==> crate::goal::entry_refs(
        store.entries(),
        store.entries()[i],
        i as nat,
    )
}

fn goals_free_below(store: &GoalStore, stash: &TyStore, goals: &[Goal], Ghost(bound): Ghost<nat>) -> (free: bool)
    requires
        stores_ok(store, stash),
        bound <= store.entries().len(),
        forall|k: int| 0 <= k < goals@.len() ==> goal_refs(store.entries(), #[trigger] goals@[k], bound),
        forall|k: int| 0 <= k < goals@.len() ==> goal_tys_ok(stash, #[trigger] goals@[k]),
    ensures
        free == goals_free_of_vars(store.entries(), stash, goals@, bound),
    decreases bound, 2nat,
{
    let mut i: usize = 0;
    while i < goals.len()
        invariant
            stores_ok(store, stash),
            bound <= store.entries().len(),
            forall|k: int| 0 <= k < goals@.len() ==> goal_refs(store.entries(), #[trigger] goals@[k], bound),
            forall|k: int| 0 <= k < goals@.len() ==> goal_tys_ok(stash, #[trigger] goals@[k]),
            i <= goals@.len(),
            forall|k: int| 0 <= k < i ==> goal_free_of_vars(store.entries(), stash, #[trigger] goals@[k], bound),
        decreases goals@.len() - i,
    {
        if !goal_free_below(store, stash, goals[i], Ghost(bound)) {
            proof {
                lemma_goals_free_of_vars(store.entries(), stash, goals@, bound);
            }
            return false;
        }
        i += 1;
    }
    proof {
        lemma_goals_free_of_vars(store.entries(), stash, goals@, bound);
    }
    true
}

fn assumption_free_below(
    store: &GoalStore,
    stash: &TyStore,
    assumption: Assumption,
    Ghost(bound): Ghost<nat>,
) -> (free: bool)
    requires
        stores_ok(store, stash),
        bound <= store.entries().len(),
        assumption_refs(store.entries(), assumption, bound),
        assumption_tys_ok(stash, assumption),
    ensures
        free == assumption_free_of_vars(store.entries(), stash, assumption, bound),
    decreases bound, 1nat,
{
    let ghost e = store.entries();
    match assumption {
        Assumption::TraitImpl { self_ty, trait_ref } => {
            ty_contains_no_infer_vars(stash, self_ty) && all_contain_no_infer_vars(
                stash,
                stash.list(trait_ref.args),
            )
        },
        Assumption::NormalizesTo { alias, ty } => {
            alias_contains_no_infer_vars(stash, alias) && ty_contains_no_infer_vars(stash, ty)
        },
        Assumption::Implies(conditions, consequence) => {
            proof {
                assert(entry_refs_at(store, conditions.0 as int));
                assert(entry_tys_ok(stash, e[conditions.0 as int]));
                assert(entry_tys_ok(stash, e[consequence.0 as int]));
            }
            if !goals_free_below(store, stash, store.goal_list(conditions), Ghost(conditions.0 as nat)) {
                return false;
            }
            let predicate = store.predicate(consequence);
            ty_contains_no_infer_vars(stash, predicate.self_ty) && all_contain_no_infer_vars(
                stash,
                stash.list(predicate.trait_ref.args),
            )
        },
        Assumption::All(items) => {
            proof {
                assert(entry_refs_at(store, items.0 as int));
                assert(entry_tys_ok(stash, e[items.0 as int]));
            }
            assumptions_free_below(store, stash, store.assumption_list(items), Ghost(items.0 as nat))
        },
    }
}

fn assumptions_free_below(
    store: &GoalStore,
    stash: &TyStore,
    assumptions: &[Assumption],
    Ghost(bound): Ghost<nat>,
) -> (free: bool)
    requires
        stores_ok(store, stash),
        bound <= store.entries().len(),
        forall|k: int|
            0 <= k < assumptions@.len() ==> assumption_refs(store.entries(), #[trigger] assumptions@[k], bound),
        forall|k: int| 0 <= k < assumptions@.len() ==> assumption_tys_ok(stash, #[trigger] assumptions@[k]),
    ensures
        free == assumptions_free_of_vars(store.entries(), stash, assumptions@, bound),
    decreases bound, 2nat,
{
    let mut i: usize = 0;
    while i < assumptions.len()
        invariant
            stores_ok(store, stash),
            bound <= store.entries().len(),
            forall|k: int|
                0 <= k < assumptions@.len() ==> assumption_refs(store.entries(), #[trigger] assumptions@[k], bound),
            forall|k: int|
                0 <= k < assumptions@.len() ==> assumption_tys_ok(stash, #[trigger] assumptions@[k]),
            i <= assumptions@.len(),
            forall|k: int|
                0 <= k < i ==> assumption_free_of_vars(store.entries(), stash, #[trigger] assumptions@[k], bound),
        decreases assumptions@.len() - i,
    {
        if !assumption_free_below(store, stash, assumptions[i], Ghost(bound)) {
            proof {
                lemma_assumptions_free_of_vars(store.entries(), stash, assumptions@, bound);
            }
            return false;
        }
        i += 1;
    }
    proof {
        lemma_assumptions_free_of_vars(store.entries(), stash, assumptions@, bound);
    }
    true
}

/// Report whether no inference variable occurs in the types `alias` is
/// applied to.
fn alias_contains_no_infer_vars(stash: &TyStore, alias: AliasTy) -> (free: bool)
    requires
        stash.wf(),
        alias_tys_ok(stash, alias),
    ensures
        free == alias_free_of_vars(stash, alias),
{
    match alias {
        AliasTy::Named(a) => all_contain_no_infer_vars(stash, stash.list(a.args)),
        AliasTy::Opaque(a) => all_contain_no_infer_vars(stash, stash.list(a.args)),
        AliasTy::Associated(p) => {
            ty_contains_no_infer_vars(stash, p.self_ty) && all_contain_no_infer_vars(
                stash,
                stash.list(p.trait_ref.args),
            ) && all_contain_no_infer_vars(stash, stash.list(p.args))
        },
    }
}

/// Report whether no inference variable occurs in `goal`, through every
/// goal, assumption and type it reaches.
pub fn goal_contains_no_infer_vars(store: &GoalStore, stash: &TyStore, goal: Goal) -> (free: bool)
    requires
        stores_ok(store, stash),
        goal_refs(store.entries(), goal, store.entries().len()),
        goal_tys_ok(stash, goal),
    ensures
        free == goal_free_of_vars(store.entries(), stash, goal, store.entries().len()),
{
    goal_free_below(store, stash, goal, Ghost(store.entries().len()))
}

/// Report whether no inference variable occurs in `assumption`, through
/// every goal, assumption and type it reaches.
pub fn assumption_contains_no_infer_vars(
    store: &GoalStore,
    stash: &TyStore,
    assumption: Assumption,
) -> (free: bool)
    requires
        stores_ok(store, stash),
        assumption_refs(store.entries(), assumption, store.entries().len()),
        assumption_tys_ok(stash, assumption),
    ensures
        free == assumption_free_of_vars(store.entries(), stash, assumption, store.entries().len()),
{
    assumption_free_below(store, stash, assumption, Ghost(store.entries().len()))
}

/// No inference variable occurs in a value of `subst`.
pub open spec fn subst_free_of_vars(stash: &TyStore, subst: Seq<SubstEntry>) -> bool {
    forall|k: int| 0 <= k < subst.len() ==> ty_free_of_vars(stash, (#[trigger] subst[k]).value)
}

/// No inference variable occurs in the bindings or the residual goal of `r`.
pub open spec fn response_free_of_vars(e: Seq<GoalEntry>, stash: &TyStore, r: QueryResult) -> bool {
    match r.value {
        QueryResultData::Yes { subst, modulo } => subst_free_of_vars(stash, subst_at(e, subst.0))
            && goal_free_of_vars(e, stash, modulo, e.len()),
        QueryResultData::Maybe { hints } => subst_free_of_vars(stash, subst_at(e, hints.0)),
        QueryResultData::No => true,
    }
}

/// Report whether no inference variable occurs in the values of `subst`.
fn subst_contains_no_infer_vars(stash: &TyStore, subst: &[SubstEntry]) -> (free: bool)
    requires
        stash.wf(),
        forall|k: int| 0 <= k < subst@.len() ==> (#[trigger] subst@[k]).value.0 < stash.types().len(),
    ensures
        free == subst_free_of_vars(stash, subst@),
{
    let mut i: usize = 0;
    while i < subst.len()
        invariant
            stash.wf(),
            forall|k: int| 0 <= k < subst@.len() ==> (#[trigger] subst@[k]).value.0 < stash.types().len(),
            i <= subst@.len(),
            forall|k: int| 0 <= k < i ==> ty_free_of_vars(stash, (#[trigger] subst@[k]).value),
        decreases subst@.len() - i,
    {
        if !ty_contains_no_infer_vars(stash, subst[i].value) {
            return false;
        }
        i += 1;
    }
    true
}

/// Report whether a canonical response is free of inference variables:
/// neither its bindings nor its residual goal may mention one.
pub fn response_contains_no_infer_vars(store: &GoalStore, stash: &TyStore, result: QueryResult) -> (free: bool)
    requires
        stores_ok(store, stash),
        result_refs(store.entries(), result, store.entries().len()),
        result_tys_ok(stash, result),
    ensures
        free == response_free_of_vars(store.entries(), stash, result),
{
    let ghost e = store.entries();
    let (substitution, residual) = match result.value {
        QueryResultData::Yes { subst, modulo } => (subst, Some(modulo)),
        QueryResultData::Maybe { hints } => (hints, None),
        QueryResultData::No => return true,
    };
    proof {
        assert(entry_tys_ok(stash, e[substitution.0 as int]));
    }
    if !subst_contains_no_infer_vars(stash, store.subst(substitution)) {
        return false;
    }
    match residual {
        Some(goal) => goal_contains_no_infer_vars(store, stash, goal),
        None => true,
    }
}

/// Why a query response could not be applied to its caller.
#[derive(Copy, Clone, Debug, PartialEq, Eq, Structural)]
pub enum ApplyResponseError {
    MappingArity,
    InvalidResponseKey(AlphaEquivParam),
    DuplicateResponseKey(AlphaEquivParam),
    InvalidResponseBinder(AlphaEquivParam),
    UniverseOverflow,
    Unification(UnifyError),
}

/// What is wrong with entry `k` of a response substitution, if anything:
/// its key repeats an earlier one, names no canonical variable, or names
/// one (by its first position) that is not an existential input mapped to
/// a caller variable.
pub open spec fn entry_error(
    vars: Seq<CanonicalVarInfo>,
    inputs: Seq<CallerCanonicalVar>,
    entries: Seq<SubstEntry>,
    k: int,
) -> Option<ApplyResponseError> {
    let key = entries[k].key;
    if exists|j: int| 0 <= j < k && (#[trigger] entries[j]).key == key {
        Some(ApplyResponseError::DuplicateResponseKey(key))
    } else if !known_key(vars, key) {
        Some(ApplyResponseError::InvalidResponseKey(key))
    } else {
        let p = choose|p: int| first_position(vars, key, p);
        if vars[p].role != CanonicalVarRole::ExistentialInput || !(inputs[p] is Existential) {
            Some(ApplyResponseError::InvalidResponseKey(key))
        } else {
            None
        }
    }
}

/// The error of the first offending entry among the first `n`.
pub open spec fn first_entry_error(
    vars: Seq<CanonicalVarInfo>,
    inputs: Seq<CallerCanonicalVar>,
    entries: Seq<SubstEntry>,
    n: nat,
) -> Option<ApplyResponseError>
    decreases n,
{
    if n == 0 {
        None
    } else {
        match first_entry_error(vars, inputs, entries, (n - 1) as nat) {
            Some(e) => Some(e),
            None => entry_error(vars, inputs, entries, n - 1),
        }
    }
}

/// What is wrong with binder `k` of a response, if anything: it is not a
/// type, it is also a canonical variable, or it repeats an earlier binder.
pub open spec fn binder_error(
    vars: Seq<CanonicalVarInfo>,
    binders: Seq<ResponseVarInfo>,
    k: int,
) -> Option<ApplyResponseError> {
    let b = binders[k];
    if b.kind != GenericParamKind::Type || known_key(vars, b.param) || exists|j: int|
        0 <= j < k && (#[trigger] binders[j]).param == b.param {
        Some(ApplyResponseError::InvalidResponseBinder(b.param))
    } else {
        None
    }
}

/// The error of the first offending binder among the first `n`.
pub open spec fn first_binder_error(
    vars: Seq<CanonicalVarInfo>,
    binders: Seq<ResponseVarInfo>,
    n: nat,
) -> Option<ApplyResponseError>
    decreases n,
{
    if n == 0 {
        None
    } else {
        match first_binder_error(vars, binders, (n - 1) as nat) {
            Some(e) => Some(e),
            None => binder_error(vars, binders, n - 1),
        }
    }
}

/// What the checks before applying a response decide: the mapping must
/// cover the canonical variables one for one; a negative response needs
/// nothing more; else the first offending substitution entry, then the
/// first offending binder, decides the error.
pub open spec fn response_check(
    vars: Seq<CanonicalVarInfo>,
    inputs: Seq<CallerCanonicalVar>,
    is_no: bool,
    entries: Seq<SubstEntry>,
    binders: Seq<ResponseVarInfo>,
) -> Result<(), ApplyResponseError> {
    if vars.len() != inputs.len() {
        Err(ApplyResponseError::MappingArity)
    } else if is_no {
        Ok(())
    } else {
        match first_entry_error(vars, inputs, entries, entries.len()) {
            Some(e) => Err(e),
            None => match first_binder_error(vars, binders, binders.len()) {
                Some(e) => Err(e),
                None => Ok(()),
            },
        }
    }
}

proof fn lemma_entry_error_stays(
    vars: Seq<CanonicalVarInfo>,
    inputs: Seq<CallerCanonicalVar>,
    entries: Seq<SubstEntry>,
    k: nat,
    m: nat,
)
    requires
        k < m,
        first_entry_error(vars, inputs, entries, k) is None,
        entry_error(vars, inputs, entries, k as int) is Some,
    ensures
        first_entry_error(vars, inputs, entries, m) == entry_error(vars, inputs, entries, k as int),
    decreases m,
{
    if m > k + 1 {
        lemma_entry_error_stays(vars, inputs, entries, k, (m - 1) as nat);
    }
}

proof fn lemma_binder_error_stays(vars: Seq<CanonicalVarInfo>, binders: Seq<ResponseVarInfo>, k: nat, m: nat)
    requires
        k < m,
        first_binder_error(vars, binders, k) is None,
        binder_error(vars, binders, k as int) is Some,
    ensures
        first_binder_error(vars, binders, m) == binder_error(vars, binders, k as int),
    decreases m,
{
    if m > k + 1 {
        lemma_binder_error_stays(vars, binders, k, (m - 1) as nat);
    }
}

/// Check a query response against the query and the caller's mapping
/// before it is applied.
pub fn check_query_response(
    vars: &[CanonicalVarInfo],
    inputs: &[CallerCanonicalVar],
    is_no: bool,
    entries: &[SubstEntry],
    binders: &[ResponseVarInfo],
) -> (result: Result<(), ApplyResponseError>)
    ensures
        result == response_check(vars@, inputs@, is_no, entries@, binders@),
{
    if vars.len() != inputs.len() {
        return Err(ApplyResponseError::MappingArity);
    }
    if is_no {
        return Ok(());
    }
    let mut k: usize = 0;
    while k < entries.len()
        invariant
            k <= entries@.len(),
            vars@.len() == inputs@.len(),
                !is_no,
            first_entry_error(vars@, inputs@, entries@, k as nat) is None,
        decreases entries@.len() - k,
    {
        let key = entries[k].key;
        let mut j: usize = 0;
        while j < k
            invariant
                j <= k,
                k < entries@.len(),
                key == entries@[k as int].key,
                forall|q: int| 0 <= q < j ==> (#[trigger] entries@[q]).key != key,
                first_entry_error(vars@, inputs@, entries@, k as nat) is None,
                vars@.len() == inputs@.len(),
                !is_no,
            decreases k - j,
        {
            if entries[j].key == key {
                proof {
                    assert(entry_error(vars@, inputs@, entries@, k as int) == Some(
                        ApplyResponseError::DuplicateResponseKey(key),
                    ));
                    lemma_entry_error_stays(vars@, inputs@, entries@, k as nat, entries@.len());
                }
                return Err(ApplyResponseError::DuplicateResponseKey(key));
            }
            j += 1;
        }
        match find_position(vars, key) {
            None => {
                proof {
                    assert(entry_error(vars@, inputs@, entries@, k as int) == Some(
                        ApplyResponseError::InvalidResponseKey(key),
                    ));
                    lemma_entry_error_stays(vars@, inputs@, entries@, k as nat, entries@.len());
                }
                return Err(ApplyResponseError::InvalidResponseKey(key));
            },
            Some(p) => {
                proof {
                    let c = choose|c: int| first_position(vars@, key, c);
                    lemma_first_position_unique(vars@, key, p as int, c);
                }
                let existential = match inputs[p] {
                    CallerCanonicalVar::Existential(_) => true,
                    CallerCanonicalVar::Rigid(_) => false,
                };
                if vars[p].role != CanonicalVarRole::ExistentialInput || !existential {
                    proof {
                        assert(entry_error(vars@, inputs@, entries@, k as int) == Some(
                            ApplyResponseError::InvalidResponseKey(key),
                        ));
                        lemma_entry_error_stays(vars@, inputs@, entries@, k as nat, entries@.len());
                    }
                    return Err(ApplyResponseError::InvalidResponseKey(key));
                }
            },
        }
        k += 1;
    }
    let mut b: usize = 0;
    while b < binders.len()
        invariant
            b <= binders@.len(),
            vars@.len() == inputs@.len(),
                !is_no,
            first_entry_error(vars@, inputs@, entries@, entries@.len()) is None,
            first_binder_error(vars@, binders@, b as nat) is None,
        decreases binders@.len() - b,
    {
        let info = binders[b];
        let mut duplicate = false;
        let mut j: usize = 0;
        while j < b
            invariant
                j <= b,
                b < binders@.len(),
                info == binders@[b as int],
                duplicate == exists|q: int| 0 <= q < j && (#[trigger] binders@[q]).param == info.param,
                first_binder_error(vars@, binders@, b as nat) is None,
                first_entry_error(vars@, inputs@, entries@, entries@.len()) is None,
                vars@.len() == inputs@.len(),
                !is_no,
            decreases b - j,
        {
            if binders[j].param == info.param {
                duplicate = true;
            }
            j += 1;
        }
        let canonical = match find_position(vars, info.param) {
            Some(_) => true,
            None => false,
        };
        let is_type = match info.kind {
            GenericParamKind::Type => true,
            _ => false,
        };
        proof {
            if canonical {
                assert(known_key(vars@, info.param));
            }
        }
        if !is_type || canonical || duplicate {
            proof {
                assert(binder_error(vars@, binders@, b as int) is Some);
                lemma_binder_error_stays(vars@, binders@, b as nat, binders@.len());
            }
            return Err(ApplyResponseError::InvalidResponseBinder(info.param));
        }
        b += 1;
    }
    Ok(())
}

} // verus!
