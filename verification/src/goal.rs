//! Solver goals, assumptions and clauses, and the store that holds them.
//!
//! Goals refer to nested goals, lists and predicates by identity. The store
//! is an arena: an allocation appends one entry, and every entry refers only
//! to entries allocated before it, so a walk through a goal always ends.
use vstd::prelude::*;

use crate::generic_param::{AlphaEquivParam, GenericParam, GenericParamKind};
use crate::skeleton::{children, decompose};
use crate::solve::{
    CanonicalVarInfo, CanonicalVarRole, ClauseSource, ResponseVarInfo, SubstEntry,
};
use crate::ty::{AliasTy, Const, TraitRef, Ty, TyId, TyStore, WherePredicate};

verus! {

/// The deepest nesting of proof steps that the solver explores.
pub const MAX_PROOF_DEPTH: u32 = 64;

/// Identity of a stored goal.
#[derive(Copy, Clone, Debug, PartialEq, Eq, Structural, Hash)]
pub struct GoalPtr(pub u32);

/// Identity of a stored list of goals.
#[derive(Copy, Clone, Debug, PartialEq, Eq, Structural, Hash)]
pub struct GoalList(pub u32);

/// Identity of a stored list of assumptions.
#[derive(Copy, Clone, Debug, PartialEq, Eq, Structural, Hash)]
pub struct AssumptionList(pub u32);

/// Identity of a stored where-predicate.
#[derive(Copy, Clone, Debug, PartialEq, Eq, Structural, Hash)]
pub struct PredicatePtr(pub u32);

/// Identity of a stored list of generic parameters.
#[derive(Copy, Clone, Debug, PartialEq, Eq, Structural, Hash)]
pub struct ParamList(pub u32);

/// Identity of a stored substitution.
#[derive(Copy, Clone, Debug, PartialEq, Eq, Structural, Hash)]
pub struct Subst(pub u32);

/// Identity of a stored list of response variables.
#[derive(Copy, Clone, Debug, PartialEq, Eq, Structural, Hash)]
pub struct ResponseVarList(pub u32);

/// A value under binders: `generics` are bound in `value`.
#[derive(Copy, Clone, Debug, PartialEq, Eq, Structural, Hash)]
pub struct Binder<T> {
    pub generics: ParamList,
    pub value: T,
}

/// A top-level solver operation: prove a proposition, or normalize an alias.
#[derive(Copy, Clone, Debug, PartialEq, Eq, Structural, Hash)]
pub enum SolverGoal {
    Prove(Goal),
    Normalize(AliasTy),
}

/// A proposition for the solver.
#[derive(Copy, Clone, Debug, PartialEq, Eq, Structural, Hash)]
pub enum Goal {
    Exists(Binder<GoalPtr>),
    Implies(AssumptionList, GoalPtr),
    All(GoalList),
    Atom(Atom),
    Maybe,
}

/// An indivisible proposition.
#[derive(Copy, Clone, Debug, PartialEq, Eq, Structural, Hash)]
pub enum Atom {
    TraitImpl { self_ty: TyId, trait_ref: TraitRef },
    Equals(TyId, TyId),
}

/// A fact the solver may use.
#[derive(Copy, Clone, Debug, PartialEq, Eq, Structural, Hash)]
pub enum Assumption {
    TraitImpl { self_ty: TyId, trait_ref: TraitRef },
    /// A value-bearing normalization fact. Unlike `TraitImpl`, this supplies
    /// an associated value and can therefore answer `Normalize`.
    NormalizesTo { alias: AliasTy, ty: TyId },
    Implies(GoalList, PredicatePtr),
    All(AssumptionList),
}

/// A program clause: `head` holds when every goal of `body` holds.
#[derive(Copy, Clone, Debug, PartialEq, Eq, Structural, Hash)]
pub struct Clause {
    pub head: WherePredicate,
    pub body: GoalList,
    pub source: ClauseSource,
}

/// A clause under the binders of its impl or environment.
pub type ClauseBinder = Binder<Clause>;

/// A canonical solver query: every semantic input of one solver call.
pub struct GoalQueryData {
    /// The crate the query is asked from, by its symbol.
    pub local_crate: u32,
    pub canonical_universe: u32,
    pub canonical_vars: Vec<CanonicalVarInfo>,
    pub next_response_param: u32,
    pub assumptions_complete: bool,
    pub assumptions: AssumptionList,
    pub goal: SolverGoal,
}

/// The answer to a canonical query, over the variables `bound_vars` that
/// the response introduces.
#[derive(Copy, Clone, Debug, PartialEq, Eq, Structural, Hash)]
pub struct QueryResult {
    pub bound_vars: ResponseVarList,
    pub value: QueryResultData,
}

/// What a canonical query answered.
#[derive(Copy, Clone, Debug, PartialEq, Eq, Structural, Hash)]
pub enum QueryResultData {
    /// Proved, given `subst`, modulo the residual goal `modulo`.
    Yes { subst: Subst, modulo: Goal },
    /// Undecided; `hints` are bindings every answer agrees on.
    Maybe { hints: Subst },
    No,
}

/// What a goal came to for its caller.
#[derive(Copy, Clone, Debug, PartialEq, Eq, Structural, Hash)]
pub enum GoalResult {
    Yes { modulo: Goal },
    Maybe,
    No,
}

/// What one entry of the store holds.
pub enum GoalEntry {
    Goal(Goal),
    Goals(Seq<Goal>),
    Assumptions(Seq<Assumption>),
    Predicate(WherePredicate),
    Params(Seq<GenericParam>),
    Subst(Seq<SubstEntry>),
    ResponseVars(Seq<ResponseVarInfo>),
}

enum StoredEntry {
    Goal(Goal),
    Goals(Vec<Goal>),
    Assumptions(Vec<Assumption>),
    Predicate(WherePredicate),
    Params(Vec<GenericParam>),
    Subst(Vec<SubstEntry>),
    ResponseVars(Vec<ResponseVarInfo>),
}

impl StoredEntry {
    spec fn entry(&self) -> GoalEntry {
        match self {
            StoredEntry::Goal(g) => GoalEntry::Goal(*g),
            StoredEntry::Goals(v) => GoalEntry::Goals(v@),
            StoredEntry::Assumptions(v) => GoalEntry::Assumptions(v@),
            StoredEntry::Predicate(p) => GoalEntry::Predicate(*p),
            StoredEntry::Params(v) => GoalEntry::Params(v@),
            StoredEntry::Subst(v) => GoalEntry::Subst(v@),
            StoredEntry::ResponseVars(v) => GoalEntry::ResponseVars(v@),
        }
    }
}

/// Entry `id` exists below `bound` and holds a goal.
pub open spec fn goal_entry_below(e: Seq<GoalEntry>, id: u32, bound: nat) -> bool {
    id < bound && id < e.len() && e[id as int] is Goal
}

/// Entry `id` exists below `bound` and holds a list of goals.
pub open spec fn goals_entry_below(e: Seq<GoalEntry>, id: u32, bound: nat) -> bool {
    id < bound && id < e.len() && e[id as int] is Goals
}

/// Entry `id` exists below `bound` and holds a list of assumptions.
pub open spec fn assumptions_entry_below(e: Seq<GoalEntry>, id: u32, bound: nat) -> bool {
    id < bound && id < e.len() && e[id as int] is Assumptions
}

/// Entry `id` exists below `bound` and holds a predicate.
pub open spec fn predicate_entry_below(e: Seq<GoalEntry>, id: u32, bound: nat) -> bool {
    id < bound && id < e.len() && e[id as int] is Predicate
}

/// Entry `id` exists below `bound` and holds a list of parameters.
pub open spec fn params_entry_below(e: Seq<GoalEntry>, id: u32, bound: nat) -> bool {
    id < bound && id < e.len() && e[id as int] is Params
}

/// Entry `id` exists below `bound` and holds a substitution.
pub open spec fn subst_entry_below(e: Seq<GoalEntry>, id: u32, bound: nat) -> bool {
    id < bound && id < e.len() && e[id as int] is Subst
}

/// Entry `id` exists below `bound` and holds response variables.
pub open spec fn response_vars_entry_below(e: Seq<GoalEntry>, id: u32, bound: nat) -> bool {
    id < bound && id < e.len() && e[id as int] is ResponseVars
}

/// The substitution held by entry `id`.
pub open spec fn subst_at(e: Seq<GoalEntry>, id: u32) -> Seq<SubstEntry> {
    match e[id as int] {
        GoalEntry::Subst(xs) => xs,
        _ => Seq::empty(),
    }
}

/// The response variables held by entry `id`.
pub open spec fn response_vars_at(e: Seq<GoalEntry>, id: u32) -> Seq<ResponseVarInfo> {
    match e[id as int] {
        GoalEntry::ResponseVars(xs) => xs,
        _ => Seq::empty(),
    }
}

/// The goal held by entry `id`.
pub open spec fn goal_at(e: Seq<GoalEntry>, id: u32) -> Goal {
    match e[id as int] {
        GoalEntry::Goal(g) => g,
        _ => Goal::Maybe,
    }
}

/// The goals held by entry `id`.
pub open spec fn goals_at(e: Seq<GoalEntry>, id: u32) -> Seq<Goal> {
    match e[id as int] {
        GoalEntry::Goals(gs) => gs,
        _ => Seq::empty(),
    }
}

/// The assumptions held by entry `id`.
pub open spec fn assumptions_at(e: Seq<GoalEntry>, id: u32) -> Seq<Assumption> {
    match e[id as int] {
        GoalEntry::Assumptions(xs) => xs,
        _ => Seq::empty(),
    }
}

/// The predicate held by entry `id`.
pub open spec fn predicate_at(e: Seq<GoalEntry>, id: u32) -> WherePredicate {
    match e[id as int] {
        GoalEntry::Predicate(p) => p,
        _ => arbitrary(),
    }
}

/// The parameters held by entry `id`.
pub open spec fn params_at(e: Seq<GoalEntry>, id: u32) -> Seq<GenericParam> {
    match e[id as int] {
        GoalEntry::Params(ps) => ps,
        _ => Seq::empty(),
    }
}

/// Every identity in `g` names an entry of the right kind below `bound`.
pub open spec fn goal_refs(e: Seq<GoalEntry>, g: Goal, bound: nat) -> bool {
    match g {
        Goal::Exists(b) => params_entry_below(e, b.generics.0, bound) && goal_entry_below(
            e,
            b.value.0,
            bound,
        ),
        Goal::Implies(a, inner) => assumptions_entry_below(e, a.0, bound) && goal_entry_below(
            e,
            inner.0,
            bound,
        ),
        Goal::All(gs) => goals_entry_below(e, gs.0, bound),
        Goal::Atom(_) | Goal::Maybe => true,
    }
}

/// Every identity in `a` names an entry of the right kind below `bound`.
pub open spec fn assumption_refs(e: Seq<GoalEntry>, a: Assumption, bound: nat) -> bool {
    match a {
        Assumption::Implies(gs, p) => goals_entry_below(e, gs.0, bound) && predicate_entry_below(
            e,
            p.0,
            bound,
        ),
        Assumption::All(xs) => assumptions_entry_below(e, xs.0, bound),
        Assumption::TraitImpl { .. } | Assumption::NormalizesTo { .. } => true,
    }
}

/// Every identity in `entry` names an entry below `bound`.
pub open spec fn entry_refs(e: Seq<GoalEntry>, entry: GoalEntry, bound: nat) -> bool {
    match entry {
        GoalEntry::Goal(g) => goal_refs(e, g, bound),
        GoalEntry::Goals(gs) => forall|k: int| 0 <= k < gs.len() ==> goal_refs(e, #[trigger] gs[k], bound),
        GoalEntry::Assumptions(xs) => forall|k: int|
            0 <= k < xs.len() ==> assumption_refs(e, #[trigger] xs[k], bound),
        GoalEntry::Predicate(_) | GoalEntry::Params(_) | GoalEntry::Subst(_)
        | GoalEntry::ResponseVars(_) => true,
    }
}

/// Every identity in `r` names an entry of the right kind below `bound`.
pub open spec fn result_refs(e: Seq<GoalEntry>, r: QueryResult, bound: nat) -> bool {
    &&& response_vars_entry_below(e, r.bound_vars.0, bound)
    &&& match r.value {
        QueryResultData::Yes { subst, modulo } => subst_entry_below(e, subst.0, bound) && goal_refs(
            e,
            modulo,
            bound,
        ),
        QueryResultData::Maybe { hints } => subst_entry_below(e, hints.0, bound),
        QueryResultData::No => true,
    }
}

/// The goals of `g` with nested conjunctions spliced in, in order.
pub open spec fn flat_goal(e: Seq<GoalEntry>, g: Goal, bound: nat) -> Seq<Goal>
    decreases bound, 1nat,
{
    match g {
        Goal::All(gs) => if gs.0 < bound {
            flat_goals(e, goals_at(e, gs.0), gs.0 as nat)
        } else {
            seq![g]
        },
        _ => seq![g],
    }
}

/// The flattenings of `gs`, concatenated in order.
pub open spec fn flat_goals(e: Seq<GoalEntry>, gs: Seq<Goal>, bound: nat) -> Seq<Goal>
    decreases bound, gs.len() + 1,
{
    if gs.len() == 0 {
        Seq::empty()
    } else {
        flat_goals(e, gs.drop_last(), bound) + flat_goal(e, gs.last(), bound)
    }
}

/// The assumptions of `a` with nested groups spliced in, in order.
pub open spec fn flat_assumption(e: Seq<GoalEntry>, a: Assumption, bound: nat) -> Seq<Assumption>
    decreases bound, 1nat,
{
    match a {
        Assumption::All(xs) => if xs.0 < bound {
            flat_assumptions(e, assumptions_at(e, xs.0), xs.0 as nat)
        } else {
            seq![a]
        },
        _ => seq![a],
    }
}

/// The flattenings of `xs`, concatenated in order.
pub open spec fn flat_assumptions(e: Seq<GoalEntry>, xs: Seq<Assumption>, bound: nat) -> Seq<
    Assumption,
>
    decreases bound, xs.len() + 1,
{
    if xs.len() == 0 {
        Seq::empty()
    } else {
        flat_assumptions(e, xs.drop_last(), bound) + flat_assumption(e, xs.last(), bound)
    }
}

/// `g` is the empty conjunction.
pub open spec fn trivially_true(e: Seq<GoalEntry>, g: Goal) -> bool {
    match g {
        Goal::All(gs) => goals_at(e, gs.0).len() == 0,
        _ => false,
    }
}

/// The types and lists `trait_ref` names are in `stash`.
pub open spec fn trait_ref_tys_ok(stash: &TyStore, trait_ref: TraitRef) -> bool {
    trait_ref.args.0 < stash.lists().len()
}

/// The types and lists `alias` names are in `stash`.
pub open spec fn alias_tys_ok(stash: &TyStore, alias: AliasTy) -> bool {
    match alias {
        AliasTy::Named(a) => a.args.0 < stash.lists().len(),
        AliasTy::Opaque(a) => a.args.0 < stash.lists().len(),
        AliasTy::Associated(p) => {
            &&& p.self_ty.0 < stash.types().len()
            &&& trait_ref_tys_ok(stash, p.trait_ref)
            &&& p.args.0 < stash.lists().len()
        },
    }
}

/// The types and lists `predicate` names are in `stash`.
pub open spec fn predicate_tys_ok(stash: &TyStore, predicate: WherePredicate) -> bool {
    predicate.self_ty.0 < stash.types().len() && trait_ref_tys_ok(stash, predicate.trait_ref)
}

/// The types and lists `g` names directly are in `stash`.
pub open spec fn goal_tys_ok(stash: &TyStore, g: Goal) -> bool {
    match g {
        Goal::Atom(Atom::TraitImpl { self_ty, trait_ref }) => self_ty.0 < stash.types().len()
            && trait_ref_tys_ok(stash, trait_ref),
        Goal::Atom(Atom::Equals(left, right)) => left.0 < stash.types().len() && right.0
            < stash.types().len(),
        _ => true,
    }
}

/// The types and lists `a` names directly are in `stash`.
pub open spec fn assumption_tys_ok(stash: &TyStore, a: Assumption) -> bool {
    match a {
        Assumption::TraitImpl { self_ty, trait_ref } => self_ty.0 < stash.types().len()
            && trait_ref_tys_ok(stash, trait_ref),
        Assumption::NormalizesTo { alias, ty } => alias_tys_ok(stash, alias) && ty.0
            < stash.types().len(),
        _ => true,
    }
}

/// The types and lists `r` names directly are in `stash`.
pub open spec fn result_tys_ok(stash: &TyStore, r: QueryResult) -> bool {
    match r.value {
        QueryResultData::Yes { modulo, .. } => goal_tys_ok(stash, modulo),
        _ => true,
    }
}

/// The types and lists `entry` names are in `stash`.
pub open spec fn entry_tys_ok(stash: &TyStore, entry: GoalEntry) -> bool {
    match entry {
        GoalEntry::Goal(g) => goal_tys_ok(stash, g),
        GoalEntry::Goals(gs) => forall|k: int| 0 <= k < gs.len() ==> goal_tys_ok(stash, #[trigger] gs[k]),
        GoalEntry::Assumptions(xs) => forall|k: int|
            0 <= k < xs.len() ==> assumption_tys_ok(stash, #[trigger] xs[k]),
        GoalEntry::Predicate(p) => predicate_tys_ok(stash, p),
        GoalEntry::Subst(xs) => forall|k: int| 0 <= k < xs.len() ==> (#[trigger] xs[k]).value.0 < stash.types().len(),
        GoalEntry::Params(_) | GoalEntry::ResponseVars(_) => true,
    }
}

/// The arena of goals, lists and predicates.
pub struct GoalStore {
    entries: Vec<StoredEntry>,
}

impl GoalStore {
    /// The entries, indexed by identity.
    pub closed spec fn entries(&self) -> Seq<GoalEntry> {
        self.entries@.map_values(|x: StoredEntry| x.entry())
    }

    /// Each entry refers only to entries allocated before it, and identities
    /// fit in `u32`.
    pub open spec fn wf(&self) -> bool {
        &&& self.entries().len() <= u32::MAX as nat + 1
        &&& forall|i: int|
            0 <= i < self.entries().len() ==> entry_refs(
                self.entries(),
                #[trigger] self.entries()[i],
                i as nat,
            )
    }

    /// Every type and list the entries name is in `stash`.
    pub open spec fn tys_ok(&self, stash: &TyStore) -> bool {
        forall|i: int| 0 <= i < self.entries().len() ==> entry_tys_ok(stash, #[trigger] self.entries()[i])
    }

    /// There is an identity left for one more entry.
    pub open spec fn has_room(&self) -> bool {
        self.entries().len() <= u32::MAX
    }

    pub fn new() -> (store: Self)
        ensures
            store.wf(),
            store.entries() == Seq::<GoalEntry>::empty(),
    {
        let store = GoalStore { entries: Vec::new() };
        proof {
            assert(store.entries() =~= Seq::<GoalEntry>::empty());
        }
        store
    }

    /// The number of entries.
    pub fn len(&self) -> (n: usize)
        ensures
            n == self.entries().len(),
    {
        self.entries.len()
    }

    proof fn lemma_push_wf(&self, new: &Self, entry: GoalEntry)
        requires
            self.wf(),
            self.has_room(),
            new.entries() == self.entries().push(entry),
            entry_refs(self.entries(), entry, self.entries().len()),
        ensures
            new.wf(),
    {
        let e = self.entries();
        let f = new.entries();
        assert forall|i: int| 0 <= i < f.len() implies entry_refs(f, #[trigger] f[i], i as nat) by {
            let bound = if i < e.len() { i as nat } else { e.len() };
            assert(entry_refs(e, f[i], bound));
            assert forall|j: int| 0 <= j < e.len() implies f[j] == e[j] by {}
            match f[i] {
                GoalEntry::Goal(g) => {
                    assert(goal_refs(f, g, bound));
                },
                GoalEntry::Goals(gs) => {
                    assert forall|k: int| 0 <= k < gs.len() implies goal_refs(f, #[trigger] gs[k], bound) by {
                        assert(goal_refs(e, gs[k], bound));
                    }
                },
                GoalEntry::Assumptions(xs) => {
                    assert forall|k: int| 0 <= k < xs.len() implies assumption_refs(
                        f,
                        #[trigger] xs[k],
                        bound,
                    ) by {
                        assert(assumption_refs(e, xs[k], bound));
                    }
                },
                _ => {},
            }
        }
    }

    fn push_entry(&mut self, entry: StoredEntry) -> (id: u32)
        requires
            old(self).wf(),
            old(self).has_room(),
            entry_refs(old(self).entries(), entry.entry(), old(self).entries().len()),
        ensures
            final(self).wf(),
            id == old(self).entries().len(),
            final(self).entries() == old(self).entries().push(entry.entry()),
    {
        let ghost before = *self;
        let id = self.entries.len() as u32;
        let ghost view = entry.entry();
        self.entries.push(entry);
        proof {
            assert(self.entries() =~= before.entries().push(view));
            before.lemma_push_wf(self, view);
        }
        id
    }

    /// Store a goal.
    pub fn alloc_goal(&mut self, goal: Goal) -> (p: GoalPtr)
        requires
            old(self).wf(),
            old(self).has_room(),
            goal_refs(old(self).entries(), goal, old(self).entries().len()),
        ensures
            final(self).wf(),
            p.0 == old(self).entries().len(),
            final(self).entries() == old(self).entries().push(GoalEntry::Goal(goal)),
    {
        GoalPtr(self.push_entry(StoredEntry::Goal(goal)))
    }

    /// Store a list of goals.
    pub fn alloc_goals(&mut self, goals: &[Goal]) -> (l: GoalList)
        requires
            old(self).wf(),
            old(self).has_room(),
            forall|k: int|
                0 <= k < goals@.len() ==> goal_refs(old(self).entries(), #[trigger] goals@[k], old(self).entries().len()),
        ensures
            final(self).wf(),
            l.0 == old(self).entries().len(),
            final(self).entries() == old(self).entries().push(GoalEntry::Goals(goals@)),
    {
        GoalList(self.push_entry(StoredEntry::Goals(vstd::slice::slice_to_vec(goals))))
    }

    /// Store a list of assumptions.
    pub fn alloc_assumptions(&mut self, assumptions: &[Assumption]) -> (l: AssumptionList)
        requires
            old(self).wf(),
            old(self).has_room(),
            forall|k: int|
                0 <= k < assumptions@.len() ==> assumption_refs(
                    old(self).entries(),
                    #[trigger] assumptions@[k],
                    old(self).entries().len(),
                ),
        ensures
            final(self).wf(),
            l.0 == old(self).entries().len(),
            final(self).entries() == old(self).entries().push(GoalEntry::Assumptions(assumptions@)),
    {
        AssumptionList(self.push_entry(StoredEntry::Assumptions(vstd::slice::slice_to_vec(assumptions))))
    }

    /// Store a where-predicate.
    pub fn alloc_predicate(&mut self, predicate: WherePredicate) -> (p: PredicatePtr)
        requires
            old(self).wf(),
            old(self).has_room(),
        ensures
            final(self).wf(),
            p.0 == old(self).entries().len(),
            final(self).entries() == old(self).entries().push(GoalEntry::Predicate(predicate)),
    {
        PredicatePtr(self.push_entry(StoredEntry::Predicate(predicate)))
    }

    /// Store a list of generic parameters.
    pub fn alloc_params(&mut self, params: &[GenericParam]) -> (l: ParamList)
        requires
            old(self).wf(),
            old(self).has_room(),
        ensures
            final(self).wf(),
            l.0 == old(self).entries().len(),
            final(self).entries() == old(self).entries().push(GoalEntry::Params(params@)),
    {
        ParamList(self.push_entry(StoredEntry::Params(vstd::slice::slice_to_vec(params))))
    }

    /// Store a substitution.
    pub fn alloc_subst(&mut self, entries: &[SubstEntry]) -> (l: Subst)
        requires
            old(self).wf(),
            old(self).has_room(),
        ensures
            final(self).wf(),
            l.0 == old(self).entries().len(),
            final(self).entries() == old(self).entries().push(GoalEntry::Subst(entries@)),
    {
        Subst(self.push_entry(StoredEntry::Subst(vstd::slice::slice_to_vec(entries))))
    }

    /// Store a list of response variables.
    pub fn alloc_response_vars(&mut self, vars: &[ResponseVarInfo]) -> (l: ResponseVarList)
        requires
            old(self).wf(),
            old(self).has_room(),
        ensures
            final(self).wf(),
            l.0 == old(self).entries().len(),
            final(self).entries() == old(self).entries().push(GoalEntry::ResponseVars(vars@)),
    {
        ResponseVarList(self.push_entry(StoredEntry::ResponseVars(vstd::slice::slice_to_vec(vars))))
    }

    /// The substitution stored at `l`.
    pub fn subst(&self, l: Subst) -> (entries: &[SubstEntry])
        requires
            subst_entry_below(self.entries(), l.0, self.entries().len()),
        ensures
            entries@ == subst_at(self.entries(), l.0),
    {
        match &self.entries[l.0 as usize] {
            StoredEntry::Subst(v) => v.as_slice(),
            _ => {
                proof {
                    assert(self.entries()[l.0 as int] == self.entries@[l.0 as int].entry());
                }
                unreached()
            },
        }
    }

    /// The response variables stored at `l`.
    pub fn response_vars(&self, l: ResponseVarList) -> (vars: &[ResponseVarInfo])
        requires
            response_vars_entry_below(self.entries(), l.0, self.entries().len()),
        ensures
            vars@ == response_vars_at(self.entries(), l.0),
    {
        match &self.entries[l.0 as usize] {
            StoredEntry::ResponseVars(v) => v.as_slice(),
            _ => {
                proof {
                    assert(self.entries()[l.0 as int] == self.entries@[l.0 as int].entry());
                }
                unreached()
            },
        }
    }

    /// The goal stored at `p`.
    pub fn goal(&self, p: GoalPtr) -> (goal: Goal)
        requires
            goal_entry_below(self.entries(), p.0, self.entries().len()),
        ensures
            goal == goal_at(self.entries(), p.0),
    {
        match &self.entries[p.0 as usize] {
            StoredEntry::Goal(g) => *g,
            _ => {
                proof {
                    assert(self.entries()[p.0 as int] == self.entries@[p.0 as int].entry());
                }
                unreached()
            },
        }
    }

    /// The goals stored at `l`.
    pub fn goal_list(&self, l: GoalList) -> (goals: &[Goal])
        requires
            goals_entry_below(self.entries(), l.0, self.entries().len()),
        ensures
            goals@ == goals_at(self.entries(), l.0),
    {
        match &self.entries[l.0 as usize] {
            StoredEntry::Goals(v) => v.as_slice(),
            _ => {
                proof {
                    assert(self.entries()[l.0 as int] == self.entries@[l.0 as int].entry());
                }
                unreached()
            },
        }
    }

    /// The assumptions stored at `l`.
    pub fn assumption_list(&self, l: AssumptionList) -> (assumptions: &[Assumption])
        requires
            assumptions_entry_below(self.entries(), l.0, self.entries().len()),
        ensures
            assumptions@ == assumptions_at(self.entries(), l.0),
    {
        match &self.entries[l.0 as usize] {
            StoredEntry::Assumptions(v) => v.as_slice(),
            _ => {
                proof {
                    assert(self.entries()[l.0 as int] == self.entries@[l.0 as int].entry());
                }
                unreached()
            },
        }
    }

    /// The predicate stored at `p`.
    pub fn predicate(&self, p: PredicatePtr) -> (predicate: WherePredicate)
        requires
            predicate_entry_below(self.entries(), p.0, self.entries().len()),
        ensures
            predicate == predicate_at(self.entries(), p.0),
    {
        match &self.entries[p.0 as usize] {
            StoredEntry::Predicate(x) => *x,
            _ => {
                proof {
                    assert(self.entries()[p.0 as int] == self.entries@[p.0 as int].entry());
                }
                unreached()
            },
        }
    }

    /// The parameters stored at `l`.
    pub fn params(&self, l: ParamList) -> (params: &[GenericParam])
        requires
            params_entry_below(self.entries(), l.0, self.entries().len()),
        ensures
            params@ == params_at(self.entries(), l.0),
    {
        match &self.entries[l.0 as usize] {
            StoredEntry::Params(v) => v.as_slice(),
            _ => {
                proof {
                    assert(self.entries()[l.0 as int] == self.entries@[l.0 as int].entry());
                }
                unreached()
            },
        }
    }
}

/// Append the flattening of `goal` to `output`.
pub(crate) fn push_flat_goal(store: &GoalStore, goal: Goal, Ghost(bound): Ghost<nat>, output: &mut Vec<Goal>)
    requires
        store.wf(),
        bound <= store.entries().len(),
        goal_refs(store.entries(), goal, bound),
    ensures
        final(output)@ == old(output)@ + flat_goal(store.entries(), goal, bound),
        forall|k: int|
            old(output)@.len() <= k < final(output)@.len() ==> {
                &&& goal_refs(store.entries(), #[trigger] final(output)@[k], bound)
                &&& !(final(output)@[k] is All)
            },
    decreases bound, 1nat,
{
    let ghost e = store.entries();
    match goal {
        Goal::All(goals) => {
            let nested = store.goal_list(goals);
            let ghost inner = goals.0 as nat;
            proof {
                assert(entry_refs(e, e[goals.0 as int], inner));
            }
            let mut i: usize = 0;
            while i < nested.len()
                invariant
                    store.wf(),
                    e == store.entries(),
                    inner < bound,
                    bound <= e.len(),
                    nested@ == goals_at(e, goals.0),
                    forall|k: int| 0 <= k < nested@.len() ==> goal_refs(e, #[trigger] nested@[k], inner),
                    i <= nested@.len(),
                    output@ == old(output)@ + flat_goals(e, nested@.take(i as int), inner),
                    forall|k: int|
                        old(output)@.len() <= k < output@.len() ==> {
                            &&& goal_refs(e, #[trigger] output@[k], bound)
                            &&& !(output@[k] is All)
                        },
                decreases nested@.len() - i,
            {
                let ghost before = output@;
                push_flat_goal(store, nested[i], Ghost(inner), output);
                proof {
                    let t = nested@.take(i + 1);
                    assert(t.drop_last() =~= nested@.take(i as int));
                    assert(t.last() == nested@[i as int]);
                    assert(output@ =~= old(output)@ + flat_goals(e, t, inner));
                }
                i += 1;
            }
            proof {
                assert(nested@.take(nested@.len() as int) =~= nested@);
            }
        },
        other => {
            output.push(other);
            proof {
                assert(output@ =~= old(output)@ + seq![other]);
            }
        },
    }
}

/// Append the flattening of `assumption` to `output`.
fn push_flat_assumption(
    store: &GoalStore,
    assumption: Assumption,
    Ghost(bound): Ghost<nat>,
    output: &mut Vec<Assumption>,
)
    requires
        store.wf(),
        bound <= store.entries().len(),
        assumption_refs(store.entries(), assumption, bound),
    ensures
        final(output)@ == old(output)@ + flat_assumption(store.entries(), assumption, bound),
        forall|k: int|
            old(output)@.len() <= k < final(output)@.len() ==> {
                &&& assumption_refs(store.entries(), #[trigger] final(output)@[k], bound)
                &&& !(final(output)@[k] is All)
            },
    decreases bound, 1nat,
{
    let ghost e = store.entries();
    match assumption {
        Assumption::All(items) => {
            let nested = store.assumption_list(items);
            let ghost inner = items.0 as nat;
            proof {
                assert(entry_refs(e, e[items.0 as int], inner));
            }
            let mut i: usize = 0;
            while i < nested.len()
                invariant
                    store.wf(),
                    e == store.entries(),
                    inner < bound,
                    bound <= e.len(),
                    nested@ == assumptions_at(e, items.0),
                    forall|k: int|
                        0 <= k < nested@.len() ==> assumption_refs(e, #[trigger] nested@[k], inner),
                    i <= nested@.len(),
                    output@ == old(output)@ + flat_assumptions(e, nested@.take(i as int), inner),
                    forall|k: int|
                        old(output)@.len() <= k < output@.len() ==> {
                            &&& assumption_refs(e, #[trigger] output@[k], bound)
                            &&& !(output@[k] is All)
                        },
                decreases nested@.len() - i,
            {
                push_flat_assumption(store, nested[i], Ghost(inner), output);
                proof {
                    let t = nested@.take(i + 1);
                    assert(t.drop_last() =~= nested@.take(i as int));
                    assert(t.last() == nested@[i as int]);
                    assert(output@ =~= old(output)@ + flat_assumptions(e, t, inner));
                }
                i += 1;
            }
            proof {
                assert(nested@.take(nested@.len() as int) =~= nested@);
            }
        },
        other => {
            output.push(other);
            proof {
                assert(output@ =~= old(output)@ + seq![other]);
            }
        },
    }
}

impl Goal {
    /// The empty conjunction.
    pub fn true_(store: &mut GoalStore) -> (goal: Goal)
        requires
            old(store).wf(),
            old(store).has_room(),
        ensures
            final(store).wf(),
            goal == Goal::All(GoalList(old(store).entries().len() as u32)),
            final(store).entries() == old(store).entries().push(GoalEntry::Goals(Seq::empty())),
            trivially_true(final(store).entries(), goal),
    {
        let empty: Vec<Goal> = Vec::new();
        proof {
            assert(empty@ =~= Seq::<Goal>::empty());
        }
        Goal::All(store.alloc_goals(empty.as_slice()))
    }

    /// This goal is the empty conjunction.
    pub fn is_trivially_true(self, store: &GoalStore) -> (trivial: bool)
        requires
            goal_refs(store.entries(), self, store.entries().len()),
        ensures
            trivial == trivially_true(store.entries(), self),
    {
        match self {
            Goal::All(goals) => store.goal_list(goals).len() == 0,
            _ => false,
        }
    }

    /// Allocate a canonical conjunction, flattening nested `All` nodes and
    /// eliminating trivially true children while preserving source order.
    pub fn all(store: &mut GoalStore, goals: &[Goal]) -> (all: Goal)
        requires
            old(store).wf(),
            old(store).has_room(),
            forall|k: int|
                0 <= k < goals@.len() ==> goal_refs(old(store).entries(), #[trigger] goals@[k], old(store).entries().len()),
        ensures
            final(store).wf(),
            all == Goal::All(GoalList(old(store).entries().len() as u32)),
            final(store).entries() == old(store).entries().push(
                GoalEntry::Goals(flat_goals(old(store).entries(), goals@, old(store).entries().len())),
            ),
            forall|k: int|
                0 <= k < goals_at(final(store).entries(), old(store).entries().len() as u32).len()
                    ==> !(#[trigger] goals_at(final(store).entries(), old(store).entries().len() as u32)[k] is All),
    {
        let ghost e = store.entries();
        let ghost n = e.len();
        let mut flattened: Vec<Goal> = Vec::new();
        let mut i: usize = 0;
        while i < goals.len()
            invariant
                store.wf(),
                e == store.entries(),
                n == e.len(),
                forall|k: int| 0 <= k < goals@.len() ==> goal_refs(e, #[trigger] goals@[k], n),
                i <= goals@.len(),
                flattened@ == flat_goals(e, goals@.take(i as int), n),
                forall|k: int|
                    0 <= k < flattened@.len() ==> {
                        &&& goal_refs(e, #[trigger] flattened@[k], n)
                        &&& !(flattened@[k] is All)
                    },
            decreases goals@.len() - i,
        {
            push_flat_goal(store, goals[i], Ghost(n), &mut flattened);
            proof {
                let t = goals@.take(i + 1);
                assert(t.drop_last() =~= goals@.take(i as int));
                assert(t.last() == goals@[i as int]);
            }
            i += 1;
        }
        proof {
            assert(goals@.take(goals@.len() as int) =~= goals@);
        }
        let list = store.alloc_goals(flattened.as_slice());
        Goal::All(list)
    }
}

impl Assumption {
    /// Allocate the assumptions with nested `All` groups spliced in, in
    /// source order.
    pub fn flatten(store: &mut GoalStore, assumptions: &[Assumption]) -> (list: AssumptionList)
        requires
            old(store).wf(),
            old(store).has_room(),
            forall|k: int|
                0 <= k < assumptions@.len() ==> assumption_refs(
                    old(store).entries(),
                    #[trigger] assumptions@[k],
                    old(store).entries().len(),
                ),
        ensures
            final(store).wf(),
            list.0 == old(store).entries().len(),
            final(store).entries() == old(store).entries().push(
                GoalEntry::Assumptions(
                    flat_assumptions(old(store).entries(), assumptions@, old(store).entries().len()),
                ),
            ),
            forall|k: int|
                0 <= k < assumptions_at(final(store).entries(), list.0).len()
                    ==> !(#[trigger] assumptions_at(final(store).entries(), list.0)[k] is All),
    {
        let ghost e = store.entries();
        let ghost n = e.len();
        let mut flattened: Vec<Assumption> = Vec::new();
        let mut i: usize = 0;
        while i < assumptions.len()
            invariant
                store.wf(),
                e == store.entries(),
                n == e.len(),
                forall|k: int|
                    0 <= k < assumptions@.len() ==> assumption_refs(e, #[trigger] assumptions@[k], n),
                i <= assumptions@.len(),
                flattened@ == flat_assumptions(e, assumptions@.take(i as int), n),
                forall|k: int|
                    0 <= k < flattened@.len() ==> {
                        &&& assumption_refs(e, #[trigger] flattened@[k], n)
                        &&& !(flattened@[k] is All)
                    },
            decreases assumptions@.len() - i,
        {
            push_flat_assumption(store, assumptions[i], Ghost(n), &mut flattened);
            proof {
                let t = assumptions@.take(i + 1);
                assert(t.drop_last() =~= assumptions@.take(i as int));
                assert(t.last() == assumptions@[i as int]);
            }
            i += 1;
        }
        proof {
            assert(assumptions@.take(assumptions@.len() as int) =~= assumptions@);
        }
        store.alloc_assumptions(flattened.as_slice())
    }
}

/// `result` reports `fault`: success when there is none, else its message.
pub open spec fn reports(result: Result<(), &'static str>, fault: Option<Seq<char>>) -> bool {
    match result {
        Ok(()) => fault is None,
        Err(message) => fault == Some(message@),
    }
}

/// The first fault of `first` and then `second`.
pub open spec fn or_else(first: Option<Seq<char>>, second: Option<Seq<char>>) -> Option<Seq<char>> {
    match first {
        Some(m) => Some(m),
        None => second,
    }
}

/// What is wrong with the type `ty` itself in a canonical query, whose
/// visible canonical parameters are `visible`.
pub open spec fn ty_own_fault(ty: Ty, visible: Set<AlphaEquivParam>) -> Option<Seq<char>> {
    match ty {
        Ty::InferVar(_) => Some("canonical query contains a caller inference variable"@),
        Ty::Param(GenericParam::AlphaEquiv(p)) => if visible.contains(p) {
            None
        } else {
            Some("canonical query contains a noncanonical parameter"@)
        },
        Ty::Param(_) => Some("canonical query contains a noncanonical parameter"@),
        Ty::Array(_, Const::Param(GenericParam::AlphaEquiv(p))) => if !visible.contains(p) {
            Some("canonical query contains an unbound const parameter"@)
        } else {
            Some("canonical query contains a noncanonical const parameter"@)
        },
        Ty::Array(_, Const::Param(_)) => Some("canonical query contains a noncanonical const parameter"@),
        _ => None,
    }
}

/// The first fault of `ty` or of a type below it, parents before children
/// and children in order.
pub open spec fn ty_fault(stash: &TyStore, ty: TyId, visible: Set<AlphaEquivParam>) -> Option<
    Seq<char>,
>
    decreases ty.0 as nat + 1, 0nat,
{
    or_else(
        ty_own_fault(stash.types()[ty.0 as int], visible),
        ids_fault(stash, children(stash.types()[ty.0 as int], stash.lists()), visible, ty.0 as nat),
    )
}

/// The first fault among those of `ids` below `bound`.
pub open spec fn ids_fault(
    stash: &TyStore,
    ids: Seq<TyId>,
    visible: Set<AlphaEquivParam>,
    bound: nat,
) -> Option<Seq<char>>
    decreases bound, ids.len(),
{
    if ids.len() == 0 {
        None
    } else {
        or_else(
            ids_fault(stash, ids.drop_last(), visible, bound),
            if ids.last().0 < bound {
                ty_fault(stash, ids.last(), visible)
            } else {
                None
            },
        )
    }
}

/// The first fault among the types of a list.
pub open spec fn list_fault(stash: &TyStore, ids: Seq<TyId>, visible: Set<AlphaEquivParam>) -> Option<
    Seq<char>,
> {
    ids_fault(stash, ids, visible, stash.types().len())
}

/// The first fault among the arguments of `trait_ref`.
pub open spec fn trait_ref_fault(
    stash: &TyStore,
    trait_ref: TraitRef,
    visible: Set<AlphaEquivParam>,
) -> Option<Seq<char>> {
    list_fault(stash, stash.lists()[trait_ref.args.0 as int], visible)
}

/// The first fault among the types of `alias`.
pub open spec fn alias_fault(stash: &TyStore, alias: AliasTy, visible: Set<AlphaEquivParam>) -> Option<
    Seq<char>,
> {
    match alias {
        AliasTy::Named(a) => list_fault(stash, stash.lists()[a.args.0 as int], visible),
        AliasTy::Associated(p) => or_else(
            ty_fault(stash, p.self_ty, visible),
            or_else(
                trait_ref_fault(stash, p.trait_ref, visible),
                list_fault(stash, stash.lists()[p.args.0 as int], visible),
            ),
        ),
        AliasTy::Opaque(a) => list_fault(stash, stash.lists()[a.args.0 as int], visible),
    }
}

/// The first fault among the types of `atom`.
pub open spec fn atom_fault(stash: &TyStore, atom: Atom, visible: Set<AlphaEquivParam>) -> Option<
    Seq<char>,
> {
    match atom {
        Atom::TraitImpl { self_ty, trait_ref } => or_else(
            ty_fault(stash, self_ty, visible),
            trait_ref_fault(stash, trait_ref, visible),
        ),
        Atom::Equals(left, right) => or_else(
            ty_fault(stash, left, visible),
            ty_fault(stash, right, visible),
        ),
    }
}

/// A fault of a prefix of `ids` is the fault of `ids`.
pub proof fn lemma_ids_fault_prefix(
    stash: &TyStore,
    ids: Seq<TyId>,
    visible: Set<AlphaEquivParam>,
    bound: nat,
    j: int,
)
    requires
        0 <= j <= ids.len(),
        ids_fault(stash, ids.take(j), visible, bound) is Some,
    ensures
        ids_fault(stash, ids, visible, bound) == ids_fault(stash, ids.take(j), visible, bound),
    decreases ids.len(),
{
    if j == ids.len() {
        assert(ids.take(j) =~= ids);
    } else {
        assert(ids.drop_last().take(j) =~= ids.take(j));
        lemma_ids_fault_prefix(stash, ids.drop_last(), visible, bound, j);
    }
}

/// Whether `p` is among `visible`.
fn is_visible(visible: &[AlphaEquivParam], p: AlphaEquivParam) -> (found: bool)
    ensures
        found == visible@.contains(p),
{
    let mut i: usize = 0;
    while i < visible.len()
        invariant
            i <= visible@.len(),
            forall|j: int| 0 <= j < i ==> visible@[j] != p,
        decreases visible@.len() - i,
    {
        if visible[i] == p {
            proof {
                assert(visible@[i as int] == p);
            }
            return true;
        }
        i += 1;
    }
    false
}

/// Check that a type of a canonical query is canonical: no caller
/// inference variable, and no parameter but a visible canonical one.
fn validate_ty(stash: &TyStore, ty: TyId, visible: &[AlphaEquivParam]) -> (result: Result<
    (),
    &'static str,
>)
    requires
        stash.wf(),
        ty.0 < stash.types().len(),
    ensures
        reports(result, ty_fault(stash, ty, visible@.to_set())),
    decreases ty.0,
{
    let ghost vis = visible@.to_set();
    match stash.get(ty) {
        Ty::InferVar(_) => {
            return Err("canonical query contains a caller inference variable");
        },
        Ty::Param(GenericParam::AlphaEquiv(parameter)) => {
            if !is_visible(visible, parameter) {
                return Err("canonical query contains a noncanonical parameter");
            }
        },
        Ty::Param(_) => {
            return Err("canonical query contains a noncanonical parameter");
        },
        Ty::Array(_, Const::Param(GenericParam::AlphaEquiv(parameter))) => {
            if !is_visible(visible, parameter) {
                return Err("canonical query contains an unbound const parameter");
            }
            return Err("canonical query contains a noncanonical const parameter");
        },
        Ty::Array(_, Const::Param(_)) => {
            return Err("canonical query contains a noncanonical const parameter");
        },
        _ => {},
    }
    let decomposed = decompose(stash, ty);
    let kids = decomposed.child_ids();
    let ghost bound = ty.0 as nat;
    let mut i: usize = 0;
    while i < kids.len()
        invariant
            stash.wf(),
            bound == ty.0,
            ty.0 < stash.types().len(),
            vis == visible@.to_set(),
            ty_own_fault(stash.types()[ty.0 as int], vis) is None,
            kids@ == children(stash.types()[ty.0 as int], stash.lists()),
            forall|k: int| 0 <= k < kids@.len() ==> (#[trigger] kids@[k]).0 < bound,
            i <= kids@.len(),
            ids_fault(stash, kids@.take(i as int), vis, bound) is None,
        decreases kids@.len() - i,
    {
        let checked = validate_ty(stash, kids[i], visible);
        proof {
            let t = kids@.take(i + 1);
            assert(t.drop_last() =~= kids@.take(i as int));
            assert(t.last() == kids@[i as int]);
        }
        match checked {
            Err(message) => {
                proof {
                    lemma_ids_fault_prefix(stash, kids@, vis, bound, i + 1);
                }
                return Err(message);
            },
            Ok(()) => {},
        }
        i += 1;
    }
    proof {
        assert(kids@.take(kids@.len() as int) =~= kids@);
    }
    Ok(())
}

/// Check every type of a list.
fn validate_list(stash: &TyStore, ids: &[TyId], visible: &[AlphaEquivParam]) -> (result: Result<
    (),
    &'static str,
>)
    requires
        stash.wf(),
        forall|k: int| 0 <= k < ids@.len() ==> (#[trigger] ids@[k]).0 < stash.types().len(),
    ensures
        reports(result, list_fault(stash, ids@, visible@.to_set())),
{
    let ghost vis = visible@.to_set();
    let ghost bound = stash.types().len();
    let mut i: usize = 0;
    while i < ids.len()
        invariant
            stash.wf(),
            bound == stash.types().len(),
            vis == visible@.to_set(),
            forall|k: int| 0 <= k < ids@.len() ==> (#[trigger] ids@[k]).0 < bound,
            i <= ids@.len(),
            ids_fault(stash, ids@.take(i as int), vis, bound) is None,
        decreases ids@.len() - i,
    {
        let checked = validate_ty(stash, ids[i], visible);
        proof {
            let t = ids@.take(i + 1);
            assert(t.drop_last() =~= ids@.take(i as int));
            assert(t.last() == ids@[i as int]);
        }
        match checked {
            Err(message) => {
                proof {
                    lemma_ids_fault_prefix(stash, ids@, vis, bound, i + 1);
                }
                return Err(message);
            },
            Ok(()) => {},
        }
        i += 1;
    }
    proof {
        assert(ids@.take(ids@.len() as int) =~= ids@);
    }
    Ok(())
}

/// Check the arguments of a trait reference.
fn validate_trait_ref(stash: &TyStore, trait_ref: TraitRef, visible: &[AlphaEquivParam]) -> (result:
    Result<(), &'static str>)
    requires
        stash.wf(),
        trait_ref_tys_ok(stash, trait_ref),
    ensures
        reports(result, trait_ref_fault(stash, trait_ref, visible@.to_set())),
{
    validate_list(stash, stash.list(trait_ref.args), visible)
}

/// Check the types of an alias.
fn validate_alias(stash: &TyStore, alias: AliasTy, visible: &[AlphaEquivParam]) -> (result: Result<
    (),
    &'static str,
>)
    requires
        stash.wf(),
        alias_tys_ok(stash, alias),
    ensures
        reports(result, alias_fault(stash, alias, visible@.to_set())),
{
    match alias {
        AliasTy::Named(alias) => validate_list(stash, stash.list(alias.args), visible),
        AliasTy::Associated(projection) => {
            validate_ty(stash, projection.self_ty, visible)?;
            validate_trait_ref(stash, projection.trait_ref, visible)?;
            validate_list(stash, stash.list(projection.args), visible)
        },
        AliasTy::Opaque(alias) => validate_list(stash, stash.list(alias.args), visible),
    }
}

/// Check the types of an atom.
fn validate_atom(stash: &TyStore, atom: Atom, visible: &[AlphaEquivParam]) -> (result: Result<
    (),
    &'static str,
>)
    requires
        stash.wf(),
        goal_tys_ok(stash, Goal::Atom(atom)),
    ensures
        reports(result, atom_fault(stash, atom, visible@.to_set())),
{
    match atom {
        Atom::TraitImpl { self_ty, trait_ref } => {
            validate_ty(stash, self_ty, visible)?;
            validate_trait_ref(stash, trait_ref, visible)
        },
        Atom::Equals(left, right) => {
            validate_ty(stash, left, visible)?;
            validate_ty(stash, right, visible)
        },
    }
}

/// The goal store and the type store it names types from are well formed
/// together.
pub open spec fn stores_ok(store: &GoalStore, stash: &TyStore) -> bool {
    store.wf() && stash.wf() && store.tys_ok(stash)
}

/// The set of parameters that an existential binder over `ps` makes
/// visible besides `visible`, or what is wrong with the binder.
pub open spec fn binder_scan(ps: Seq<GenericParam>, visible: Set<AlphaEquivParam>, next: u32) -> Result<
    Set<AlphaEquivParam>,
    Seq<char>,
>
    decreases ps.len(),
{
    if ps.len() == 0 {
        Ok(visible)
    } else {
        match binder_scan(ps.drop_last(), visible, next) {
            Err(m) => Err(m),
            Ok(v) => match ps.last() {
                GenericParam::AlphaEquiv(p) => if p.kind != GenericParamKind::Type || p.index >= next
                    || v.contains(p) {
                    Err("invalid existential binder parameter"@)
                } else {
                    Ok(v.insert(p))
                },
                _ => Err("noncanonical existential binder"@),
            },
        }
    }
}

/// The first fault of goal `g` of a canonical query whose visible
/// parameters are `visible` and whose response parameters start at `next`;
/// nested entries are read below `bound`.
pub open spec fn goal_fault(
    e: Seq<GoalEntry>,
    stash: &TyStore,
    g: Goal,
    visible: Set<AlphaEquivParam>,
    next: u32,
    bound: nat,
) -> Option<Seq<char>>
    decreases bound, 1nat,
{
    match g {
        Goal::Exists(b) => match binder_scan(params_at(e, b.generics.0), visible, next) {
            Err(m) => Some(m),
            Ok(inner) => if b.value.0 < bound {
                goal_fault(e, stash, goal_at(e, b.value.0), inner, next, b.value.0 as nat)
            } else {
                None
            },
        },
        Goal::Implies(a, inner) => or_else(
            if a.0 < bound {
                assumptions_fault(e, stash, assumptions_at(e, a.0), visible, next, a.0 as nat)
            } else {
                None
            },
            if inner.0 < bound {
                goal_fault(e, stash, goal_at(e, inner.0), visible, next, inner.0 as nat)
            } else {
                None
            },
        ),
        Goal::All(gs) => if gs.0 < bound {
            goals_fault(e, stash, goals_at(e, gs.0), visible, next, gs.0 as nat)
        } else {
            None
        },
        Goal::Atom(atom) => atom_fault(stash, atom, visible),
        Goal::Maybe => None,
    }
}

/// The first fault among `gs`, in order.
pub open spec fn goals_fault(
    e: Seq<GoalEntry>,
    stash: &TyStore,
    gs: Seq<Goal>,
    visible: Set<AlphaEquivParam>,
    next: u32,
    bound: nat,
) -> Option<Seq<char>>
    decreases bound, gs.len() + 1,
{
    if gs.len() == 0 {
        None
    } else {
        or_else(
            goals_fault(e, stash, gs.drop_last(), visible, next, bound),
            goal_fault(e, stash, gs.last(), visible, next, bound),
        )
    }
}

/// The first fault of assumption `a`.
pub open spec fn assumption_fault(
    e: Seq<GoalEntry>,
    stash: &TyStore,
    a: Assumption,
    visible: Set<AlphaEquivParam>,
    next: u32,
    bound: nat,
) -> Option<Seq<char>>
    decreases bound, 1nat,
{
    match a {
        Assumption::TraitImpl { self_ty, trait_ref } => or_else(
            ty_fault(stash, self_ty, visible),
            trait_ref_fault(stash, trait_ref, visible),
        ),
        Assumption::NormalizesTo { alias, ty } => or_else(
            alias_fault(stash, alias, visible),
            ty_fault(stash, ty, visible),
        ),
        Assumption::Implies(conditions, consequence) => or_else(
            if conditions.0 < bound {
                goals_fault(e, stash, goals_at(e, conditions.0), visible, next, conditions.0 as nat)
            } else {
                None
            },
            or_else(
                ty_fault(stash, predicate_at(e, consequence.0).self_ty, visible),
                trait_ref_fault(stash, predicate_at(e, consequence.0).trait_ref, visible),
            ),
        ),
        Assumption::All(items) => if items.0 < bound {
            assumptions_fault(e, stash, assumptions_at(e, items.0), visible, next, items.0 as nat)
        } else {
            None
        },
    }
}

/// The first fault among `xs`, in order.
pub open spec fn assumptions_fault(
    e: Seq<GoalEntry>,
    stash: &TyStore,
    xs: Seq<Assumption>,
    visible: Set<AlphaEquivParam>,
    next: u32,
    bound: nat,
) -> Option<Seq<char>>
    decreases bound, xs.len() + 1,
{
    if xs.len() == 0 {
        None
    } else {
        or_else(
            assumptions_fault(e, stash, xs.drop_last(), visible, next, bound),
            assumption_fault(e, stash, xs.last(), visible, next, bound),
        )
    }
}

/// The first fault of a solver goal.
pub open spec fn solver_goal_fault(
    e: Seq<GoalEntry>,
    stash: &TyStore,
    g: SolverGoal,
    visible: Set<AlphaEquivParam>,
    next: u32,
    bound: nat,
) -> Option<Seq<char>> {
    match g {
        SolverGoal::Prove(goal) => goal_fault(e, stash, goal, visible, next, bound),
        SolverGoal::Normalize(alias) => alias_fault(stash, alias, visible),
    }
}

/// The canonical parameters that `vars` declares, or what is wrong with
/// the first offending one.
pub open spec fn vars_scan(vars: Seq<CanonicalVarInfo>, universe: u32, next: u32) -> Result<
    Set<AlphaEquivParam>,
    Seq<char>,
>
    decreases vars.len(),
{
    if vars.len() == 0 {
        Ok(Set::empty())
    } else {
        match vars_scan(vars.drop_last(), universe, next) {
            Err(m) => Err(m),
            Ok(v) => {
                let info = vars.last();
                if v.contains(info.param) {
                    Err("duplicate canonical variable"@)
                } else if info.role == CanonicalVarRole::ExistentialInput && info.kind
                    != GenericParamKind::Type {
                    Err("non-type existential input"@)
                } else if info.relative_universe > universe {
                    Err("canonical input is newer than the query universe"@)
                } else if info.param.kind != info.kind || info.param.index >= next {
                    Err("inconsistent canonical variable metadata"@)
                } else {
                    Ok(v.insert(info.param))
                }
            },
        }
    }
}

/// The first fault of a canonical query: its variables, then its
/// assumptions, then its goal.
pub open spec fn query_fault(e: Seq<GoalEntry>, stash: &TyStore, q: GoalQueryData) -> Option<
    Seq<char>,
> {
    match vars_scan(q.canonical_vars@, q.canonical_universe, q.next_response_param) {
        Err(m) => Some(m),
        Ok(v) => or_else(
            assumptions_fault(
                e,
                stash,
                assumptions_at(e, q.assumptions.0),
                v,
                q.next_response_param,
                q.assumptions.0 as nat,
            ),
            solver_goal_fault(e, stash, q.goal, v, q.next_response_param, e.len()),
        ),
    }
}

/// An error on a prefix of `ps` is the error of `ps`.
pub proof fn lemma_binder_scan_prefix(ps: Seq<GenericParam>, visible: Set<AlphaEquivParam>, next: u32, j: int)
    requires
        0 <= j <= ps.len(),
        binder_scan(ps.take(j), visible, next) is Err,
    ensures
        binder_scan(ps, visible, next) == binder_scan(ps.take(j), visible, next),
    decreases ps.len(),
{
    if j == ps.len() {
        assert(ps.take(j) =~= ps);
    } else {
        assert(ps.drop_last().take(j) =~= ps.take(j));
        lemma_binder_scan_prefix(ps.drop_last(), visible, next, j);
    }
}

/// An error on a prefix of `vars` is the error of `vars`.
pub proof fn lemma_vars_scan_prefix(vars: Seq<CanonicalVarInfo>, universe: u32, next: u32, j: int)
    requires
        0 <= j <= vars.len(),
        vars_scan(vars.take(j), universe, next) is Err,
    ensures
        vars_scan(vars, universe, next) == vars_scan(vars.take(j), universe, next),
    decreases vars.len(),
{
    if j == vars.len() {
        assert(vars.take(j) =~= vars);
    } else {
        assert(vars.drop_last().take(j) =~= vars.take(j));
        lemma_vars_scan_prefix(vars.drop_last(), universe, next, j);
    }
}

/// A fault of a prefix of `gs` is the fault of `gs`.
pub proof fn lemma_goals_fault_prefix(
    e: Seq<GoalEntry>,
    stash: &TyStore,
    gs: Seq<Goal>,
    visible: Set<AlphaEquivParam>,
    next: u32,
    bound: nat,
    j: int,
)
    requires
        0 <= j <= gs.len(),
        goals_fault(e, stash, gs.take(j), visible, next, bound) is Some,
    ensures
        goals_fault(e, stash, gs, visible, next, bound) == goals_fault(
            e,
            stash,
            gs.take(j),
            visible,
            next,
            bound,
        ),
    decreases gs.len(),
{
    if j == gs.len() {
        assert(gs.take(j) =~= gs);
    } else {
        assert(gs.drop_last().take(j) =~= gs.take(j));
        lemma_goals_fault_prefix(e, stash, gs.drop_last(), visible, next, bound, j);
    }
}

/// A fault of a prefix of `xs` is the fault of `xs`.
pub proof fn lemma_assumptions_fault_prefix(
    e: Seq<GoalEntry>,
    stash: &TyStore,
    xs: Seq<Assumption>,
    visible: Set<AlphaEquivParam>,
    next: u32,
    bound: nat,
    j: int,
)
    requires
        0 <= j <= xs.len(),
        assumptions_fault(e, stash, xs.take(j), visible, next, bound) is Some,
    ensures
        assumptions_fault(e, stash, xs, visible, next, bound) == assumptions_fault(
            e,
            stash,
            xs.take(j),
            visible,
            next,
            bound,
        ),
    decreases xs.len(),
{
    if j == xs.len() {
        assert(xs.take(j) =~= xs);
    } else {
        assert(xs.drop_last().take(j) =~= xs.take(j));
        lemma_assumptions_fault_prefix(e, stash, xs.drop_last(), visible, next, bound, j);
    }
}

/// Entry `i` of `store` refers only to entries below it, and the types it
/// names are in `stash`.
spec fn entry_ok_at(store: &GoalStore, stash: &TyStore, i: int) -> bool {
    0 <= i < store.entries().len() ==> {
        &&& entry_refs(store.entries(), store.entries()[i], i as nat)
        &&& entry_tys_ok(stash, store.entries()[i])
    }
}

/// Check a goal of a canonical query. Binders make their parameters
/// visible in their body and no further.
fn validate_goal(
    store: &GoalStore,
    stash: &TyStore,
    goal: Goal,
    visible: &mut Vec<AlphaEquivParam>,
    next_response_param: u32,
    Ghost(bound): Ghost<nat>,
) -> (result: Result<(), &'static str>)
    requires
        stores_ok(store, stash),
        bound <= store.entries().len(),
        goal_refs(store.entries(), goal, bound),
        goal_tys_ok(stash, goal),
    ensures
        reports(
            result,
            goal_fault(
                store.entries(),
                stash,
                goal,
                old(visible)@.to_set(),
                next_response_param,
                bound,
            ),
        ),
        result is Ok ==> final(visible)@ == old(visible)@,
    decreases bound, 1nat,
{
    let ghost e = store.entries();
    let ghost vis0 = visible@.to_set();
    match goal {
        Goal::Exists(binder) => {
            let parameters = store.params(binder.generics);
            let start = visible.len();
            let mut i: usize = 0;
            while i < parameters.len()
                invariant
                    e == store.entries(),
                    goal == Goal::Exists(binder),
                    parameters@ == params_at(e, binder.generics.0),
                    i <= parameters@.len(),
                    start == old(visible)@.len(),
                    start <= visible@.len(),
                    visible@.subrange(0, start as int) == old(visible)@,
                    vis0 == old(visible)@.to_set(),
                    binder_scan(parameters@.take(i as int), vis0, next_response_param) == Ok::<
                        Set<AlphaEquivParam>,
                        Seq<char>,
                    >(visible@.to_set()),
                decreases parameters@.len() - i,
            {
                let ghost before = visible@;
                proof {
                    let t = parameters@.take(i + 1);
                    assert(t.drop_last() =~= parameters@.take(i as int));
                    assert(t.last() == parameters@[i as int]);
                }
                let parameter = match parameters[i] {
                    GenericParam::AlphaEquiv(parameter) => parameter,
                    _ => {
                        proof {
                            lemma_binder_scan_prefix(parameters@, vis0, next_response_param, i + 1);
                        }
                        return Err("noncanonical existential binder");
                    },
                };
                if parameter.kind != GenericParamKind::Type || parameter.index >= next_response_param
                    || is_visible(visible.as_slice(), parameter) {
                    proof {
                        lemma_binder_scan_prefix(parameters@, vis0, next_response_param, i + 1);
                    }
                    return Err("invalid existential binder parameter");
                }
                visible.push(parameter);
                proof {
                    before.lemma_push_to_set_commute(parameter);
                    assert(visible@ == before.push(parameter));
                    assert(visible@.to_set() =~= before.to_set().insert(parameter));
                    assert(visible@.subrange(0, start as int) =~= before.subrange(0, start as int));
                }
                i += 1;
            }
            proof {
                assert(parameters@.take(parameters@.len() as int) =~= parameters@);
                assert(entry_ok_at(store, stash, binder.value.0 as int));
            }
            let ghost pushed = visible@;
            validate_goal(
                store,
                stash,
                store.goal(binder.value),
                visible,
                next_response_param,
                Ghost(binder.value.0 as nat),
            )?;
            visible.truncate(start);
            proof {
                assert(visible@ =~= pushed.subrange(0, start as int));
            }
            Ok(())
        },
        Goal::Implies(assumptions, inner) => {
            proof {
                assert(entry_ok_at(store, stash, inner.0 as int));
            }
            validate_assumptions(store, stash, assumptions, visible, next_response_param)?;
            validate_goal(
                store,
                stash,
                store.goal(inner),
                visible,
                next_response_param,
                Ghost(inner.0 as nat),
            )
        },
        Goal::All(goals) => {
            proof {
                assert(entry_ok_at(store, stash, goals.0 as int));
            }
            validate_goals(
                store,
                stash,
                store.goal_list(goals),
                visible,
                next_response_param,
                Ghost(goals.0 as nat),
            )
        },
        Goal::Atom(atom) => validate_atom(stash, atom, visible.as_slice()),
        Goal::Maybe => Ok(()),
    }
}

/// Check each of `goals`, in order.
fn validate_goals(
    store: &GoalStore,
    stash: &TyStore,
    goals: &[Goal],
    visible: &mut Vec<AlphaEquivParam>,
    next_response_param: u32,
    Ghost(bound): Ghost<nat>,
) -> (result: Result<(), &'static str>)
    requires
        stores_ok(store, stash),
        bound <= store.entries().len(),
        forall|k: int| 0 <= k < goals@.len() ==> goal_refs(store.entries(), #[trigger] goals@[k], bound),
        forall|k: int| 0 <= k < goals@.len() ==> goal_tys_ok(stash, #[trigger] goals@[k]),
    ensures
        reports(
            result,
            goals_fault(
                store.entries(),
                stash,
                goals@,
                old(visible)@.to_set(),
                next_response_param,
                bound,
            ),
        ),
        result is Ok ==> final(visible)@ == old(visible)@,
    decreases bound, 2nat,
{
    let ghost e = store.entries();
    let ghost vis = visible@.to_set();
    let mut i: usize = 0;
    while i < goals.len()
        invariant
            stores_ok(store, stash),
            e == store.entries(),
            bound <= e.len(),
            forall|k: int| 0 <= k < goals@.len() ==> goal_refs(e, #[trigger] goals@[k], bound),
            forall|k: int| 0 <= k < goals@.len() ==> goal_tys_ok(stash, #[trigger] goals@[k]),
            i <= goals@.len(),
            visible@ == old(visible)@,
            vis == old(visible)@.to_set(),
            goals_fault(e, stash, goals@.take(i as int), vis, next_response_param, bound) is None,
        decreases goals@.len() - i,
    {
        let checked = validate_goal(store, stash, goals[i], visible, next_response_param, Ghost(bound));
        proof {
            let t = goals@.take(i + 1);
            assert(t.drop_last() =~= goals@.take(i as int));
            assert(t.last() == goals@[i as int]);
        }
        match checked {
            Err(message) => {
                proof {
                    lemma_goals_fault_prefix(e, stash, goals@, vis, next_response_param, bound, i + 1);
                }
                return Err(message);
            },
            Ok(()) => {},
        }
        i += 1;
    }
    proof {
        assert(goals@.take(goals@.len() as int) =~= goals@);
    }
    Ok(())
}

/// Check one assumption.
fn validate_assumption(
    store: &GoalStore,
    stash: &TyStore,
    assumption: Assumption,
    visible: &mut Vec<AlphaEquivParam>,
    next_response_param: u32,
    Ghost(bound): Ghost<nat>,
) -> (result: Result<(), &'static str>)
    requires
        stores_ok(store, stash),
        bound <= store.entries().len(),
        assumption_refs(store.entries(), assumption, bound),
        assumption_tys_ok(stash, assumption),
    ensures
        reports(
            result,
            assumption_fault(
                store.entries(),
                stash,
                assumption,
                old(visible)@.to_set(),
                next_response_param,
                bound,
            ),
        ),
        result is Ok ==> final(visible)@ == old(visible)@,
    decreases bound, 1nat,
{
    match assumption {
        Assumption::TraitImpl { self_ty, trait_ref } => {
            validate_ty(stash, self_ty, visible.as_slice())?;
            validate_trait_ref(stash, trait_ref, visible.as_slice())
        },
        Assumption::NormalizesTo { alias, ty } => {
            validate_alias(stash, alias, visible.as_slice())?;
            validate_ty(stash, ty, visible.as_slice())
        },
        Assumption::Implies(conditions, consequence) => {
            proof {
                assert(entry_ok_at(store, stash, conditions.0 as int));
                assert(entry_ok_at(store, stash, consequence.0 as int));
            }
            validate_goals(
                store,
                stash,
                store.goal_list(conditions),
                visible,
                next_response_param,
                Ghost(conditions.0 as nat),
            )?;
            let consequence = store.predicate(consequence);
            validate_ty(stash, consequence.self_ty, visible.as_slice())?;
            validate_trait_ref(stash, consequence.trait_ref, visible.as_slice())
        },
        Assumption::All(items) => validate_assumptions(
            store,
            stash,
            items,
            visible,
            next_response_param,
        ),
    }
}

/// Check the assumptions stored at `assumptions`, in order.
fn validate_assumptions(
    store: &GoalStore,
    stash: &TyStore,
    assumptions: AssumptionList,
    visible: &mut Vec<AlphaEquivParam>,
    next_response_param: u32,
) -> (result: Result<(), &'static str>)
    requires
        stores_ok(store, stash),
        assumptions_entry_below(store.entries(), assumptions.0, store.entries().len()),
    ensures
        reports(
            result,
            assumptions_fault(
                store.entries(),
                stash,
                assumptions_at(store.entries(), assumptions.0),
                old(visible)@.to_set(),
                next_response_param,
                assumptions.0 as nat,
            ),
        ),
        result is Ok ==> final(visible)@ == old(visible)@,
    decreases assumptions.0 as nat + 1, 0nat,
{
    let ghost e = store.entries();
    let ghost vis = visible@.to_set();
    let ghost bound = assumptions.0 as nat;
    let items = store.assumption_list(assumptions);
    proof {
        assert(entry_ok_at(store, stash, assumptions.0 as int));
    }
    let mut i: usize = 0;
    while i < items.len()
        invariant
            stores_ok(store, stash),
            e == store.entries(),
            bound == assumptions.0,
            bound < e.len(),
            items@ == assumptions_at(e, assumptions.0),
            forall|k: int| 0 <= k < items@.len() ==> assumption_refs(e, #[trigger] items@[k], bound),
            forall|k: int| 0 <= k < items@.len() ==> assumption_tys_ok(stash, #[trigger] items@[k]),
            i <= items@.len(),
            visible@ == old(visible)@,
            vis == old(visible)@.to_set(),
            assumptions_fault(e, stash, items@.take(i as int), vis, next_response_param, bound) is None,
        decreases items@.len() - i,
    {
        let checked = validate_assumption(
            store,
            stash,
            items[i],
            visible,
            next_response_param,
            Ghost(bound),
        );
        proof {
            let t = items@.take(i + 1);
            assert(t.drop_last() =~= items@.take(i as int));
            assert(t.last() == items@[i as int]);
        }
        match checked {
            Err(message) => {
                proof {
                    lemma_assumptions_fault_prefix(e, stash, items@, vis, next_response_param, bound, i + 1);
                }
                return Err(message);
            },
            Ok(()) => {},
        }
        i += 1;
    }
    proof {
        assert(items@.take(items@.len() as int) =~= items@);
    }
    Ok(())
}

/// Check a solver goal: a proposition, or an alias to normalize.
fn validate_solver_goal(
    store: &GoalStore,
    stash: &TyStore,
    goal: SolverGoal,
    visible: &mut Vec<AlphaEquivParam>,
    next_response_param: u32,
) -> (result: Result<(), &'static str>)
    requires
        stores_ok(store, stash),
        solver_goal_ok(store.entries(), stash, goal),
    ensures
        reports(
            result,
            solver_goal_fault(
                store.entries(),
                stash,
                goal,
                old(visible)@.to_set(),
                next_response_param,
                store.entries().len(),
            ),
        ),
{
    match goal {
        SolverGoal::Prove(goal) => validate_goal(
            store,
            stash,
            goal,
            visible,
            next_response_param,
            Ghost(store.entries().len()),
        ),
        SolverGoal::Normalize(alias) => validate_alias(stash, alias, visible.as_slice()),
    }
}

/// The identities and types of `goal` are valid in the two stores.
pub open spec fn solver_goal_ok(e: Seq<GoalEntry>, stash: &TyStore, goal: SolverGoal) -> bool {
    match goal {
        SolverGoal::Prove(g) => goal_refs(e, g, e.len()) && goal_tys_ok(stash, g),
        SolverGoal::Normalize(alias) => alias_tys_ok(stash, alias),
    }
}

/// Check that a canonical query is well formed: its variables are distinct,
/// consistent and no newer than the query universe, existential inputs are
/// types, and its assumptions and goal mention no inference variable and no
/// parameter but a visible canonical one.
pub fn validate_goal_query(store: &GoalStore, stash: &TyStore, query: &GoalQueryData) -> (result:
    Result<(), &'static str>)
    requires
        stores_ok(store, stash),
        assumptions_entry_below(store.entries(), query.assumptions.0, store.entries().len()),
        solver_goal_ok(store.entries(), stash, query.goal),
    ensures
        reports(result, query_fault(store.entries(), stash, *query)),
{
    let ghost vars = query.canonical_vars@;
    let universe = query.canonical_universe;
    let next = query.next_response_param;
    let mut visible: Vec<AlphaEquivParam> = Vec::new();
    proof {
        assert(vars.take(0) =~= Seq::<CanonicalVarInfo>::empty());
        assert(visible@.to_set() =~= Set::<AlphaEquivParam>::empty());
    }
    let mut i: usize = 0;
    while i < query.canonical_vars.len()
        invariant
            vars == query.canonical_vars@,
            universe == query.canonical_universe,
            next == query.next_response_param,
            i <= vars.len(),
            vars_scan(vars.take(i as int), universe, next) == Ok::<Set<AlphaEquivParam>, Seq<char>>(
                visible@.to_set(),
            ),
        decreases vars.len() - i,
    {
        let info = query.canonical_vars[i];
        let ghost before = visible@;
        proof {
            let t = vars.take(i + 1);
            assert(t.drop_last() =~= vars.take(i as int));
            assert(t.last() == vars[i as int]);
        }
        if is_visible(visible.as_slice(), info.param) {
            proof {
                lemma_vars_scan_prefix(vars, universe, next, i + 1);
            }
            return Err("duplicate canonical variable");
        }
        visible.push(info.param);
        proof {
            before.lemma_push_to_set_commute(info.param);
            assert(visible@ == before.push(info.param));
            assert(visible@.to_set() =~= before.to_set().insert(info.param));
        }
        if info.role == CanonicalVarRole::ExistentialInput && info.kind != GenericParamKind::Type {
            proof {
                lemma_vars_scan_prefix(vars, universe, next, i + 1);
            }
            return Err("non-type existential input");
        }
        if info.relative_universe > universe {
            proof {
                lemma_vars_scan_prefix(vars, universe, next, i + 1);
            }
            return Err("canonical input is newer than the query universe");
        }
        if info.param.kind != info.kind || info.param.index >= next {
            proof {
                lemma_vars_scan_prefix(vars, universe, next, i + 1);
            }
            return Err("inconsistent canonical variable metadata");
        }
        i += 1;
    }
    proof {
        assert(vars.take(vars.len() as int) =~= vars);
    }
    validate_assumptions(store, stash, query.assumptions, &mut visible, next)?;
    validate_solver_goal(store, stash, query.goal, &mut visible, next)
}

} // verus!
