//! Anti-unification of ambiguous answers: the parts that read one store.
use vstd::prelude::*;

use crate::generic_param::{AlphaEquivParam, GenericParam, GenericParamKind};
use crate::goal::{GoalEntry, GoalStore, QueryResult, QueryResultData};
use crate::merge::{contains_newer_parameter, has_newer_param};
use crate::skeleton::{children, decompose, decomposition, recompose, Decomposed};
use crate::solve::{ResponseVarInfo, SubstEntry};
use crate::ty::{Ty, TyId, TyStore};

verus! {

/// Report whether `ty` mentions a canonical input whose universe in
/// `input_universes` is newer than `key_universe`, so that a binding of a
/// key in `key_universe` could not name it.
pub fn contains_inaccessible_input(
    stash: &TyStore,
    ty: TyId,
    key_universe: u32,
    input_universes: &[(AlphaEquivParam, u32)],
) -> (inaccessible: bool)
    requires
        stash.wf(),
        ty.0 < stash.types().len(),
    ensures
        inaccessible == has_newer_param(stash, ty, key_universe, input_universes@),
{
    contains_newer_parameter(stash, ty, key_universe, input_universes)
}

/// The canonical parameters named in `ty` or below it.
pub open spec fn params_below(stash: &TyStore, ty: TyId) -> Set<AlphaEquivParam>
    decreases ty.0 as nat + 1, 0nat,
{
    let own = match stash.types()[ty.0 as int] {
        Ty::Param(GenericParam::AlphaEquiv(p)) => set![p],
        _ => Set::empty(),
    };
    own + params_below_all(stash, children(stash.types()[ty.0 as int], stash.lists()), ty.0 as nat)
}

/// The canonical parameters named in those of `ids` below `bound`.
pub open spec fn params_below_all(stash: &TyStore, ids: Seq<TyId>, bound: nat) -> Set<AlphaEquivParam>
    decreases bound, ids.len(),
{
    if ids.len() == 0 {
        Set::empty()
    } else {
        params_below_all(stash, ids.drop_last(), bound) + if ids.last().0 < bound {
            params_below(stash, ids.last())
        } else {
            Set::empty()
        }
    }
}

/// The canonical parameters named in the values of `entries`.
pub open spec fn params_of_values(stash: &TyStore, entries: Seq<SubstEntry>) -> Set<AlphaEquivParam>
    decreases entries.len(),
{
    if entries.len() == 0 {
        Set::empty()
    } else {
        params_of_values(stash, entries.drop_last()) + params_below(stash, entries.last().value)
    }
}

/// Add `p` to the duplicate-free `output` unless it is there.
fn insert_param(output: &mut Vec<AlphaEquivParam>, p: AlphaEquivParam)
    requires
        old(output)@.no_duplicates(),
    ensures
        final(output)@.no_duplicates(),
        final(output)@.to_set() == old(output)@.to_set().insert(p),
{
    let mut i: usize = 0;
    while i < output.len()
        invariant
            i <= output@.len(),
            output@ == old(output)@,
            old(output)@.no_duplicates(),
            forall|j: int| 0 <= j < i ==> output@[j] != p,
        decreases output@.len() - i,
    {
        if output[i] == p {
            proof {
                assert(output@.to_set().insert(p) =~= output@.to_set());
            }
            return;
        }
        i += 1;
    }
    let ghost before = output@;
    output.push(p);
    proof {
        before.lemma_push_to_set_commute(p);
        assert(output@ == before.push(p));
        assert forall|a: int, b: int| 0 <= a < b < output@.len() implies output@[a] != output@[b] by {
            if b == before.len() {
                assert(before[a] != p);
            }
        }
    }
}

/// Whether `p` is among `candidates`.
fn is_candidate(candidates: &[AlphaEquivParam], p: AlphaEquivParam) -> (found: bool)
    ensures
        found == candidates@.contains(p),
{
    let mut i: usize = 0;
    while i < candidates.len()
        invariant
            i <= candidates@.len(),
            forall|j: int| 0 <= j < i ==> candidates@[j] != p,
        decreases candidates@.len() - i,
    {
        if candidates[i] == p {
            proof {
                assert(candidates@[i as int] == p);
            }
            return true;
        }
        i += 1;
    }
    false
}

/// Add to `output` the parameters among `candidates` that `ty` names.
fn collect_params(
    stash: &TyStore,
    ty: TyId,
    candidates: &[AlphaEquivParam],
    output: &mut Vec<AlphaEquivParam>,
)
    requires
        stash.wf(),
        ty.0 < stash.types().len(),
        old(output)@.no_duplicates(),
    ensures
        final(output)@.no_duplicates(),
        final(output)@.to_set() == old(output)@.to_set() + params_below(stash, ty).intersect(
            candidates@.to_set(),
        ),
    decreases ty.0,
{
    let ghost cands = candidates@.to_set();
    let ghost start = output@.to_set();
    let ghost own = match stash.types()[ty.0 as int] {
        Ty::Param(GenericParam::AlphaEquiv(p)) => set![p],
        _ => Set::<AlphaEquivParam>::empty(),
    };
    if let Ty::Param(GenericParam::AlphaEquiv(parameter)) = stash.get(ty) {
        if is_candidate(candidates, parameter) {
            insert_param(output, parameter);
        }
    }
    proof {
        assert(output@.to_set() =~= start + own.intersect(cands));
    }
    let parts = decompose(stash, ty);
    let kids = parts.child_ids();
    let ghost bound = ty.0 as nat;
    let ghost after_own = output@.to_set();
    proof {
        assert(kids@.take(0) =~= Seq::<TyId>::empty());
        assert(after_own + params_below_all(stash, kids@.take(0), bound).intersect(cands) =~= after_own);
    }
    let mut i: usize = 0;
    while i < kids.len()
        invariant
            stash.wf(),
            bound == ty.0,
            ty.0 < stash.types().len(),
            cands == candidates@.to_set(),
            forall|k: int| 0 <= k < kids@.len() ==> (#[trigger] kids@[k]).0 < bound,
            i <= kids@.len(),
            output@.no_duplicates(),
            output@.to_set() == after_own + params_below_all(stash, kids@.take(i as int), bound).intersect(
                cands,
            ),
        decreases kids@.len() - i,
    {
        let ghost before = output@.to_set();
        collect_params(stash, kids[i], candidates, output);
        proof {
            let t = kids@.take(i + 1);
            assert(t.drop_last() =~= kids@.take(i as int));
            assert(t.last() == kids@[i as int]);
            assert(output@.to_set() =~= after_own + params_below_all(stash, t, bound).intersect(cands));
        }
        i += 1;
    }
    proof {
        assert(kids@.take(kids@.len() as int) =~= kids@);
        assert(kids@ == children(stash.types()[ty.0 as int], stash.lists()));
        assert(output@.to_set() =~= start + params_below(stash, ty).intersect(cands));
    }
}

/// The witnesses that the values of `entries` name.
pub fn collect_used_witnesses(
    stash: &TyStore,
    entries: &[SubstEntry],
    witnesses: &[ResponseVarInfo],
) -> (used: Vec<AlphaEquivParam>)
    requires
        stash.wf(),
        forall|k: int| 0 <= k < entries@.len() ==> (#[trigger] entries@[k]).value.0 < stash.types().len(),
    ensures
        used@.no_duplicates(),
        used@.to_set() == params_of_values(stash, entries@).intersect(
            witnesses@.map_values(|w: ResponseVarInfo| w.param).to_set(),
        ),
{
    let mut all: Vec<AlphaEquivParam> = Vec::new();
    let mut w: usize = 0;
    while w < witnesses.len()
        invariant
            w <= witnesses@.len(),
            all@ == witnesses@.take(w as int).map_values(|x: ResponseVarInfo| x.param),
        decreases witnesses@.len() - w,
    {
        all.push(witnesses[w].param);
        proof {
            assert(witnesses@.take(w + 1).map_values(|x: ResponseVarInfo| x.param) =~= witnesses@.take(
                w as int,
            ).map_values(|x: ResponseVarInfo| x.param).push(witnesses@[w as int].param));
        }
        w += 1;
    }
    proof {
        assert(witnesses@.take(witnesses@.len() as int) =~= witnesses@);
    }
    let ghost cands = all@.to_set();
    let mut used: Vec<AlphaEquivParam> = Vec::new();
    proof {
        assert(used@.to_set() =~= Set::<AlphaEquivParam>::empty());
        assert(entries@.take(0) =~= Seq::<SubstEntry>::empty());
        assert(params_of_values(stash, entries@.take(0)).intersect(cands) =~= Set::<
            AlphaEquivParam,
        >::empty());
    }
    let mut i: usize = 0;
    while i < entries.len()
        invariant
            stash.wf(),
            forall|k: int| 0 <= k < entries@.len() ==> (#[trigger] entries@[k]).value.0 < stash.types().len(),
            cands == all@.to_set(),
            i <= entries@.len(),
            used@.no_duplicates(),
            used@.to_set() == params_of_values(stash, entries@.take(i as int)).intersect(cands),
        decreases entries@.len() - i,
    {
        collect_params(stash, entries[i].value, all.as_slice(), &mut used);
        proof {
            let t = entries@.take(i + 1);
            assert(t.drop_last() =~= entries@.take(i as int));
            assert(t.last() == entries@[i as int]);
            assert(used@.to_set() =~= params_of_values(stash, t).intersect(cands));
        }
        i += 1;
    }
    proof {
        assert(entries@.take(entries@.len() as int) =~= entries@);
    }
    used
}

/// The ambiguous answer with no hints, over no response variables.
pub fn empty_maybe(store: &mut GoalStore) -> (result: QueryResult)
    requires
        old(store).wf(),
        old(store).entries().len() + 2 <= u32::MAX as nat + 1,
    ensures
        final(store).wf(),
        result.bound_vars.0 == old(store).entries().len(),
        result.value == (QueryResultData::Maybe {
            hints: crate::goal::Subst((old(store).entries().len() + 1) as u32),
        }),
        final(store).entries() == old(store).entries().push(
            GoalEntry::ResponseVars(Seq::empty()),
        ).push(GoalEntry::Subst(Seq::empty())),
{
    let vars: Vec<ResponseVarInfo> = Vec::new();
    let entries: Vec<SubstEntry> = Vec::new();
    proof {
        assert(vars@ =~= Seq::<ResponseVarInfo>::empty());
        assert(entries@ =~= Seq::<SubstEntry>::empty());
    }
    let bound_vars = store.alloc_response_vars(vars.as_slice());
    let hints = store.alloc_subst(entries.as_slice());
    QueryResult { bound_vars, value: QueryResultData::Maybe { hints } }
}

/// A decomposition read from a store that `new` extends is the same in
/// `new`.
pub proof fn lemma_decomposition_extends(old: &TyStore, new: &TyStore, i: int)
    requires
        old.wf(),
        new.extends(old),
        0 <= i < old.types().len(),
    ensures
        decomposition(new.types()[i], new.lists()) == decomposition(old.types()[i], old.lists()),
{
    let t = old.types()[i];
    assert(new.types()[i] == t);
    assert(crate::ty::refs_below(t, old.lists(), i as nat));
    assert forall|j: int| 0 <= j < crate::ty::ty_lists(t).len() implies new.lists()[(
    #[trigger] crate::ty::ty_lists(t)[j]).0 as int] == old.lists()[crate::ty::ty_lists(t)[j].0 as int] by {}
    match t {
        Ty::Adt(_, x) => {
            assert(crate::ty::ty_lists(t)[0] == x);
        },
        Ty::Tuple(x) => {
            assert(crate::ty::ty_lists(t)[0] == x);
        },
        Ty::FnPtr(x, _) => {
            assert(crate::ty::ty_lists(t)[0] == x);
        },
        Ty::Alias(crate::ty::AliasTy::Named(x)) => {
            assert(crate::ty::ty_lists(t)[0] == x.args);
        },
        Ty::Alias(crate::ty::AliasTy::Opaque(x)) => {
            assert(crate::ty::ty_lists(t)[0] == x.args);
        },
        Ty::Alias(crate::ty::AliasTy::Associated(p)) => {
            assert(crate::ty::ty_lists(t)[0] == p.trait_ref.args);
            assert(crate::ty::ty_lists(t)[1] == p.args);
        },
        _ => {},
    }
}

/// The number of nodes of `ty` read as a tree: one, and those of its
/// children.
pub open spec fn tree_size(stash: &TyStore, ty: TyId) -> nat
    decreases ty.0 as nat + 1, 0nat,
{
    1 + sizes_below(stash, children(stash.types()[ty.0 as int], stash.lists()), ty.0 as nat)
}

/// The tree sizes of those of `ids` below `bound`, added up.
pub open spec fn sizes_below(stash: &TyStore, ids: Seq<TyId>, bound: nat) -> nat
    decreases bound, ids.len(),
{
    if ids.len() == 0 {
        0
    } else {
        sizes_below(stash, ids.drop_last(), bound) + if ids.last().0 < bound {
            tree_size(stash, ids.last())
        } else {
            0
        }
    }
}

/// Tree sizes do not change as the store grows.
pub proof fn lemma_tree_size_extends(old: &TyStore, new: &TyStore, ty: TyId)
    requires
        old.wf(),
        new.extends(old),
        ty.0 < old.types().len(),
    ensures
        tree_size(new, ty) == tree_size(old, ty),
    decreases ty.0 as nat + 1, 0nat,
{
    lemma_decomposition_extends(old, new, ty.0 as int);
    crate::merge::lemma_children_below(old, ty.0 as int);
    let kids = children(old.types()[ty.0 as int], old.lists());
    lemma_sizes_extends(old, new, kids, ty.0 as nat);
}

proof fn lemma_sizes_extends(old: &TyStore, new: &TyStore, ids: Seq<TyId>, bound: nat)
    requires
        old.wf(),
        new.extends(old),
        bound <= old.types().len(),
    ensures
        sizes_below(new, ids, bound) == sizes_below(old, ids, bound),
    decreases bound, ids.len(),
{
    if ids.len() > 0 {
        lemma_sizes_extends(old, new, ids.drop_last(), bound);
        if ids.last().0 < bound {
            lemma_tree_size_extends(old, new, ids.last());
        }
    }
}

/// A prefix of `ids` adds up to no more than all of them.
pub proof fn lemma_sizes_prefix(stash: &TyStore, ids: Seq<TyId>, bound: nat, i: int)
    requires
        0 <= i <= ids.len(),
    ensures
        sizes_below(stash, ids.take(i), bound) <= sizes_below(stash, ids, bound),
    decreases ids.len(),
{
    if i == ids.len() {
        assert(ids.take(i) =~= ids);
    } else {
        assert(ids.drop_last().take(i) =~= ids.take(i));
        lemma_sizes_prefix(stash, ids.drop_last(), bound, i);
    }
}

/// The type of the fresh witness parameter with index `i`.
pub open spec fn witness_ty(i: u32) -> Ty {
    Ty::Param(GenericParam::AlphaEquiv(AlphaEquivParam { kind: GenericParamKind::Type, index: i }))
}

/// The witnesses with indices `first..last`, in order, for a key in
/// `universe`.
pub open spec fn fresh_witnesses(first: u32, last: u32, universe: u32) -> Seq<ResponseVarInfo> {
    Seq::new(
        (last - first) as nat,
        |j: int|
            ResponseVarInfo {
                param: AlphaEquivParam { kind: GenericParamKind::Type, index: (first + j) as u32 },
                kind: GenericParamKind::Type,
                relative_universe: universe,
            },
    )
}

/// All of `values` are the first one.
pub open spec fn all_same(values: Seq<TyId>) -> bool {
    forall|k: int| 0 <= k < values.len() ==> #[trigger] values[k] == values[0]
}

/// All of `values` have the first one's skeleton and its number of
/// children, which is not zero.
pub open spec fn common_shape(stash: &TyStore, values: Seq<TyId>) -> bool {
    let (s0, c0) = decomposition(stash.types()[values[0].0 as int], stash.lists());
    &&& c0.len() > 0
    &&& forall|k: int|
        0 <= k < values.len() ==> {
            &&& (#[trigger] decomposition(stash.types()[values[k].0 as int], stash.lists())).0 == s0
            &&& decomposition(stash.types()[values[k].0 as int], stash.lists()).1.len() == c0.len()
        }
}

/// The `c`-th children of `values`.
pub open spec fn column(stash: &TyStore, values: Seq<TyId>, c: int) -> Seq<TyId> {
    values.map_values(|v: TyId| children(stash.types()[v.0 as int], stash.lists())[c])
}

/// The number of positions at which `values` diverge: none when they are
/// all one type; the sum over the columns when they share a skeleton with
/// children; else one.
pub open spec fn divergences(stash: &TyStore, values: Seq<TyId>) -> nat
    decreases values[0].0 as nat + 1, 0nat,
{
    if all_same(values) {
        0
    } else if common_shape(stash, values) {
        columns_divergences(
            stash,
            values,
            decomposition(stash.types()[values[0].0 as int], stash.lists()).1.len(),
            values[0].0 as nat,
        )
    } else {
        1
    }
}

/// The number of divergent positions in the first `count` columns of
/// `values`.
pub open spec fn columns_divergences(stash: &TyStore, values: Seq<TyId>, count: nat, bound: nat) -> nat
    decreases bound, count,
{
    if count == 0 {
        0
    } else {
        columns_divergences(stash, values, (count - 1) as nat, bound) + if column(
            stash,
            values,
            count - 1,
        )[0].0 < bound {
            divergences(stash, column(stash, values, count - 1))
        } else {
            0
        }
    }
}

/// `merged` is the anti-unifier of `values` whose witnesses are numbered
/// from `first`: the common type when they are all one type; else, when
/// they share a skeleton with children, that skeleton over the
/// anti-unifiers of their children, column by column, each column numbering
/// its witnesses after those of the columns before it; else the fresh
/// witness parameter with index `first`. So each divergent position gets a
/// witness of its own, numbered in left-to-right order.
pub open spec fn generalizes(stash: &TyStore, values: Seq<TyId>, merged: TyId, first: nat) -> bool
    decreases values[0].0 as nat + 1, 0nat,
{
    if all_same(values) {
        merged == values[0]
    } else if common_shape(stash, values) {
        let (s0, c0) = decomposition(stash.types()[values[0].0 as int], stash.lists());
        let (ms, mc) = decomposition(stash.types()[merged.0 as int], stash.lists());
        &&& merged.0 < stash.types().len()
        &&& ms == s0
        &&& mc.len() == c0.len()
        &&& columns_generalize(stash, values, mc, c0.len(), values[0].0 as nat, first)
    } else {
        &&& merged.0 < stash.types().len()
        &&& first <= u32::MAX
        &&& stash.types()[merged.0 as int] == witness_ty(first as u32)
    }
}

/// Each of the first `count` of `kids` anti-unifies its column of the
/// children of `values`, with witnesses numbered from `first` after those
/// of the columns before it.
pub open spec fn columns_generalize(
    stash: &TyStore,
    values: Seq<TyId>,
    kids: Seq<TyId>,
    count: nat,
    bound: nat,
    first: nat,
) -> bool
    decreases bound, count,
{
    if count == 0 {
        true
    } else {
        &&& columns_generalize(stash, values, kids, (count - 1) as nat, bound, first)
        &&& if column(stash, values, count - 1)[0].0 < bound {
            generalizes(
                stash,
                column(stash, values, count - 1),
                kids[count - 1],
                first + columns_divergences(stash, values, (count - 1) as nat, bound),
            )
        } else {
            false
        }
    }
}

/// An anti-unifier is a type of the store.
pub proof fn lemma_generalizes_valid(stash: &TyStore, values: Seq<TyId>, merged: TyId, first: nat)
    requires
        values.len() > 0,
        values[0].0 < stash.types().len(),
        generalizes(stash, values, merged, first),
    ensures
        merged.0 < stash.types().len(),
{
}

/// The columns of `values` read the same in a store that extends theirs.
proof fn lemma_column_extends(old: &TyStore, new: &TyStore, values: Seq<TyId>, c: int)
    requires
        old.wf(),
        new.extends(old),
        forall|k: int| 0 <= k < values.len() ==> (#[trigger] values[k]).0 < old.types().len(),
    ensures
        column(new, values, c) == column(old, values, c),
{
    assert forall|k: int| 0 <= k < values.len() implies #[trigger] column(new, values, c)[k] == column(
        old,
        values,
        c,
    )[k] by {
        lemma_decomposition_extends(old, new, values[k].0 as int);
    }
    assert(column(new, values, c) =~= column(old, values, c));
}

/// A column of values that share a shape holds types of the store, below
/// the first value.
proof fn lemma_column_below(stash: &TyStore, values: Seq<TyId>, c: int)
    requires
        stash.wf(),
        values.len() > 0,
        forall|k: int| 0 <= k < values.len() ==> (#[trigger] values[k]).0 < stash.types().len(),
        common_shape(stash, values),
        0 <= c < decomposition(stash.types()[values[0].0 as int], stash.lists()).1.len(),
    ensures
        column(stash, values, c).len() == values.len(),
        forall|k: int|
            0 <= k < values.len() ==> (#[trigger] column(stash, values, c)[k]).0 < values[k].0,
        column(stash, values, c)[0].0 < values[0].0,
{
    assert forall|k: int| 0 <= k < values.len() implies (#[trigger] column(stash, values, c)[k]).0
        < values[k].0 by {
        crate::merge::lemma_children_below(stash, values[k].0 as int);
        assert(decomposition(stash.types()[values[k].0 as int], stash.lists()).1.len()
            == decomposition(stash.types()[values[0].0 as int], stash.lists()).1.len());
        assert(column(stash, values, c)[k] == children(stash.types()[values[k].0 as int], stash.lists())[c]);
    }
    assert(column(stash, values, c)[0].0 < values[0].0);
}

/// Anti-unifiers stay anti-unifiers, and the count of divergent positions
/// stays the same, as the store grows.
pub proof fn lemma_generalizes_extends(
    old: &TyStore,
    new: &TyStore,
    values: Seq<TyId>,
    merged: TyId,
    first: nat,
)
    requires
        old.wf(),
        new.extends(old),
        values.len() > 0,
        forall|k: int| 0 <= k < values.len() ==> (#[trigger] values[k]).0 < old.types().len(),
    ensures
        generalizes(old, values, merged, first) ==> generalizes(new, values, merged, first),
        divergences(new, values) == divergences(old, values),
    decreases values[0].0 as nat + 1, 0nat,
{
    lemma_common_shape_extends(old, new, values);
    if all_same(values) {
    } else if common_shape(old, values) {
        let (s0, c0) = decomposition(old.types()[values[0].0 as int], old.lists());
        let mc = decomposition(old.types()[merged.0 as int], old.lists()).1;
        if generalizes(old, values, merged, first) {
            lemma_decomposition_extends(old, new, merged.0 as int);
        }
        lemma_columns_extends(old, new, values, mc, c0.len(), values[0].0 as nat, first);
    } else {
        if generalizes(old, values, merged, first) {
            assert(new.types()[merged.0 as int] == old.types()[merged.0 as int]);
        }
    }
}

proof fn lemma_columns_extends(
    old: &TyStore,
    new: &TyStore,
    values: Seq<TyId>,
    kids: Seq<TyId>,
    count: nat,
    bound: nat,
    first: nat,
)
    requires
        old.wf(),
        new.extends(old),
        values.len() > 0,
        forall|k: int| 0 <= k < values.len() ==> (#[trigger] values[k]).0 < old.types().len(),
        common_shape(old, values),
        count <= decomposition(old.types()[values[0].0 as int], old.lists()).1.len(),
        bound == values[0].0,
    ensures
        columns_generalize(old, values, kids, count, bound, first) ==> columns_generalize(
            new,
            values,
            kids,
            count,
            bound,
            first,
        ),
        columns_divergences(new, values, count, bound) == columns_divergences(old, values, count, bound),
    decreases bound, count,
{
    if count > 0 {
        lemma_columns_extends(old, new, values, kids, (count - 1) as nat, bound, first);
        let c = count - 1;
        lemma_column_extends(old, new, values, c);
        lemma_column_below(old, values, c);
        let col = column(old, values, c);
        assert forall|k: int| 0 <= k < col.len() implies (#[trigger] col[k]).0 < old.types().len() by {
            assert(col[k].0 < values[k].0);
        }
        lemma_generalizes_extends(
            old,
            new,
            col,
            kids[c],
            first + columns_divergences(old, values, (count - 1) as nat, bound),
        );
    }
}

/// Sharing a shape does not change as the store grows.
proof fn lemma_common_shape_extends(old: &TyStore, new: &TyStore, values: Seq<TyId>)
    requires
        old.wf(),
        new.extends(old),
        values.len() > 0,
        forall|k: int| 0 <= k < values.len() ==> (#[trigger] values[k]).0 < old.types().len(),
    ensures
        common_shape(new, values) == common_shape(old, values),
        decomposition(new.types()[values[0].0 as int], new.lists()) == decomposition(
            old.types()[values[0].0 as int],
            old.lists(),
        ),
{
    assert forall|k: int| 0 <= k < values.len() implies #[trigger] decomposition(
        new.types()[values[k].0 as int],
        new.lists(),
    ) == decomposition(old.types()[values[k].0 as int], old.lists()) by {
        lemma_decomposition_extends(old, new, values[k].0 as int);
    }
    lemma_decomposition_extends(old, new, values[0].0 as int);
    if common_shape(new, values) {
        let s0 = decomposition(old.types()[values[0].0 as int], old.lists()).0;
        assert forall|k: int| 0 <= k < values.len() implies {
            &&& (#[trigger] decomposition(old.types()[values[k].0 as int], old.lists())).0 == s0
            &&& decomposition(old.types()[values[k].0 as int], old.lists()).1.len()
                == decomposition(old.types()[values[0].0 as int], old.lists()).1.len()
        } by {
            assert(decomposition(new.types()[values[k].0 as int], new.lists()) == decomposition(
                old.types()[values[k].0 as int],
                old.lists(),
            ));
        }
    }
}

/// Each of the first `count` anti-unifiers depends only on those `count`.
proof fn lemma_columns_prefix(
    stash: &TyStore,
    values: Seq<TyId>,
    kids: Seq<TyId>,
    more: Seq<TyId>,
    count: nat,
    bound: nat,
    first: nat,
)
    requires
        count <= kids.len(),
        count <= more.len(),
        kids.take(count as int) == more.take(count as int),
        columns_generalize(stash, values, kids, count, bound, first),
    ensures
        columns_generalize(stash, values, more, count, bound, first),
    decreases count,
{
    if count > 0 {
        assert(kids[count - 1] == kids.take(count as int)[count - 1]);
        assert(more[count - 1] == more.take(count as int)[count - 1]);
        assert(kids.take(count - 1) =~= kids.take(count as int).take(count - 1));
        assert(more.take(count - 1) =~= more.take(count as int).take(count - 1));
        lemma_columns_prefix(stash, values, kids, more, (count - 1) as nat, bound, first);
    }
}

/// Fresh witnesses of consecutive ranges join.
proof fn lemma_fresh_join(a: u32, b: u32, c: u32, universe: u32)
    requires
        a <= b <= c,
    ensures
        fresh_witnesses(a, b, universe) + fresh_witnesses(b, c, universe) == fresh_witnesses(
            a,
            c,
            universe,
        ),
{
    assert(fresh_witnesses(a, b, universe) + fresh_witnesses(b, c, universe) =~= fresh_witnesses(
        a,
        c,
        universe,
    ));
}

/// Whether all of `values` are the first one.
fn all_same_ids(values: &[TyId]) -> (same: bool)
    requires
        values@.len() > 0,
    ensures
        same == all_same(values@),
{
    let first = values[0];
    let mut i: usize = 0;
    while i < values.len()
        invariant
            values@.len() > 0,
            first == values@[0],
            i <= values@.len(),
            forall|k: int| 0 <= k < i ==> #[trigger] values@[k] == first,
        decreases values@.len() - i,
    {
        if values[i] != first {
            return false;
        }
        i += 1;
    }
    true
}

/// The state of an anti-unification: the next fresh parameter index, the
/// universe of the key being merged, and the witnesses made so far.
pub struct AntiUnifier {
    pub next_param: u32,
    pub key_universe: u32,
    pub witnesses: Vec<ResponseVarInfo>,
}

impl AntiUnifier {
    /// Anti-unify `values`: returns the merged type and whether it is a
    /// fresh bare witness.
    pub fn merge_types(&mut self, stash: &mut TyStore, values: &[TyId]) -> (result: (TyId, bool))
        requires
            old(stash).wf(),
            values@.len() > 0,
            forall|k: int| 0 <= k < values@.len() ==> (#[trigger] values@[k]).0 < old(stash).types().len(),
            old(self).next_param + tree_size(old(stash), values@[0]) <= u32::MAX,
            old(stash).types().len() + tree_size(old(stash), values@[0]) <= u32::MAX,
            old(stash).lists().len() + 2 * tree_size(old(stash), values@[0]) <= u32::MAX,
        ensures
            final(stash).wf(),
            final(stash).extends(old(stash)),
            result.0.0 < final(stash).types().len(),
            generalizes(final(stash), values@, result.0, old(self).next_param as nat),
            final(self).next_param == old(self).next_param + divergences(old(stash), values@),
            result.1 == (!all_same(values@) && !common_shape(old(stash), values@)),
            old(self).next_param <= final(self).next_param,
            final(self).next_param <= old(self).next_param + tree_size(old(stash), values@[0]),
            final(stash).types().len() <= old(stash).types().len() + tree_size(old(stash), values@[0]),
            final(stash).lists().len() <= old(stash).lists().len() + 2 * tree_size(
                old(stash),
                values@[0],
            ),
            final(self).key_universe == old(self).key_universe,
            final(self).witnesses@ == old(self).witnesses@ + fresh_witnesses(
                old(self).next_param,
                final(self).next_param,
                old(self).key_universe,
            ),
        decreases values@[0].0,
    {
        let ghost o = *stash;
        let ghost first = self.next_param;
        proof {
            assert(fresh_witnesses(first, first, self.key_universe) =~= Seq::<ResponseVarInfo>::empty());
            assert(self.witnesses@ + fresh_witnesses(first, first, self.key_universe) =~= self.witnesses@);
        }
        if all_same_ids(values) {
            return (values[0], false);
        }
        let mut decomposed: Vec<Decomposed> = Vec::new();
        let mut i: usize = 0;
        while i < values.len()
            invariant
                stash.wf(),
                i <= values@.len(),
                forall|k: int| 0 <= k < values@.len() ==> (#[trigger] values@[k]).0 < stash.types().len(),
                decomposed@.len() == i,
                forall|k: int|
                    0 <= k < i ==> ((#[trigger] decomposed@[k]).skeleton, decomposed@[k].children_view())
                        == decomposition(stash.types()[values@[k].0 as int], stash.lists()),
            decreases values@.len() - i,
        {
            decomposed.push(decompose(stash, values[i]));
            i += 1;
        }
        let skeleton = decomposed[0].skeleton;
        let arity = decomposed[0].child_ids().len();
        let mut shape = arity > 0;
        let mut k: usize = 0;
        while k < decomposed.len()
            invariant
                k <= decomposed@.len(),
                decomposed@.len() == values@.len(),
                values@.len() > 0,
                skeleton == decomposed@[0].skeleton,
                arity == decomposed@[0].children_view().len(),
                shape ==> arity > 0,
                shape ==> forall|j: int|
                    0 <= j < k ==> (#[trigger] decomposed@[j]).skeleton == skeleton
                        && decomposed@[j].children_view().len() == arity,
                !shape ==> !(arity > 0 && forall|j: int|
                    0 <= j < decomposed@.len() ==> (#[trigger] decomposed@[j]).skeleton == skeleton
                        && decomposed@[j].children_view().len() == arity),
            decreases decomposed@.len() - k,
        {
            if decomposed[k].skeleton != skeleton || decomposed[k].child_ids().len() != arity {
                shape = false;
            }
            k += 1;
        }
        proof {
            assert(shape == common_shape(&o, values@)) by {
                if shape {
                    assert forall|j: int| 0 <= j < values@.len() implies {
                        &&& (#[trigger] decomposition(o.types()[values@[j].0 as int], o.lists())).0
                            == decomposition(o.types()[values@[0].0 as int], o.lists()).0
                        &&& decomposition(o.types()[values@[j].0 as int], o.lists()).1.len()
                            == decomposition(o.types()[values@[0].0 as int], o.lists()).1.len()
                    } by {
                        assert(decomposed@[j].skeleton == skeleton);
                    }
                } else if common_shape(&o, values@) {
                    assert forall|j: int| 0 <= j < decomposed@.len() implies (#[trigger] decomposed@[j]).skeleton
                        == skeleton && decomposed@[j].children_view().len() == arity by {
                        assert(decomposition(o.types()[values@[j].0 as int], o.lists()).0
                            == decomposition(o.types()[values@[0].0 as int], o.lists()).0);
                    }
                }
            }
        }
        if shape {
            let ghost bound = values@[0].0 as nat;
            let ghost c0 = decomposition(o.types()[values@[0].0 as int], o.lists()).1;
            proof {
                crate::merge::lemma_children_below(&o, values@[0].0 as int);
                assert(c0 == children(o.types()[values@[0].0 as int], o.lists()));
                assert(tree_size(&o, values@[0]) == 1 + sizes_below(&o, c0, bound));
                assert(c0.take(0) =~= Seq::<TyId>::empty());
            }
            let mut kids: Vec<TyId> = Vec::new();
            let mut index: usize = 0;
            while index < arity
                invariant
                    o.wf(),
                    stash.wf(),
                    stash.extends(&o),
                    values@.len() > 0,
                    forall|k: int| 0 <= k < values@.len() ==> (#[trigger] values@[k]).0 < o.types().len(),
                    decomposed@.len() == values@.len(),
                    forall|k: int|
                        0 <= k < values@.len() ==> ((#[trigger] decomposed@[k]).skeleton, decomposed@[k].children_view())
                            == decomposition(o.types()[values@[k].0 as int], o.lists()),
                    common_shape(&o, values@),
                    bound == values@[0].0,
                    c0 == decomposition(o.types()[values@[0].0 as int], o.lists()).1,
                    c0 == children(o.types()[values@[0].0 as int], o.lists()),
                    forall|k: int| 0 <= k < c0.len() ==> (#[trigger] c0[k]).0 < bound,
                    arity == c0.len(),
                    index <= arity,
                    kids@.len() == index,
                    forall|k: int| 0 <= k < kids@.len() ==> (#[trigger] kids@[k]).0 < stash.types().len(),
                    tree_size(&o, values@[0]) == 1 + sizes_below(&o, c0, bound),
                    first <= self.next_param,
                    self.next_param <= first + sizes_below(&o, c0.take(index as int), bound),
                    stash.types().len() <= o.types().len() + sizes_below(&o, c0.take(index as int), bound),
                    stash.lists().len() <= o.lists().len() + 2 * sizes_below(&o, c0.take(index as int), bound),
                    first + tree_size(&o, values@[0]) <= u32::MAX,
                    o.types().len() + tree_size(&o, values@[0]) <= u32::MAX,
                    o.lists().len() + 2 * tree_size(&o, values@[0]) <= u32::MAX,
                    self.key_universe == old(self).key_universe,
                    first == old(self).next_param,
                    self.witnesses@ == old(self).witnesses@ + fresh_witnesses(first, self.next_param, self.key_universe),
                    columns_generalize(stash, values@, kids@, index as nat, bound, first as nat),
                    self.next_param == first + columns_divergences(&o, values@, index as nat, bound),
                decreases arity - index,
            {
                let mut column_values: Vec<TyId> = Vec::new();
                let mut k: usize = 0;
                while k < decomposed.len()
                    invariant
                        decomposed@.len() == values@.len(),
                        forall|j: int|
                            0 <= j < values@.len() ==> ((#[trigger] decomposed@[j]).skeleton, decomposed@[j].children_view())
                                == decomposition(o.types()[values@[j].0 as int], o.lists()),
                        common_shape(&o, values@),
                        arity == decomposition(o.types()[values@[0].0 as int], o.lists()).1.len(),
                        index < arity,
                        k <= decomposed@.len(),
                        column_values@ == column(&o, values@, index as int).take(k as int),
                    decreases decomposed@.len() - k,
                {
                    proof {
                        assert(decomposition(o.types()[values@[k as int].0 as int], o.lists()).1.len() == arity);
                    }
                    let child = decomposed[k].child_ids()[index];
                    column_values.push(child);
                    proof {
                        assert(column(&o, values@, index as int).take(k + 1) =~= column(&o, values@, index as int).take(
                            k as int,
                        ).push(child));
                    }
                    k += 1;
                }
                let ghost col = column(&o, values@, index as int);
                proof {
                    assert(col.take(values@.len() as int) =~= col);
                    lemma_column_below(&o, values@, index as int);
                    lemma_column_extends(&o, stash, values@, index as int);
                    assert(col[0] == c0[index as int]);
                    lemma_tree_size_extends(&o, stash, col[0]);
                    let t = c0.take(index + 1);
                    assert(t.drop_last() =~= c0.take(index as int));
                    assert(t.last() == c0[index as int]);
                    lemma_sizes_prefix(&o, c0, bound, index + 1);
                    assert forall|j: int| 0 <= j < column_values@.len() implies (#[trigger] column_values@[j]).0
                        < stash.types().len() by {
                        assert(col[j].0 < values@[j].0);
                    }
                }
                let ghost before = *stash;
                let ghost next_before = self.next_param;
                let ghost kids_before = kids@;
                let merged = self.merge_types(stash, column_values.as_slice());
                kids.push(merged.0);
                proof {
                    lemma_common_shape_extends(&o, &before, values@);
                    lemma_columns_extends(&before, stash, values@, kids_before, index as nat, bound, first as nat);
                    lemma_columns_extends(&o, &before, values@, kids_before, index as nat, bound, first as nat);
                    lemma_columns_extends(&o, stash, values@, kids_before, index as nat, bound, first as nat);
                    assert(kids_before.take(index as int) =~= kids@.take(index as int));
                    lemma_columns_prefix(stash, values@, kids_before, kids@, index as nat, bound, first as nat);
                    lemma_column_extends(&o, stash, values@, index as int);
                    lemma_column_extends(&o, &before, values@, index as int);
                    lemma_generalizes_extends(&o, &before, col, merged.0, next_before as nat);
                    assert(kids@[index as int] == merged.0);
                    assert(col[0].0 < bound);
                    assert(columns_divergences(&o, values@, (index + 1) as nat, bound) == columns_divergences(
                        &o,
                        values@,
                        index as nat,
                        bound,
                    ) + divergences(&o, col));
                    assert(columns_generalize(stash, values@, kids@, (index + 1) as nat, bound, first as nat));
                    lemma_fresh_join(first, next_before, self.next_param, self.key_universe);
                    assert(self.witnesses@ =~= old(self).witnesses@ + fresh_witnesses(
                        first,
                        self.next_param,
                        self.key_universe,
                    ));
                }
                index += 1;
            }
            proof {
                assert(c0.take(arity as int) =~= c0);
                crate::skeleton::lemma_decomposition_fixpoint(&o, values@[0].0 as int);
                crate::skeleton::lemma_same_shape(skeleton, c0, kids@);
            }
            let ghost before = *stash;
            let merged = recompose(stash, skeleton, kids.as_slice());
            proof {
                lemma_common_shape_extends(&o, &before, values@);
                lemma_columns_extends(&before, stash, values@, kids@, arity as nat, bound, first as nat);
                lemma_common_shape_extends(&o, stash, values@);
                assert(divergences(&o, values@) == columns_divergences(&o, values@, arity as nat, bound));
            }
            return (merged, false);
        }
        let parameter = AlphaEquivParam::new(GenericParamKind::Type, self.next_param);
        self.next_param = self.next_param + 1;
        self.witnesses.push(
            ResponseVarInfo {
                param: parameter,
                kind: GenericParamKind::Type,
                relative_universe: self.key_universe,
            },
        );
        let ty = Ty::Param(GenericParam::AlphaEquiv(parameter));
        proof {
            assert(crate::ty::refs_below(ty, stash.lists(), stash.types().len()));
        }
        let merged = stash.intern(ty);
        proof {
            assert(stash.types()[merged.0 as int] == witness_ty(first));
            assert(self.witnesses@ =~= old(self).witnesses@ + fresh_witnesses(
                first,
                self.next_param,
                self.key_universe,
            ));
            lemma_common_shape_extends(&o, stash, values@);
        }
        (merged, true)
    }
}

} // verus!
