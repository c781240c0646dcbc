//! Structural unification over the versioned egraph, run inside short-lived
//! child versions that are either committed as a whole or discarded.
use vstd::prelude::*;

use crate::bound::Bound;
use crate::egraph::{strictly_sorted, CommitEffects, VersionedEGraph};
use crate::generic_param::GenericParam;
use crate::skeleton::{children, children_get, children_len, decompose, decomposition};
use crate::ty::{Const, ErrorReported, InferVarIndex, Lifetime, Ty, TyId, TyStore};
use crate::version::{Universe, Version};

verus! {

/// Why a unification failed.
#[derive(Copy, Clone, Debug, PartialEq, Eq, Structural)]
pub enum UnifyError {
    Mismatch { left: TyId, right: TyId },
    OccursCheck { variable: InferVarIndex, in_ty: TyId },
    UniverseLeak { variable: InferVarIndex, ceiling: Universe },
    Reported(ErrorReported),
}

/// Every inference variable named in the store is allocated and owned by
/// `version` or one of its ancestors.
pub open spec fn vars_visible(egraph: &VersionedEGraph, stash: &TyStore, version: Version) -> bool {
    forall|i: int|
        0 <= i < stash.types().len() && (#[trigger] stash.types()[i]) is InferVar ==> {
            let v = stash.types()[i]->InferVar_0;
            &&& v.0 < egraph.tree().vars().len()
            &&& egraph.tree().ancestor(egraph.tree().vars()[v.0 as int].owner, version)
        }
}

/// What a unification step inside `version` needs: a well-formed egraph,
/// a leaf version, a well-formed store whose identities cover everything the
/// egraph records, and visible variables.
pub open spec fn probe_ready(egraph: &VersionedEGraph, stash: &TyStore, version: Version) -> bool {
    &&& egraph.wf()
    &&& egraph.mutable(version)
    &&& stash.wf()
    &&& egraph.ids_below(stash.types().len())
    &&& vars_visible(egraph, stash, version)
}

/// `new` only changes the state of `version`, and keeps every other live
/// version's classes.
pub open spec fn probe_frame(new: &VersionedEGraph, old: &VersionedEGraph, version: Version) -> bool {
    &&& new.tree() == old.tree()
    &&& new.placeholders() == old.placeholders()
    &&& new.others_unchanged(old, version)
    &&& forall|v: Version, x: TyId|
        #![trigger new.find_spec(v, x)]
        old.tree().live(v) && v != version ==> new.find_spec(v, x) == old.find_spec(v, x)
}

/// Every class of `old` in `version` lies within one class of `new`: the
/// representative in `new` is determined by the representative in `old`.
pub open spec fn coarser(new: &VersionedEGraph, old: &VersionedEGraph, version: Version) -> bool {
    forall|y: TyId|
        #![trigger old.find_spec(version, y)]
        new.find_spec(version, y) == new.find_spec(version, old.find_spec(version, y))
}

/// `needle` is reached from `ty` within `fuel` steps, where a step goes from
/// a type's representative to the bound of a variable or to a child.
pub open spec fn reaches_var(
    egraph: &VersionedEGraph,
    stash: &TyStore,
    version: Version,
    needle: InferVarIndex,
    ty: TyId,
    fuel: nat,
) -> bool
    decreases fuel, 0nat,
{
    let root = egraph.find_spec(version, ty);
    match stash.types()[root.0 as int] {
        Ty::InferVar(index) => index == needle || (fuel > 0 && match egraph.bound_spec(
            version,
            root,
        ).spec_ty() {
            Some(b) => reaches_var(egraph, stash, version, needle, b, (fuel - 1) as nat),
            None => false,
        }),
        t => fuel > 0 && any_reaches_var(
            egraph,
            stash,
            version,
            needle,
            children(t, stash.lists()),
            (fuel - 1) as nat,
        ),
    }
}

/// `needle` is reached from one of `kids` within `fuel` steps.
pub open spec fn any_reaches_var(
    egraph: &VersionedEGraph,
    stash: &TyStore,
    version: Version,
    needle: InferVarIndex,
    kids: Seq<TyId>,
    fuel: nat,
) -> bool
    decreases fuel, kids.len() + 1,
{
    if kids.len() == 0 {
        false
    } else {
        reaches_var(egraph, stash, version, needle, kids.last(), fuel) || any_reaches_var(
            egraph,
            stash,
            version,
            needle,
            kids.drop_last(),
            fuel,
        )
    }
}

/// One of `kids` reaching `needle` makes the list reach it.
proof fn lemma_any_reaches(
    egraph: &VersionedEGraph,
    stash: &TyStore,
    version: Version,
    needle: InferVarIndex,
    kids: Seq<TyId>,
    k: int,
    fuel: nat,
)
    requires
        0 <= k < kids.len(),
        reaches_var(egraph, stash, version, needle, kids[k], fuel),
    ensures
        any_reaches_var(egraph, stash, version, needle, kids, fuel),
    decreases kids.len(),
{
    if k < kids.len() - 1 {
        assert(kids.drop_last()[k] == kids[k]);
        lemma_any_reaches(egraph, stash, version, needle, kids.drop_last(), k, fuel);
    }
}

/// `needle` occurs in `ty` as seen from `version`.
pub open spec fn occurs(
    egraph: &VersionedEGraph,
    stash: &TyStore,
    version: Version,
    needle: InferVarIndex,
    ty: TyId,
) -> bool {
    exists|fuel: nat| #[trigger] reaches_var(egraph, stash, version, needle, ty, fuel)
}

/// A change that keeps every representative of `version` is coarser.
pub(crate) proof fn lemma_coarser_same(new: &VersionedEGraph, old: &VersionedEGraph, version: Version)
    requires
        old.wf(),
        old.tree().live(version),
        forall|y: TyId| #[trigger] new.find_spec(version, y) == old.find_spec(version, y),
    ensures
        coarser(new, old, version),
{
    assert forall|y: TyId| #![trigger old.find_spec(version, y)] new.find_spec(version, y)
        == new.find_spec(version, old.find_spec(version, y)) by {
        old.lemma_rank_ok(version);
        old.lemma_find_root(version, y);
        assert(new.find_spec(version, old.find_spec(version, y)) == old.find_spec(
            version,
            old.find_spec(version, y),
        ));
    }
}

/// Coarsening composes.
pub(crate) proof fn lemma_coarser_trans(
    new: &VersionedEGraph,
    mid: &VersionedEGraph,
    old: &VersionedEGraph,
    version: Version,
)
    requires
        coarser(new, mid, version),
        coarser(mid, old, version),
    ensures
        coarser(new, old, version),
{
    assert forall|y: TyId| #![trigger old.find_spec(version, y)] new.find_spec(version, y)
        == new.find_spec(version, old.find_spec(version, y)) by {
        let z = old.find_spec(version, y);
        assert(mid.find_spec(version, y) == mid.find_spec(version, z));
        assert(new.find_spec(version, y) == new.find_spec(version, mid.find_spec(version, y)));
        assert(new.find_spec(version, z) == new.find_spec(version, mid.find_spec(version, z)));
    }
}

/// Merging the class of `child` into the root `parent` is coarser.
pub(crate) proof fn lemma_coarser_merge(
    new: &VersionedEGraph,
    old: &VersionedEGraph,
    version: Version,
    child: TyId,
    parent: TyId,
)
    requires
        old.wf(),
        old.tree().live(version),
        forall|y: TyId| #[trigger]
            new.find_spec(version, y) == if old.find_spec(version, y) == child {
                parent
            } else {
                old.find_spec(version, y)
            },
    ensures
        coarser(new, old, version),
{
    assert forall|y: TyId| #![trigger old.find_spec(version, y)] new.find_spec(version, y)
        == new.find_spec(version, old.find_spec(version, y)) by {
        old.lemma_rank_ok(version);
        old.lemma_find_root(version, y);
        let z = old.find_spec(version, y);
        assert(old.find_spec(version, z) == z);
        assert(new.find_spec(version, z) == if z == child {
            parent
        } else {
            z
        });
    }
}

/// The frame of one step composes with the frame of the next.
proof fn lemma_frame_trans(
    new: &VersionedEGraph,
    mid: &VersionedEGraph,
    old: &VersionedEGraph,
    version: Version,
)
    requires
        probe_frame(new, mid, version),
        probe_frame(mid, old, version),
    ensures
        probe_frame(new, old, version),
{
    new.lemma_others_trans(mid, old, version);
    assert forall|v: Version, x: TyId|
        #![trigger new.find_spec(v, x)]
        old.tree().live(v) && v != version implies new.find_spec(v, x) == old.find_spec(v, x) by {
        assert(mid.tree().live(v));
        assert(mid.find_spec(v, x) == old.find_spec(v, x));
    }
}

/// The step that changes nothing.
proof fn lemma_frame_refl(egraph: &VersionedEGraph, version: Version)
    ensures
        probe_frame(egraph, egraph, version),
        coarser(egraph, egraph, version) || !egraph.wf() || !egraph.tree().live(version),
{
    assert forall|w: Version|
        #![trigger egraph.state(w)]
        egraph.tree().is_known(w) && w != version implies {
        &&& egraph.state(w) == egraph.state(w)
        &&& egraph.rank(w) == egraph.rank(w)
        &&& egraph.rank_bound(w) == egraph.rank_bound(w)
    } by {}
    if egraph.wf() && egraph.tree().live(version) {
        lemma_coarser_same(egraph, egraph, version);
    }
}

/// Variables stay visible while the tree is unchanged.
proof fn lemma_visible_frame(
    new: &VersionedEGraph,
    old: &VersionedEGraph,
    stash: &TyStore,
    version: Version,
)
    requires
        vars_visible(old, stash, version),
        new.tree() == old.tree(),
    ensures
        vars_visible(new, stash, version),
{
}

/// Every step that `occurs` takes from the representative `x` leads to a
/// type whose representative is in `s`, and `x` is not the variable
/// `needle`.
pub open spec fn closed_at(
    egraph: &VersionedEGraph,
    stash: &TyStore,
    version: Version,
    needle: InferVarIndex,
    x: TyId,
    s: Seq<TyId>,
) -> bool {
    match stash.types()[x.0 as int] {
        Ty::InferVar(index) => index != needle && match egraph.bound_spec(version, x).spec_ty() {
            Some(b) => s.contains(egraph.find_spec(version, b)),
            None => true,
        },
        t => forall|k: int|
            0 <= k < children(t, stash.lists()).len() ==> s.contains(
                egraph.find_spec(version, #[trigger] children(t, stash.lists())[k]),
            ),
    }
}

/// Every member of `s` is closed in `s`.
pub open spec fn all_closed(
    egraph: &VersionedEGraph,
    stash: &TyStore,
    version: Version,
    needle: InferVarIndex,
    s: Seq<TyId>,
) -> bool {
    forall|k: int| 0 <= k < s.len() ==> closed_at(egraph, stash, version, needle, #[trigger] s[k], s)
}

/// From a type whose representative lies in a closed set, `needle` is
/// never reached.
proof fn lemma_closed_unreached(
    egraph: &VersionedEGraph,
    stash: &TyStore,
    version: Version,
    needle: InferVarIndex,
    s: Seq<TyId>,
    ty: TyId,
    fuel: nat,
)
    requires
        all_closed(egraph, stash, version, needle, s),
        s.contains(egraph.find_spec(version, ty)),
    ensures
        !reaches_var(egraph, stash, version, needle, ty, fuel),
    decreases fuel, 0nat,
{
    let root = egraph.find_spec(version, ty);
    let k = choose|k: int| 0 <= k < s.len() && s[k] == root;
    assert(closed_at(egraph, stash, version, needle, s[k], s));
    match stash.types()[root.0 as int] {
        Ty::InferVar(index) => {
            if fuel > 0 {
                match egraph.bound_spec(version, root).spec_ty() {
                    Some(b) => {
                        lemma_closed_unreached(egraph, stash, version, needle, s, b, (fuel - 1) as nat);
                    },
                    None => {},
                }
            }
        },
        t => {
            if fuel > 0 {
                lemma_closed_unreached_all(
                    egraph,
                    stash,
                    version,
                    needle,
                    s,
                    children(t, stash.lists()),
                    (fuel - 1) as nat,
                );
            }
        },
    }
}

proof fn lemma_closed_unreached_all(
    egraph: &VersionedEGraph,
    stash: &TyStore,
    version: Version,
    needle: InferVarIndex,
    s: Seq<TyId>,
    kids: Seq<TyId>,
    fuel: nat,
)
    requires
        all_closed(egraph, stash, version, needle, s),
        forall|k: int| 0 <= k < kids.len() ==> s.contains(egraph.find_spec(version, #[trigger] kids[k])),
    ensures
        !any_reaches_var(egraph, stash, version, needle, kids, fuel),
    decreases fuel, kids.len() + 1,
{
    if kids.len() > 0 {
        assert(s.contains(egraph.find_spec(version, kids[kids.len() - 1])));
        lemma_closed_unreached(egraph, stash, version, needle, s, kids.last(), fuel);
        assert forall|k: int| 0 <= k < kids.drop_last().len() implies s.contains(
            egraph.find_spec(version, #[trigger] kids.drop_last()[k]),
        ) by {
            assert(kids.drop_last()[k] == kids[k]);
        }
        lemma_closed_unreached_all(egraph, stash, version, needle, s, kids.drop_last(), fuel);
    }
}

/// Closure in a set carries over to a set that extends it.
proof fn lemma_closed_grow(
    egraph: &VersionedEGraph,
    stash: &TyStore,
    version: Version,
    needle: InferVarIndex,
    x: TyId,
    s: Seq<TyId>,
    bigger: Seq<TyId>,
)
    requires
        closed_at(egraph, stash, version, needle, x, s),
        s.len() <= bigger.len(),
        bigger.subrange(0, s.len() as int) == s,
    ensures
        closed_at(egraph, stash, version, needle, x, bigger),
{
    assert forall|y: TyId| s.contains(y) implies bigger.contains(y) by {
        let k = choose|k: int| 0 <= k < s.len() && s[k] == y;
        assert(bigger[k] == bigger.subrange(0, s.len() as int)[k]);
    }
}

/// The prefix relation between visited sets composes.
proof fn lemma_prefix_trans(a: Seq<TyId>, b: Seq<TyId>, c: Seq<TyId>)
    requires
        a.len() <= b.len(),
        b.subrange(0, a.len() as int) == a,
        b.len() <= c.len(),
        c.subrange(0, b.len() as int) == b,
    ensures
        c.subrange(0, a.len() as int) == a,
{
    assert(c.subrange(0, a.len() as int) =~= c.subrange(0, b.len() as int).subrange(0, a.len() as int));
}

/// Report whether `needle` occurs in `ty`, looking through representatives
/// and variable bounds. Types already in `visited` are not explored again;
/// when the answer is no, every representative the search added to
/// `visited` leads only to types represented in `visited`, so that a search
/// started with nothing visited answers no only where `needle` does not
/// occur.
fn occurs_in(
    egraph: &VersionedEGraph,
    stash: &TyStore,
    version: Version,
    needle: InferVarIndex,
    ty: TyId,
    visited: &mut Vec<TyId>,
) -> (found: bool)
    requires
        egraph.wf(),
        egraph.tree().live(version),
        stash.wf(),
        egraph.ids_below(stash.types().len()),
        ty.0 < stash.types().len(),
        old(visited)@.no_duplicates(),
        forall|k: int| 0 <= k < old(visited)@.len() ==> (#[trigger] old(visited)@[k]).0 < stash.types().len(),
    ensures
        final(visited)@.no_duplicates(),
        forall|k: int| 0 <= k < final(visited)@.len() ==> (#[trigger] final(visited)@[k]).0 < stash.types().len(),
        old(visited)@.len() <= final(visited)@.len(),
        final(visited)@.subrange(0, old(visited)@.len() as int) == old(visited)@,
        found ==> occurs(egraph, stash, version, needle, ty),
        !found ==> final(visited)@.contains(egraph.find_spec(version, ty)),
        !found ==> forall|k: int|
            old(visited)@.len() <= k < final(visited)@.len() ==> closed_at(
                egraph,
                stash,
                version,
                needle,
                #[trigger] final(visited)@[k],
                final(visited)@,
            ),
        !found && old(visited)@.len() == 0 ==> !occurs(egraph, stash, version, needle, ty),
    decreases stash.types().len() - old(visited)@.len(),
{
    let n: Ghost<nat> = Ghost(stash.types().len());
    let root = egraph.find(version, ty);
    proof {
        egraph.lemma_find_below(version, ty, n@);
        crate::ty::lemma_distinct_ids_bounded(visited@, n@);
        assert(visited@.subrange(0, visited@.len() as int) =~= visited@);
    }
    if contains_id(visited, root) {
        proof {
            if visited@.len() == 0 {
                assert(false);
            }
        }
        return false;
    }
    let ghost prev = visited@;
    visited.push(root);
    proof {
        assert forall|a: int, b: int|
            0 <= a < visited@.len() && 0 <= b < visited@.len() && a != b implies visited@[a] != visited@[b] by {
            if a == prev.len() {
                assert(prev[b] != root);
            } else if b == prev.len() {
                assert(prev[a] != root);
            }
        }
        crate::ty::lemma_distinct_ids_bounded(visited@, n@);
        assert(visited@.subrange(0, prev.len() as int) =~= prev);
        assert(visited@[prev.len() as int] == root);
    }
    match stash.get(root) {
        Ty::InferVar(index) => {
            if index == needle {
                proof {
                    assert(reaches_var(egraph, stash, version, needle, ty, 0));
                }
                return true;
            }
            match egraph.get_bound(version, root).ty() {
                Some(bound) => {
                    proof {
                        egraph.lemma_bound_below(version, root, n@);
                    }
                    let ghost pushed = visited@;
                    let found = occurs_in(egraph, stash, version, needle, bound, visited);
                    proof {
                        lemma_prefix_trans(prev, pushed, visited@);
                        if found {
                            let f = choose|f: nat| #[trigger] reaches_var(egraph, stash, version, needle, bound, f);
                            assert(reaches_var(egraph, stash, version, needle, ty, f + 1));
                        } else {
                            assert(visited@[prev.len() as int] == pushed[prev.len() as int]);
                            assert(visited@.contains(root));
                            assert(closed_at(egraph, stash, version, needle, root, visited@));
                            if prev.len() == 0 {
                                assert(all_closed(egraph, stash, version, needle, visited@));
                                assert forall|f: nat| !#[trigger] reaches_var(egraph, stash, version, needle, ty, f) by {
                                    lemma_closed_unreached(egraph, stash, version, needle, visited@, ty, f);
                                }
                            }
                        }
                    }
                    found
                },
                None => {
                    proof {
                        assert(closed_at(egraph, stash, version, needle, root, visited@));
                        if prev.len() == 0 {
                            assert(all_closed(egraph, stash, version, needle, visited@));
                            assert forall|f: nat| !#[trigger] reaches_var(egraph, stash, version, needle, ty, f) by {
                                lemma_closed_unreached(egraph, stash, version, needle, visited@, ty, f);
                            }
                        }
                    }
                    false
                },
            }
        },
        _ => {
            let decomposed = decompose(stash, root);
            let ghost kids = decomposed.children_view();
            let ghost entry = visited@;
            let ghost entry_len = visited@.len();
            let mut k: usize = 0;
            while k < children_len(&decomposed.children)
                invariant
                    k <= kids.len(),
                    decomposed.children_view() == kids,
                    kids == children(stash.types()[root.0 as int], stash.lists()),
                    forall|q: int| 0 <= q < kids.len() ==> (#[trigger] kids[q]).0 < root.0,
                    root.0 < n@,
                    root == egraph.find_spec(version, ty),
                    !(stash.types()[root.0 as int] is InferVar),
                    n@ == stash.types().len(),
                    egraph.wf(),
                    egraph.tree().live(version),
                    stash.wf(),
                    egraph.ids_below(stash.types().len()),
                    visited@.no_duplicates(),
                    forall|q: int| 0 <= q < visited@.len() ==> (#[trigger] visited@[q]).0 < n@,
                    entry_len <= visited@.len(),
                    prev.len() < entry_len,
                    old(visited)@ == prev,
                    entry == prev.push(root),
                    entry_len == entry.len(),
                    visited@.subrange(0, entry_len as int) == entry,
                    forall|q: int|
                        0 <= q < k ==> visited@.contains(egraph.find_spec(version, #[trigger] kids[q])),
                    forall|q: int|
                        entry_len <= q < visited@.len() ==> closed_at(
                            egraph,
                            stash,
                            version,
                            needle,
                            #[trigger] visited@[q],
                            visited@,
                        ),
                decreases kids.len() - k,
            {
                let child = children_get(&decomposed.children, k);
                proof {
                    crate::ty::lemma_distinct_ids_bounded(visited@, n@);
                }
                let ghost before = visited@;
                let found = occurs_in(egraph, stash, version, needle, child, visited);
                proof {
                    lemma_prefix_trans(entry, before, visited@);
                }
                if found {
                    proof {
                        let f = choose|f: nat| #[trigger] reaches_var(egraph, stash, version, needle, child, f);
                        assert(kids[k as int] == child);
                        let g = (f + 1) as nat;
                        let t = stash.types()[root.0 as int];
                        lemma_any_reaches(egraph, stash, version, needle, children(t, stash.lists()), k as int, f);
                        assert(egraph.find_spec(version, ty) == root);
                        assert(reaches_var(egraph, stash, version, needle, ty, g));
                        assert(prev =~= visited@.subrange(0, entry_len as int).subrange(0, prev.len() as int));
                        assert(visited@.subrange(0, prev.len() as int) =~= visited@.subrange(
                            0,
                            entry_len as int,
                        ).subrange(0, prev.len() as int));
                    }
                    return true;
                }
                proof {
                    assert forall|q: int|
                        0 <= q < k + 1 implies visited@.contains(egraph.find_spec(version, #[trigger] kids[q])) by {
                        if q < k {
                            let w = choose|w: int| 0 <= w < before.len() && before[w] == egraph.find_spec(version, kids[q]);
                            assert(visited@[w] == visited@.subrange(0, before.len() as int)[w]);
                        } else {
                            assert(kids[q] == child);
                        }
                    }
                    assert forall|q: int|
                        entry_len <= q < visited@.len() implies closed_at(
                            egraph,
                            stash,
                            version,
                            needle,
                            #[trigger] visited@[q],
                            visited@,
                        ) by {
                        if q < before.len() {
                            assert(visited@[q] == visited@.subrange(0, before.len() as int)[q]);
                            lemma_closed_grow(egraph, stash, version, needle, before[q], before, visited@);
                        }
                    }
                }
                k += 1;
            }
            proof {
                assert(visited@[prev.len() as int] == entry[prev.len() as int]);
                assert(visited@.contains(root));
                assert(closed_at(egraph, stash, version, needle, root, visited@)) by {
                    let t = stash.types()[root.0 as int];
                    assert forall|q: int| 0 <= q < children(t, stash.lists()).len() implies visited@.contains(
                        egraph.find_spec(version, #[trigger] children(t, stash.lists())[q]),
                    ) by {
                        assert(kids[q] == children(t, stash.lists())[q]);
                    }
                }
                assert(visited@.subrange(0, prev.len() as int) =~= visited@.subrange(
                    0,
                    entry_len as int,
                ).subrange(0, prev.len() as int));
                assert forall|q: int|
                    prev.len() <= q < visited@.len() implies closed_at(
                        egraph,
                        stash,
                        version,
                        needle,
                        #[trigger] visited@[q],
                        visited@,
                    ) by {
                    if q == prev.len() {
                        assert(visited@[q] == root);
                    }
                }
                if prev.len() == 0 {
                    assert(all_closed(egraph, stash, version, needle, visited@));
                    assert forall|f: nat| !#[trigger] reaches_var(egraph, stash, version, needle, ty, f) by {
                        lemma_closed_unreached(egraph, stash, version, needle, visited@, ty, f);
                    }
                }
            }
            false
        },
    }
}

/// The universe of a placeholder exceeds `ceiling`.
fn leaks(egraph: &VersionedEGraph, param: GenericParam, ceiling: Universe) -> (leak: bool)
    ensures
        leak == (egraph.placeholder_spec(param).0 > ceiling.0),
{
    egraph.placeholder_universe(param).0 > ceiling.0
}

/// The placeholder that the type `t` names directly, if any, lies in a
/// universe no higher than `ceiling`.
pub open spec fn placeholder_within(egraph: &VersionedEGraph, t: Ty, ceiling: Universe) -> bool {
    match t {
        Ty::Param(p) => egraph.placeholder_spec(p).0 <= ceiling.0,
        Ty::Ref(_, _, Lifetime::Param(p)) => egraph.placeholder_spec(p).0 <= ceiling.0,
        Ty::Array(_, Const::Param(p)) => egraph.placeholder_spec(p).0 <= ceiling.0,
        _ => true,
    }
}

/// What the representative `x` itself must satisfy to be accessible from
/// `ceiling`: its placeholder lies within `ceiling`, and if it is a variable,
/// that variable's universe is no higher than `ceiling` and the
/// representative of its bound is in `s`.
pub open spec fn accessible_here(
    egraph: &VersionedEGraph,
    stash: &TyStore,
    version: Version,
    ceiling: Universe,
    x: TyId,
    s: Seq<TyId>,
) -> bool {
    let t = stash.types()[x.0 as int];
    &&& placeholder_within(egraph, t, ceiling)
    &&& match t {
        Ty::InferVar(index) => egraph.universe_spec(version, index).0 <= ceiling.0 && match egraph.bound_spec(
            version,
            x,
        ).spec_ty() {
            Some(b) => s.contains(egraph.find_spec(version, b)),
            None => true,
        },
        _ => true,
    }
}

/// The representative `x` is accessible from `ceiling`, and the
/// representatives of its children are in `s`.
pub open spec fn accessible_at(
    egraph: &VersionedEGraph,
    stash: &TyStore,
    version: Version,
    ceiling: Universe,
    x: TyId,
    s: Seq<TyId>,
) -> bool {
    let t = stash.types()[x.0 as int];
    &&& accessible_here(egraph, stash, version, ceiling, x, s)
    &&& forall|k: int|
        0 <= k < children(t, stash.lists()).len() ==> s.contains(
            egraph.find_spec(version, #[trigger] children(t, stash.lists())[k]),
        )
}

/// Every type reached from `ty` within `fuel` steps (the steps of
/// `reaches_var`) is accessible from `ceiling`.
pub open spec fn accessible_within(
    egraph: &VersionedEGraph,
    stash: &TyStore,
    version: Version,
    ceiling: Universe,
    ty: TyId,
    fuel: nat,
) -> bool
    decreases fuel, 0nat,
{
    let root = egraph.find_spec(version, ty);
    let t = stash.types()[root.0 as int];
    &&& placeholder_within(egraph, t, ceiling)
    &&& match t {
        Ty::InferVar(index) => egraph.universe_spec(version, index).0 <= ceiling.0 && (fuel > 0
            ==> match egraph.bound_spec(version, root).spec_ty() {
            Some(b) => accessible_within(egraph, stash, version, ceiling, b, (fuel - 1) as nat),
            None => true,
        }),
        _ => fuel > 0 ==> all_accessible_within(
            egraph,
            stash,
            version,
            ceiling,
            children(t, stash.lists()),
            (fuel - 1) as nat,
        ),
    }
}

/// Every type reached from one of `kids` within `fuel` steps is accessible
/// from `ceiling`.
pub open spec fn all_accessible_within(
    egraph: &VersionedEGraph,
    stash: &TyStore,
    version: Version,
    ceiling: Universe,
    kids: Seq<TyId>,
    fuel: nat,
) -> bool
    decreases fuel, kids.len() + 1,
{
    kids.len() == 0 || (accessible_within(egraph, stash, version, ceiling, kids.last(), fuel)
        && all_accessible_within(egraph, stash, version, ceiling, kids.drop_last(), fuel))
}

/// From a type represented in a set whose members are all accessible and
/// lead only into the set, everything reachable is accessible.
proof fn lemma_closed_accessible(
    egraph: &VersionedEGraph,
    stash: &TyStore,
    version: Version,
    ceiling: Universe,
    s: Seq<TyId>,
    ty: TyId,
    fuel: nat,
)
    requires
        forall|k: int| 0 <= k < s.len() ==> accessible_at(egraph, stash, version, ceiling, #[trigger] s[k], s),
        s.contains(egraph.find_spec(version, ty)),
    ensures
        accessible_within(egraph, stash, version, ceiling, ty, fuel),
    decreases fuel, 0nat,
{
    let root = egraph.find_spec(version, ty);
    let k = choose|k: int| 0 <= k < s.len() && s[k] == root;
    assert(accessible_at(egraph, stash, version, ceiling, s[k], s));
    match stash.types()[root.0 as int] {
        Ty::InferVar(index) => {
            if fuel > 0 {
                match egraph.bound_spec(version, root).spec_ty() {
                    Some(b) => {
                        lemma_closed_accessible(egraph, stash, version, ceiling, s, b, (fuel - 1) as nat);
                    },
                    None => {},
                }
            }
        },
        t => {
            if fuel > 0 {
                lemma_closed_accessible_all(
                    egraph,
                    stash,
                    version,
                    ceiling,
                    s,
                    children(t, stash.lists()),
                    (fuel - 1) as nat,
                );
            }
        },
    }
}

proof fn lemma_closed_accessible_all(
    egraph: &VersionedEGraph,
    stash: &TyStore,
    version: Version,
    ceiling: Universe,
    s: Seq<TyId>,
    kids: Seq<TyId>,
    fuel: nat,
)
    requires
        forall|k: int| 0 <= k < s.len() ==> accessible_at(egraph, stash, version, ceiling, #[trigger] s[k], s),
        forall|k: int| 0 <= k < kids.len() ==> s.contains(egraph.find_spec(version, #[trigger] kids[k])),
    ensures
        all_accessible_within(egraph, stash, version, ceiling, kids, fuel),
    decreases fuel, kids.len() + 1,
{
    if kids.len() > 0 {
        assert(s.contains(egraph.find_spec(version, kids[kids.len() - 1])));
        lemma_closed_accessible(egraph, stash, version, ceiling, s, kids.last(), fuel);
        assert forall|k: int| 0 <= k < kids.drop_last().len() implies s.contains(
            egraph.find_spec(version, #[trigger] kids.drop_last()[k]),
        ) by {
            assert(kids.drop_last()[k] == kids[k]);
        }
        lemma_closed_accessible_all(egraph, stash, version, ceiling, s, kids.drop_last(), fuel);
    }
}

/// A placeholder above `ceiling` is reached from `ty` within `fuel` steps
/// (the steps of `reaches_var`).
pub open spec fn reaches_leak(
    egraph: &VersionedEGraph,
    stash: &TyStore,
    version: Version,
    ceiling: Universe,
    ty: TyId,
    fuel: nat,
) -> bool
    decreases fuel, 0nat,
{
    let root = egraph.find_spec(version, ty);
    let t = stash.types()[root.0 as int];
    !placeholder_within(egraph, t, ceiling) || (fuel > 0 && match t {
        Ty::InferVar(_) => match egraph.bound_spec(version, root).spec_ty() {
            Some(b) => reaches_leak(egraph, stash, version, ceiling, b, (fuel - 1) as nat),
            None => false,
        },
        _ => any_reaches_leak(
            egraph,
            stash,
            version,
            ceiling,
            children(t, stash.lists()),
            (fuel - 1) as nat,
        ),
    })
}

/// A placeholder above `ceiling` is reached from one of `kids` within
/// `fuel` steps.
pub open spec fn any_reaches_leak(
    egraph: &VersionedEGraph,
    stash: &TyStore,
    version: Version,
    ceiling: Universe,
    kids: Seq<TyId>,
    fuel: nat,
) -> bool
    decreases fuel, kids.len() + 1,
{
    kids.len() > 0 && (reaches_leak(egraph, stash, version, ceiling, kids.last(), fuel) || any_reaches_leak(
        egraph,
        stash,
        version,
        ceiling,
        kids.drop_last(),
        fuel,
    ))
}

/// One of `kids` reaching a leak makes the list reach it.
proof fn lemma_any_reaches_leak(
    egraph: &VersionedEGraph,
    stash: &TyStore,
    version: Version,
    ceiling: Universe,
    kids: Seq<TyId>,
    k: int,
    fuel: nat,
)
    requires
        0 <= k < kids.len(),
        reaches_leak(egraph, stash, version, ceiling, kids[k], fuel),
    ensures
        any_reaches_leak(egraph, stash, version, ceiling, kids, fuel),
    decreases kids.len(),
{
    if k < kids.len() - 1 {
        assert(kids.drop_last()[k] == kids[k]);
        lemma_any_reaches_leak(egraph, stash, version, ceiling, kids.drop_last(), k, fuel);
    }
}

/// Whether a leak is reached depends only on the classes, the bounds and
/// the placeholders.
proof fn lemma_leak_same(
    g1: &VersionedEGraph,
    v1: Version,
    g2: &VersionedEGraph,
    v2: Version,
    stash: &TyStore,
    ceiling: Universe,
    ty: TyId,
    fuel: nat,
)
    requires
        forall|y: TyId| #[trigger] g1.find_spec(v1, y) == g2.find_spec(v2, y),
        forall|y: TyId| #[trigger] g1.bound_spec(v1, y) == g2.bound_spec(v2, y),
        g1.placeholders() == g2.placeholders(),
    ensures
        reaches_leak(g1, stash, v1, ceiling, ty, fuel) == reaches_leak(g2, stash, v2, ceiling, ty, fuel),
    decreases fuel, 0nat,
{
    let root = g1.find_spec(v1, ty);
    assert(g2.find_spec(v2, ty) == root);
    let t = stash.types()[root.0 as int];
    assert(placeholder_within(g1, t, ceiling) == placeholder_within(g2, t, ceiling));
    if fuel > 0 {
        match t {
            Ty::InferVar(_) => {
                assert(g1.bound_spec(v1, root) == g2.bound_spec(v2, root));
                match g1.bound_spec(v1, root).spec_ty() {
                    Some(b) => {
                        lemma_leak_same(g1, v1, g2, v2, stash, ceiling, b, (fuel - 1) as nat);
                    },
                    None => {},
                }
            },
            _ => {
                lemma_leak_same_all(g1, v1, g2, v2, stash, ceiling, children(t, stash.lists()), (fuel - 1) as nat);
            },
        }
    }
}

proof fn lemma_leak_same_all(
    g1: &VersionedEGraph,
    v1: Version,
    g2: &VersionedEGraph,
    v2: Version,
    stash: &TyStore,
    ceiling: Universe,
    kids: Seq<TyId>,
    fuel: nat,
)
    requires
        forall|y: TyId| #[trigger] g1.find_spec(v1, y) == g2.find_spec(v2, y),
        forall|y: TyId| #[trigger] g1.bound_spec(v1, y) == g2.bound_spec(v2, y),
        g1.placeholders() == g2.placeholders(),
    ensures
        any_reaches_leak(g1, stash, v1, ceiling, kids, fuel) == any_reaches_leak(g2, stash, v2, ceiling, kids, fuel),
    decreases fuel, kids.len() + 1,
{
    if kids.len() > 0 {
        lemma_leak_same(g1, v1, g2, v2, stash, ceiling, kids.last(), fuel);
        lemma_leak_same_all(g1, v1, g2, v2, stash, ceiling, kids.drop_last(), fuel);
    }
}

/// Where everything reached is accessible, no leak is reached.
proof fn lemma_accessible_no_leak(
    egraph: &VersionedEGraph,
    stash: &TyStore,
    version: Version,
    ceiling: Universe,
    ty: TyId,
    fuel: nat,
)
    requires
        accessible_within(egraph, stash, version, ceiling, ty, fuel),
    ensures
        !reaches_leak(egraph, stash, version, ceiling, ty, fuel),
    decreases fuel, 0nat,
{
    let root = egraph.find_spec(version, ty);
    let t = stash.types()[root.0 as int];
    if fuel > 0 {
        match t {
            Ty::InferVar(_) => {
                match egraph.bound_spec(version, root).spec_ty() {
                    Some(b) => {
                        lemma_accessible_no_leak(egraph, stash, version, ceiling, b, (fuel - 1) as nat);
                    },
                    None => {},
                }
            },
            _ => {
                lemma_accessible_no_leak_all(egraph, stash, version, ceiling, children(t, stash.lists()), (fuel - 1) as nat);
            },
        }
    }
}

proof fn lemma_accessible_no_leak_all(
    egraph: &VersionedEGraph,
    stash: &TyStore,
    version: Version,
    ceiling: Universe,
    kids: Seq<TyId>,
    fuel: nat,
)
    requires
        all_accessible_within(egraph, stash, version, ceiling, kids, fuel),
    ensures
        !any_reaches_leak(egraph, stash, version, ceiling, kids, fuel),
    decreases fuel, kids.len() + 1,
{
    if kids.len() > 0 {
        lemma_accessible_no_leak(egraph, stash, version, ceiling, kids.last(), fuel);
        lemma_accessible_no_leak_all(egraph, stash, version, ceiling, kids.drop_last(), fuel);
    }
}

/// From `old` to `new`, seen from `version`, no universe rises, every
/// variable whose universe fell is woken, and every variable already woken
/// stays woken.
pub open spec fn wakes_lowered(new: &VersionedEGraph, old: &VersionedEGraph, version: Version) -> bool {
    &&& forall|i: InferVarIndex| #[trigger]
        new.universe_spec(version, i).0 <= old.universe_spec(version, i).0
    &&& forall|i: InferVarIndex|
        new.universe_spec(version, i).0 < old.universe_spec(version, i).0 ==> #[trigger] new.state(
            version,
        ).wakes.contains(i)
    &&& forall|i: InferVarIndex|
        old.state(version).wakes.contains(i) ==> #[trigger] new.state(version).wakes.contains(i)
}

proof fn lemma_wakes_refl(egraph: &VersionedEGraph, version: Version)
    ensures
        wakes_lowered(egraph, egraph, version),
{
}

proof fn lemma_wakes_trans(c: &VersionedEGraph, b: &VersionedEGraph, a: &VersionedEGraph, version: Version)
    requires
        wakes_lowered(c, b, version),
        wakes_lowered(b, a, version),
    ensures
        wakes_lowered(c, a, version),
{
    assert forall|i: InferVarIndex| #[trigger] c.universe_spec(version, i).0 <= a.universe_spec(version, i).0 by {
        assert(c.universe_spec(version, i).0 <= b.universe_spec(version, i).0);
        assert(b.universe_spec(version, i).0 <= a.universe_spec(version, i).0);
    }
    assert forall|i: InferVarIndex|
        c.universe_spec(version, i).0 < a.universe_spec(version, i).0 implies #[trigger] c.state(
        version,
    ).wakes.contains(i) by {
        assert(c.universe_spec(version, i).0 <= b.universe_spec(version, i).0);
        if b.universe_spec(version, i).0 < a.universe_spec(version, i).0 {
            assert(b.state(version).wakes.contains(i));
        }
    }
    assert forall|i: InferVarIndex| a.state(version).wakes.contains(i) implies #[trigger] c.state(
        version,
    ).wakes.contains(i) by {
        assert(b.state(version).wakes.contains(i));
    }
}

/// A step that keeps the lowered universes of `version` and at most adds
/// a wake.
proof fn lemma_wakes_step(new: &VersionedEGraph, old: &VersionedEGraph, version: Version)
    requires
        old.wf(),
        old.tree().live(version),
        new.tree() == old.tree(),
        new.others_unchanged(old, version),
        new.state(version).universe_ceilings == old.state(version).universe_ceilings,
        new.state(version).wakes == old.state(version).wakes || exists|x: InferVarIndex|
            new.state(version).wakes == crate::egraph::set_insert(old.state(version).wakes, x),
    ensures
        wakes_lowered(new, old, version),
{
    new.lemma_universes_kept(old, version);
    if new.state(version).wakes != old.state(version).wakes {
        let x = choose|x: InferVarIndex| new.state(version).wakes == crate::egraph::set_insert(
            old.state(version).wakes,
            x,
        );
        assert forall|i: InferVarIndex| old.state(version).wakes.contains(i) implies #[trigger] new.state(
            version,
        ).wakes.contains(i) by {
            if !old.state(version).wakes.contains(x) {
                let k = choose|k: int| 0 <= k < old.state(version).wakes.len() && old.state(version).wakes[k] == i;
                assert(new.state(version).wakes[k] == i);
            }
        }
    }
}

/// A union keeps the lowered universes and at most wakes the variable
/// whose class it moved.
proof fn lemma_wakes_union(
    new: &VersionedEGraph,
    old: &VersionedEGraph,
    stash: &TyStore,
    version: Version,
    left: TyId,
    right: TyId,
)
    requires
        old.wf(),
        old.tree().live(version),
        new.tree() == old.tree(),
        new.others_unchanged(old, version),
        ({
            let lr = old.find_spec(version, left);
            let rr = old.find_spec(version, right);
            if lr == rr {
                new.state(version) == old.state(version)
            } else {
                let child = crate::egraph::union_child(stash, lr, rr);
                let parent = crate::egraph::union_parent(stash, lr, rr);
                new.state(version) == (crate::egraph::StateView {
                    parents: old.state(version).parents.push((child, parent)),
                    worklist: old.state(version).worklist.push(child),
                    semantic_revision: crate::egraph::next_revision(old.state(version).semantic_revision),
                    wakes: match stash.types()[child.0 as int] {
                        Ty::InferVar(i) => crate::egraph::set_insert(old.state(version).wakes, i),
                        _ => old.state(version).wakes,
                    },
                    ..old.state(version)
                })
            }
        }),
    ensures
        wakes_lowered(new, old, version),
{
    let lr = old.find_spec(version, left);
    let rr = old.find_spec(version, right);
    if lr != rr {
        let child = crate::egraph::union_child(stash, lr, rr);
        match stash.types()[child.0 as int] {
            Ty::InferVar(i) => {
                assert(new.state(version).wakes == crate::egraph::set_insert(old.state(version).wakes, i));
            },
            _ => {},
        }
    }
    lemma_wakes_step(new, old, version);
}

/// Lowering the universe of `index` wakes it.
proof fn lemma_wakes_lower(new: &VersionedEGraph, old: &VersionedEGraph, version: Version, index: InferVarIndex, lowered: bool, ceiling: Universe)
    requires
        lowered == (ceiling.0 < old.universe_spec(version, index).0),
        lowered ==> new.state(version).wakes == crate::egraph::set_insert(old.state(version).wakes, index),
        !lowered ==> new.state(version) == old.state(version),
        new.universe_spec(version, index) == if lowered {
            ceiling
        } else {
            old.universe_spec(version, index)
        },
        forall|i: InferVarIndex|
            i != index ==> #[trigger] new.universe_spec(version, i) == old.universe_spec(version, i),
    ensures
        wakes_lowered(new, old, version),
{
    let w = old.state(version).wakes;
    if lowered {
        assert(crate::egraph::set_insert(w, index).contains(index)) by {
            if !w.contains(index) {
                assert(w.push(index)[w.len() as int] == index);
            }
        }
        assert forall|i: InferVarIndex| w.contains(i) implies #[trigger] new.state(version).wakes.contains(i) by {
            if !w.contains(index) {
                let k = choose|k: int| 0 <= k < w.len() && w[k] == i;
                assert(w.push(index)[k] == i);
            }
        }
    }
}

/// `new` differs from `old` in `version` only by lower variable universes:
/// classes, bounds and placeholders are the same.
pub open spec fn only_lowers(new: &VersionedEGraph, old: &VersionedEGraph, version: Version) -> bool {
    &&& forall|y: TyId| #[trigger] new.find_spec(version, y) == old.find_spec(version, y)
    &&& forall|y: TyId| #[trigger] new.bound_spec(version, y) == old.bound_spec(version, y)
    &&& new.placeholders() == old.placeholders()
    &&& forall|i: InferVarIndex|
        #[trigger] new.universe_spec(version, i).0 <= old.universe_spec(version, i).0
}

/// Lowering universes composes.
proof fn lemma_only_lowers_trans(
    new: &VersionedEGraph,
    mid: &VersionedEGraph,
    old: &VersionedEGraph,
    version: Version,
)
    requires
        only_lowers(new, mid, version),
        only_lowers(mid, old, version),
    ensures
        only_lowers(new, old, version),
{
    assert forall|i: InferVarIndex| #[trigger] new.universe_spec(version, i).0 <= old.universe_spec(
        version,
        i,
    ).0 by {
        assert(mid.universe_spec(version, i).0 <= old.universe_spec(version, i).0);
    }
    assert forall|y: TyId| #[trigger] new.find_spec(version, y) == old.find_spec(version, y) by {
        assert(mid.find_spec(version, y) == old.find_spec(version, y));
    }
    assert forall|y: TyId| #[trigger] new.bound_spec(version, y) == old.bound_spec(version, y) by {
        assert(mid.bound_spec(version, y) == old.bound_spec(version, y));
    }
}

/// Accessibility survives lowering universes and growing the set.
proof fn lemma_accessible_grow(
    new: &VersionedEGraph,
    old: &VersionedEGraph,
    stash: &TyStore,
    version: Version,
    ceiling: Universe,
    x: TyId,
    s: Seq<TyId>,
    bigger: Seq<TyId>,
)
    requires
        only_lowers(new, old, version),
        s.len() <= bigger.len(),
        bigger.subrange(0, s.len() as int) == s,
    ensures
        accessible_here(old, stash, version, ceiling, x, s) ==> accessible_here(
            new,
            stash,
            version,
            ceiling,
            x,
            bigger,
        ),
        accessible_at(old, stash, version, ceiling, x, s) ==> accessible_at(
            new,
            stash,
            version,
            ceiling,
            x,
            bigger,
        ),
{
    assert forall|y: TyId| s.contains(y) implies bigger.contains(y) by {
        let k = choose|k: int| 0 <= k < s.len() && s[k] == y;
        assert(bigger[k] == bigger.subrange(0, s.len() as int)[k]);
    }
    let t = stash.types()[x.0 as int];
    assert(new.bound_spec(version, x) == old.bound_spec(version, x));
    match t {
        Ty::InferVar(index) => {
            assert(new.universe_spec(version, index).0 <= old.universe_spec(version, index).0);
            match old.bound_spec(version, x).spec_ty() {
                Some(b) => {
                    assert(new.find_spec(version, b) == old.find_spec(version, b));
                },
                None => {},
            }
        },
        _ => {},
    }
    if accessible_at(old, stash, version, ceiling, x, s) {
        assert forall|k: int| 0 <= k < children(t, stash.lists()).len() implies bigger.contains(
            new.find_spec(version, #[trigger] children(t, stash.lists())[k]),
        ) by {
            assert(new.find_spec(version, children(t, stash.lists())[k]) == old.find_spec(
                version,
                children(t, stash.lists())[k],
            ));
        }
    }
}

/// Lower the universes of the flexible variables reachable from `ty` to
/// `ceiling`, and reject a rigid placeholder from a universe above it. The
/// caller runs this inside a child version, so everything is discarded if a
/// later check fails. Representatives already in `visited` are not explored
/// again; on success every representative the walk added to `visited` is
/// accessible from `ceiling` and leads only to types represented in
/// `visited`, so that a walk started with nothing visited leaves every type
/// reachable from `ty` accessible.
fn make_accessible(
    egraph: &mut VersionedEGraph,
    stash: &TyStore,
    version: Version,
    ty: TyId,
    outer_variable: InferVarIndex,
    ceiling: Universe,
    visited: &mut Vec<TyId>,
) -> (result: Result<(), UnifyError>)
    requires
        probe_ready(old(egraph), stash, version),
        ty.0 < stash.types().len(),
        old(visited)@.no_duplicates(),
        forall|k: int| 0 <= k < old(visited)@.len() ==> (#[trigger] old(visited)@[k]).0 < stash.types().len(),
    ensures
        probe_ready(final(egraph), stash, version),
        probe_frame(final(egraph), old(egraph), version),
        forall|y: TyId| #[trigger]
            final(egraph).find_spec(version, y) == old(egraph).find_spec(version, y),
        only_lowers(final(egraph), old(egraph), version),
        wakes_lowered(final(egraph), old(egraph), version),
        final(visited)@.no_duplicates(),
        forall|k: int| 0 <= k < final(visited)@.len() ==> (#[trigger] final(visited)@[k]).0 < stash.types().len(),
        old(visited)@.len() <= final(visited)@.len(),
        final(visited)@.subrange(0, old(visited)@.len() as int) == old(visited)@,
        result matches Err(e) ==> e == (UnifyError::UniverseLeak { variable: outer_variable, ceiling })
            && exists|p: GenericParam| #[trigger] final(egraph).placeholder_spec(p).0 > ceiling.0,
        result is Err ==> exists|fuel: nat|
            #[trigger] reaches_leak(final(egraph), stash, version, ceiling, ty, fuel),
        result is Ok ==> final(visited)@.contains(final(egraph).find_spec(version, ty)),
        result is Ok ==> forall|k: int|
            old(visited)@.len() <= k < final(visited)@.len() ==> accessible_at(
                final(egraph),
                stash,
                version,
                ceiling,
                #[trigger] final(visited)@[k],
                final(visited)@,
            ),
        result is Ok && old(visited)@.len() == 0 ==> forall|fuel: nat|
            #[trigger] accessible_within(final(egraph), stash, version, ceiling, ty, fuel),
    decreases stash.types().len() - old(visited)@.len(),
{
    let n: Ghost<nat> = Ghost(stash.types().len());
    let ghost entry = *egraph;
    proof {
        lemma_frame_refl(egraph, version);
        lemma_wakes_refl(egraph, version);
    }
    let root = egraph.find(version, ty);
    proof {
        egraph.lemma_find_below(version, ty, n@);
        crate::ty::lemma_distinct_ids_bounded(visited@, n@);
        assert(visited@.subrange(0, visited@.len() as int) =~= visited@);
    }
    if contains_id(visited, root) {
        return Ok(());
    }
    let ghost prev = visited@;
    visited.push(root);
    proof {
        assert forall|a: int, b: int|
            0 <= a < visited@.len() && 0 <= b < visited@.len() && a != b implies visited@[a] != visited@[b] by {
            if a == prev.len() {
                assert(prev[b] != root);
            } else if b == prev.len() {
                assert(prev[a] != root);
            }
        }
        crate::ty::lemma_distinct_ids_bounded(visited@, n@);
        assert(visited@.subrange(0, prev.len() as int) =~= prev);
        assert(visited@[prev.len() as int] == root);
    }
    match stash.get(root) {
        Ty::Param(param) => {
            if leaks(egraph, param, ceiling) {
                proof {
                    assert(reaches_leak(egraph, stash, version, ceiling, ty, 0));
                }
                return Err(UnifyError::UniverseLeak { variable: outer_variable, ceiling });
            }
        },
        Ty::InferVar(variable) => {
            let ghost before = *egraph;
            let lowered = egraph.lower_universe(version, variable, ceiling);
            proof {
                lemma_wakes_lower(egraph, &before, version, variable, lowered, ceiling);
                lemma_frame_trans(egraph, &before, &entry, version);
                assert(only_lowers(egraph, &before, version)) by {
                    assert forall|i: InferVarIndex| #[trigger] egraph.universe_spec(version, i).0
                        <= before.universe_spec(version, i).0 by {
                        if i != variable {
                            assert(egraph.universe_spec(version, i) == before.universe_spec(version, i));
                        }
                    }
                }
                assert(egraph.universe_spec(version, variable).0 <= ceiling.0);
            }
            match egraph.get_bound(version, root).ty() {
                Some(bound) => {
                    proof {
                        egraph.lemma_bound_below(version, root, n@);
                    }
                    let ghost before_rec = *egraph;
                    let ghost pushed = visited@;
                    match make_accessible(egraph, stash, version, bound, outer_variable, ceiling, visited) {
                        Ok(()) => {},
                        Err(e) => {
                            proof {
                                lemma_frame_trans(egraph, &before_rec, &entry, version);
                                lemma_only_lowers_trans(egraph, &before_rec, &before, version);
                                lemma_wakes_trans(egraph, &before_rec, &before, version);
                                lemma_prefix_trans(prev, pushed, visited@);
                                let f = choose|f: nat| #[trigger] reaches_leak(egraph, stash, version, ceiling, bound, f);
                                assert(egraph.bound_spec(version, root) == before_rec.bound_spec(version, root));
                                assert(egraph.find_spec(version, ty) == root);
                                assert(reaches_leak(egraph, stash, version, ceiling, ty, f + 1));
                            }
                            return Err(e);
                        },
                    }
                    proof {
                        lemma_frame_trans(egraph, &before_rec, &entry, version);
                        lemma_only_lowers_trans(egraph, &before_rec, &before, version);
                        lemma_wakes_trans(egraph, &before_rec, &before, version);
                        lemma_prefix_trans(prev, pushed, visited@);
                        assert(visited@[prev.len() as int] == visited@.subrange(0, pushed.len() as int)[prev.len() as int]);
                        assert(egraph.universe_spec(version, variable).0 <= before_rec.universe_spec(
                            version,
                            variable,
                        ).0);
                        assert(egraph.bound_spec(version, root) == before_rec.bound_spec(version, root));
                    }
                },
                None => {},
            }
            proof {
                assert(accessible_here(egraph, stash, version, ceiling, root, visited@));
            }
        },
        Ty::Ref(_, _, Lifetime::Param(param)) => {
            if leaks(egraph, param, ceiling) {
                proof {
                    assert(reaches_leak(egraph, stash, version, ceiling, ty, 0));
                }
                return Err(UnifyError::UniverseLeak { variable: outer_variable, ceiling });
            }
        },
        Ty::Array(_, Const::Param(param)) => {
            if leaks(egraph, param, ceiling) {
                proof {
                    assert(reaches_leak(egraph, stash, version, ceiling, ty, 0));
                }
                return Err(UnifyError::UniverseLeak { variable: outer_variable, ceiling });
            }
        },
        _ => {},
    }
    proof {
        lemma_only_lowers_trans(egraph, egraph, &entry, version);
        assert(accessible_here(egraph, stash, version, ceiling, root, visited@));
    }
    let decomposed = decompose(stash, root);
    let ghost kids = decomposed.children_view();
    let ghost entry_vis = visited@;
    let ghost entry_len = visited@.len();
    let mut k: usize = 0;
    while k < children_len(&decomposed.children)
        invariant
            k <= kids.len(),
            decomposed.children_view() == kids,
            kids == children(stash.types()[root.0 as int], stash.lists()),
            forall|q: int| 0 <= q < kids.len() ==> (#[trigger] kids[q]).0 < root.0,
            root.0 < n@,
            n@ == stash.types().len(),
            root == entry.find_spec(version, ty),
            probe_ready(egraph, stash, version),
            probe_frame(egraph, &entry, version),
            forall|y: TyId| #[trigger] egraph.find_spec(version, y) == entry.find_spec(version, y),
            only_lowers(egraph, &entry, version),
            wakes_lowered(egraph, &entry, version),
            visited@.no_duplicates(),
            forall|q: int| 0 <= q < visited@.len() ==> (#[trigger] visited@[q]).0 < n@,
            entry_len <= visited@.len(),
            prev.len() < entry_len,
            old(visited)@ == prev,
            entry == *old(egraph),
            prev.len() < entry_vis.len(),
            entry_vis[prev.len() as int] == root,
            entry_vis.subrange(0, prev.len() as int) == prev,
            entry_len == entry_vis.len(),
            visited@.subrange(0, entry_len as int) == entry_vis,
            accessible_here(egraph, stash, version, ceiling, root, visited@),
            forall|q: int|
                0 <= q < k ==> visited@.contains(egraph.find_spec(version, #[trigger] kids[q])),
            forall|q: int|
                prev.len() < q < visited@.len() ==> accessible_at(
                    egraph,
                    stash,
                    version,
                    ceiling,
                    #[trigger] visited@[q],
                    visited@,
                ),
        decreases kids.len() - k,
    {
        let child = children_get(&decomposed.children, k);
        proof {
            crate::ty::lemma_distinct_ids_bounded(visited@, n@);
        }
        let ghost before_rec = *egraph;
        let ghost before = visited@;
        let outcome = make_accessible(egraph, stash, version, child, outer_variable, ceiling, visited);
        proof {
            lemma_frame_trans(egraph, &before_rec, &entry, version);
            lemma_only_lowers_trans(egraph, &before_rec, &entry, version);
            lemma_wakes_trans(egraph, &before_rec, &entry, version);
            lemma_prefix_trans(entry_vis, before, visited@);
            lemma_prefix_trans(prev, entry_vis, visited@);
        }
        match outcome {
            Ok(()) => {},
            Err(e) => {
                proof {
                    let f = choose|f: nat| #[trigger] reaches_leak(egraph, stash, version, ceiling, child, f);
                    assert(kids[k as int] == child);
                    let t = stash.types()[root.0 as int];
                    assert(!(t is InferVar));
                    lemma_any_reaches_leak(egraph, stash, version, ceiling, children(t, stash.lists()), k as int, f);
                    assert(egraph.find_spec(version, ty) == root);
                    assert(reaches_leak(egraph, stash, version, ceiling, ty, f + 1));
                }
                return Err(e);
            },
        }
        proof {
            lemma_accessible_grow(egraph, &before_rec, stash, version, ceiling, root, before, visited@);
            assert forall|q: int|
                0 <= q < k + 1 implies visited@.contains(egraph.find_spec(version, #[trigger] kids[q])) by {
                assert(egraph.find_spec(version, kids[q]) == before_rec.find_spec(version, kids[q]));
                if q < k {
                    let w = choose|w: int| 0 <= w < before.len() && before[w] == before_rec.find_spec(version, kids[q]);
                    assert(visited@[w] == visited@.subrange(0, before.len() as int)[w]);
                } else {
                    assert(kids[q] == child);
                }
            }
            assert forall|q: int|
                prev.len() < q < visited@.len() implies accessible_at(
                    egraph,
                    stash,
                    version,
                    ceiling,
                    #[trigger] visited@[q],
                    visited@,
                ) by {
                if q < before.len() {
                    assert(visited@[q] == visited@.subrange(0, before.len() as int)[q]);
                    lemma_accessible_grow(egraph, &before_rec, stash, version, ceiling, before[q], before, visited@);
                }
            }
        }
        k += 1;
    }
    proof {
        assert(visited@[prev.len() as int] == visited@.subrange(0, entry_len as int)[prev.len() as int]);
        assert(visited@.contains(root));
        assert(root == egraph.find_spec(version, ty));
        assert(accessible_at(egraph, stash, version, ceiling, root, visited@)) by {
            let t = stash.types()[root.0 as int];
            assert forall|q: int| 0 <= q < children(t, stash.lists()).len() implies visited@.contains(
                egraph.find_spec(version, #[trigger] children(t, stash.lists())[q]),
            ) by {
                assert(kids[q] == children(t, stash.lists())[q]);
            }
        }
        lemma_prefix_trans(prev, entry_vis, visited@);
        assert forall|q: int|
            prev.len() <= q < visited@.len() implies accessible_at(
                egraph,
                stash,
                version,
                ceiling,
                #[trigger] visited@[q],
                visited@,
            ) by {
            if q == prev.len() {
                assert(visited@[q] == root);
            }
        }
        if prev.len() == 0 {
            assert forall|fuel: nat| #[trigger]
                accessible_within(egraph, stash, version, ceiling, ty, fuel) by {
                lemma_closed_accessible(egraph, stash, version, ceiling, visited@, ty, fuel);
            }
        }
    }
    Ok(())
}

/// What binding the variable `v` to the representative `value` answers:
/// an occurs-check failure when `v` occurs in `value`, else a universe leak
/// when a placeholder above the universe of `v` is reached from `value`,
/// else success.
pub open spec fn bind_outcome(
    egraph: &VersionedEGraph,
    stash: &TyStore,
    version: Version,
    v: InferVarIndex,
    value: TyId,
) -> Result<(), UnifyError> {
    if occurs(egraph, stash, version, v, value) {
        Err(UnifyError::OccursCheck { variable: v, in_ty: value })
    } else if exists|fuel: nat|
        #[trigger] reaches_leak(egraph, stash, version, egraph.universe_spec(version, v), value, fuel) {
        Err(UnifyError::UniverseLeak { variable: v, ceiling: egraph.universe_spec(version, v) })
    } else {
        Ok(())
    }
}

/// What unifying `left` with `right` answers where the answer is decided
/// by their representatives alone: success for one class or two
/// variables, the error carried by an error type, the outcome of binding a
/// variable to the other side, a mismatch of two concrete types whose
/// skeletons or numbers of children differ, and success for two leaves of
/// one skeleton. `None` where the answer depends on unifying the children.
#[verifier::opaque]
pub open spec fn top_outcome(
    egraph: &VersionedEGraph,
    stash: &TyStore,
    version: Version,
    left: TyId,
    right: TyId,
) -> Option<Result<(), UnifyError>> {
    let l = egraph.find_spec(version, left);
    let r = egraph.find_spec(version, right);
    let tl = stash.types()[l.0 as int];
    let tr = stash.types()[r.0 as int];
    if l == r {
        Some(Ok(()))
    } else {
        match (tl, tr) {
            (Ty::Error(e), _) => Some(Err(UnifyError::Reported(e))),
            (_, Ty::Error(e)) => Some(Err(UnifyError::Reported(e))),
            (Ty::InferVar(_), Ty::InferVar(_)) => Some(Ok(())),
            (Ty::InferVar(v), _) => Some(bind_outcome(egraph, stash, version, v, r)),
            (_, Ty::InferVar(v)) => Some(bind_outcome(egraph, stash, version, v, l)),
            _ => if decomposition(tl, stash.lists()).0 != decomposition(tr, stash.lists()).0 || children(
                tl,
                stash.lists(),
            ).len() != children(tr, stash.lists()).len() {
                Some(Err(UnifyError::Mismatch { left: l, right: r }))
            } else if children(tl, stash.lists()).len() == 0 {
                Some(Ok(()))
            } else {
                None
            },
        }
    }
}

/// What binding the variable `v`, held by `var_ty`, to `value` leaves in
/// `new` (seen from `nv`), measured against `old` (seen from `ov`): the
/// bound of `var_ty` is exactly `value`, and every variable reached from
/// `value` in `old` has a universe no higher than that of `v` in `old`.
pub open spec fn bind_effect(
    new: &VersionedEGraph,
    nv: Version,
    old: &VersionedEGraph,
    ov: Version,
    stash: &TyStore,
    var_ty: TyId,
    v: InferVarIndex,
    value: TyId,
) -> bool {
    &&& new.bound_spec(nv, var_ty) == Bound::Exactly(value)
    &&& forall|i: InferVarIndex, fuel: nat|
        i.0 < old.tree().vars().len() && #[trigger] reaches_var(old, stash, ov, i, value, fuel)
            ==> new.universe_spec(nv, i).0 <= old.universe_spec(ov, v).0
}

/// Where unifying `left` with `right` comes down to binding one
/// representative, a variable, to the other, the effect of that binding.
pub open spec fn top_bind_effect(
    new: &VersionedEGraph,
    nv: Version,
    old: &VersionedEGraph,
    ov: Version,
    stash: &TyStore,
    left: TyId,
    right: TyId,
) -> bool {
    let l = old.find_spec(ov, left);
    let r = old.find_spec(ov, right);
    let tl = stash.types()[l.0 as int];
    let tr = stash.types()[r.0 as int];
    if l == r || tl is Error || tr is Error || (tl is InferVar && tr is InferVar) {
        true
    } else if tl is InferVar {
        bind_effect(new, nv, old, ov, stash, l, tl->InferVar_0, r)
    } else if tr is InferVar {
        bind_effect(new, nv, old, ov, stash, r, tr->InferVar_0, l)
    } else {
        true
    }
}

/// The effect of a binding, from the facts its steps leave.
proof fn lemma_bind_effect(
    new: &VersionedEGraph,
    accessed: &VersionedEGraph,
    old: &VersionedEGraph,
    stash: &TyStore,
    version: Version,
    ceiling: Universe,
    var_ty: TyId,
    v: InferVarIndex,
    value: TyId,
)
    requires
        forall|fuel: nat| #[trigger] accessible_within(accessed, stash, version, ceiling, value, fuel),
        forall|y: TyId| #[trigger] accessed.find_spec(version, y) == old.find_spec(version, y),
        forall|y: TyId| #[trigger] accessed.bound_spec(version, y) == old.bound_spec(version, y),
        ceiling == old.universe_spec(version, v),
        forall|i: InferVarIndex| #[trigger]
            new.universe_spec(version, i).0 <= accessed.universe_spec(version, i).0,
        new.bound_spec(version, var_ty) == Bound::Exactly(value),
    ensures
        bind_effect(new, version, old, version, stash, var_ty, v, value),
{
    assert forall|i: InferVarIndex, fuel: nat|
        i.0 < old.tree().vars().len() && #[trigger] reaches_var(old, stash, version, i, value, fuel)
        implies new.universe_spec(version, i).0 <= old.universe_spec(version, v).0 by {
        lemma_reaches_same(accessed, version, old, version, stash, i, value, fuel);
        lemma_accessible_universe(accessed, stash, version, ceiling, i, value, fuel);
        assert(new.universe_spec(version, i).0 <= accessed.universe_spec(version, i).0);
    }
}

/// The effect of a binding reads only the classes, bounds and universes of
/// the state it is measured against.
proof fn lemma_bind_effect_same(
    new: &VersionedEGraph,
    nv: Version,
    g1: &VersionedEGraph,
    g2: &VersionedEGraph,
    ov: Version,
    stash: &TyStore,
    var_ty: TyId,
    v: InferVarIndex,
    value: TyId,
)
    requires
        bind_effect(new, nv, g1, ov, stash, var_ty, v, value),
        forall|y: TyId| #[trigger] g1.find_spec(ov, y) == g2.find_spec(ov, y),
        forall|y: TyId| #[trigger] g1.bound_spec(ov, y) == g2.bound_spec(ov, y),
        forall|i: InferVarIndex| #[trigger] g1.universe_spec(ov, i) == g2.universe_spec(ov, i),
        g1.tree().vars().len() == g2.tree().vars().len(),
    ensures
        bind_effect(new, nv, g2, ov, stash, var_ty, v, value),
{
    assert forall|i: InferVarIndex, fuel: nat|
        i.0 < g2.tree().vars().len() && #[trigger] reaches_var(g2, stash, ov, i, value, fuel)
        implies new.universe_spec(nv, i).0 <= g2.universe_spec(ov, v).0 by {
        lemma_reaches_same(g1, ov, g2, ov, stash, i, value, fuel);
        assert(reaches_var(g1, stash, ov, i, value, fuel));
    }
}

/// Where everything reached from `ty` is accessible from `ceiling`, every
/// variable reached has a universe no higher than `ceiling`.
proof fn lemma_accessible_universe(
    egraph: &VersionedEGraph,
    stash: &TyStore,
    version: Version,
    ceiling: Universe,
    i: InferVarIndex,
    ty: TyId,
    fuel: nat,
)
    requires
        accessible_within(egraph, stash, version, ceiling, ty, fuel),
        reaches_var(egraph, stash, version, i, ty, fuel),
    ensures
        egraph.universe_spec(version, i).0 <= ceiling.0,
    decreases fuel, 0nat,
{
    let root = egraph.find_spec(version, ty);
    let t = stash.types()[root.0 as int];
    match t {
        Ty::InferVar(index) => {
            if index != i {
                match egraph.bound_spec(version, root).spec_ty() {
                    Some(b) => {
                        lemma_accessible_universe(egraph, stash, version, ceiling, i, b, (fuel - 1) as nat);
                    },
                    None => {},
                }
            }
        },
        _ => {
            lemma_accessible_universe_all(egraph, stash, version, ceiling, i, children(t, stash.lists()), (fuel - 1) as nat);
        },
    }
}

proof fn lemma_accessible_universe_all(
    egraph: &VersionedEGraph,
    stash: &TyStore,
    version: Version,
    ceiling: Universe,
    i: InferVarIndex,
    kids: Seq<TyId>,
    fuel: nat,
)
    requires
        all_accessible_within(egraph, stash, version, ceiling, kids, fuel),
        any_reaches_var(egraph, stash, version, i, kids, fuel),
    ensures
        egraph.universe_spec(version, i).0 <= ceiling.0,
    decreases fuel, kids.len() + 1,
{
    if reaches_var(egraph, stash, version, i, kids.last(), fuel) {
        lemma_accessible_universe(egraph, stash, version, ceiling, i, kids.last(), fuel);
    } else {
        lemma_accessible_universe_all(egraph, stash, version, ceiling, i, kids.drop_last(), fuel);
    }
}

/// Whether `needle` is reached depends only on the classes and the bounds.
proof fn lemma_reaches_same(
    g1: &VersionedEGraph,
    v1: Version,
    g2: &VersionedEGraph,
    v2: Version,
    stash: &TyStore,
    needle: InferVarIndex,
    ty: TyId,
    fuel: nat,
)
    requires
        forall|y: TyId| #[trigger] g1.find_spec(v1, y) == g2.find_spec(v2, y),
        forall|y: TyId| #[trigger] g1.bound_spec(v1, y) == g2.bound_spec(v2, y),
    ensures
        reaches_var(g1, stash, v1, needle, ty, fuel) == reaches_var(g2, stash, v2, needle, ty, fuel),
    decreases fuel, 0nat,
{
    let root = g1.find_spec(v1, ty);
    assert(g2.find_spec(v2, ty) == root);
    let t = stash.types()[root.0 as int];
    if fuel > 0 {
        match t {
            Ty::InferVar(_) => {
                assert(g1.bound_spec(v1, root) == g2.bound_spec(v2, root));
                match g1.bound_spec(v1, root).spec_ty() {
                    Some(b) => {
                        lemma_reaches_same(g1, v1, g2, v2, stash, needle, b, (fuel - 1) as nat);
                    },
                    None => {},
                }
            },
            _ => {
                lemma_reaches_same_all(g1, v1, g2, v2, stash, needle, children(t, stash.lists()), (fuel - 1) as nat);
            },
        }
    }
}

proof fn lemma_reaches_same_all(
    g1: &VersionedEGraph,
    v1: Version,
    g2: &VersionedEGraph,
    v2: Version,
    stash: &TyStore,
    needle: InferVarIndex,
    kids: Seq<TyId>,
    fuel: nat,
)
    requires
        forall|y: TyId| #[trigger] g1.find_spec(v1, y) == g2.find_spec(v2, y),
        forall|y: TyId| #[trigger] g1.bound_spec(v1, y) == g2.bound_spec(v2, y),
    ensures
        any_reaches_var(g1, stash, v1, needle, kids, fuel) == any_reaches_var(g2, stash, v2, needle, kids, fuel),
    decreases fuel, kids.len() + 1,
{
    if kids.len() > 0 {
        lemma_reaches_same(g1, v1, g2, v2, stash, needle, kids.last(), fuel);
        lemma_reaches_same_all(g1, v1, g2, v2, stash, needle, kids.drop_last(), fuel);
    }
}

/// The top-level outcome depends only on the classes, bounds, universes and
/// placeholders.
proof fn lemma_top_same(
    g1: &VersionedEGraph,
    v1: Version,
    g2: &VersionedEGraph,
    v2: Version,
    stash: &TyStore,
    left: TyId,
    right: TyId,
)
    requires
        forall|y: TyId| #[trigger] g1.find_spec(v1, y) == g2.find_spec(v2, y),
        forall|y: TyId| #[trigger] g1.bound_spec(v1, y) == g2.bound_spec(v2, y),
        forall|i: InferVarIndex| #[trigger] g1.universe_spec(v1, i) == g2.universe_spec(v2, i),
        g1.placeholders() == g2.placeholders(),
    ensures
        top_outcome(g1, stash, v1, left, right) == top_outcome(g2, stash, v2, left, right),
{
    reveal(top_outcome);
    let l = g1.find_spec(v1, left);
    let r = g1.find_spec(v1, right);
    assert(g2.find_spec(v2, left) == l);
    assert(g2.find_spec(v2, right) == r);
    match (stash.types()[l.0 as int], stash.types()[r.0 as int]) {
        (Ty::InferVar(v), _) => {
            lemma_bind_same(g1, v1, g2, v2, stash, v, r);
        },
        _ => {},
    }
    match (stash.types()[l.0 as int], stash.types()[r.0 as int]) {
        (_, Ty::InferVar(v)) => {
            lemma_bind_same(g1, v1, g2, v2, stash, v, l);
        },
        _ => {},
    }
}

proof fn lemma_bind_same(
    g1: &VersionedEGraph,
    v1: Version,
    g2: &VersionedEGraph,
    v2: Version,
    stash: &TyStore,
    v: InferVarIndex,
    value: TyId,
)
    requires
        forall|y: TyId| #[trigger] g1.find_spec(v1, y) == g2.find_spec(v2, y),
        forall|y: TyId| #[trigger] g1.bound_spec(v1, y) == g2.bound_spec(v2, y),
        forall|i: InferVarIndex| #[trigger] g1.universe_spec(v1, i) == g2.universe_spec(v2, i),
        g1.placeholders() == g2.placeholders(),
    ensures
        bind_outcome(g1, stash, v1, v, value) == bind_outcome(g2, stash, v2, v, value),
{
    if occurs(g1, stash, v1, v, value) {
        let f = choose|f: nat| #[trigger] reaches_var(g1, stash, v1, v, value, f);
        lemma_reaches_same(g1, v1, g2, v2, stash, v, value, f);
        assert(reaches_var(g2, stash, v2, v, value, f));
    }
    if occurs(g2, stash, v2, v, value) {
        let f = choose|f: nat| #[trigger] reaches_var(g2, stash, v2, v, value, f);
        lemma_reaches_same(g1, v1, g2, v2, stash, v, value, f);
        assert(reaches_var(g1, stash, v1, v, value, f));
    }
    let c = g1.universe_spec(v1, v);
    assert(g2.universe_spec(v2, v) == c);
    if exists|fuel: nat| #[trigger] reaches_leak(g1, stash, v1, c, value, fuel) {
        let f = choose|f: nat| #[trigger] reaches_leak(g1, stash, v1, c, value, f);
        lemma_leak_same(g1, v1, g2, v2, stash, c, value, f);
        assert(reaches_leak(g2, stash, v2, c, value, f));
    }
    if exists|fuel: nat| #[trigger] reaches_leak(g2, stash, v2, c, value, fuel) {
        let f = choose|f: nat| #[trigger] reaches_leak(g2, stash, v2, c, value, f);
        lemma_leak_same(g1, v1, g2, v2, stash, c, value, f);
        assert(reaches_leak(g1, stash, v1, c, value, f));
    }
}

/// `left` and `right` are distinct concrete types (neither a variable nor
/// an error) whose skeletons or numbers of children differ, or, where the
/// descent into the structure stopped, two compound types of one shape.
pub open spec fn clash(stash: &TyStore, left: TyId, right: TyId) -> bool {
    let l = stash.types()[left.0 as int];
    let r = stash.types()[right.0 as int];
    &&& left.0 < stash.types().len()
    &&& right.0 < stash.types().len()
    &&& left != right
    &&& !(l is InferVar) && !(r is InferVar) && !(l is Error) && !(r is Error)
    &&& (decomposition(l, stash.lists()).0 != decomposition(r, stash.lists()).0 || children(
        l,
        stash.lists(),
    ).len() != children(r, stash.lists()).len() || children(l, stash.lists()).len() > 0)
}

/// Bind the variable `variable_ty` to `value`: reject a cyclic binding and
/// an inaccessible placeholder, lower the universes of the variables in
/// `value`, record the exact bound and merge the two classes.
fn bind_variable(
    egraph: &mut VersionedEGraph,
    stash: &TyStore,
    version: Version,
    variable_ty: TyId,
    variable: InferVarIndex,
    value: TyId,
) -> (result: Result<(), UnifyError>)
    requires
        probe_ready(old(egraph), stash, version),
        variable_ty.0 < stash.types().len(),
        value.0 < stash.types().len(),
        stash.types()[variable_ty.0 as int] == Ty::InferVar(variable),
    ensures
        probe_ready(final(egraph), stash, version),
        probe_frame(final(egraph), old(egraph), version),
        coarser(final(egraph), old(egraph), version),
        wakes_lowered(final(egraph), old(egraph), version),
        result == bind_outcome(old(egraph), stash, version, variable, value),
        result is Ok ==> bind_effect(
            final(egraph),
            version,
            old(egraph),
            version,
            stash,
            variable_ty,
            variable,
            value,
        ),
        result is Ok ==> final(egraph).find_spec(version, variable_ty) == final(egraph).find_spec(
            version,
            value,
        ),
        result matches Err(e) ==> match e {
            UnifyError::OccursCheck { variable: v, in_ty } => v == variable && in_ty == value
                && *final(egraph) == *old(egraph) && occurs(old(egraph), stash, version, variable, value),
            UnifyError::UniverseLeak { variable: v, ceiling } => v == variable && ceiling
                == old(egraph).universe_spec(version, variable) && (exists|p: GenericParam|
                #[trigger] final(egraph).placeholder_spec(p).0 > ceiling.0) && exists|fuel: nat|
                #[trigger] reaches_leak(final(egraph), stash, version, ceiling, value, fuel),
            _ => false,
        },
{
    let ghost entry = *egraph;
    proof {
        lemma_frame_refl(egraph, version);
        lemma_wakes_refl(egraph, version);
        assert(stash.types()[variable_ty.0 as int] is InferVar);
    }
    let mut visited: Vec<TyId> = Vec::new();
    if occurs_in(egraph, stash, version, variable, value, &mut visited) {
        return Err(UnifyError::OccursCheck { variable, in_ty: value });
    }
    let ceiling = egraph.current_universe(version, variable);
    let mut seen: Vec<TyId> = Vec::new();
    match make_accessible(egraph, stash, version, value, variable, ceiling, &mut seen) {
        Ok(()) => {},
        Err(e) => {
            proof {
                lemma_coarser_same(egraph, &entry, version);
                let f = choose|f: nat| #[trigger] reaches_leak(egraph, stash, version, ceiling, value, f);
                lemma_leak_same(egraph, version, &entry, version, stash, ceiling, value, f);
                assert(reaches_leak(&entry, stash, version, entry.universe_spec(version, variable), value, f));
            }
            return Err(e);
        },
    }
    proof {
        assert forall|fuel: nat| !#[trigger] reaches_leak(&entry, stash, version, ceiling, value, fuel) by {
            lemma_accessible_no_leak(egraph, stash, version, ceiling, value, fuel);
            lemma_leak_same(egraph, version, &entry, version, stash, ceiling, value, fuel);
        }
    }
    let ghost after_access = *egraph;
    egraph.set_bound_in(version, stash, variable_ty, Bound::Exactly(value));
    let ghost after_bound = *egraph;
    proof {
        lemma_frame_trans(egraph, &after_access, &entry, version);
        if after_bound.state(version) != after_access.state(version) {
            assert(after_bound.state(version).wakes == crate::egraph::set_insert(
                after_access.state(version).wakes,
                variable,
            ));
        }
        lemma_wakes_step(&after_bound, &after_access, version);
    }
    egraph.union(version, stash, variable_ty, value);
    proof {
        lemma_wakes_union(egraph, &after_bound, stash, version, variable_ty, value);
        lemma_wakes_trans(egraph, &after_bound, &after_access, version);
        lemma_wakes_trans(egraph, &after_access, &entry, version);
        lemma_frame_trans(egraph, &after_bound, &entry, version);
        assert forall|y: TyId| #[trigger] after_bound.find_spec(version, y) == entry.find_spec(version, y) by {
            assert(after_access.find_spec(version, y) == entry.find_spec(version, y));
        }
        lemma_coarser_same(&after_bound, &entry, version);
        let lr = after_bound.find_spec(version, variable_ty);
        let rr = after_bound.find_spec(version, value);
        if lr == rr {
            lemma_coarser_same(egraph, &after_bound, version);
        } else {
            lemma_coarser_merge(
                egraph,
                &after_bound,
                version,
                crate::egraph::union_child(stash, lr, rr),
                crate::egraph::union_parent(stash, lr, rr),
            );
        }
        lemma_coarser_trans(egraph, &after_bound, &entry, version);
        egraph.lemma_bounds_kept(&after_bound, version);
        lemma_bind_effect(egraph, &after_access, &entry, stash, version, ceiling, variable_ty, variable, value);
    }
    Ok(())
}

/// Unify `left` and `right` inside `version`, descending at most `depth`
/// levels into their structure.
fn unify_rec(
    egraph: &mut VersionedEGraph,
    stash: &TyStore,
    version: Version,
    left_ty: TyId,
    right_ty: TyId,
    depth: usize,
) -> (result: Result<(), UnifyError>)
    requires
        probe_ready(old(egraph), stash, version),
        left_ty.0 < stash.types().len(),
        right_ty.0 < stash.types().len(),
    ensures
        probe_ready(final(egraph), stash, version),
        probe_frame(final(egraph), old(egraph), version),
        coarser(final(egraph), old(egraph), version),
        wakes_lowered(final(egraph), old(egraph), version),
        top_outcome(old(egraph), stash, version, left_ty, right_ty) matches Some(o) ==> result == o,
        result is Ok ==> top_bind_effect(final(egraph), version, old(egraph), version, stash, left_ty, right_ty),
        result is Ok ==> final(egraph).find_spec(version, left_ty) == final(egraph).find_spec(
            version,
            right_ty,
        ),
        result matches Err(e) ==> match e {
            UnifyError::Mismatch { left, right } => clash(stash, left, right) && final(egraph).find_spec(
                version,
                left,
            ) == left && final(egraph).find_spec(version, right) == right,
            UnifyError::OccursCheck { variable, in_ty } => occurs(
                final(egraph),
                stash,
                version,
                variable,
                in_ty,
            ) && in_ty.0 < stash.types().len() && stash.types().contains(Ty::InferVar(variable)),
            UnifyError::UniverseLeak { variable, ceiling } => (exists|p: GenericParam|
                #[trigger] final(egraph).placeholder_spec(p).0 > ceiling.0) && exists|t: TyId, fuel: nat|
                t.0 < stash.types().len() && #[trigger] reaches_leak(final(egraph), stash, version, ceiling, t, fuel),
            UnifyError::Reported(error) => stash.types().contains(Ty::Error(error)),
        },
    decreases depth,
{
    proof {
        reveal(top_outcome);
    }
    let ghost entry = *egraph;
    let n: Ghost<nat> = Ghost(stash.types().len());
    let left = egraph.find_mut(version, left_ty);
    let right = egraph.find_mut(version, right_ty);
    let ghost after_find = *egraph;
    proof {
        lemma_visible_frame(egraph, &entry, stash, version);
        assert forall|y: TyId| #[trigger] egraph.find_spec(version, y) == entry.find_spec(version, y) by {}
        lemma_coarser_same(egraph, &entry, version);
        assert(probe_frame(egraph, &entry, version)) by {
            assert forall|v: Version, x: TyId|
                #![trigger egraph.find_spec(v, x)]
                entry.tree().live(v) && v != version implies egraph.find_spec(v, x) == entry.find_spec(v, x) by {}
        }
        lemma_wakes_step(egraph, &entry, version);
        entry.lemma_tree_wf();
        assert forall|a: Version|
            #![trigger entry.tree().ancestor(a, version)]
            entry.tree().ancestor(a, version) implies egraph.state(a).bounds == entry.state(a).bounds
            && egraph.state(a).universe_ceilings == entry.state(a).universe_ceilings
            && egraph.tree().parent_of(a) == entry.tree().parent_of(a) by {
            entry.tree().lemma_ancestor_live(a, version);
            entry.tree().lemma_live(a);
            if a != version {
                assert(egraph.state(a) == entry.state(a));
            }
        }
        egraph.lemma_bound_views_agree(&entry, version);
        assert forall|y: TyId| #[trigger] egraph.bound_spec(version, y) == entry.bound_spec(version, y) by {
            assert(egraph.eff_bound(version, y) == entry.eff_bound(version, y));
        }
        assert forall|i: InferVarIndex| #[trigger] egraph.universe_spec(version, i) == entry.universe_spec(version, i) by {
            assert(egraph.eff_ceiling(version, i) == entry.eff_ceiling(version, i));
        }
        lemma_top_same(egraph, version, &entry, version, stash, left_ty, right_ty);
        assert(entry.find_spec(version, left_ty) == left);
        assert(entry.find_spec(version, right_ty) == right);
        lemma_top_same(egraph, version, &entry, version, stash, left, right);
        egraph.lemma_rank_ok(version);
        egraph.lemma_find_root(version, left_ty);
        egraph.lemma_find_root(version, right_ty);
    }
    if left == right {
        return Ok(());
    }
    match (stash.get(left), stash.get(right)) {
        (Ty::Error(error), _) => {
            proof {
                assert(stash.types()[left.0 as int] == Ty::Error(error));
            }
            return Err(UnifyError::Reported(error));
        },
        (_, Ty::Error(error)) => {
            proof {
                assert(stash.types()[right.0 as int] == Ty::Error(error));
            }
            return Err(UnifyError::Reported(error));
        },
        (Ty::InferVar(left_var), Ty::InferVar(right_var)) => {
            proof {
                assert(stash.types()[left.0 as int] is InferVar);
                assert(stash.types()[right.0 as int] is InferVar);
            }
            let left_universe = egraph.current_universe(version, left_var);
            let right_universe = egraph.current_universe(version, right_var);
            let common_ceiling = if left_universe.0 <= right_universe.0 {
                left_universe
            } else {
                right_universe
            };
            let lowered_left = egraph.lower_universe(version, left_var, common_ceiling);
            let ghost after_left = *egraph;
            proof {
                lemma_wakes_lower(egraph, &after_find, version, left_var, lowered_left, common_ceiling);
                lemma_wakes_trans(egraph, &after_find, &entry, version);
                lemma_frame_trans(egraph, &after_find, &entry, version);
            }
            let lowered_right = egraph.lower_universe(version, right_var, common_ceiling);
            let ghost after_right = *egraph;
            proof {
                lemma_wakes_lower(egraph, &after_left, version, right_var, lowered_right, common_ceiling);
                lemma_wakes_trans(egraph, &after_left, &entry, version);
                lemma_frame_trans(egraph, &after_left, &entry, version);
                assert forall|y: TyId| #[trigger] after_right.find_spec(version, y) == entry.find_spec(version, y) by {
                    assert(after_left.find_spec(version, y) == entry.find_spec(version, y));
                }
                lemma_coarser_same(&after_right, &entry, version);
            }
            egraph.union(version, stash, left, right);
            proof {
                lemma_wakes_union(egraph, &after_right, stash, version, left, right);
                lemma_wakes_trans(egraph, &after_right, &entry, version);
                lemma_frame_trans(egraph, &after_right, &entry, version);
                let lr = after_right.find_spec(version, left);
                let rr = after_right.find_spec(version, right);
                if lr == rr {
                    lemma_coarser_same(egraph, &after_right, version);
                } else {
                    lemma_coarser_merge(
                        egraph,
                        &after_right,
                        version,
                        crate::egraph::union_child(stash, lr, rr),
                        crate::egraph::union_parent(stash, lr, rr),
                    );
                }
                lemma_coarser_trans(egraph, &after_right, &entry, version);
                assert(entry.find_spec(version, left_ty) == left);
                assert(entry.find_spec(version, right_ty) == right);
            }
            return Ok(());
        },
        (Ty::InferVar(variable), _) => {
            let outcome = bind_variable(egraph, stash, version, left, variable, right);
            proof {
                if outcome is Ok {
                    lemma_bind_effect_same(egraph, version, &after_find, &entry, version, stash, left, variable, right);
                }
                lemma_frame_trans(egraph, &after_find, &entry, version);
                lemma_coarser_trans(egraph, &after_find, &entry, version);
                lemma_wakes_trans(egraph, &after_find, &entry, version);
                assert(entry.find_spec(version, left_ty) == left);
                assert(entry.find_spec(version, right_ty) == right);
            }
            return outcome;
        },
        (_, Ty::InferVar(variable)) => {
            let outcome = bind_variable(egraph, stash, version, right, variable, left);
            proof {
                if outcome is Ok {
                    lemma_bind_effect_same(egraph, version, &after_find, &entry, version, stash, right, variable, left);
                }
                lemma_frame_trans(egraph, &after_find, &entry, version);
                lemma_coarser_trans(egraph, &after_find, &entry, version);
                lemma_wakes_trans(egraph, &after_find, &entry, version);
                assert(entry.find_spec(version, left_ty) == left);
                assert(entry.find_spec(version, right_ty) == right);
            }
            return outcome;
        },
        _ => {},
    }
    let left_decomposed = decompose(stash, left);
    let right_decomposed = decompose(stash, right);
    if left_decomposed.skeleton != right_decomposed.skeleton || children_len(&left_decomposed.children)
        != children_len(&right_decomposed.children) {
        return Err(UnifyError::Mismatch { left, right });
    }
    if depth == 0 && children_len(&left_decomposed.children) > 0 {
        return Err(UnifyError::Mismatch { left, right });
    }
    let ghost lkids = left_decomposed.children_view();
    let ghost rkids = right_decomposed.children_view();
    let mut k: usize = 0;
    while k < children_len(&left_decomposed.children)
        invariant
            k <= lkids.len(),
            left_decomposed.children_view() == lkids,
            forall|q: int| 0 <= q < lkids.len() ==> (#[trigger] lkids[q]).0 < left.0,
            left.0 < n@,
            right.0 < n@,
            n@ == stash.types().len(),
            entry == *old(egraph),
            probe_ready(egraph, stash, version),
            probe_frame(egraph, &entry, version),
            forall|y: TyId| #[trigger] egraph.find_spec(version, y) == entry.find_spec(version, y),
            wakes_lowered(egraph, &entry, version),
        decreases lkids.len() - k,
    {
        let ghost before = *egraph;
        egraph.add_dependent(version, children_get(&left_decomposed.children, k), left);
        proof {
            lemma_wakes_step(egraph, &before, version);
            lemma_wakes_trans(egraph, &before, &entry, version);
            lemma_frame_trans(egraph, &before, &entry, version);
        }
        k += 1;
    }
    let mut k: usize = 0;
    while k < children_len(&right_decomposed.children)
        invariant
            k <= rkids.len(),
            right_decomposed.children_view() == rkids,
            forall|q: int| 0 <= q < rkids.len() ==> (#[trigger] rkids[q]).0 < right.0,
            left.0 < n@,
            right.0 < n@,
            n@ == stash.types().len(),
            entry == *old(egraph),
            probe_ready(egraph, stash, version),
            probe_frame(egraph, &entry, version),
            forall|y: TyId| #[trigger] egraph.find_spec(version, y) == entry.find_spec(version, y),
            wakes_lowered(egraph, &entry, version),
        decreases rkids.len() - k,
    {
        let ghost before = *egraph;
        egraph.add_dependent(version, children_get(&right_decomposed.children, k), right);
        proof {
            lemma_wakes_step(egraph, &before, version);
            lemma_wakes_trans(egraph, &before, &entry, version);
            lemma_frame_trans(egraph, &before, &entry, version);
        }
        k += 1;
    }
    proof {
        lemma_coarser_same(egraph, &entry, version);
    }
    let mut k: usize = 0;
    while k < children_len(&left_decomposed.children)
        invariant
            k <= lkids.len(),
            lkids.len() == rkids.len(),
            left_decomposed.children_view() == lkids,
            right_decomposed.children_view() == rkids,
            forall|q: int| 0 <= q < lkids.len() ==> (#[trigger] lkids[q]).0 < left.0,
            forall|q: int| 0 <= q < rkids.len() ==> (#[trigger] rkids[q]).0 < right.0,
            left.0 < n@,
            right.0 < n@,
            n@ == stash.types().len(),
            lkids.len() > 0 ==> depth > 0,
            lkids.len() > 0 ==> top_outcome(&entry, stash, version, left_ty, right_ty) is None,
            entry == *old(egraph),
            probe_ready(egraph, stash, version),
            probe_frame(egraph, &entry, version),
            coarser(egraph, &entry, version),
            wakes_lowered(egraph, &entry, version),
        decreases lkids.len() - k,
    {
        let ghost before = *egraph;
        let outcome = unify_rec(
            egraph,
            stash,
            version,
            children_get(&left_decomposed.children, k),
            children_get(&right_decomposed.children, k),
            depth - 1,
        );
        proof {
            lemma_frame_trans(egraph, &before, &entry, version);
            lemma_coarser_trans(egraph, &before, &entry, version);
            lemma_wakes_trans(egraph, &before, &entry, version);
        }
        match outcome {
            Ok(()) => {},
            Err(e) => {
                return Err(e);
            },
        }
        k += 1;
    }
    let ghost before_union = *egraph;
    egraph.union(version, stash, left, right);
    proof {
        lemma_wakes_union(egraph, &before_union, stash, version, left, right);
        lemma_wakes_trans(egraph, &before_union, &entry, version);
        lemma_frame_trans(egraph, &before_union, &entry, version);
        let lr = before_union.find_spec(version, left);
        let rr = before_union.find_spec(version, right);
        if lr == rr {
            lemma_coarser_same(egraph, &before_union, version);
        } else {
            lemma_coarser_merge(
                egraph,
                &before_union,
                version,
                crate::egraph::union_child(stash, lr, rr),
                crate::egraph::union_parent(stash, lr, rr),
            );
        }
        lemma_coarser_trans(egraph, &before_union, &entry, version);
        assert(entry.find_spec(version, left_ty) == left);
        assert(entry.find_spec(version, right_ty) == right);
    }
    Ok(())
}

/// Unify `left` and `right` inside the leaf `version`, changing only that
/// version. On failure the version holds partial work; the owning
/// transaction discards it. The descent into the structure of the two
/// types is bounded by the number of interned types; a deeper descent is
/// reported as a mismatch of the pair where it stops.
pub fn unify_in_probe(
    egraph: &mut VersionedEGraph,
    stash: &TyStore,
    version: Version,
    left: TyId,
    right: TyId,
) -> (result: Result<(), UnifyError>)
    requires
        probe_ready(old(egraph), stash, version),
        left.0 < stash.types().len(),
        right.0 < stash.types().len(),
    ensures
        probe_ready(final(egraph), stash, version),
        probe_frame(final(egraph), old(egraph), version),
        coarser(final(egraph), old(egraph), version),
        wakes_lowered(final(egraph), old(egraph), version),
        top_outcome(old(egraph), stash, version, left, right) matches Some(o) ==> result == o,
        result is Ok ==> top_bind_effect(final(egraph), version, old(egraph), version, stash, left, right),
        result is Ok ==> final(egraph).find_spec(version, left) == final(egraph).find_spec(
            version,
            right,
        ),
        result matches Err(e) ==> match e {
            UnifyError::Mismatch { left, right } => clash(stash, left, right) && final(egraph).find_spec(
                version,
                left,
            ) == left && final(egraph).find_spec(version, right) == right,
            UnifyError::OccursCheck { variable, in_ty } => occurs(
                final(egraph),
                stash,
                version,
                variable,
                in_ty,
            ) && in_ty.0 < stash.types().len() && stash.types().contains(Ty::InferVar(variable)),
            UnifyError::UniverseLeak { variable, ceiling } => (exists|p: GenericParam|
                #[trigger] final(egraph).placeholder_spec(p).0 > ceiling.0) && exists|t: TyId, fuel: nat|
                t.0 < stash.types().len() && #[trigger] reaches_leak(final(egraph), stash, version, ceiling, t, fuel),
            UnifyError::Reported(error) => stash.types().contains(Ty::Error(error)),
        },
{
    let depth = stash.type_count();
    unify_rec(egraph, stash, version, left, right, depth)
}

/// A fresh child sees every variable its parent sees.
proof fn lemma_visible_child(
    new: &VersionedEGraph,
    old: &VersionedEGraph,
    stash: &TyStore,
    parent: Version,
    child: Version,
)
    requires
        vars_visible(old, stash, parent),
        old.wf(),
        old.tree().live(parent),
        new.wf(),
        new.tree().live(child),
        new.tree().parent_of(child) == Some(parent),
        new.tree().vars() == old.tree().vars(),
        forall|a: Version, v: Version|
            old.tree().is_known(v) ==> #[trigger] new.tree().ancestor(a, v) == old.tree().ancestor(a, v),
    ensures
        vars_visible(new, stash, child),
{
    old.lemma_tree_wf();
    new.lemma_tree_wf();
    old.tree().lemma_live(parent);
    new.tree().lemma_parent_is_ancestor(child);
    assert forall|i: int|
        0 <= i < stash.types().len() && (#[trigger] stash.types()[i]) is InferVar implies {
        let v = stash.types()[i]->InferVar_0;
        &&& v.0 < new.tree().vars().len()
        &&& new.tree().ancestor(new.tree().vars()[v.0 as int].owner, child)
    } by {
        let v = stash.types()[i]->InferVar_0;
        let owner = old.tree().vars()[v.0 as int].owner;
        assert(old.tree().ancestor(owner, parent));
        assert(new.tree().ancestor(owner, parent));
        new.tree().lemma_ancestor_trans(owner, parent, child);
    }
}

/// Commit the probe `child` into `parent` after rebuilding it, or discard
/// it, as the outcome of the work done in it says.
fn settle_probe(
    egraph: &mut VersionedEGraph,
    stash: &mut TyStore,
    parent: Version,
    child: Version,
    outcome: Result<(), UnifyError>,
) -> (result: Result<CommitEffects, UnifyError>)
    requires
        old(egraph).wf(),
        old(stash).wf(),
        old(egraph).ids_below(old(stash).types().len()),
        old(egraph).tree().live(child),
        old(egraph).tree().live(parent),
        old(egraph).tree().parent_of(child) == Some(parent),
        old(egraph).tree().children_of(child).len() == 0,
        old(egraph).tree().children_of(parent) == seq![child],
        old(egraph).tree().owned_by(child).len() == 0,
    ensures
        final(egraph).wf(),
        final(stash).wf(),
        final(stash).extends(old(stash)),
        forall|i: int|
            old(stash).types().len() <= i < final(stash).types().len() ==> !(
            #[trigger] final(stash).types()[i] is InferVar),
        final(egraph).ids_below(final(stash).types().len()),
        final(egraph).placeholders() == old(egraph).placeholders(),
        final(egraph).tree().num_versions() == old(egraph).tree().num_versions(),
        final(egraph).tree().vars() == old(egraph).tree().vars(),
        !final(egraph).tree().live(child),
        final(egraph).tree().children_of(parent) == Seq::<Version>::empty(),
        forall|v: Version|
            #![trigger final(egraph).tree().live(v)]
            old(egraph).tree().is_known(v) && v != child ==> {
                &&& final(egraph).tree().live(v) == old(egraph).tree().live(v)
                &&& final(egraph).tree().parent_of(v) == old(egraph).tree().parent_of(v)
                &&& v != parent && old(egraph).tree().live(v) ==> final(egraph).tree().children_of(v)
                    == old(egraph).tree().children_of(v)
            },
        forall|a: Version, v: Version| #[trigger]
            final(egraph).tree().ancestor(a, v) == old(egraph).tree().ancestor(a, v),
        forall|w: Version|
            #![trigger final(egraph).state(w)]
            old(egraph).tree().is_known(w) && w != parent && w != child ==> final(egraph).state(w)
                == old(egraph).state(w),
        forall|v: Version, x: TyId|
            #![trigger final(egraph).find_spec(v, x)]
            old(egraph).tree().live(v) && v != parent && v != child ==> final(egraph).find_spec(v, x)
                == old(egraph).find_spec(v, x),
        match outcome {
            Err(e) => {
                &&& result == Err::<CommitEffects, UnifyError>(e)
                &&& *final(stash) == *old(stash)
                &&& final(egraph).state(parent) == old(egraph).state(parent)
                &&& forall|x: TyId| #[trigger]
                    final(egraph).find_spec(parent, x) == old(egraph).find_spec(parent, x)
                &&& forall|x: TyId| #[trigger]
                    final(egraph).bound_spec(parent, x) == old(egraph).bound_spec(parent, x)
                &&& forall|i: InferVarIndex| #[trigger]
                    final(egraph).universe_spec(parent, i) == old(egraph).universe_spec(parent, i)
            },
            Ok(()) => match result {
                Ok(effects) => {
                    &&& effects.semantic_revision == final(egraph).state(parent).semantic_revision
                    &&& strictly_sorted(effects.wakes@)
                    &&& forall|i: InferVarIndex| #[trigger]
                        effects.wakes@.contains(i) <==> old(egraph).state(child).wakes.contains(i)
                    &&& forall|y: TyId| #[trigger]
                        final(egraph).find_spec(parent, y) == final(egraph).find_spec(
                            parent,
                            old(egraph).find_spec(child, y),
                        )
                    &&& forall|x: TyId| #[trigger]
                        final(egraph).bound_spec(parent, x) == old(egraph).bound_spec(child, x)
                    &&& forall|i: InferVarIndex|
                        i.0 < old(egraph).tree().vars().len() ==> #[trigger] final(egraph).universe_spec(
                            parent,
                            i,
                        ) == old(egraph).universe_spec(child, i)
                },
                Err(_) => false,
            },
        },
{
    let ghost o = *egraph;
    match outcome {
        Err(e) => {
            proof {
                o.lemma_tree_wf();
                o.tree().lemma_live(child);
            }
            egraph.discard(child);
            proof {
                assert forall|v: Version| o.tree().live(v) implies (#[trigger] o.tree().ancestor(child, v)
                    <==> v == child) by {
                    o.tree().lemma_ancestor_refl(child);
                    if v != child && o.tree().ancestor(child, v) {
                        o.tree().lemma_ancestor_has_child(child, v);
                        assert(false);
                    }
                }
                assert(egraph.tree().live(parent) == (o.tree().live(parent) && !o.tree().ancestor(
                    child,
                    parent,
                )));
                assert(o.tree().parent_of(child)->0 == parent);
                crate::version::lemma_filter_ne(seq![child], child);
                let kids = egraph.tree().children_of(parent);
                if kids.len() > 0 {
                    assert(kids.contains(kids[0]));
                }
                assert(kids =~= Seq::<Version>::empty());
                assert forall|v: Version|
                    #![trigger egraph.tree().live(v)]
                    o.tree().is_known(v) && v != child implies {
                    &&& egraph.tree().live(v) == o.tree().live(v)
                    &&& egraph.tree().parent_of(v) == o.tree().parent_of(v)
                    &&& v != parent && o.tree().live(v) ==> egraph.tree().children_of(v) == o.tree().children_of(v)
                } by {
                    assert(egraph.tree().live(v) == (o.tree().live(v) && !o.tree().ancestor(child, v)));
                    assert(egraph.tree().parent_of(v) == o.tree().parent_of(v));
                    if o.tree().live(v) {
                        assert(o.tree().ancestor(child, v) == (v == child));
                        assert(egraph.tree().live(v));
                        if v != parent {
                            assert(egraph.tree().children_of(v) == o.tree().children_of(v));
                        }
                    }
                }
                assert(egraph.state(parent) == o.state(parent));
                assert forall|x: TyId| #[trigger] egraph.find_spec(parent, x) == o.find_spec(parent, x) by {}
                assert forall|w: Version|
                    #![trigger egraph.state(w)]
                    o.tree().is_known(w) && w != parent && w != child implies egraph.state(w) == o.state(w) by {
                    if o.tree().live(w) {
                        assert(o.tree().ancestor(child, w) == (w == child));
                    }
                }
                assert forall|v: Version, x: TyId|
                    #![trigger egraph.find_spec(v, x)]
                    o.tree().live(v) && v != parent && v != child implies egraph.find_spec(v, x) == o.find_spec(v, x) by {
                    assert(o.tree().ancestor(child, v) == (v == child));
                    o.tree().lemma_live(v);
                    assert(egraph.tree().live(v));
                }
            }
            Err(e)
        },
        Ok(()) => {
            egraph.rebuild(child, stash);
            let ghost rebuilt = *egraph;
            proof {
                o.lemma_tree_wf();
                o.tree().lemma_live(child);
                assert(rebuilt.tree() == o.tree());
            }
            proof {
                assert forall|a: Version|
                    #![trigger o.tree().ancestor(a, child)]
                    o.tree().ancestor(a, child) implies rebuilt.state(a).bounds == o.state(a).bounds
                    && rebuilt.state(a).universe_ceilings == o.state(a).universe_ceilings
                    && rebuilt.tree().parent_of(a) == o.tree().parent_of(a) by {
                    o.tree().lemma_ancestor_live(a, child);
                    o.tree().lemma_live(a);
                    if a != child {
                        assert(rebuilt.state(a) == o.state(a));
                    }
                }
                rebuilt.lemma_bound_views_agree(&o, child);
            }
            let effects = egraph.collapse_into(child, parent);
            proof {
                assert(rebuilt.state(child).wakes == o.state(child).wakes);
                assert forall|y: TyId| #[trigger] egraph.find_spec(parent, y) == egraph.find_spec(
                    parent,
                    o.find_spec(child, y),
                ) by {
                    assert(rebuilt.find_spec(child, y) == rebuilt.find_spec(child, o.find_spec(child, y)));
                }
                assert forall|x: TyId| #[trigger] egraph.bound_spec(parent, x) == o.bound_spec(child, x) by {
                    assert(rebuilt.eff_bound(child, x) == o.eff_bound(child, x));
                }
                assert forall|i: InferVarIndex|
                    i.0 < o.tree().vars().len() implies #[trigger] egraph.universe_spec(parent, i)
                    == o.universe_spec(child, i) by {
                    assert(rebuilt.eff_ceiling(child, i) == o.eff_ceiling(child, i));
                }
                assert forall|k: int| 0 <= k < o.tree().vars().len() implies #[trigger] egraph.tree().vars()[k]
                    == o.tree().vars()[k] by {
                    assert(!o.tree().owned_by(child).contains(InferVarIndex(k as u32)));
                }
                assert(egraph.tree().vars() =~= o.tree().vars());
                assert forall|w: Version|
                    #![trigger egraph.state(w)]
                    o.tree().is_known(w) && w != parent && w != child implies egraph.state(w) == o.state(w) by {
                    assert(rebuilt.state(w) == o.state(w));
                }
                assert forall|v: Version, x: TyId|
                    #![trigger egraph.find_spec(v, x)]
                    o.tree().live(v) && v != parent && v != child implies egraph.find_spec(v, x) == o.find_spec(v, x) by {
                    assert(rebuilt.find_spec(v, x) == o.find_spec(v, x));
                }
            }
            Ok(effects)
        },
    }
}

/// Unify every pair of `equalities` in order inside `version`, stopping at
/// the first failure.
fn unify_all(
    egraph: &mut VersionedEGraph,
    stash: &TyStore,
    version: Version,
    equalities: &[(TyId, TyId)],
) -> (result: Result<(), UnifyError>)
    requires
        probe_ready(old(egraph), stash, version),
        forall|k: int|
            0 <= k < equalities@.len() ==> (#[trigger] equalities@[k]).0.0 < stash.types().len()
                && equalities@[k].1.0 < stash.types().len(),
    ensures
        probe_ready(final(egraph), stash, version),
        probe_frame(final(egraph), old(egraph), version),
        coarser(final(egraph), old(egraph), version),
        wakes_lowered(final(egraph), old(egraph), version),
        equalities@.len() > 0 ==> (top_outcome(
            old(egraph),
            stash,
            version,
            equalities@[0].0,
            equalities@[0].1,
        ) matches Some(Err(e)) ==> result == Err::<(), UnifyError>(e)),
        equalities@.len() == 1 ==> (top_outcome(
            old(egraph),
            stash,
            version,
            equalities@[0].0,
            equalities@[0].1,
        ) matches Some(Ok(())) ==> result is Ok),
        equalities@.len() == 1 && result is Ok ==> top_bind_effect(
            final(egraph),
            version,
            old(egraph),
            version,
            stash,
            equalities@[0].0,
            equalities@[0].1,
        ),
        result is Ok ==> forall|k: int|
            0 <= k < equalities@.len() ==> final(egraph).find_spec(version, (#[trigger] equalities@[k]).0)
                == final(egraph).find_spec(version, equalities@[k].1),
        result matches Err(e) ==> match e {
            UnifyError::Mismatch { left, right } => clash(stash, left, right) && final(egraph).find_spec(
                version,
                left,
            ) == left && final(egraph).find_spec(version, right) == right,
            UnifyError::OccursCheck { variable, in_ty } => occurs(
                final(egraph),
                stash,
                version,
                variable,
                in_ty,
            ) && in_ty.0 < stash.types().len() && stash.types().contains(Ty::InferVar(variable)),
            UnifyError::UniverseLeak { variable, ceiling } => (exists|p: GenericParam|
                #[trigger] final(egraph).placeholder_spec(p).0 > ceiling.0) && exists|t: TyId, fuel: nat|
                t.0 < stash.types().len() && #[trigger] reaches_leak(final(egraph), stash, version, ceiling, t, fuel),
            UnifyError::Reported(error) => stash.types().contains(Ty::Error(error)),
        },
{
    let ghost entry = *egraph;
    proof {
        lemma_frame_refl(egraph, version);
        lemma_wakes_refl(egraph, version);
    }
    let mut k: usize = 0;
    while k < equalities.len()
        invariant
            k <= equalities@.len(),
            entry == *old(egraph),
            forall|q: int|
                0 <= q < equalities@.len() ==> (#[trigger] equalities@[q]).0.0 < stash.types().len()
                    && equalities@[q].1.0 < stash.types().len(),
            probe_ready(egraph, stash, version),
            probe_frame(egraph, &entry, version),
            coarser(egraph, &entry, version),
            wakes_lowered(egraph, &entry, version),
            k > 0 ==> (top_outcome(&entry, stash, version, equalities@[0].0, equalities@[0].1) matches Some(o)
                ==> o is Ok),
            k == 0 ==> *egraph == entry,
            equalities@.len() == 1 && k == 1 ==> top_bind_effect(
                egraph,
                version,
                &entry,
                version,
                stash,
                equalities@[0].0,
                equalities@[0].1,
            ),
            forall|q: int|
                0 <= q < k ==> egraph.find_spec(version, (#[trigger] equalities@[q]).0) == egraph.find_spec(
                    version,
                    equalities@[q].1,
                ),
        decreases equalities@.len() - k,
    {
        let (left, right) = equalities[k];
        let ghost before = *egraph;
        let outcome = unify_in_probe(egraph, stash, version, left, right);
        proof {
            lemma_frame_trans(egraph, &before, &entry, version);
            lemma_coarser_trans(egraph, &before, &entry, version);
            lemma_wakes_trans(egraph, &before, &entry, version);
        }
        match outcome {
            Ok(()) => {},
            Err(e) => {
                return Err(e);
            },
        }
        proof {
            assert forall|q: int|
                0 <= q < k + 1 implies egraph.find_spec(version, (#[trigger] equalities@[q]).0) == egraph.find_spec(
                version,
                equalities@[q].1,
            ) by {
                if q < k {
                    let a = equalities@[q].0;
                    let b = equalities@[q].1;
                    assert(before.find_spec(version, a) == before.find_spec(version, b));
                    assert(egraph.find_spec(version, a) == egraph.find_spec(version, before.find_spec(version, a)));
                    assert(egraph.find_spec(version, b) == egraph.find_spec(version, before.find_spec(version, b)));
                }
            }
        }
        k += 1;
    }
    Ok(())
}

/// Set a bound inside the probe `version`: the representative of
/// `variable_ty` must be a variable, and the bound's type is made
/// accessible from the variable's universe first.
fn set_bound_in_probe(
    egraph: &mut VersionedEGraph,
    stash: &TyStore,
    version: Version,
    variable_ty: TyId,
    bound: Bound,
) -> (result: Result<(), UnifyError>)
    requires
        probe_ready(old(egraph), stash, version),
        variable_ty.0 < stash.types().len(),
        bound.spec_ty() matches Some(t) ==> t.0 < stash.types().len(),
    ensures
        probe_ready(final(egraph), stash, version),
        probe_frame(final(egraph), old(egraph), version),
        forall|y: TyId| #[trigger]
            final(egraph).find_spec(version, y) == old(egraph).find_spec(version, y),
        wakes_lowered(final(egraph), old(egraph), version),
        ({
            let root = old(egraph).find_spec(version, variable_ty);
            match result {
                Ok(()) => {
                    &&& stash.types()[root.0 as int] is InferVar
                    &&& final(egraph).bound_spec(version, root) == bound
                    &&& bound.spec_ty() matches Some(t) ==> forall|fuel: nat|
                        !#[trigger] reaches_leak(
                            old(egraph),
                            stash,
                            version,
                            old(egraph).universe_spec(version, stash.types()[root.0 as int]->InferVar_0),
                            t,
                            fuel,
                        )
                },
                Err(e) => match e {
                    UnifyError::Mismatch { left, right } => {
                        &&& !(stash.types()[root.0 as int] is InferVar)
                        &&& left == root
                        &&& right == match bound.spec_ty() {
                            Some(t) => t,
                            None => root,
                        }
                    },
                    UnifyError::UniverseLeak { variable, ceiling } => {
                        &&& stash.types()[root.0 as int] == Ty::InferVar(variable)
                        &&& ceiling == old(egraph).universe_spec(version, variable)
                        &&& exists|p: GenericParam| #[trigger] final(egraph).placeholder_spec(p).0 > ceiling.0
                        &&& bound.spec_ty() matches Some(t) && exists|fuel: nat|
                            #[trigger] reaches_leak(old(egraph), stash, version, ceiling, t, fuel)
                    },
                    _ => false,
                },
            }
        }),
{
    let ghost entry = *egraph;
    proof {
        lemma_frame_refl(egraph, version);
        lemma_wakes_refl(egraph, version);
    }
    let root = egraph.find(version, variable_ty);
    proof {
        egraph.lemma_find_below(version, variable_ty, stash.types().len());
    }
    let variable = match stash.get(root) {
        Ty::InferVar(variable) => variable,
        _ => {
            let right = match bound.ty() {
                Some(t) => t,
                None => root,
            };
            return Err(UnifyError::Mismatch { left: root, right });
        },
    };
    proof {
        assert(stash.types()[root.0 as int] is InferVar);
    }
    match bound.ty() {
        Some(bound_ty) => {
            let ceiling = egraph.current_universe(version, variable);
            let mut seen: Vec<TyId> = Vec::new();
            match make_accessible(egraph, stash, version, bound_ty, variable, ceiling, &mut seen) {
                Ok(()) => {},
                Err(e) => {
                    proof {
                        let f = choose|f: nat| #[trigger] reaches_leak(egraph, stash, version, ceiling, bound_ty, f);
                        lemma_leak_same(egraph, version, &entry, version, stash, ceiling, bound_ty, f);
                    }
                    return Err(e);
                },
            }
            proof {
                assert forall|fuel: nat| !#[trigger] reaches_leak(&entry, stash, version, ceiling, bound_ty, fuel) by {
                    lemma_accessible_no_leak(egraph, stash, version, ceiling, bound_ty, fuel);
                    lemma_leak_same(egraph, version, &entry, version, stash, ceiling, bound_ty, fuel);
                }
            }
        },
        None => {},
    }
    let ghost before = *egraph;
    egraph.set_bound_in(version, stash, root, bound);
    proof {
        lemma_frame_trans(egraph, &before, &entry, version);
        if egraph.state(version) != before.state(version) {
            assert(egraph.state(version).wakes == crate::egraph::set_insert(before.state(version).wakes, variable));
        }
        lemma_wakes_step(egraph, &before, version);
        lemma_wakes_trans(egraph, &before, &entry, version);
    }
    Ok(())
}

/// What a transaction against `parent` leaves in place whatever its
/// outcome: a well-formed egraph and store, `parent` still a leaf, one more
/// (removed) version identity, and every other version untouched.
pub open spec fn transaction_frame(
    new: &VersionedEGraph,
    old: &VersionedEGraph,
    new_stash: &TyStore,
    old_stash: &TyStore,
    parent: Version,
) -> bool {
    &&& new.wf()
    &&& new_stash.wf()
    &&& new_stash.extends(old_stash)
    &&& new.ids_below(new_stash.types().len())
    &&& new.mutable(parent)
    &&& vars_visible(new, new_stash, parent)
    &&& new.placeholders() == old.placeholders()
    &&& new.tree().num_versions() == old.tree().num_versions() + 1
    &&& new.tree().vars() == old.tree().vars()
    &&& forall|v: Version|
        #![trigger new.tree().live(v)]
        old.tree().is_known(v) ==> new.tree().live(v) == old.tree().live(v) && new.tree().parent_of(v)
            == old.tree().parent_of(v)
    &&& forall|a: Version, v: Version|
        old.tree().is_known(v) ==> #[trigger] new.tree().ancestor(a, v) == old.tree().ancestor(a, v)
    &&& forall|w: Version|
        #![trigger new.state(w)]
        old.tree().is_known(w) && w != parent ==> new.state(w) == old.state(w)
    &&& forall|v: Version, x: TyId|
        #![trigger new.find_spec(v, x)]
        old.tree().live(v) && v != parent ==> new.find_spec(v, x) == old.find_spec(v, x)
}

/// A failed transaction leaves `parent` exactly as it was.
pub open spec fn rolled_back(
    new: &VersionedEGraph,
    old: &VersionedEGraph,
    new_stash: &TyStore,
    old_stash: &TyStore,
    parent: Version,
) -> bool {
    &&& *new_stash == *old_stash
    &&& new.state(parent) == old.state(parent)
    &&& forall|x: TyId| #[trigger] new.find_spec(parent, x) == old.find_spec(parent, x)
    &&& forall|x: TyId| #[trigger] new.bound_spec(parent, x) == old.bound_spec(parent, x)
    &&& forall|i: InferVarIndex| #[trigger] new.universe_spec(parent, i) == old.universe_spec(parent, i)
}

/// Branch a probe from `parent`, with the facts the transactions need.
fn open_probe(egraph: &mut VersionedEGraph, stash: &TyStore, parent: Version) -> (child: Version)
    requires
        probe_ready(old(egraph), stash, parent),
        old(egraph).tree().num_versions() <= u32::MAX,
    ensures
        probe_ready(final(egraph), stash, child),
        child.0 == old(egraph).tree().num_versions(),
        final(egraph).tree().num_versions() == old(egraph).tree().num_versions() + 1,
        final(egraph).tree().parent_of(child) == Some(parent),
        final(egraph).tree().children_of(parent) == seq![child],
        final(egraph).tree().owned_by(child).len() == 0,
        final(egraph).tree().vars() == old(egraph).tree().vars(),
        final(egraph).placeholders() == old(egraph).placeholders(),
        final(egraph).others_unchanged(old(egraph), child),
        forall|v: Version|
            #![trigger final(egraph).tree().live(v)]
            old(egraph).tree().is_known(v) ==> final(egraph).tree().live(v) == old(egraph).tree().live(v)
                && final(egraph).tree().parent_of(v) == old(egraph).tree().parent_of(v)
                && (v != parent ==> final(egraph).tree().children_of(v) == old(egraph).tree().children_of(v)),
        forall|a: Version, v: Version|
            old(egraph).tree().is_known(v) ==> #[trigger] final(egraph).tree().ancestor(a, v) == old(
                egraph,
            ).tree().ancestor(a, v),
        forall|w: Version|
            #![trigger final(egraph).state(w)]
            old(egraph).tree().is_known(w) ==> final(egraph).state(w) == old(egraph).state(w),
        forall|v: Version, x: TyId|
            #![trigger final(egraph).find_spec(v, x)]
            old(egraph).tree().live(v) ==> final(egraph).find_spec(v, x) == old(egraph).find_spec(v, x),
        forall|x: TyId| #[trigger] final(egraph).find_spec(child, x) == old(egraph).find_spec(parent, x),
        forall|x: TyId| #[trigger] final(egraph).bound_spec(child, x) == old(egraph).bound_spec(parent, x),
        forall|i: InferVarIndex| #[trigger]
            final(egraph).universe_spec(child, i) == old(egraph).universe_spec(parent, i),
{
    let ghost o = *egraph;
    let child = egraph.branch_from(parent);
    proof {
        assert(o.tree().children_of(parent).len() == 0);
        assert(egraph.tree().children_of(parent) =~= seq![child]);
        lemma_visible_child(egraph, &o, stash, parent, child);
        assert forall|w: Version|
            #![trigger egraph.state(w)]
            o.tree().is_known(w) implies egraph.state(w) == o.state(w) by {
            assert(w != child);
        }
        egraph.lemma_tree_wf();
        egraph.tree().lemma_live(child);
    }
    child
}

/// Close a transaction: the frame and rollback facts follow from the probe
/// opened against `o` and settled in `egraph`.
proof fn lemma_close_transaction(
    egraph: &VersionedEGraph,
    probed: &VersionedEGraph,
    branched: &VersionedEGraph,
    o: &VersionedEGraph,
    stash: &TyStore,
    os: &TyStore,
    parent: Version,
    child: Version,
    failed: bool,
)
    requires
        probe_ready(o, os, parent),
        child.0 == o.tree().num_versions(),
        // opening
        branched.wf(),
        branched.mutable(child),
        branched.others_unchanged(o, child),
        branched.tree().live(child),
        branched.tree().num_versions() == o.tree().num_versions() + 1,
        branched.tree().parent_of(child) == Some(parent),
        branched.tree().vars() == o.tree().vars(),
        branched.placeholders() == o.placeholders(),
        forall|v: Version|
            #![trigger branched.tree().live(v)]
            o.tree().is_known(v) ==> branched.tree().live(v) == o.tree().live(v)
                && branched.tree().parent_of(v) == o.tree().parent_of(v),
        forall|a: Version, v: Version|
            o.tree().is_known(v) ==> #[trigger] branched.tree().ancestor(a, v) == o.tree().ancestor(a, v),
        forall|w: Version|
            #![trigger branched.state(w)]
            o.tree().is_known(w) ==> branched.state(w) == o.state(w),
        forall|v: Version, x: TyId|
            #![trigger branched.find_spec(v, x)]
            o.tree().live(v) ==> branched.find_spec(v, x) == o.find_spec(v, x),
        // probing
        probe_frame(probed, branched, child),
        probed.wf(),
        // settling
        egraph.wf(),
        stash.wf(),
        stash.extends(os),
        forall|i: int|
            os.types().len() <= i < stash.types().len() ==> !(#[trigger] stash.types()[i] is InferVar),
        egraph.ids_below(stash.types().len()),
        egraph.placeholders() == probed.placeholders(),
        egraph.tree().num_versions() == probed.tree().num_versions(),
        egraph.tree().vars() == probed.tree().vars(),
        egraph.tree().children_of(parent) == Seq::<Version>::empty(),
        forall|v: Version|
            #![trigger egraph.tree().live(v)]
            probed.tree().is_known(v) && v != child ==> egraph.tree().live(v) == probed.tree().live(v)
                && egraph.tree().parent_of(v) == probed.tree().parent_of(v),
        forall|a: Version, v: Version| #[trigger]
            egraph.tree().ancestor(a, v) == probed.tree().ancestor(a, v),
        forall|w: Version|
            #![trigger egraph.state(w)]
            probed.tree().is_known(w) && w != parent && w != child ==> egraph.state(w) == probed.state(w),
        forall|v: Version, x: TyId|
            #![trigger egraph.find_spec(v, x)]
            probed.tree().live(v) && v != parent && v != child ==> egraph.find_spec(v, x)
                == probed.find_spec(v, x),
        failed ==> {
            &&& *stash == *os
            &&& egraph.state(parent) == probed.state(parent)
            &&& forall|x: TyId| #[trigger] egraph.find_spec(parent, x) == probed.find_spec(parent, x)
            &&& forall|x: TyId| #[trigger] egraph.bound_spec(parent, x) == probed.bound_spec(parent, x)
            &&& forall|i: InferVarIndex| #[trigger]
                egraph.universe_spec(parent, i) == probed.universe_spec(parent, i)
        },
    ensures
        transaction_frame(egraph, o, stash, os, parent),
        failed ==> rolled_back(egraph, o, stash, os, parent),
{
    o.lemma_tree_wf();
    o.tree().lemma_live(parent);
    branched.lemma_tree_wf();
    branched.tree().lemma_live(child);
    assert(branched.tree().live(parent));
    assert(parent != child);
    assert forall|v: Version|
        #![trigger egraph.tree().live(v)]
        o.tree().is_known(v) implies egraph.tree().live(v) == o.tree().live(v) && egraph.tree().parent_of(v)
        == o.tree().parent_of(v) by {
        assert(v != child);
        assert(branched.tree().live(v) == o.tree().live(v));
    }
    assert(egraph.tree().live(parent));
    assert forall|w: Version|
        #![trigger egraph.state(w)]
        o.tree().is_known(w) && w != parent implies egraph.state(w) == o.state(w) by {
        assert(w != child);
        assert(branched.state(w) == o.state(w));
        assert(probed.state(w) == branched.state(w));
    }
    assert forall|v: Version, x: TyId|
        #![trigger egraph.find_spec(v, x)]
        o.tree().live(v) && v != parent implies egraph.find_spec(v, x) == o.find_spec(v, x) by {
        o.tree().lemma_live(v);
        assert(v != child);
        assert(branched.tree().live(v));
        assert(probed.find_spec(v, x) == branched.find_spec(v, x));
        assert(branched.find_spec(v, x) == o.find_spec(v, x));
    }
    if failed {
        assert(probed.state(parent) == branched.state(parent));
        assert forall|x: TyId| #[trigger] egraph.find_spec(parent, x) == o.find_spec(parent, x) by {
            assert(probed.find_spec(parent, x) == branched.find_spec(parent, x));
            assert(branched.find_spec(parent, x) == o.find_spec(parent, x));
        }
        branched.lemma_view_frame(o, child, parent);
        probed.lemma_view_frame(branched, child, parent);
        assert forall|x: TyId| #[trigger] egraph.bound_spec(parent, x) == o.bound_spec(parent, x) by {
            assert(probed.eff_bound(parent, x) == branched.eff_bound(parent, x));
            assert(branched.eff_bound(parent, x) == o.eff_bound(parent, x));
        }
        assert forall|i: InferVarIndex| #[trigger] egraph.universe_spec(parent, i) == o.universe_spec(parent, i) by {
            assert(probed.eff_ceiling(parent, i) == branched.eff_ceiling(parent, i));
            assert(branched.eff_ceiling(parent, i) == o.eff_ceiling(parent, i));
        }
    }
    assert forall|i: int|
        0 <= i < stash.types().len() && (#[trigger] stash.types()[i]) is InferVar implies {
        let v = stash.types()[i]->InferVar_0;
        &&& v.0 < egraph.tree().vars().len()
        &&& egraph.tree().ancestor(egraph.tree().vars()[v.0 as int].owner, parent)
    } by {
        assert(i < os.types().len());
        assert(stash.types()[i] == os.types()[i]);
        let owner = o.tree().vars()[(os.types()[i]->InferVar_0).0 as int].owner;
        assert(o.tree().ancestor(owner, parent));
        assert(branched.tree().ancestor(owner, parent) == o.tree().ancestor(owner, parent));
        assert(probed.tree().ancestor(owner, parent) == branched.tree().ancestor(owner, parent));
        assert(egraph.tree().ancestor(owner, parent) == probed.tree().ancestor(owner, parent));
    }
}

/// Every transaction, committed or not, leaves its parent ready for the
/// next unification step.
pub proof fn law_transaction_keeps_parent_ready(
    new: &VersionedEGraph,
    old: &VersionedEGraph,
    new_stash: &TyStore,
    old_stash: &TyStore,
    parent: Version,
)
    requires
        transaction_frame(new, old, new_stash, old_stash, parent),
    ensures
        probe_ready(new, new_stash, parent),
{
}

/// A failed transaction leaves the classes, bounds and universes of its
/// parent, and the state of every other version, as they were.
pub proof fn law_failed_transaction_changes_nothing(
    new: &VersionedEGraph,
    old: &VersionedEGraph,
    new_stash: &TyStore,
    old_stash: &TyStore,
    parent: Version,
    w: Version,
    x: TyId,
)
    requires
        transaction_frame(new, old, new_stash, old_stash, parent),
        rolled_back(new, old, new_stash, old_stash, parent),
        old.tree().is_known(w),
    ensures
        new.state(w) == old.state(w),
        new.find_spec(parent, x) == old.find_spec(parent, x),
        new.bound_spec(parent, x) == old.bound_spec(parent, x),
        old.tree().live(w) ==> new.find_spec(w, x) == old.find_spec(w, x),
{
}

/// The answer of a batch follows its first pair where the first pair
/// decides it.
proof fn lemma_batch_result(
    o: &VersionedEGraph,
    os: &TyStore,
    parent: Version,
    equalities: Seq<(TyId, TyId)>,
    branched: &VersionedEGraph,
    child: Version,
    outcome: Result<(), UnifyError>,
    result: Result<CommitEffects, UnifyError>,
)
    requires
        forall|x: TyId| #[trigger] branched.find_spec(child, x) == o.find_spec(parent, x),
        forall|x: TyId| #[trigger] branched.bound_spec(child, x) == o.bound_spec(parent, x),
        forall|i: InferVarIndex| #[trigger] branched.universe_spec(child, i) == o.universe_spec(parent, i),
        branched.placeholders() == o.placeholders(),
        equalities.len() > 0 ==> (top_outcome(branched, os, child, equalities[0].0, equalities[0].1) matches Some(
            Err(e),
        ) ==> outcome == Err::<(), UnifyError>(e)),
        equalities.len() == 1 ==> (top_outcome(branched, os, child, equalities[0].0, equalities[0].1) matches Some(
            Ok(()),
        ) ==> outcome is Ok),
        outcome matches Err(e) ==> result == Err::<CommitEffects, UnifyError>(e),
        outcome is Ok ==> result is Ok,
    ensures
        equalities.len() > 0 ==> (top_outcome(o, os, parent, equalities[0].0, equalities[0].1) matches Some(
            Err(e),
        ) ==> result == Err::<CommitEffects, UnifyError>(e)),
        equalities.len() == 1 ==> (top_outcome(o, os, parent, equalities[0].0, equalities[0].1) matches Some(
            Ok(()),
        ) ==> result is Ok),
{
    if equalities.len() > 0 {
        lemma_top_same(branched, child, o, parent, os, equalities[0].0, equalities[0].1);
    }
}

/// The effect of a single binding carries over from the probe to its
/// committed parent.
proof fn lemma_batch_bind(
    o: &VersionedEGraph,
    os: &TyStore,
    parent: Version,
    equalities: Seq<(TyId, TyId)>,
    branched: &VersionedEGraph,
    probed: &VersionedEGraph,
    fin: &VersionedEGraph,
    child: Version,
    outcome: Result<(), UnifyError>,
    result: Result<CommitEffects, UnifyError>,
)
    requires
        forall|x: TyId| #[trigger] branched.find_spec(child, x) == o.find_spec(parent, x),
        forall|x: TyId| #[trigger] branched.bound_spec(child, x) == o.bound_spec(parent, x),
        forall|i: InferVarIndex| #[trigger] branched.universe_spec(child, i) == o.universe_spec(parent, i),
        branched.tree().vars() == o.tree().vars(),
        equalities.len() == 1 && outcome is Ok ==> top_bind_effect(
            probed,
            child,
            branched,
            child,
            os,
            equalities[0].0,
            equalities[0].1,
        ),
        result is Ok ==> outcome is Ok,
        result is Ok ==> forall|x: TyId| #[trigger] fin.bound_spec(parent, x) == probed.bound_spec(child, x),
        result is Ok ==> forall|i: InferVarIndex|
            i.0 < o.tree().vars().len() ==> #[trigger] fin.universe_spec(parent, i) == probed.universe_spec(child, i),
    ensures
        equalities.len() == 1 && result is Ok ==> top_bind_effect(
            fin,
            parent,
            o,
            parent,
            os,
            equalities[0].0,
            equalities[0].1,
        ),
{
    if equalities.len() == 1 && result is Ok {
        let a = equalities[0].0;
        let b = equalities[0].1;
        let l = o.find_spec(parent, a);
        let r = o.find_spec(parent, b);
        assert(branched.find_spec(child, a) == l);
        assert(branched.find_spec(child, b) == r);
        let tl = os.types()[l.0 as int];
        let tr = os.types()[r.0 as int];
        if !(l == r || tl is Error || tr is Error || (tl is InferVar && tr is InferVar)) {
            let (var_ty, value) = if tl is InferVar {
                (l, r)
            } else {
                (r, l)
            };
            if tl is InferVar || tr is InferVar {
                let v = os.types()[var_ty.0 as int]->InferVar_0;
                assert(bind_effect(probed, child, branched, child, os, var_ty, v, value));
                assert(o.universe_spec(parent, v) == branched.universe_spec(child, v));
                assert forall|i: InferVarIndex, fuel: nat|
                    i.0 < o.tree().vars().len() && #[trigger] reaches_var(o, os, parent, i, value, fuel)
                    implies fin.universe_spec(parent, i).0 <= o.universe_spec(parent, v).0 by {
                    lemma_reaches_same(branched, child, o, parent, os, i, value, fuel);
                    assert(reaches_var(branched, os, child, i, value, fuel));
                    assert(fin.universe_spec(parent, i) == probed.universe_spec(child, i));
                }
                assert(fin.bound_spec(parent, var_ty) == probed.bound_spec(child, var_ty));
                assert(bind_effect(fin, parent, o, parent, os, var_ty, v, value));
            }
        }
    }
}

/// Apply a batch of structural equalities in one transaction against
/// `parent`: either all of them are committed, after congruence is
/// restored, or `parent` is left exactly as it was.
pub fn try_unify_batch(
    egraph: &mut VersionedEGraph,
    stash: &mut TyStore,
    parent: Version,
    equalities: &[(TyId, TyId)],
) -> (result: Result<CommitEffects, UnifyError>)
    requires
        probe_ready(old(egraph), old(stash), parent),
        old(egraph).tree().num_versions() <= u32::MAX,
        forall|k: int|
            0 <= k < equalities@.len() ==> (#[trigger] equalities@[k]).0.0 < old(stash).types().len()
                && equalities@[k].1.0 < old(stash).types().len(),
    ensures
        transaction_frame(final(egraph), old(egraph), final(stash), old(stash), parent),
        equalities@.len() > 0 ==> (top_outcome(
            old(egraph),
            old(stash),
            parent,
            equalities@[0].0,
            equalities@[0].1,
        ) matches Some(Err(e)) ==> result == Err::<CommitEffects, UnifyError>(e)),
        equalities@.len() == 1 ==> (top_outcome(
            old(egraph),
            old(stash),
            parent,
            equalities@[0].0,
            equalities@[0].1,
        ) matches Some(Ok(())) ==> result is Ok),
        equalities@.len() == 1 && result is Ok ==> top_bind_effect(
            final(egraph),
            parent,
            old(egraph),
            parent,
            old(stash),
            equalities@[0].0,
            equalities@[0].1,
        ),
        match result {
            Ok(effects) => {
                &&& effects.semantic_revision == final(egraph).state(parent).semantic_revision
                &&& strictly_sorted(effects.wakes@)
                &&& forall|k: int|
                    0 <= k < equalities@.len() ==> final(egraph).find_spec(
                        parent,
                        (#[trigger] equalities@[k]).0,
                    ) == final(egraph).find_spec(parent, equalities@[k].1)
                &&& forall|y: TyId| #[trigger]
                    final(egraph).find_spec(parent, y) == final(egraph).find_spec(
                        parent,
                        old(egraph).find_spec(parent, y),
                    )
                &&& forall|i: InferVarIndex|
                    i.0 < old(egraph).tree().vars().len() ==> #[trigger] final(egraph).universe_spec(
                        parent,
                        i,
                    ).0 <= old(egraph).universe_spec(parent, i).0
                &&& forall|i: InferVarIndex|
                    i.0 < old(egraph).tree().vars().len() && final(egraph).universe_spec(parent, i).0
                        < old(egraph).universe_spec(parent, i).0 ==> #[trigger] effects.wakes@.contains(i)
            },
            Err(e) => {
                &&& rolled_back(final(egraph), old(egraph), final(stash), old(stash), parent)
                &&& match e {
                    UnifyError::Mismatch { left, right } => clash(old(stash), left, right),
                    UnifyError::UniverseLeak { variable, ceiling } => exists|p: GenericParam|
                        #[trigger] final(egraph).placeholder_spec(p).0 > ceiling.0,
                    UnifyError::Reported(error) => old(stash).types().contains(Ty::Error(error)),
                    UnifyError::OccursCheck { variable, in_ty } => in_ty.0 < old(stash).types().len()
                        && old(stash).types().contains(Ty::InferVar(variable)),
                }
            },
        },
{
    let ghost o = *egraph;
    let ghost os = *stash;
    let child = open_probe(egraph, stash, parent);
    let ghost branched = *egraph;
    let outcome = unify_all(egraph, stash, child, equalities);
    let ghost probed = *egraph;
    proof {
        egraph.lemma_tree_wf();
        egraph.tree().lemma_live(child);
        egraph.tree().lemma_live(parent);
    }
    let result = settle_probe(egraph, stash, parent, child, outcome);
    proof {
        lemma_batch_result(&o, &os, parent, equalities@, &branched, child, outcome, result);
        lemma_batch_bind(&o, &os, parent, equalities@, &branched, &probed, egraph, child, outcome, result);
        lemma_close_transaction(egraph, &probed, &branched, &o, stash, &os, parent, child, outcome is Err);
        match outcome {
            Err(UnifyError::UniverseLeak { variable, ceiling }) => {
                let p = choose|p: GenericParam| #[trigger] probed.placeholder_spec(p).0 > ceiling.0;
                assert(egraph.placeholder_spec(p) == probed.placeholder_spec(p));
            },
            Ok(()) => {
                assert forall|y: TyId| #[trigger] egraph.find_spec(parent, y) == egraph.find_spec(
                    parent,
                    o.find_spec(parent, y),
                ) by {
                    let z = o.find_spec(parent, y);
                    assert(branched.find_spec(child, y) == z);
                    assert(probed.find_spec(child, y) == probed.find_spec(child, z));
                    assert(egraph.find_spec(parent, y) == egraph.find_spec(parent, probed.find_spec(child, y)));
                    assert(egraph.find_spec(parent, z) == egraph.find_spec(parent, probed.find_spec(child, z)));
                }
                let effects = result->Ok_0;
                assert forall|i: InferVarIndex| i.0 < o.tree().vars().len() implies #[trigger] egraph.universe_spec(
                    parent,
                    i,
                ).0 <= o.universe_spec(parent, i).0 by {
                    assert(egraph.universe_spec(parent, i) == probed.universe_spec(child, i));
                    assert(branched.universe_spec(child, i) == o.universe_spec(parent, i));
                    assert(probed.universe_spec(child, i).0 <= branched.universe_spec(child, i).0);
                }
                assert forall|i: InferVarIndex|
                    i.0 < o.tree().vars().len() && egraph.universe_spec(parent, i).0 < o.universe_spec(parent, i).0
                    implies #[trigger] effects.wakes@.contains(i) by {
                    assert(egraph.universe_spec(parent, i) == probed.universe_spec(child, i));
                    assert(branched.universe_spec(child, i) == o.universe_spec(parent, i));
                    assert(probed.state(child).wakes.contains(i));
                }
                assert forall|k: int| 0 <= k < equalities@.len() implies egraph.find_spec(
                    parent,
                    (#[trigger] equalities@[k]).0,
                ) == egraph.find_spec(parent, equalities@[k].1) by {
                    let a = equalities@[k].0;
                    let b = equalities@[k].1;
                    assert(probed.find_spec(child, a) == probed.find_spec(child, b));
                    assert(egraph.find_spec(parent, a) == egraph.find_spec(parent, probed.find_spec(child, a)));
                    assert(egraph.find_spec(parent, b) == egraph.find_spec(parent, probed.find_spec(child, b)));
                }
            },
            _ => {},
        }
    }
    result
}

/// Apply one structural equality in a transaction against `parent`.
pub fn try_unify(
    egraph: &mut VersionedEGraph,
    stash: &mut TyStore,
    parent: Version,
    left: TyId,
    right: TyId,
) -> (result: Result<CommitEffects, UnifyError>)
    requires
        probe_ready(old(egraph), old(stash), parent),
        old(egraph).tree().num_versions() <= u32::MAX,
        left.0 < old(stash).types().len(),
        right.0 < old(stash).types().len(),
    ensures
        transaction_frame(final(egraph), old(egraph), final(stash), old(stash), parent),
        top_outcome(old(egraph), old(stash), parent, left, right) matches Some(o) ==> match o {
            Ok(()) => result is Ok,
            Err(e) => result == Err::<CommitEffects, UnifyError>(e),
        },
        result is Ok ==> top_bind_effect(final(egraph), parent, old(egraph), parent, old(stash), left, right),
        match result {
            Ok(effects) => {
                &&& effects.semantic_revision == final(egraph).state(parent).semantic_revision
                &&& strictly_sorted(effects.wakes@)
                &&& final(egraph).find_spec(parent, left) == final(egraph).find_spec(parent, right)
                &&& forall|y: TyId| #[trigger]
                    final(egraph).find_spec(parent, y) == final(egraph).find_spec(
                        parent,
                        old(egraph).find_spec(parent, y),
                    )
                &&& forall|i: InferVarIndex|
                    i.0 < old(egraph).tree().vars().len() ==> #[trigger] final(egraph).universe_spec(
                        parent,
                        i,
                    ).0 <= old(egraph).universe_spec(parent, i).0
                &&& forall|i: InferVarIndex|
                    i.0 < old(egraph).tree().vars().len() && final(egraph).universe_spec(parent, i).0
                        < old(egraph).universe_spec(parent, i).0 ==> #[trigger] effects.wakes@.contains(i)
            },
            Err(e) => {
                &&& rolled_back(final(egraph), old(egraph), final(stash), old(stash), parent)
                &&& match e {
                    UnifyError::Mismatch { left, right } => clash(old(stash), left, right),
                    UnifyError::UniverseLeak { variable, ceiling } => exists|p: GenericParam|
                        #[trigger] final(egraph).placeholder_spec(p).0 > ceiling.0,
                    UnifyError::Reported(error) => old(stash).types().contains(Ty::Error(error)),
                    UnifyError::OccursCheck { variable, in_ty } => in_ty.0 < old(stash).types().len()
                        && old(stash).types().contains(Ty::InferVar(variable)),
                }
            },
        },
{
    let equalities = vec![(left, right)];
    let result = try_unify_batch(egraph, stash, parent, equalities.as_slice());
    proof {
        assert(equalities@[0] == (left, right));
    }
    result
}

/// Set a bound in a transaction against `parent`, validating and lowering
/// universes first. On success the representative of `variable_ty` has
/// exactly `bound`; on failure `parent` is left exactly as it was.
pub fn try_set_bound(
    egraph: &mut VersionedEGraph,
    stash: &mut TyStore,
    parent: Version,
    variable_ty: TyId,
    bound: Bound,
) -> (result: Result<CommitEffects, UnifyError>)
    requires
        probe_ready(old(egraph), old(stash), parent),
        old(egraph).tree().num_versions() <= u32::MAX,
        variable_ty.0 < old(stash).types().len(),
        bound.spec_ty() matches Some(t) ==> t.0 < old(stash).types().len(),
    ensures
        transaction_frame(final(egraph), old(egraph), final(stash), old(stash), parent),
        ({
            let root = old(egraph).find_spec(parent, variable_ty);
            match result {
                Ok(effects) => {
                    &&& effects.semantic_revision == final(egraph).state(parent).semantic_revision
                    &&& strictly_sorted(effects.wakes@)
                    &&& old(stash).types()[root.0 as int] is InferVar
                    &&& final(egraph).bound_spec(parent, root) == bound
                    &&& forall|i: InferVarIndex|
                        i.0 < old(egraph).tree().vars().len() ==> #[trigger] final(egraph).universe_spec(
                            parent,
                            i,
                        ).0 <= old(egraph).universe_spec(parent, i).0
                    &&& forall|i: InferVarIndex|
                        i.0 < old(egraph).tree().vars().len() && final(egraph).universe_spec(parent, i).0
                            < old(egraph).universe_spec(parent, i).0 ==> #[trigger] effects.wakes@.contains(i)
                    &&& bound.spec_ty() matches Some(t) ==> forall|fuel: nat|
                        !#[trigger] reaches_leak(
                            old(egraph),
                            old(stash),
                            parent,
                            old(egraph).universe_spec(parent, old(stash).types()[root.0 as int]->InferVar_0),
                            t,
                            fuel,
                        )
                },
                Err(e) => {
                    &&& rolled_back(final(egraph), old(egraph), final(stash), old(stash), parent)
                    &&& match e {
                        UnifyError::Mismatch { left, right } => {
                            &&& !(old(stash).types()[root.0 as int] is InferVar)
                            &&& left == root
                            &&& right == match bound.spec_ty() {
                                Some(t) => t,
                                None => root,
                            }
                        },
                        UnifyError::UniverseLeak { variable, ceiling } => {
                            &&& old(stash).types()[root.0 as int] == Ty::InferVar(variable)
                            &&& ceiling == old(egraph).universe_spec(parent, variable)
                            &&& exists|p: GenericParam| #[trigger] final(egraph).placeholder_spec(p).0 > ceiling.0
                            &&& bound.spec_ty() matches Some(t) && exists|fuel: nat|
                                #[trigger] reaches_leak(old(egraph), old(stash), parent, ceiling, t, fuel)
                        },
                        _ => false,
                    }
                },
            }
        }),
{
    let ghost o = *egraph;
    let ghost os = *stash;
    let child = open_probe(egraph, stash, parent);
    let ghost branched = *egraph;
    let outcome = set_bound_in_probe(egraph, stash, child, variable_ty, bound);
    let ghost probed = *egraph;
    proof {
        egraph.lemma_tree_wf();
        egraph.tree().lemma_live(child);
        egraph.tree().lemma_live(parent);
    }
    let result = settle_probe(egraph, stash, parent, child, outcome);
    proof {
        lemma_close_transaction(egraph, &probed, &branched, &o, stash, &os, parent, child, outcome is Err);
        let root = o.find_spec(parent, variable_ty);
        assert(branched.find_spec(child, variable_ty) == root);
        if outcome is Ok {
            assert(egraph.bound_spec(parent, root) == probed.bound_spec(child, root));
            let effects = result->Ok_0;
            assert forall|i: InferVarIndex| i.0 < o.tree().vars().len() implies #[trigger] egraph.universe_spec(
                parent,
                i,
            ).0 <= o.universe_spec(parent, i).0 by {
                assert(egraph.universe_spec(parent, i) == probed.universe_spec(child, i));
                assert(branched.universe_spec(child, i) == o.universe_spec(parent, i));
                assert(probed.universe_spec(child, i).0 <= branched.universe_spec(child, i).0);
            }
            assert forall|i: InferVarIndex|
                i.0 < o.tree().vars().len() && egraph.universe_spec(parent, i).0 < o.universe_spec(parent, i).0
                implies #[trigger] effects.wakes@.contains(i) by {
                assert(egraph.universe_spec(parent, i) == probed.universe_spec(child, i));
                assert(branched.universe_spec(child, i) == o.universe_spec(parent, i));
                assert(probed.state(child).wakes.contains(i));
            }
            match bound.spec_ty() {
                Some(t) => {
                    let ceiling = o.universe_spec(parent, os.types()[root.0 as int]->InferVar_0);
                    assert(branched.universe_spec(child, os.types()[root.0 as int]->InferVar_0) == ceiling);
                    assert forall|fuel: nat| !#[trigger] reaches_leak(&o, &os, parent, ceiling, t, fuel) by {
                        lemma_leak_same(&branched, child, &o, parent, &os, ceiling, t, fuel);
                    }
                },
                None => {},
            }
        }
        match outcome {
            Err(UnifyError::UniverseLeak { variable, ceiling }) => {
                assert(branched.universe_spec(child, variable) == o.universe_spec(parent, variable));
                let p = choose|p: GenericParam| #[trigger] probed.placeholder_spec(p).0 > ceiling.0;
                assert(egraph.placeholder_spec(p) == probed.placeholder_spec(p));
                let t = bound.spec_ty()->0;
                let f = choose|f: nat| #[trigger] reaches_leak(&branched, &os, child, ceiling, t, f);
                lemma_leak_same(&branched, child, &o, parent, &os, ceiling, t, f);
            },
            _ => {},
        }
    }
    result
}

/// Membership test on a list of type identities.
fn contains_id(ids: &Vec<TyId>, x: TyId) -> (found: bool)
    ensures
        found == ids@.contains(x),
{
    let mut i: usize = 0;
    while i < ids.len()
        invariant
            i <= ids@.len(),
            forall|j: int| 0 <= j < i ==> ids@[j] != x,
        decreases ids@.len() - i,
    {
        if ids[i] == x {
            return true;
        }
        i += 1;
    }
    false
}

} // verus!
