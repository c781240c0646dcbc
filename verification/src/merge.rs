//! Comparing definite solver answers: directional matching of goals and
//! types, where flexible parameters of the required side may be bound to
//! types of the known side.
use vstd::prelude::*;

use crate::egraph::log_get;
use crate::generic_param::{AlphaEquivParam, GenericParam};
use crate::goal::{
    flat_goal, goal_refs, goal_tys_ok, push_flat_goal, response_vars_at, Atom, Goal, GoalEntry,
    GoalStore, QueryResult, QueryResultData,
};
use crate::skeleton::{children, decompose, decomposition};
use crate::ty::{TraitRef, Ty, TyId, TyStore};

verus! {

/// Bindings of flexible parameters, oldest first.
pub type Bindings = Seq<(AlphaEquivParam, TyId)>;

/// `l` and `r` have the same skeleton and, pairwise, structurally equal
/// children.
pub open spec fn same_structure(stash: &TyStore, l: TyId, r: TyId) -> bool
    decreases l.0 as nat + 1, 0nat,
{
    if l == r {
        true
    } else {
        let (ls, lc) = decomposition(stash.types()[l.0 as int], stash.lists());
        let (rs, rc) = decomposition(stash.types()[r.0 as int], stash.lists());
        ls == rs && lc.len() == rc.len() && pairs_same(stash, lc, rc, l.0 as nat)
    }
}

/// Each of `ls` below `bound` is structurally equal to the type at the same
/// position of `rs`.
pub open spec fn pairs_same(stash: &TyStore, ls: Seq<TyId>, rs: Seq<TyId>, bound: nat) -> bool
    decreases bound, ls.len(),
{
    if ls.len() == 0 {
        true
    } else if ls[0].0 < bound {
        same_structure(stash, ls[0], rs[0]) && pairs_same(stash, ls.drop_first(), rs.drop_first(), bound)
    } else {
        false
    }
}

/// `ty` is a canonical parameter whose universe in `universes` exceeds
/// `ceiling`.
pub open spec fn newer_param(ty: Ty, ceiling: u32, universes: Seq<(AlphaEquivParam, u32)>) -> bool {
    match ty {
        Ty::Param(GenericParam::AlphaEquiv(p)) => match log_get(universes, p) {
            Some(u) => u > ceiling,
            None => false,
        },
        _ => false,
    }
}

/// A canonical parameter newer than `ceiling` occurs in `ty`.
pub open spec fn has_newer_param(
    stash: &TyStore,
    ty: TyId,
    ceiling: u32,
    universes: Seq<(AlphaEquivParam, u32)>,
) -> bool
    decreases ty.0 as nat + 1, 0nat,
{
    newer_param(stash.types()[ty.0 as int], ceiling, universes) || any_newer_param(
        stash,
        children(stash.types()[ty.0 as int], stash.lists()),
        ceiling,
        universes,
        ty.0 as nat,
    )
}

/// One of `ids` below `bound` holds a canonical parameter newer than
/// `ceiling`.
pub open spec fn any_newer_param(
    stash: &TyStore,
    ids: Seq<TyId>,
    ceiling: u32,
    universes: Seq<(AlphaEquivParam, u32)>,
    bound: nat,
) -> bool
    decreases bound, ids.len(),
{
    if ids.len() == 0 {
        false
    } else if ids[0].0 < bound {
        has_newer_param(stash, ids[0], ceiling, universes) || any_newer_param(
            stash,
            ids.drop_first(),
            ceiling,
            universes,
            bound,
        )
    } else {
        any_newer_param(stash, ids.drop_first(), ceiling, universes, bound)
    }
}

/// The flexible parameter `ty` is, if it is one.
pub open spec fn flexible_param(ty: Ty, flexible: Set<AlphaEquivParam>) -> Option<AlphaEquivParam> {
    match ty {
        Ty::Param(GenericParam::AlphaEquiv(p)) => if flexible.contains(p) {
            Some(p)
        } else {
            None
        },
        _ => None,
    }
}

/// The universe recorded for `p`, or the root universe.
pub open spec fn universe_or_root(universes: Seq<(AlphaEquivParam, u32)>, p: AlphaEquivParam) -> u32 {
    match log_get(universes, p) {
        Some(u) => u,
        None => 0,
    }
}

/// Whether `required` matches `known`, and the bindings afterwards: equal
/// types match; a flexible parameter matches a type structurally equal to
/// its binding, or, when unbound, any type without a newer parameter, and
/// is then bound to it; other types match when their skeletons agree and
/// their children match pairwise, left to right, stopping at the first
/// failure.
pub open spec fn match_ty(
    stash: &TyStore,
    required: TyId,
    known: TyId,
    flexible: Set<AlphaEquivParam>,
    universes: Seq<(AlphaEquivParam, u32)>,
    bindings: Bindings,
) -> (bool, Bindings)
    decreases required.0 as nat + 1, 0nat,
{
    if required == known {
        (true, bindings)
    } else {
        match flexible_param(stash.types()[required.0 as int], flexible) {
            Some(p) => match log_get(bindings, p) {
                Some(previous) => (same_structure(stash, previous, known), bindings),
                None => if has_newer_param(stash, known, universe_or_root(universes, p), universes) {
                    (false, bindings)
                } else {
                    (true, bindings.push((p, known)))
                },
            },
            None => {
                let (rs, rc) = decomposition(stash.types()[required.0 as int], stash.lists());
                let (ks, kc) = decomposition(stash.types()[known.0 as int], stash.lists());
                if rs == ks && rc.len() == kc.len() {
                    match_pairs(stash, rc, kc, flexible, universes, bindings, required.0 as nat)
                } else {
                    (false, bindings)
                }
            },
        }
    }
}

/// Match `required` against `known` pairwise, left to right, threading the
/// bindings and stopping at the first failure.
pub open spec fn match_pairs(
    stash: &TyStore,
    required: Seq<TyId>,
    known: Seq<TyId>,
    flexible: Set<AlphaEquivParam>,
    universes: Seq<(AlphaEquivParam, u32)>,
    bindings: Bindings,
    bound: nat,
) -> (bool, Bindings)
    decreases bound, required.len(),
{
    if required.len() == 0 {
        (true, bindings)
    } else if required[0].0 < bound {
        let (ok, next) = match_ty(stash, required[0], known[0], flexible, universes, bindings);
        if ok {
            match_pairs(
                stash,
                required.drop_first(),
                known.drop_first(),
                flexible,
                universes,
                next,
                bound,
            )
        } else {
            (false, next)
        }
    } else {
        (false, bindings)
    }
}

/// Whether goal `required` follows from goal `known`, and the bindings
/// afterwards. Atoms are matched type by type (an equality either way
/// round); other goals only when they are the same.
pub open spec fn match_goal(
    stash: &TyStore,
    required: Goal,
    known: Goal,
    flexible: Set<AlphaEquivParam>,
    universes: Seq<(AlphaEquivParam, u32)>,
    bindings: Bindings,
) -> (bool, Bindings) {
    match (required, known) {
        (
            Goal::Atom(Atom::TraitImpl { self_ty: required_self, trait_ref: required_ref }),
            Goal::Atom(Atom::TraitImpl { self_ty: known_self, trait_ref: known_ref }),
        ) => {
            let required_args = stash.lists()[required_ref.args.0 as int];
            let known_args = stash.lists()[known_ref.args.0 as int];
            if required_ref.trait_sym == known_ref.trait_sym && required_args.len()
                == known_args.len() {
                let (ok, next) = match_ty(
                    stash,
                    required_self,
                    known_self,
                    flexible,
                    universes,
                    bindings,
                );
                if ok {
                    match_pairs(
                        stash,
                        required_args,
                        known_args,
                        flexible,
                        universes,
                        next,
                        stash.types().len(),
                    )
                } else {
                    (false, next)
                }
            } else {
                (false, bindings)
            }
        },
        (
            Goal::Atom(Atom::Equals(required_left, required_right)),
            Goal::Atom(Atom::Equals(known_left, known_right)),
        ) => {
            let (left_ok, after_left) = match_ty(
                stash,
                required_left,
                known_left,
                flexible,
                universes,
                bindings,
            );
            let direct = if left_ok {
                match_ty(stash, required_right, known_right, flexible, universes, after_left)
            } else {
                (false, after_left)
            };
            if direct.0 {
                direct
            } else {
                let (swapped_ok, after_swapped) = match_ty(
                    stash,
                    required_left,
                    known_right,
                    flexible,
                    universes,
                    bindings,
                );
                if swapped_ok {
                    match_ty(stash, required_right, known_left, flexible, universes, after_swapped)
                } else {
                    (false, after_swapped)
                }
            }
        },
        (Goal::Atom(_), Goal::Atom(_)) => (false, bindings),
        (Goal::Maybe, Goal::Maybe) => (true, bindings),
        (Goal::Exists(r), Goal::Exists(k)) => (r == k, bindings),
        (Goal::Implies(ra, rg), Goal::Implies(ka, kg)) => (ra == ka && rg == kg, bindings),
        (Goal::All(r), Goal::All(k)) => (r == k, bindings),
        _ => (false, bindings),
    }
}

/// `s` without repeats, keeping first occurrences in order.
pub open spec fn first_occurrences<T>(s: Seq<T>) -> Seq<T>
    decreases s.len(),
{
    if s.len() == 0 {
        Seq::empty()
    } else {
        let kept = first_occurrences(s.drop_last());
        if kept.contains(s.last()) {
            kept
        } else {
            kept.push(s.last())
        }
    }
}

/// `old` is a prefix of `new`: nothing bound is lost or rebound.
pub open spec fn extends_bindings(new: Bindings, old: Bindings) -> bool {
    old.len() <= new.len() && new.subrange(0, old.len() as int) == old
}

/// Bindings extend themselves.
proof fn lemma_extends_refl(b: Bindings)
    ensures
        extends_bindings(b, b),
{
    assert(b.subrange(0, b.len() as int) =~= b);
}

/// Extending bindings composes.
proof fn lemma_extends_trans(c: Bindings, b: Bindings, a: Bindings)
    requires
        extends_bindings(c, b),
        extends_bindings(b, a),
    ensures
        extends_bindings(c, a),
{
    assert(c.subrange(0, a.len() as int) =~= c.subrange(0, b.len() as int).subrange(0, a.len() as int));
}

/// Every binding's value is a type of `stash`.
pub open spec fn bindings_ok(stash: &TyStore, bindings: Bindings) -> bool {
    forall|k: int| 0 <= k < bindings.len() ==> (#[trigger] bindings[k]).1.0 < stash.types().len()
}

/// The value bound to `p`, if any, is a type of `stash`.
proof fn lemma_binding_in_store(stash: &TyStore, bindings: Bindings, p: AlphaEquivParam)
    requires
        bindings_ok(stash, bindings),
    ensures
        log_get(bindings, p) matches Some(v) ==> v.0 < stash.types().len(),
    decreases bindings.len(),
{
    if bindings.len() > 0 {
        assert(bindings.last() == bindings[bindings.len() - 1]);
        assert forall|k: int| 0 <= k < bindings.len() - 1 implies (#[trigger] bindings.drop_last()[k]).1.0
            < stash.types().len() by {
            assert(bindings.drop_last()[k] == bindings[k]);
        }
        lemma_binding_in_store(stash, bindings.drop_last(), p);
    }
}

/// Whether `p` is among `flexible`.
fn is_flexible(flexible: &[AlphaEquivParam], p: AlphaEquivParam) -> (found: bool)
    ensures
        found == flexible@.contains(p),
{
    let mut i: usize = 0;
    while i < flexible.len()
        invariant
            i <= flexible@.len(),
            forall|j: int| 0 <= j < i ==> flexible@[j] != p,
        decreases flexible@.len() - i,
    {
        if flexible[i] == p {
            proof {
                assert(flexible@[i as int] == p);
            }
            return true;
        }
        i += 1;
    }
    false
}

/// The latest binding of `p`.
fn binding_of(bindings: &Vec<(AlphaEquivParam, TyId)>, p: AlphaEquivParam) -> (found: Option<TyId>)
    ensures
        found == log_get(bindings@, p),
{
    let mut i = bindings.len();
    proof {
        assert(bindings@.take(i as int) =~= bindings@);
    }
    while i > 0
        invariant
            i <= bindings@.len(),
            log_get(bindings@, p) == log_get(bindings@.take(i as int), p),
        decreases i,
    {
        let ghost prefix = bindings@.take(i as int);
        proof {
            assert(prefix.drop_last() =~= bindings@.take(i - 1));
        }
        if bindings[i - 1].0 == p {
            return Some(bindings[i - 1].1);
        }
        i -= 1;
    }
    proof {
        assert(bindings@.take(0) =~= Seq::<(AlphaEquivParam, TyId)>::empty());
    }
    None
}

/// The latest universe recorded for `p`.
fn universe_of(universes: &[(AlphaEquivParam, u32)], p: AlphaEquivParam) -> (found: Option<u32>)
    ensures
        found == log_get(universes@, p),
{
    let mut i = universes.len();
    proof {
        assert(universes@.take(i as int) =~= universes@);
    }
    while i > 0
        invariant
            i <= universes@.len(),
            log_get(universes@, p) == log_get(universes@.take(i as int), p),
        decreases i,
    {
        let ghost prefix = universes@.take(i as int);
        proof {
            assert(prefix.drop_last() =~= universes@.take(i - 1));
        }
        if universes[i - 1].0 == p {
            return Some(universes[i - 1].1);
        }
        i -= 1;
    }
    proof {
        assert(universes@.take(0) =~= Seq::<(AlphaEquivParam, u32)>::empty());
    }
    None
}

/// A copy of `bindings`.
fn copy_bindings(bindings: &Vec<(AlphaEquivParam, TyId)>) -> (copy: Vec<(AlphaEquivParam, TyId)>)
    ensures
        copy@ == bindings@,
{
    let mut copy: Vec<(AlphaEquivParam, TyId)> = Vec::new();
    let mut i: usize = 0;
    while i < bindings.len()
        invariant
            i <= bindings@.len(),
            copy@ == bindings@.take(i as int),
        decreases bindings@.len() - i,
    {
        copy.push(bindings[i]);
        proof {
            assert(bindings@.take(i + 1) =~= bindings@.take(i as int).push(bindings@[i as int]));
        }
        i += 1;
    }
    proof {
        assert(bindings@.take(bindings@.len() as int) =~= bindings@);
    }
    copy
}

/// Report whether `left` and `right` have the same structure.
pub fn structural_ty_eq(stash: &TyStore, left: TyId, right: TyId) -> (same: bool)
    requires
        stash.wf(),
        left.0 < stash.types().len(),
        right.0 < stash.types().len(),
    ensures
        same == same_structure(stash, left, right),
    decreases left.0,
{
    if left == right {
        return true;
    }
    let left_parts = decompose(stash, left);
    let right_parts = decompose(stash, right);
    if left_parts.skeleton != right_parts.skeleton {
        return false;
    }
    let ls = left_parts.child_ids();
    let rs = right_parts.child_ids();
    if ls.len() != rs.len() {
        return false;
    }
    let ghost bound = left.0 as nat;
    proof {
        assert(ls@.skip(0) =~= ls@);
        assert(rs@.skip(0) =~= rs@);
    }
    let mut i: usize = 0;
    while i < ls.len()
        invariant
            stash.wf(),
            bound == left.0,
            left.0 < stash.types().len(),
            same_structure(stash, left, right) == pairs_same(stash, ls@, rs@, bound),
            ls@.len() == rs@.len(),
            forall|k: int| 0 <= k < ls@.len() ==> (#[trigger] ls@[k]).0 < bound,
            forall|k: int| 0 <= k < rs@.len() ==> (#[trigger] rs@[k]).0 < stash.types().len(),
            i <= ls@.len(),
            pairs_same(stash, ls@, rs@, bound) == pairs_same(
                stash,
                ls@.skip(i as int),
                rs@.skip(i as int),
                bound,
            ),
        decreases ls@.len() - i,
    {
        proof {
            assert(ls@.skip(i as int).drop_first() =~= ls@.skip(i + 1));
            assert(rs@.skip(i as int).drop_first() =~= rs@.skip(i + 1));
            assert(ls@.skip(i as int)[0] == ls@[i as int]);
            assert(rs@.skip(i as int)[0] == rs@[i as int]);
        }
        if !structural_ty_eq(stash, ls[i], rs[i]) {
            return false;
        }
        i += 1;
    }
    proof {
        assert(ls@.skip(ls@.len() as int) =~= Seq::<TyId>::empty());
    }
    true
}

/// Report whether a canonical parameter newer than `ceiling` occurs in `ty`.
pub fn contains_newer_parameter(
    stash: &TyStore,
    ty: TyId,
    ceiling: u32,
    universes: &[(AlphaEquivParam, u32)],
) -> (newer: bool)
    requires
        stash.wf(),
        ty.0 < stash.types().len(),
    ensures
        newer == has_newer_param(stash, ty, ceiling, universes@),
    decreases ty.0,
{
    if let Ty::Param(GenericParam::AlphaEquiv(parameter)) = stash.get(ty) {
        match universe_of(universes, parameter) {
            Some(universe) => {
                if universe > ceiling {
                    return true;
                }
            },
            None => {},
        }
    }
    let parts = decompose(stash, ty);
    let kids = parts.child_ids();
    let ghost bound = ty.0 as nat;
    proof {
        assert(kids@.skip(0) =~= kids@);
    }
    let mut i: usize = 0;
    while i < kids.len()
        invariant
            stash.wf(),
            bound == ty.0,
            ty.0 < stash.types().len(),
            has_newer_param(stash, ty, ceiling, universes@) == any_newer_param(
                stash,
                kids@,
                ceiling,
                universes@,
                bound,
            ),
            forall|k: int| 0 <= k < kids@.len() ==> (#[trigger] kids@[k]).0 < bound,
            i <= kids@.len(),
            any_newer_param(stash, kids@, ceiling, universes@, bound) == any_newer_param(
                stash,
                kids@.skip(i as int),
                ceiling,
                universes@,
                bound,
            ),
        decreases kids@.len() - i,
    {
        proof {
            assert(kids@.skip(i as int).drop_first() =~= kids@.skip(i + 1));
            assert(kids@.skip(i as int)[0] == kids@[i as int]);
        }
        if contains_newer_parameter(stash, kids[i], ceiling, universes) {
            return true;
        }
        i += 1;
    }
    proof {
        assert(kids@.skip(kids@.len() as int) =~= Seq::<TyId>::empty());
    }
    false
}

/// Match the type `required` against `known`, binding flexible parameters
/// of `required` as needed.
pub fn directional_match_ty(
    stash: &TyStore,
    required: TyId,
    known: TyId,
    flexible: &[AlphaEquivParam],
    universes: &[(AlphaEquivParam, u32)],
    bindings: &mut Vec<(AlphaEquivParam, TyId)>,
) -> (matched: bool)
    requires
        stash.wf(),
        required.0 < stash.types().len(),
        known.0 < stash.types().len(),
        bindings_ok(stash, old(bindings)@),
    ensures
        (matched, final(bindings)@) == match_ty(
            stash,
            required,
            known,
            flexible@.to_set(),
            universes@,
            old(bindings)@,
        ),
        bindings_ok(stash, final(bindings)@),
        extends_bindings(final(bindings)@, old(bindings)@),
    decreases required.0,
{
    let ghost flex = flexible@.to_set();
    proof {
        lemma_extends_refl(bindings@);
    }
    if required == known {
        return true;
    }
    if let Ty::Param(GenericParam::AlphaEquiv(parameter)) = stash.get(required) {
        if is_flexible(flexible, parameter) {
            match binding_of(bindings, parameter) {
                Some(previous) => {
                    proof {
                        lemma_binding_in_store(stash, bindings@, parameter);
                    }
                    return structural_ty_eq(stash, previous, known);
                },
                None => {},
            }
            let ceiling = match universe_of(universes, parameter) {
                Some(universe) => universe,
                None => 0,
            };
            if contains_newer_parameter(stash, known, ceiling, universes) {
                return false;
            }
            let ghost before = bindings@;
            bindings.push((parameter, known));
            proof {
                assert(bindings@.subrange(0, before.len() as int) =~= before);
            }
            return true;
        }
    }
    let required_parts = decompose(stash, required);
    let known_parts = decompose(stash, known);
    if required_parts.skeleton != known_parts.skeleton {
        return false;
    }
    let rs = required_parts.child_ids();
    let ks = known_parts.child_ids();
    if rs.len() != ks.len() {
        return false;
    }
    let ghost bound = required.0 as nat;
    let ghost start = bindings@;
    proof {
        assert(rs@.skip(0) =~= rs@);
        assert(ks@.skip(0) =~= ks@);
    }
    let mut i: usize = 0;
    while i < rs.len()
        invariant
            stash.wf(),
            bound == required.0,
            required.0 < stash.types().len(),
            match_ty(stash, required, known, flex, universes@, old(bindings)@) == match_pairs(
                stash,
                rs@,
                ks@,
                flex,
                universes@,
                start,
                bound,
            ),
            flex == flexible@.to_set(),
            rs@.len() == ks@.len(),
            forall|k: int| 0 <= k < rs@.len() ==> (#[trigger] rs@[k]).0 < bound,
            forall|k: int| 0 <= k < ks@.len() ==> (#[trigger] ks@[k]).0 < stash.types().len(),
            i <= rs@.len(),
            bindings_ok(stash, bindings@),
            start == old(bindings)@,
            extends_bindings(bindings@, start),
            match_pairs(stash, rs@, ks@, flex, universes@, start, bound) == match_pairs(
                stash,
                rs@.skip(i as int),
                ks@.skip(i as int),
                flex,
                universes@,
                bindings@,
                bound,
            ),
        decreases rs@.len() - i,
    {
        proof {
            assert(rs@.skip(i as int).drop_first() =~= rs@.skip(i + 1));
            assert(ks@.skip(i as int).drop_first() =~= ks@.skip(i + 1));
            assert(rs@.skip(i as int)[0] == rs@[i as int]);
            assert(ks@.skip(i as int)[0] == ks@[i as int]);
        }
        let ghost before = bindings@;
        let matched = directional_match_ty(stash, rs[i], ks[i], flexible, universes, bindings);
        proof {
            lemma_extends_trans(bindings@, before, start);
        }
        if !matched {
            return false;
        }
        i += 1;
    }
    proof {
        assert(rs@.skip(rs@.len() as int) =~= Seq::<TyId>::empty());
    }
    true
}

/// Match each of `required` against the type at the same position of
/// `known`, left to right, stopping at the first failure.
fn directional_match_list(
    stash: &TyStore,
    required: &[TyId],
    known: &[TyId],
    flexible: &[AlphaEquivParam],
    universes: &[(AlphaEquivParam, u32)],
    bindings: &mut Vec<(AlphaEquivParam, TyId)>,
) -> (matched: bool)
    requires
        stash.wf(),
        required@.len() == known@.len(),
        forall|k: int| 0 <= k < required@.len() ==> (#[trigger] required@[k]).0 < stash.types().len(),
        forall|k: int| 0 <= k < known@.len() ==> (#[trigger] known@[k]).0 < stash.types().len(),
        bindings_ok(stash, old(bindings)@),
    ensures
        (matched, final(bindings)@) == match_pairs(
            stash,
            required@,
            known@,
            flexible@.to_set(),
            universes@,
            old(bindings)@,
            stash.types().len(),
        ),
        bindings_ok(stash, final(bindings)@),
        extends_bindings(final(bindings)@, old(bindings)@),
{
    let ghost flex = flexible@.to_set();
    let ghost bound = stash.types().len();
    let ghost start = bindings@;
    proof {
        lemma_extends_refl(bindings@);
    }
    proof {
        assert(required@.skip(0) =~= required@);
        assert(known@.skip(0) =~= known@);
    }
    let mut i: usize = 0;
    while i < required.len()
        invariant
            stash.wf(),
            bound == stash.types().len(),
            flex == flexible@.to_set(),
            start == old(bindings)@,
            required@.len() == known@.len(),
            forall|k: int| 0 <= k < required@.len() ==> (#[trigger] required@[k]).0 < bound,
            forall|k: int| 0 <= k < known@.len() ==> (#[trigger] known@[k]).0 < bound,
            i <= required@.len(),
            bindings_ok(stash, bindings@),
            extends_bindings(bindings@, start),
            match_pairs(stash, required@, known@, flex, universes@, start, bound) == match_pairs(
                stash,
                required@.skip(i as int),
                known@.skip(i as int),
                flex,
                universes@,
                bindings@,
                bound,
            ),
        decreases required@.len() - i,
    {
        proof {
            assert(required@.skip(i as int).drop_first() =~= required@.skip(i + 1));
            assert(known@.skip(i as int).drop_first() =~= known@.skip(i + 1));
            assert(required@.skip(i as int)[0] == required@[i as int]);
            assert(known@.skip(i as int)[0] == known@[i as int]);
        }
        let ghost before = bindings@;
        let matched = directional_match_ty(stash, required[i], known[i], flexible, universes, bindings);
        proof {
            lemma_extends_trans(bindings@, before, start);
        }
        if !matched {
            return false;
        }
        i += 1;
    }
    proof {
        assert(required@.skip(required@.len() as int) =~= Seq::<TyId>::empty());
    }
    true
}

/// Conservative directional implication between goals: whether `required`
/// follows from `known`, binding flexible parameters of `required` as
/// needed.
pub fn directional_match_goal(
    stash: &TyStore,
    required: Goal,
    known: Goal,
    flexible: &[AlphaEquivParam],
    universes: &[(AlphaEquivParam, u32)],
    bindings: &mut Vec<(AlphaEquivParam, TyId)>,
) -> (matched: bool)
    requires
        stash.wf(),
        goal_tys_ok(stash, required),
        goal_tys_ok(stash, known),
        bindings_ok(stash, old(bindings)@),
    ensures
        (matched, final(bindings)@) == match_goal(
            stash,
            required,
            known,
            flexible@.to_set(),
            universes@,
            old(bindings)@,
        ),
        bindings_ok(stash, final(bindings)@),
        extends_bindings(final(bindings)@, old(bindings)@),
{
    let ghost start = bindings@;
    proof {
        lemma_extends_refl(start);
    }
    match (required, known) {
        (Goal::Atom(required), Goal::Atom(known)) => match (required, known) {
            (
                Atom::TraitImpl { self_ty: required_self, trait_ref: required_ref },
                Atom::TraitImpl { self_ty: known_self, trait_ref: known_ref },
            ) => {
                let required_args = stash.list(required_ref.args);
                let known_args = stash.list(known_ref.args);
                if required_ref.trait_sym == known_ref.trait_sym && required_args.len()
                    == known_args.len() {
                    if !directional_match_ty(
                        stash,
                        required_self,
                        known_self,
                        flexible,
                        universes,
                        bindings,
                    ) {
                        return false;
                    }
                    let ghost middle = bindings@;
                    let matched = directional_match_list(
                        stash,
                        required_args,
                        known_args,
                        flexible,
                        universes,
                        bindings,
                    );
                    proof {
                        lemma_extends_trans(bindings@, middle, start);
                    }
                    matched
                } else {
                    false
                }
            },
            (
                Atom::Equals(required_left, required_right),
                Atom::Equals(known_left, known_right),
            ) => {
                let mut direct = copy_bindings(bindings);
                let direct_left = directional_match_ty(
                    stash,
                    required_left,
                    known_left,
                    flexible,
                    universes,
                    &mut direct,
                );
                let ghost middle = direct@;
                let direct_ok = direct_left && directional_match_ty(
                    stash,
                    required_right,
                    known_right,
                    flexible,
                    universes,
                    &mut direct,
                );
                if direct_ok {
                    proof {
                        lemma_extends_trans(direct@, middle, start);
                    }
                    *bindings = direct;
                    true
                } else {
                    if !directional_match_ty(
                        stash,
                        required_left,
                        known_right,
                        flexible,
                        universes,
                        bindings,
                    ) {
                        return false;
                    }
                    let ghost swapped = bindings@;
                    let matched = directional_match_ty(
                        stash,
                        required_right,
                        known_left,
                        flexible,
                        universes,
                        bindings,
                    );
                    proof {
                        lemma_extends_trans(bindings@, swapped, start);
                    }
                    matched
                }
            },
            _ => false,
        },
        (Goal::Maybe, Goal::Maybe) => true,
        (Goal::Exists(required), Goal::Exists(known)) => required == known,
        (
            Goal::Implies(required_assumptions, required_goal),
            Goal::Implies(known_assumptions, known_goal),
        ) => required_assumptions == known_assumptions && required_goal == known_goal,
        (Goal::All(required), Goal::All(known)) => required == known,
        _ => false,
    }
}

/// Whether `goal` is among `goals`.
fn goal_listed(goals: &Vec<Goal>, goal: Goal) -> (found: bool)
    ensures
        found == goals@.contains(goal),
{
    let mut i: usize = 0;
    while i < goals.len()
        invariant
            i <= goals@.len(),
            forall|j: int| 0 <= j < i ==> goals@[j] != goal,
        decreases goals@.len() - i,
    {
        if goals[i] == goal {
            proof {
                assert(goals@[i as int] == goal);
            }
            return true;
        }
        i += 1;
    }
    false
}

/// The conjuncts of `goal`, with nested conjunctions spliced in, each kept
/// once at its first position.
pub fn flattened_goals(store: &GoalStore, goal: Goal) -> (goals: Vec<Goal>)
    requires
        store.wf(),
        goal_refs(store.entries(), goal, store.entries().len()),
    ensures
        goals@ == first_occurrences(flat_goal(store.entries(), goal, store.entries().len())),
{
    let mut output: Vec<Goal> = Vec::new();
    push_flat_goal(store, goal, Ghost(store.entries().len()), &mut output);
    proof {
        assert(output@ =~= flat_goal(store.entries(), goal, store.entries().len()));
    }
    let ghost flat = output@;
    let mut unique: Vec<Goal> = Vec::new();
    let mut i: usize = 0;
    while i < output.len()
        invariant
            output@ == flat,
            i <= flat.len(),
            unique@ == first_occurrences(flat.take(i as int)),
        decreases flat.len() - i,
    {
        let goal = output[i];
        proof {
            let t = flat.take(i + 1);
            assert(t.drop_last() =~= flat.take(i as int));
            assert(t.last() == flat[i as int]);
        }
        if !goal_listed(&unique, goal) {
            unique.push(goal);
        }
        i += 1;
    }
    proof {
        assert(flat.take(flat.len() as int) =~= flat);
    }
    unique
}

/// The answer that no candidate gave: `No`, over no response variables.
pub fn no_result(store: &mut GoalStore) -> (result: QueryResult)
    requires
        old(store).wf(),
        old(store).has_room(),
    ensures
        final(store).wf(),
        result.value == QueryResultData::No,
        result.bound_vars.0 == old(store).entries().len(),
        final(store).entries() == old(store).entries().push(GoalEntry::ResponseVars(Seq::empty())),
        response_vars_at(final(store).entries(), result.bound_vars.0) == Seq::<
            crate::solve::ResponseVarInfo,
        >::empty(),
{
    let empty: Vec<crate::solve::ResponseVarInfo> = Vec::new();
    proof {
        assert(empty@ =~= Seq::<crate::solve::ResponseVarInfo>::empty());
    }
    let bound_vars = store.alloc_response_vars(empty.as_slice());
    QueryResult { bound_vars, value: QueryResultData::No }
}

/// The children of type `i` of a well-formed store are types allocated
/// before it.
pub proof fn lemma_children_below(stash: &TyStore, i: int)
    requires
        stash.wf(),
        0 <= i < stash.types().len(),
    ensures
        forall|k: int|
            0 <= k < children(stash.types()[i], stash.lists()).len() ==> (#[trigger] children(
                stash.types()[i],
                stash.lists(),
            )[k]).0 < i,
{
    let t = stash.types()[i];
    let lists = stash.lists();
    assert(crate::ty::refs_below(t, lists, i as nat));
    let c = children(t, lists);
    match t {
        Ty::Adt(_, x) => {
            assert(crate::ty::ty_lists(t)[0] == x);
        },
        Ty::Tuple(x) => {
            assert(crate::ty::ty_lists(t)[0] == x);
        },
        Ty::Alias(crate::ty::AliasTy::Named(x)) => {
            assert(crate::ty::ty_lists(t)[0] == x.args);
        },
        Ty::Alias(crate::ty::AliasTy::Opaque(x)) => {
            assert(crate::ty::ty_lists(t)[0] == x.args);
        },
        Ty::Alias(crate::ty::AliasTy::Associated(p)) => {
            let a = lists[p.trait_ref.args.0 as int];
            let b = lists[p.args.0 as int];
            assert(crate::ty::ty_lists(t)[0] == p.trait_ref.args);
            assert(crate::ty::ty_lists(t)[1] == p.args);
            assert(crate::ty::ty_direct(t)[0] == p.self_ty);
            assert forall|k: int| 0 <= k < c.len() implies (#[trigger] c[k]).0 < i by {
                if k == 0 {
                    assert(c[k] == p.self_ty);
                } else if k < 1 + a.len() {
                    assert(c[k] == a[k - 1]);
                } else {
                    assert(c[k] == b[k - 1 - a.len()]);
                }
            }
        },
        Ty::FnPtr(x, ret) => {
            assert(crate::ty::ty_lists(t)[0] == x);
            assert(crate::ty::ty_direct(t)[0] == ret);
            assert forall|k: int| 0 <= k < c.len() implies (#[trigger] c[k]).0 < i by {
                if k < lists[x.0 as int].len() {
                    assert(c[k] == lists[x.0 as int][k]);
                } else {
                    assert(c[k] == ret);
                }
            }
        },
        Ty::Ref(inner, _, _) => {
            assert(crate::ty::ty_direct(t)[0] == inner);
        },
        Ty::Slice(inner) => {
            assert(crate::ty::ty_direct(t)[0] == inner);
        },
        Ty::Array(inner, _) => {
            assert(crate::ty::ty_direct(t)[0] == inner);
        },
        _ => {},
    }
}

/// Structural equality of the types of an interning store is identity:
/// two types with the same structure are the same type.
pub proof fn law_structure_is_identity(stash: &TyStore, l: TyId, r: TyId)
    requires
        stash.wf(),
        l.0 < stash.types().len(),
        r.0 < stash.types().len(),
    ensures
        same_structure(stash, l, r) <==> l == r,
    decreases l.0 as nat + 1, 0nat,
{
    if l != r && same_structure(stash, l, r) {
        let (ls, lc) = decomposition(stash.types()[l.0 as int], stash.lists());
        let (rs, rc) = decomposition(stash.types()[r.0 as int], stash.lists());
        lemma_children_below(stash, l.0 as int);
        lemma_children_below(stash, r.0 as int);
        assert(lc == children(stash.types()[l.0 as int], stash.lists()));
        assert(rc == children(stash.types()[r.0 as int], stash.lists()));
        assert forall|k: int| 0 <= k < lc.len() implies (#[trigger] lc[k]).0 < l.0 by {
            assert(children(stash.types()[l.0 as int], stash.lists())[k] == lc[k]);
        }
        assert forall|k: int| 0 <= k < rc.len() implies (#[trigger] rc[k]).0 < stash.types().len() by {
            assert(children(stash.types()[r.0 as int], stash.lists())[k] == rc[k]);
        }
        lemma_pairs_same_equal(stash, lc, rc, l.0 as nat);
        assert(lc =~= rc);
        crate::skeleton::lemma_decomposition_injective(stash, l.0 as int, r.0 as int);
    }
}

/// Pairwise structural equality of types below `bound` is equality.
proof fn lemma_pairs_same_equal(stash: &TyStore, ls: Seq<TyId>, rs: Seq<TyId>, bound: nat)
    requires
        stash.wf(),
        bound <= stash.types().len(),
        ls.len() == rs.len(),
        forall|k: int| 0 <= k < ls.len() ==> (#[trigger] ls[k]).0 < bound,
        forall|k: int| 0 <= k < rs.len() ==> (#[trigger] rs[k]).0 < stash.types().len(),
        pairs_same(stash, ls, rs, bound),
    ensures
        ls == rs,
    decreases bound, ls.len(),
{
    if ls.len() > 0 {
        law_structure_is_identity(stash, ls[0], rs[0]);
        assert forall|k: int| 0 <= k < ls.len() - 1 implies (#[trigger] ls.drop_first()[k]).0 < bound by {
            assert(ls.drop_first()[k] == ls[k + 1]);
        }
        assert forall|k: int| 0 <= k < rs.len() - 1 implies (#[trigger] rs.drop_first()[k]).0
            < stash.types().len() by {
            assert(rs.drop_first()[k] == rs[k + 1]);
        }
        lemma_pairs_same_equal(stash, ls.drop_first(), rs.drop_first(), bound);
        assert(ls =~= seq![ls[0]] + ls.drop_first());
        assert(rs =~= seq![rs[0]] + rs.drop_first());
    }
}

/// `next` keeps `old` as a prefix, and every binding added after it is of
/// a flexible parameter that was unbound when it was added.
pub open spec fn extends_flexibly(next: Bindings, old: Bindings, flexible: Set<AlphaEquivParam>) -> bool {
    &&& old.len() <= next.len()
    &&& next.take(old.len() as int) == old
    &&& forall|k: int|
        old.len() <= k < next.len() ==> flexible.contains((#[trigger] next[k]).0) && log_get(
            next.take(k),
            next[k].0,
        ) is None
}

proof fn lemma_flexibly_refl(b: Bindings, flexible: Set<AlphaEquivParam>)
    ensures
        extends_flexibly(b, b, flexible),
{
    assert(b.take(b.len() as int) =~= b);
}

proof fn lemma_flexibly_trans(c: Bindings, b: Bindings, a: Bindings, flexible: Set<AlphaEquivParam>)
    requires
        extends_flexibly(c, b, flexible),
        extends_flexibly(b, a, flexible),
    ensures
        extends_flexibly(c, a, flexible),
{
    assert(c.take(a.len() as int) =~= c.take(b.len() as int).take(a.len() as int));
    assert forall|k: int| a.len() <= k < c.len() implies flexible.contains((#[trigger] c[k]).0) && log_get(
        c.take(k),
        c[k].0,
    ) is None by {
        if k < b.len() {
            assert(c[k] == c.take(b.len() as int)[k]);
            assert(c.take(k) =~= b.take(k));
        }
    }
}

/// Matching only ever adds bindings, each of a flexible parameter that was
/// unbound when it was added; earlier bindings are never changed.
pub proof fn law_match_extends_bindings(
    stash: &TyStore,
    required: TyId,
    known: TyId,
    flexible: Set<AlphaEquivParam>,
    universes: Seq<(AlphaEquivParam, u32)>,
    bindings: Bindings,
)
    ensures
        extends_flexibly(match_ty(stash, required, known, flexible, universes, bindings).1, bindings, flexible),
    decreases required.0 as nat + 1, 0nat,
{
    lemma_flexibly_refl(bindings, flexible);
    if required != known {
        match flexible_param(stash.types()[required.0 as int], flexible) {
            Some(p) => {
                let next = bindings.push((p, known));
                assert(next.take(bindings.len() as int) =~= bindings);
            },
            None => {
                let (rs, rc) = decomposition(stash.types()[required.0 as int], stash.lists());
                let (ks, kc) = decomposition(stash.types()[known.0 as int], stash.lists());
                if rs == ks && rc.len() == kc.len() {
                    lemma_pairs_extend(stash, rc, kc, flexible, universes, bindings, required.0 as nat);
                }
            },
        }
    }
}

proof fn lemma_pairs_extend(
    stash: &TyStore,
    required: Seq<TyId>,
    known: Seq<TyId>,
    flexible: Set<AlphaEquivParam>,
    universes: Seq<(AlphaEquivParam, u32)>,
    bindings: Bindings,
    bound: nat,
)
    ensures
        extends_flexibly(
            match_pairs(stash, required, known, flexible, universes, bindings, bound).1,
            bindings,
            flexible,
        ),
    decreases bound, required.len(),
{
    lemma_flexibly_refl(bindings, flexible);
    if required.len() > 0 && required[0].0 < bound {
        law_match_extends_bindings(stash, required[0], known[0], flexible, universes, bindings);
        let (ok, next) = match_ty(stash, required[0], known[0], flexible, universes, bindings);
        if ok {
            lemma_pairs_extend(
                stash,
                required.drop_first(),
                known.drop_first(),
                flexible,
                universes,
                next,
                bound,
            );
            lemma_flexibly_trans(
                match_pairs(stash, required.drop_first(), known.drop_first(), flexible, universes, next, bound).1,
                next,
                bindings,
                flexible,
            );
        }
    }
}


/// With no flexible parameter, matching is identity: a required type
/// matches a known one exactly when they are the same type, and the
/// bindings are left as they were.
pub proof fn law_rigid_match_is_identity(
    stash: &TyStore,
    required: TyId,
    known: TyId,
    universes: Seq<(AlphaEquivParam, u32)>,
    bindings: Bindings,
)
    requires
        stash.wf(),
        required.0 < stash.types().len(),
        known.0 < stash.types().len(),
    ensures
        match_ty(stash, required, known, Set::empty(), universes, bindings) == (required == known, bindings),
    decreases required.0 as nat + 1, 0nat,
{
    if required != known {
        let flex = Set::<AlphaEquivParam>::empty();
        assert(flexible_param(stash.types()[required.0 as int], flex) is None);
        let (rs, rc) = decomposition(stash.types()[required.0 as int], stash.lists());
        let (ks, kc) = decomposition(stash.types()[known.0 as int], stash.lists());
        if rs == ks && rc.len() == kc.len() {
            lemma_children_below(stash, required.0 as int);
            lemma_children_below(stash, known.0 as int);
            assert forall|k: int| 0 <= k < rc.len() implies (#[trigger] rc[k]).0 < required.0 by {
                assert(children(stash.types()[required.0 as int], stash.lists())[k] == rc[k]);
            }
            assert forall|k: int| 0 <= k < kc.len() implies (#[trigger] kc[k]).0 < stash.types().len() by {
                assert(children(stash.types()[known.0 as int], stash.lists())[k] == kc[k]);
            }
            lemma_rigid_pairs(stash, rc, kc, universes, bindings, required.0 as nat);
            if rc == kc {
                crate::skeleton::lemma_decomposition_injective(stash, required.0 as int, known.0 as int);
            }
        }
    }
}

/// With no flexible parameter, pairwise matching is equality of the lists.
proof fn lemma_rigid_pairs(
    stash: &TyStore,
    required: Seq<TyId>,
    known: Seq<TyId>,
    universes: Seq<(AlphaEquivParam, u32)>,
    bindings: Bindings,
    bound: nat,
)
    requires
        stash.wf(),
        bound <= stash.types().len(),
        required.len() == known.len(),
        forall|k: int| 0 <= k < required.len() ==> (#[trigger] required[k]).0 < bound,
        forall|k: int| 0 <= k < known.len() ==> (#[trigger] known[k]).0 < stash.types().len(),
    ensures
        match_pairs(stash, required, known, Set::empty(), universes, bindings, bound) == (required == known, bindings),
    decreases bound, required.len(),
{
    if required.len() == 0 {
        assert(required =~= known);
    } else {
        law_rigid_match_is_identity(stash, required[0], known[0], universes, bindings);
        assert forall|k: int| 0 <= k < required.len() - 1 implies (#[trigger] required.drop_first()[k]).0 < bound by {
            assert(required.drop_first()[k] == required[k + 1]);
        }
        assert forall|k: int| 0 <= k < known.len() - 1 implies (#[trigger] known.drop_first()[k]).0
            < stash.types().len() by {
            assert(known.drop_first()[k] == known[k + 1]);
        }
        if required[0] == known[0] {
            lemma_rigid_pairs(stash, required.drop_first(), known.drop_first(), universes, bindings, bound);
            assert(required =~= seq![required[0]] + required.drop_first());
            assert(known =~= seq![known[0]] + known.drop_first());
            if required.drop_first() != known.drop_first() {
                assert(required != known) by {
                    if required == known {
                        assert(required.drop_first() =~= known.drop_first());
                    }
                }
            }
        } else {
            assert(required[0] != known[0]);
        }
    }
}

/// A required trait atom follows from a known one only for the same trait
/// with as many arguments, and only if the required self type matches the
/// known self type.
pub proof fn law_trait_match_needs_self_match(
    stash: &TyStore,
    required_self: TyId,
    required_ref: TraitRef,
    known_self: TyId,
    known_ref: TraitRef,
    flexible: Set<AlphaEquivParam>,
    universes: Seq<(AlphaEquivParam, u32)>,
    bindings: Bindings,
)
    ensures
        match_goal(
            stash,
            Goal::Atom(Atom::TraitImpl { self_ty: required_self, trait_ref: required_ref }),
            Goal::Atom(Atom::TraitImpl { self_ty: known_self, trait_ref: known_ref }),
            flexible,
            universes,
            bindings,
        ).0 ==> {
            &&& required_ref.trait_sym == known_ref.trait_sym
            &&& stash.lists()[required_ref.args.0 as int].len() == stash.lists()[known_ref.args.0 as int].len()
            &&& match_ty(stash, required_self, known_self, flexible, universes, bindings).0
        },
{
}

/// With no flexible parameter, a required trait atom follows from a known
/// one exactly when they are the same atom: the same self type, the same
/// trait and the same arguments.
pub proof fn law_rigid_trait_match_is_identity(
    stash: &TyStore,
    required_self: TyId,
    required_ref: TraitRef,
    known_self: TyId,
    known_ref: TraitRef,
    universes: Seq<(AlphaEquivParam, u32)>,
    bindings: Bindings,
)
    requires
        stash.wf(),
        required_self.0 < stash.types().len(),
        known_self.0 < stash.types().len(),
        required_ref.args.0 < stash.lists().len(),
        known_ref.args.0 < stash.lists().len(),
    ensures
        match_goal(
            stash,
            Goal::Atom(Atom::TraitImpl { self_ty: required_self, trait_ref: required_ref }),
            Goal::Atom(Atom::TraitImpl { self_ty: known_self, trait_ref: known_ref }),
            Set::empty(),
            universes,
            bindings,
        ) == (required_self == known_self && required_ref.trait_sym == known_ref.trait_sym
            && stash.lists()[required_ref.args.0 as int] == stash.lists()[known_ref.args.0 as int], bindings),
{
    let ra = stash.lists()[required_ref.args.0 as int];
    let ka = stash.lists()[known_ref.args.0 as int];
    law_rigid_match_is_identity(stash, required_self, known_self, universes, bindings);
    if required_ref.trait_sym == known_ref.trait_sym && ra.len() == ka.len() && required_self == known_self {
        assert forall|k: int| 0 <= k < ra.len() implies (#[trigger] ra[k]).0 < stash.types().len() by {}
        assert forall|k: int| 0 <= k < ka.len() implies (#[trigger] ka[k]).0 < stash.types().len() by {}
        lemma_rigid_pairs(stash, ra, ka, universes, bindings, stash.types().len());
    }
}

/// With no flexible parameter, a required equality follows from a known
/// one exactly when it equates the same two types, in either order.
pub proof fn law_rigid_equality_match(
    stash: &TyStore,
    required_left: TyId,
    required_right: TyId,
    known_left: TyId,
    known_right: TyId,
    universes: Seq<(AlphaEquivParam, u32)>,
    bindings: Bindings,
)
    requires
        stash.wf(),
        required_left.0 < stash.types().len(),
        required_right.0 < stash.types().len(),
        known_left.0 < stash.types().len(),
        known_right.0 < stash.types().len(),
    ensures
        match_goal(
            stash,
            Goal::Atom(Atom::Equals(required_left, required_right)),
            Goal::Atom(Atom::Equals(known_left, known_right)),
            Set::empty(),
            universes,
            bindings,
        ) == ((required_left == known_left && required_right == known_right) || (required_left
            == known_right && required_right == known_left), bindings),
{
    law_rigid_match_is_identity(stash, required_left, known_left, universes, bindings);
    law_rigid_match_is_identity(stash, required_right, known_right, universes, bindings);
    law_rigid_match_is_identity(stash, required_left, known_right, universes, bindings);
    law_rigid_match_is_identity(stash, required_right, known_left, universes, bindings);
}


/// `required`, with each flexible parameter replaced by its binding in
/// `bindings`, has the structure of `known`: the same type, a bound
/// flexible parameter whose binding has the structure of `known`, or the
/// same skeleton with each child instantiating the matching child.
pub open spec fn instantiates(
    stash: &TyStore,
    required: TyId,
    known: TyId,
    flexible: Set<AlphaEquivParam>,
    bindings: Bindings,
) -> bool
    decreases required.0 as nat,
{
    if required == known {
        true
    } else {
        match flexible_param(stash.types()[required.0 as int], flexible) {
            Some(p) => match log_get(bindings, p) {
                Some(t) => same_structure(stash, t, known),
                None => false,
            },
            None => {
                let (rs, rc) = decomposition(stash.types()[required.0 as int], stash.lists());
                let (ks, kc) = decomposition(stash.types()[known.0 as int], stash.lists());
                &&& rs == ks
                &&& rc.len() == kc.len()
                &&& forall|i: int|
                    0 <= i < rc.len() ==> (#[trigger] rc[i]).0 < required.0 && instantiates(
                        stash,
                        rc[i],
                        kc[i],
                        flexible,
                        bindings,
                    )
            },
        }
    }
}

/// Adding bindings only for unbound parameters keeps every existing one.
proof fn lemma_flexibly_keeps(next: Bindings, old: Bindings, flexible: Set<AlphaEquivParam>, p: AlphaEquivParam)
    requires
        extends_flexibly(next, old, flexible),
        log_get(old, p) is Some,
    ensures
        log_get(next, p) == log_get(old, p),
    decreases next.len() - old.len(),
{
    if next.len() > old.len() {
        let shorter = next.drop_last();
        assert(shorter.take(old.len() as int) =~= next.take(old.len() as int));
        assert forall|k: int| old.len() <= k < shorter.len() implies flexible.contains((#[trigger] shorter[k]).0)
            && log_get(shorter.take(k), shorter[k].0) is None by {
            assert(shorter[k] == next[k]);
            assert(shorter.take(k) =~= next.take(k));
        }
        lemma_flexibly_keeps(shorter, old, flexible, p);
        let k = next.len() - 1;
        assert(next.take(k) =~= shorter);
        assert(next.last() == next[k]);
    } else {
        assert(next =~= next.take(old.len() as int));
    }
}

/// Instantiation survives adding bindings for unbound parameters.
proof fn lemma_instantiates_keep(
    stash: &TyStore,
    required: TyId,
    known: TyId,
    flexible: Set<AlphaEquivParam>,
    old: Bindings,
    next: Bindings,
)
    requires
        instantiates(stash, required, known, flexible, old),
        extends_flexibly(next, old, flexible),
    ensures
        instantiates(stash, required, known, flexible, next),
    decreases required.0 as nat,
{
    if required != known {
        match flexible_param(stash.types()[required.0 as int], flexible) {
            Some(p) => {
                lemma_flexibly_keeps(next, old, flexible, p);
            },
            None => {
                let (rs, rc) = decomposition(stash.types()[required.0 as int], stash.lists());
                let (ks, kc) = decomposition(stash.types()[known.0 as int], stash.lists());
                assert forall|i: int| 0 <= i < rc.len() implies (#[trigger] rc[i]).0 < required.0 && instantiates(
                    stash,
                    rc[i],
                    kc[i],
                    flexible,
                    next,
                ) by {
                    lemma_instantiates_keep(stash, rc[i], kc[i], flexible, old, next);
                }
            },
        }
    }
}

/// Matching is sound: when a required type matches a known one, the
/// required type instantiated by the resulting bindings has the structure
/// of the known type.
pub proof fn law_match_instantiates(
    stash: &TyStore,
    required: TyId,
    known: TyId,
    flexible: Set<AlphaEquivParam>,
    universes: Seq<(AlphaEquivParam, u32)>,
    bindings: Bindings,
)
    ensures
        match_ty(stash, required, known, flexible, universes, bindings).0 ==> instantiates(
            stash,
            required,
            known,
            flexible,
            match_ty(stash, required, known, flexible, universes, bindings).1,
        ),
    decreases required.0 as nat + 1, 0nat,
{
    let result = match_ty(stash, required, known, flexible, universes, bindings);
    if required != known && result.0 {
        match flexible_param(stash.types()[required.0 as int], flexible) {
            Some(p) => {
                if log_get(bindings, p) is None {
                    let next = bindings.push((p, known));
                    assert(next.last() == (p, known));
                }
            },
            None => {
                let (rs, rc) = decomposition(stash.types()[required.0 as int], stash.lists());
                let (ks, kc) = decomposition(stash.types()[known.0 as int], stash.lists());
                lemma_pairs_instantiate(stash, rc, kc, flexible, universes, bindings, required.0 as nat);
            },
        }
    }
}

proof fn lemma_pairs_instantiate(
    stash: &TyStore,
    required: Seq<TyId>,
    known: Seq<TyId>,
    flexible: Set<AlphaEquivParam>,
    universes: Seq<(AlphaEquivParam, u32)>,
    bindings: Bindings,
    bound: nat,
)
    requires
        required.len() == known.len(),
    ensures
        match_pairs(stash, required, known, flexible, universes, bindings, bound).0 ==> forall|i: int|
            0 <= i < required.len() ==> (#[trigger] required[i]).0 < bound && instantiates(
                stash,
                required[i],
                known[i],
                flexible,
                match_pairs(stash, required, known, flexible, universes, bindings, bound).1,
            ),
    decreases bound, required.len(),
{
    let result = match_pairs(stash, required, known, flexible, universes, bindings, bound);
    if required.len() > 0 && result.0 {
        law_match_instantiates(stash, required[0], known[0], flexible, universes, bindings);
        let (ok, next) = match_ty(stash, required[0], known[0], flexible, universes, bindings);
        lemma_pairs_instantiate(
            stash,
            required.drop_first(),
            known.drop_first(),
            flexible,
            universes,
            next,
            bound,
        );
        lemma_pairs_extend(stash, required.drop_first(), known.drop_first(), flexible, universes, next, bound);
        lemma_instantiates_keep(stash, required[0], known[0], flexible, next, result.1);
        assert forall|i: int| 0 <= i < required.len() implies (#[trigger] required[i]).0 < bound && instantiates(
            stash,
            required[i],
            known[i],
            flexible,
            result.1,
        ) by {
            if i > 0 {
                assert(required.drop_first()[i - 1] == required[i]);
                assert(known.drop_first()[i - 1] == known[i]);
            }
        }
    }
}

/// A required trait atom that follows from a known one is, instantiated by
/// the resulting bindings, that atom: the same trait, the self type and
/// each argument instantiating the known ones.
pub proof fn law_trait_match_instantiates(
    stash: &TyStore,
    required_self: TyId,
    required_ref: TraitRef,
    known_self: TyId,
    known_ref: TraitRef,
    flexible: Set<AlphaEquivParam>,
    universes: Seq<(AlphaEquivParam, u32)>,
    bindings: Bindings,
)
    ensures
        ({
            let (matched, after) = match_goal(
                stash,
                Goal::Atom(Atom::TraitImpl { self_ty: required_self, trait_ref: required_ref }),
                Goal::Atom(Atom::TraitImpl { self_ty: known_self, trait_ref: known_ref }),
                flexible,
                universes,
                bindings,
            );
            let ra = stash.lists()[required_ref.args.0 as int];
            let ka = stash.lists()[known_ref.args.0 as int];
            matched ==> {
                &&& required_ref.trait_sym == known_ref.trait_sym
                &&& ra.len() == ka.len()
                &&& instantiates(stash, required_self, known_self, flexible, after)
                &&& forall|i: int| 0 <= i < ra.len() ==> instantiates(stash, #[trigger] ra[i], ka[i], flexible, after)
            }
        }),
{
    let ra = stash.lists()[required_ref.args.0 as int];
    let ka = stash.lists()[known_ref.args.0 as int];
    if required_ref.trait_sym == known_ref.trait_sym && ra.len() == ka.len() {
        law_match_instantiates(stash, required_self, known_self, flexible, universes, bindings);
        let (ok, next) = match_ty(stash, required_self, known_self, flexible, universes, bindings);
        if ok {
            lemma_pairs_instantiate(stash, ra, ka, flexible, universes, next, stash.types().len());
            lemma_pairs_extend(stash, ra, ka, flexible, universes, next, stash.types().len());
            let after = match_pairs(stash, ra, ka, flexible, universes, next, stash.types().len()).1;
            lemma_instantiates_keep(stash, required_self, known_self, flexible, next, after);
        }
    }
}

/// A required equality that follows from a known one equates, instantiated
/// by the resulting bindings, the same two types, in one order or the
/// other.
pub proof fn law_equality_match_instantiates(
    stash: &TyStore,
    required_left: TyId,
    required_right: TyId,
    known_left: TyId,
    known_right: TyId,
    flexible: Set<AlphaEquivParam>,
    universes: Seq<(AlphaEquivParam, u32)>,
    bindings: Bindings,
)
    ensures
        ({
            let (matched, after) = match_goal(
                stash,
                Goal::Atom(Atom::Equals(required_left, required_right)),
                Goal::Atom(Atom::Equals(known_left, known_right)),
                flexible,
                universes,
                bindings,
            );
            matched ==> {
                ||| instantiates(stash, required_left, known_left, flexible, after) && instantiates(
                    stash,
                    required_right,
                    known_right,
                    flexible,
                    after,
                )
                ||| instantiates(stash, required_left, known_right, flexible, after) && instantiates(
                    stash,
                    required_right,
                    known_left,
                    flexible,
                    after,
                )
            }
        }),
{
    law_match_instantiates(stash, required_left, known_left, flexible, universes, bindings);
    let (lo, al) = match_ty(stash, required_left, known_left, flexible, universes, bindings);
    if lo {
        law_match_instantiates(stash, required_right, known_right, flexible, universes, al);
        law_match_extends_bindings(stash, required_right, known_right, flexible, universes, al);
        let fin = match_ty(stash, required_right, known_right, flexible, universes, al).1;
        lemma_instantiates_keep(stash, required_left, known_left, flexible, al, fin);
    }
    law_match_instantiates(stash, required_left, known_right, flexible, universes, bindings);
    let (so, as_) = match_ty(stash, required_left, known_right, flexible, universes, bindings);
    if so {
        law_match_instantiates(stash, required_right, known_left, flexible, universes, as_);
        law_match_extends_bindings(stash, required_right, known_left, flexible, universes, as_);
        let fin = match_ty(stash, required_right, known_left, flexible, universes, as_).1;
        lemma_instantiates_keep(stash, required_left, known_right, flexible, as_, fin);
    }
}


/// Every binding in `next` after those of `old` binds a parameter to a
/// type that names no parameter newer than the universe of that parameter.
pub open spec fn binds_within_universes(
    stash: &TyStore,
    next: Bindings,
    old: Bindings,
    universes: Seq<(AlphaEquivParam, u32)>,
) -> bool {
    forall|k: int|
        old.len() <= k < next.len() ==> !has_newer_param(
            stash,
            (#[trigger] next[k]).1,
            universe_or_root(universes, next[k].0),
            universes,
        )
}

/// Matching never binds a flexible parameter to a type that names a
/// parameter from a universe newer than the parameter's own.
pub proof fn law_match_binds_within_universes(
    stash: &TyStore,
    required: TyId,
    known: TyId,
    flexible: Set<AlphaEquivParam>,
    universes: Seq<(AlphaEquivParam, u32)>,
    bindings: Bindings,
)
    ensures
        binds_within_universes(
            stash,
            match_ty(stash, required, known, flexible, universes, bindings).1,
            bindings,
            universes,
        ),
    decreases required.0 as nat + 1, 0nat,
{
    if required != known {
        match flexible_param(stash.types()[required.0 as int], flexible) {
            Some(p) => {
                let next = bindings.push((p, known));
                assert(next[bindings.len() as int] == (p, known));
            },
            None => {
                let (rs, rc) = decomposition(stash.types()[required.0 as int], stash.lists());
                let (ks, kc) = decomposition(stash.types()[known.0 as int], stash.lists());
                if rs == ks && rc.len() == kc.len() {
                    lemma_pairs_within_universes(stash, rc, kc, flexible, universes, bindings, required.0 as nat);
                }
            },
        }
    }
}

proof fn lemma_pairs_within_universes(
    stash: &TyStore,
    required: Seq<TyId>,
    known: Seq<TyId>,
    flexible: Set<AlphaEquivParam>,
    universes: Seq<(AlphaEquivParam, u32)>,
    bindings: Bindings,
    bound: nat,
)
    ensures
        binds_within_universes(
            stash,
            match_pairs(stash, required, known, flexible, universes, bindings, bound).1,
            bindings,
            universes,
        ),
    decreases bound, required.len(),
{
    if required.len() > 0 && required[0].0 < bound {
        law_match_binds_within_universes(stash, required[0], known[0], flexible, universes, bindings);
        law_match_extends_bindings(stash, required[0], known[0], flexible, universes, bindings);
        let (ok, next) = match_ty(stash, required[0], known[0], flexible, universes, bindings);
        if ok {
            lemma_pairs_within_universes(
                stash,
                required.drop_first(),
                known.drop_first(),
                flexible,
                universes,
                next,
                bound,
            );
            lemma_pairs_extend(stash, required.drop_first(), known.drop_first(), flexible, universes, next, bound);
            let fin = match_pairs(stash, required.drop_first(), known.drop_first(), flexible, universes, next, bound).1;
            assert forall|k: int| bindings.len() <= k < fin.len() implies !has_newer_param(
                stash,
                (#[trigger] fin[k]).1,
                universe_or_root(universes, fin[k].0),
                universes,
            ) by {
                if k < next.len() {
                    assert(fin[k] == fin.take(next.len() as int)[k]);
                }
            }
        }
    }
}

} // verus!
