//! Canonical query variables and the validation of substitutions that
//! answer a canonical query.
use vstd::prelude::*;

use crate::generic_param::{AlphaEquivParam, GenericParam, GenericParamKind};
use crate::goal::{GoalEntry, GoalStore, Subst};
use crate::ty::{InferVarIndex, TyId};
use crate::version::Universe;

verus! {

#[derive(Copy, Clone, Debug, PartialEq, Eq, Structural, Hash)]
pub enum CanonicalVarRole {
    RigidPlaceholder,
    ExistentialInput,
}

/// A variable of a canonical query.
#[derive(Copy, Clone, Debug, PartialEq, Eq, Structural, Hash)]
pub struct CanonicalVarInfo {
    pub param: AlphaEquivParam,
    pub kind: GenericParamKind,
    pub role: CanonicalVarRole,
    pub relative_universe: u32,
}

/// A variable bound by a query response.
#[derive(Copy, Clone, Debug, PartialEq, Eq, Structural, Hash)]
pub struct ResponseVarInfo {
    pub param: AlphaEquivParam,
    pub kind: GenericParamKind,
    pub relative_universe: u32,
}

/// What the caller's side of a canonical variable was.
#[derive(Copy, Clone, Debug, PartialEq, Eq, Structural)]
pub enum CallerCanonicalVar {
    Rigid(GenericParam),
    Existential(InferVarIndex),
}

/// How the variables of a canonical query map back to the caller.
pub struct CanonicalMapping {
    pub absolute_universe_base: Universe,
    /// In the order of the query's canonical variables.
    pub inputs: Vec<CallerCanonicalVar>,
}

/// Where a clause came from.
#[derive(Copy, Clone, Debug, PartialEq, Eq, Structural, Hash)]
pub enum ClauseSource {
    Environment,
    /// A local impl, by its symbol.
    LocalImpl(u32),
}

/// One binding of a substitution.
#[derive(Copy, Clone, Debug, PartialEq, Eq, Structural, Hash)]
pub struct SubstEntry {
    pub key: AlphaEquivParam,
    pub value: TyId,
}

/// Why a substitution was rejected.
#[derive(Copy, Clone, Debug, PartialEq, Eq, Structural)]
pub enum SubstitutionError {
    UnknownKey(AlphaEquivParam),
    RigidKey(AlphaEquivParam),
    NonTypeKey(AlphaEquivParam),
    DuplicateKey(AlphaEquivParam),
}

/// `p` is the first position of `key` among `vars`.
pub open spec fn first_position(vars: Seq<CanonicalVarInfo>, key: AlphaEquivParam, p: int) -> bool {
    &&& 0 <= p < vars.len()
    &&& vars[p].param == key
    &&& forall|j: int| 0 <= j < p ==> (#[trigger] vars[j]).param != key
}

/// `key` names one of `vars`.
pub open spec fn known_key(vars: Seq<CanonicalVarInfo>, key: AlphaEquivParam) -> bool {
    exists|p: int| 0 <= p < vars.len() && (#[trigger] vars[p]).param == key
}

/// An earlier entry than `k` has the same key as entry `k`.
pub open spec fn repeated_key(entries: Seq<(AlphaEquivParam, TyId)>, k: int) -> bool {
    exists|j: int| 0 <= j < k && (#[trigger] entries[j]).0 == entries[k].0
}

/// What is wrong with entry `k` when every earlier entry is valid.
pub open spec fn entry_error(
    vars: Seq<CanonicalVarInfo>,
    entries: Seq<(AlphaEquivParam, TyId)>,
    k: int,
) -> Option<SubstitutionError> {
    let key = entries[k].0;
    if !known_key(vars, key) {
        Some(SubstitutionError::UnknownKey(key))
    } else {
        let p = choose|p: int| first_position(vars, key, p);
        if vars[p].role != CanonicalVarRole::ExistentialInput {
            Some(SubstitutionError::RigidKey(key))
        } else if vars[p].kind != GenericParamKind::Type {
            Some(SubstitutionError::NonTypeKey(key))
        } else if repeated_key(entries, k) {
            Some(SubstitutionError::DuplicateKey(key))
        } else {
            None
        }
    }
}

/// Position `q` of `vars` is the first one with its parameter.
pub open spec fn first_occurrence(vars: Seq<CanonicalVarInfo>, q: int) -> bool {
    forall|j: int| 0 <= j < q ==> (#[trigger] vars[j]).param != vars[q].param
}

/// Some entry binds `key`.
pub open spec fn bound_key(entries: Seq<(AlphaEquivParam, TyId)>, key: AlphaEquivParam) -> bool {
    exists|k: int| 0 <= k < entries.len() && (#[trigger] entries[k]).0 == key
}

/// The value an entry gives `key`.
pub open spec fn bound_value(entries: Seq<(AlphaEquivParam, TyId)>, key: AlphaEquivParam) -> TyId {
    entries[choose|k: int| 0 <= k < entries.len() && (#[trigger] entries[k]).0 == key].1
}

/// The bindings of `entries` ordered by the position of their key among
/// the first `p` variables.
pub open spec fn ordered_subst(
    vars: Seq<CanonicalVarInfo>,
    entries: Seq<(AlphaEquivParam, TyId)>,
    p: nat,
) -> Seq<SubstEntry>
    decreases p,
{
    if p == 0 {
        Seq::empty()
    } else {
        let q = p - 1;
        let prev = ordered_subst(vars, entries, q as nat);
        if first_occurrence(vars, q) && bound_key(entries, vars[q].param) {
            prev.push(
                SubstEntry { key: vars[q].param, value: bound_value(entries, vars[q].param) },
            )
        } else {
            prev
        }
    }
}

/// First positions are unique.
pub(crate) proof fn lemma_first_position_unique(vars: Seq<CanonicalVarInfo>, key: AlphaEquivParam, p: int, q: int)
    requires
        first_position(vars, key, p),
        first_position(vars, key, q),
    ensures
        p == q,
{
    if p < q {
        assert(vars[p].param != key);
    } else if q < p {
        assert(vars[q].param != key);
    }
}

/// The first position of `key` among `vars`, if any.
pub(crate) fn find_position(vars: &[CanonicalVarInfo], key: AlphaEquivParam) -> (position: Option<usize>)
    ensures
        match position {
            Some(p) => first_position(vars@, key, p as int),
            None => !known_key(vars@, key),
        },
{
    let mut i: usize = 0;
    while i < vars.len()
        invariant
            i <= vars@.len(),
            forall|j: int| 0 <= j < i ==> (#[trigger] vars@[j]).param != key,
        decreases vars@.len() - i,
    {
        if vars[i].param == key {
            return Some(i);
        }
        i += 1;
    }
    None
}

/// Some entry before `k` has the key `key`.
fn key_among(entries: &[(AlphaEquivParam, TyId)], k: usize, key: AlphaEquivParam) -> (found: Option<
    usize,
>)
    requires
        k <= entries@.len(),
    ensures
        match found {
            Some(j) => j < k && entries@[j as int].0 == key,
            None => forall|j: int| 0 <= j < k ==> (#[trigger] entries@[j]).0 != key,
        },
{
    let mut j: usize = 0;
    while j < k
        invariant
            j <= k,
            k <= entries@.len(),
            forall|q: int| 0 <= q < j ==> (#[trigger] entries@[q]).0 != key,
        decreases k - j,
    {
        if entries[j].0 == key {
            return Some(j);
        }
        j += 1;
    }
    None
}

/// Validate a substitution for a canonical query, order it by the
/// positions of its keys and store it. Each key must name an existential type variable
/// of the query, and no key may repeat; the first offending entry decides
/// the error.
pub fn validate_and_alloc_subst(
    stash: &mut GoalStore,
    canonical_vars: &[CanonicalVarInfo],
    entries: &[(AlphaEquivParam, TyId)],
) -> (result: Result<Subst, SubstitutionError>)
    requires
        old(stash).wf(),
        old(stash).has_room(),
    ensures
        final(stash).wf(),
        match result {
            Ok(subst) => {
                &&& forall|k: int|
                    0 <= k < entries@.len() ==> #[trigger] entry_error(canonical_vars@, entries@, k)
                        is None
                &&& subst.0 == old(stash).entries().len()
                &&& final(stash).entries() == old(stash).entries().push(
                    GoalEntry::Subst(ordered_subst(canonical_vars@, entries@, canonical_vars@.len())),
                )
            },
            Err(e) => {
                &&& final(stash).entries() == old(stash).entries()
                &&& exists|k: int|
                    0 <= k < entries@.len() && #[trigger] entry_error(canonical_vars@, entries@, k)
                        == Some(e) && forall|j: int|
                        0 <= j < k ==> entry_error(canonical_vars@, entries@, j) is None
            },
        },
{
    let ghost vars = canonical_vars@;
    let ghost es = entries@;
    let mut k: usize = 0;
    while k < entries.len()
        invariant
            *stash == *old(stash),
            stash.wf(),
            stash.has_room(),
            k <= es.len(),
            vars == canonical_vars@,
            es == entries@,
            forall|j: int| 0 <= j < k ==> #[trigger] entry_error(vars, es, j) is None,
        decreases es.len() - k,
    {
        let (key, _value) = entries[k];
        let position = match find_position(canonical_vars, key) {
            Some(position) => position,
            None => {
                proof {
                    assert(entry_error(vars, es, k as int) == Some(SubstitutionError::UnknownKey(key)));
                }
                return Err(SubstitutionError::UnknownKey(key));
            },
        };
        proof {
            assert(known_key(vars, key));
            let p = choose|p: int| first_position(vars, key, p);
            lemma_first_position_unique(vars, key, p, position as int);
        }
        let info = canonical_vars[position];
        let existential = match info.role {
            CanonicalVarRole::ExistentialInput => true,
            CanonicalVarRole::RigidPlaceholder => false,
        };
        if !existential {
            proof {
                assert(entry_error(vars, es, k as int) == Some(SubstitutionError::RigidKey(key)));
            }
            return Err(SubstitutionError::RigidKey(key));
        }
        let is_type = match info.kind {
            GenericParamKind::Type => true,
            _ => false,
        };
        if !is_type {
            proof {
                assert(entry_error(vars, es, k as int) == Some(SubstitutionError::NonTypeKey(key)));
            }
            return Err(SubstitutionError::NonTypeKey(key));
        }
        match key_among(entries, k, key) {
            Some(j) => {
                proof {
                    assert(repeated_key(es, k as int));
                    assert(entry_error(vars, es, k as int) == Some(SubstitutionError::DuplicateKey(key)));
                }
                return Err(SubstitutionError::DuplicateKey(key));
            },
            None => {},
        }
        proof {
            assert(!repeated_key(es, k as int));
            assert(entry_error(vars, es, k as int) is None);
        }
        k += 1;
    }
    // Keys are now known to be distinct, so each one has exactly one value.
    proof {
        assert forall|a: int, b: int| 0 <= a < b < es.len() implies (#[trigger] es[a]).0 != (
        #[trigger] es[b]).0 by {
            assert(entry_error(vars, es, b) is None);
            if es[a].0 == es[b].0 {
                assert(repeated_key(es, b));
                assert(known_key(vars, es[b].0));
            }
        }
    }
    let mut subst: Vec<SubstEntry> = Vec::new();
    let mut q: usize = 0;
    while q < canonical_vars.len()
        invariant
            *stash == *old(stash),
            stash.wf(),
            stash.has_room(),
            q <= vars.len(),
            vars == canonical_vars@,
            es == entries@,
            forall|a: int, b: int| 0 <= a < b < es.len() ==> (#[trigger] es[a]).0 != (#[trigger] es[b]).0,
            subst@ == ordered_subst(vars, es, q as nat),
        decreases vars.len() - q,
    {
        let key = canonical_vars[q].param;
        let first = match find_position(canonical_vars, key) {
            Some(p) => p == q,
            None => false,
        };
        proof {
            assert(vars[q as int].param == key);
            if first {
                assert forall|j: int| 0 <= j < q implies (#[trigger] vars[j]).param != vars[q as int].param by {}
            } else {
                assert(known_key(vars, key));
            }
            assert(first == first_occurrence(vars, q as int));
        }
        if first {
            match key_among(entries, entries.len(), key) {
                Some(k) => {
                    proof {
                        assert(bound_key(es, key));
                        let c = choose|c: int| 0 <= c < es.len() && (#[trigger] es[c]).0 == key;
                        if c != k {
                            if c < k {
                                assert(es[c].0 != es[k as int].0);
                            } else {
                                assert(es[k as int].0 != es[c].0);
                            }
                        }
                        assert(bound_value(es, key) == entries@[k as int].1);
                    }
                    subst.push(SubstEntry { key, value: entries[k].1 });
                },
                None => {
                    proof {
                        assert(!bound_key(es, key));
                    }
                },
            }
        }
        proof {
            assert(ordered_subst(vars, es, (q + 1) as nat) == if first_occurrence(vars, q as int)
                && bound_key(es, vars[q as int].param) {
                ordered_subst(vars, es, q as nat).push(
                    SubstEntry {
                        key: vars[q as int].param,
                        value: bound_value(es, vars[q as int].param),
                    },
                )
            } else {
                ordered_subst(vars, es, q as nat)
            });
        }
        q += 1;
    }
    Ok(stash.alloc_subst(subst.as_slice()))
}

} // verus!
