//! Versioned union-find and bounds over interned types.
//!
//! Every operation names its version explicitly. A version with live
//! children is a frozen snapshot: reads are permitted, while all mutation
//! requires a leaf. Each version keeps a sparse diff from its ancestry: a
//! lookup walks from the version towards the root and takes the first entry
//! it finds.
use vstd::prelude::*;

use crate::bound::Bound;
use crate::generic_param::GenericParam;
use crate::skeleton::{children_get, children_len, decomposition};
use crate::ty::{InferVarIndex, Ty, TyId, TyStore};
use crate::version::{Universe, VarInfo, Version, VersionTree};

verus! {

// ---------------------------------------------------------------------------
// Association logs: the last entry for a key wins.
// ---------------------------------------------------------------------------
/// The value of the last entry for `key` in `log`.
pub open spec fn log_get<K, V>(log: Seq<(K, V)>, key: K) -> Option<V>
    decreases log.len(),
{
    if log.len() == 0 {
        None
    } else if log.last().0 == key {
        Some(log.last().1)
    } else {
        log_get(log.drop_last(), key)
    }
}

/// Appending a log overrides the earlier entries for the keys it holds.
pub proof fn lemma_log_get_append<K, V>(a: Seq<(K, V)>, b: Seq<(K, V)>, key: K)
    ensures
        log_get(a + b, key) == match log_get(b, key) {
            Some(v) => Some(v),
            None => log_get(a, key),
        },
    decreases b.len(),
{
    if b.len() == 0 {
        assert(a + b =~= a);
    } else {
        assert((a + b).drop_last() =~= a + b.drop_last());
        assert((a + b).last() == b.last());
        lemma_log_get_append(a, b.drop_last(), key);
    }
}

/// Every type in `entry` or `moved` was handled (`done`), is still to be
/// handled in this round (`pending`), or waits for the next (`queued`).
#[verifier::opaque]
spec fn covered(entry: Seq<TyId>, moved: Seq<TyId>, done: Seq<TyId>, pending: Seq<TyId>, queued: Seq<TyId>) -> bool {
    forall|m: TyId|
        #![trigger entry.contains(m)]
        #![trigger moved.contains(m)]
        entry.contains(m) || moved.contains(m) ==> done.contains(m) || pending.contains(m) || queued.contains(m)
}

proof fn lemma_covered_swap(entry: Seq<TyId>, moved: Seq<TyId>, done: Seq<TyId>, queued: Seq<TyId>, fresh: Seq<TyId>)
    requires
        covered(entry, moved, done, Seq::empty(), queued),
        fresh.len() == 0,
    ensures
        covered(entry, moved, done, queued, fresh),
        queued.len() == 0 ==> covered(entry, moved, done, Seq::empty(), fresh),
{
    reveal(covered);
    if queued.len() == 0 {
        assert(queued =~= Seq::<TyId>::empty());
    }
}

proof fn lemma_covered_push(
    entry: Seq<TyId>,
    moved: Seq<TyId>,
    done: Seq<TyId>,
    pending: Seq<TyId>,
    queued: Seq<TyId>,
    x: TyId,
)
    requires
        covered(entry, moved, done, pending, queued),
    ensures
        covered(entry, moved.push(x), done, pending, queued.push(x)),
{
    reveal(covered);
    lemma_push_contains(moved, x);
    lemma_push_contains(queued, x);
}

proof fn lemma_covered_advance(
    entry: Seq<TyId>,
    moved: Seq<TyId>,
    done: Seq<TyId>,
    pending: Seq<TyId>,
    queued: Seq<TyId>,
)
    requires
        covered(entry, moved, done, pending, queued),
        pending.len() > 0,
    ensures
        covered(entry, moved, done.push(pending[0]), pending.drop_first(), queued),
{
    reveal(covered);
    lemma_push_contains(done, pending[0]);
    assert forall|m: TyId| pending.contains(m) && m != pending[0] implies #[trigger] pending.drop_first().contains(m) by {
        let q = choose|q: int| 0 <= q < pending.len() && pending[q] == m;
        assert(pending.drop_first()[q - 1] == m);
    }
}

proof fn lemma_covered_final(entry: Seq<TyId>, moved: Seq<TyId>, done: Seq<TyId>)
    requires
        covered(entry, moved, done, Seq::empty(), Seq::empty()),
    ensures
        forall|m: TyId|
            #![trigger entry.contains(m)]
            #![trigger moved.contains(m)]
            entry.contains(m) || moved.contains(m) ==> done.contains(m),
{
    reveal(covered);
}

/// Pushing onto a sequence keeps what it held and adds the pushed item.
proof fn lemma_push_contains(s: Seq<TyId>, x: TyId)
    ensures
        s.push(x).contains(x),
        forall|y: TyId| s.contains(y) ==> #[trigger] s.push(x).contains(y),
        forall|y: TyId| #[trigger] s.push(x).contains(y) ==> s.contains(y) || y == x,
{
    assert(s.push(x)[s.len() as int] == x);
    assert forall|y: TyId| s.contains(y) implies #[trigger] s.push(x).contains(y) by {
        let i = choose|i: int| 0 <= i < s.len() && s[i] == y;
        assert(s.push(x)[i] == y);
    }
    assert forall|y: TyId| #[trigger] s.push(x).contains(y) implies s.contains(y) || y == x by {
        let i = choose|i: int| 0 <= i < s.push(x).len() && s.push(x)[i] == y;
        if i < s.len() {
            assert(s[i] == y);
        }
    }
}

/// Add `x` to the duplicate-free sequence `s`.
pub open spec fn set_insert<T>(s: Seq<T>, x: T) -> Seq<T> {
    if s.contains(x) {
        s
    } else {
        s.push(x)
    }
}

/// Find the last entry for `key`.
fn log_find<V: Copy>(log: &Vec<(TyId, V)>, key: TyId) -> (found: Option<V>)
    ensures
        found == log_get(log@, key),
{
    let mut i: usize = log.len();
    proof {
        assert(log@.take(i as int) =~= log@);
    }
    while i > 0
        invariant
            i <= log@.len(),
            log_get(log@, key) == log_get(log@.take(i as int), key),
        decreases i,
    {
        let entry = log[i - 1];
        proof {
            assert(log@.take(i as int).drop_last() =~= log@.take(i - 1));
            assert(log@.take(i as int).last() == log@[i - 1]);
        }
        if entry.0 == key {
            return Some(entry.1);
        }
        i -= 1;
    }
    proof {
        assert(log@.take(0) =~= Seq::<(TyId, V)>::empty());
    }
    None
}

/// Find the last entry for variable `key`.
fn var_log_find(log: &Vec<(InferVarIndex, Universe)>, key: InferVarIndex) -> (found: Option<
    Universe,
>)
    ensures
        found == log_get(log@, key),
{
    let mut i: usize = log.len();
    proof {
        assert(log@.take(i as int) =~= log@);
    }
    while i > 0
        invariant
            i <= log@.len(),
            log_get(log@, key) == log_get(log@.take(i as int), key),
        decreases i,
    {
        let entry = log[i - 1];
        proof {
            assert(log@.take(i as int).drop_last() =~= log@.take(i - 1));
            assert(log@.take(i as int).last() == log@[i - 1]);
        }
        if entry.0 == key {
            return Some(entry.1);
        }
        i -= 1;
    }
    proof {
        assert(log@.take(0) =~= Seq::<(InferVarIndex, Universe)>::empty());
    }
    None
}

// ---------------------------------------------------------------------------
// Per-version state
// ---------------------------------------------------------------------------
/// The abstract content of one version's diff.
pub struct StateView {
    pub parents: Seq<(TyId, TyId)>,
    pub bounds: Seq<(TyId, Bound)>,
    pub universe_ceilings: Seq<(InferVarIndex, Universe)>,
    pub dependents: Seq<(TyId, TyId)>,
    pub worklist: Seq<TyId>,
    pub wakes: Seq<InferVarIndex>,
    pub semantic_revision: u64,
}

impl StateView {
    /// A state with no entries and the given revision.
    pub open spec fn empty(revision: u64) -> StateView {
        StateView {
            parents: Seq::empty(),
            bounds: Seq::empty(),
            universe_ceilings: Seq::empty(),
            dependents: Seq::empty(),
            worklist: Seq::empty(),
            wakes: Seq::empty(),
            semantic_revision: revision,
        }
    }
}

/// Per-version mutable inference state (a sparse diff from its ancestry).
struct VersionState {
    parents: Vec<(TyId, TyId)>,
    bounds: Vec<(TyId, Bound)>,
    universe_ceilings: Vec<(InferVarIndex, Universe)>,
    dependents: Vec<(TyId, TyId)>,
    worklist: Vec<TyId>,
    wakes: Vec<InferVarIndex>,
    semantic_revision: u64,
    /// Ranks that strictly increase along parent edges; they make the
    /// effective parent relation acyclic.
    rank: Ghost<spec_fn(TyId) -> nat>,
    rank_bound: Ghost<nat>,
}

impl VersionState {
    closed spec fn view(&self) -> StateView {
        StateView {
            parents: self.parents@,
            bounds: self.bounds@,
            universe_ceilings: self.universe_ceilings@,
            dependents: self.dependents@,
            worklist: self.worklist@,
            wakes: self.wakes@,
            semantic_revision: self.semantic_revision,
        }
    }

    fn fresh(revision: u64, rank: Ghost<spec_fn(TyId) -> nat>, rank_bound: Ghost<nat>) -> (state:
        Self)
        ensures
            state.view() == StateView::empty(revision),
            state.rank == rank,
            state.rank_bound == rank_bound,
    {
        let state = VersionState {
            parents: Vec::new(),
            bounds: Vec::new(),
            universe_ceilings: Vec::new(),
            dependents: Vec::new(),
            worklist: Vec::new(),
            wakes: Vec::new(),
            semantic_revision: revision,
            rank,
            rank_bound,
        };
        proof {
            assert(state.view() =~= StateView::empty(revision));
        }
        state
    }
}

/// Effects published by atomically collapsing a child into its parent.
#[derive(Debug, PartialEq, Eq)]
pub struct CommitEffects {
    pub wakes: Vec<InferVarIndex>,
    pub semantic_revision: u64,
}

/// The revision after one more semantic change (wrapping).
pub open spec fn next_revision(revision: u64) -> u64 {
    if revision == u64::MAX {
        0
    } else {
        (revision + 1) as u64
    }
}

/// Every identity a state mentions lies below `n`.
pub open spec fn state_ids_below(s: StateView, n: nat) -> bool {
    &&& forall|j: int|
        0 <= j < s.parents.len() ==> (#[trigger] s.parents[j]).0.0 < n && s.parents[j].1.0 < n
    &&& forall|j: int|
        0 <= j < s.bounds.len() ==> (#[trigger] s.bounds[j]).0.0 < n && match s.bounds[j].1.spec_ty() {
            Some(t) => t.0 < n,
            None => true,
        }
    &&& forall|j: int|
        0 <= j < s.dependents.len() ==> (#[trigger] s.dependents[j]).0.0 < n && s.dependents[j].1.0
            < n
    &&& forall|j: int| 0 <= j < s.worklist.len() ==> (#[trigger] s.worklist[j]).0 < n
}

/// The root that `union` re-parents: an inference variable yields to the
/// other class.
pub open spec fn union_child(stash: &TyStore, left_root: TyId, right_root: TyId) -> TyId {
    if stash.types()[left_root.0 as int] is InferVar {
        left_root
    } else {
        right_root
    }
}

/// The root that `union` keeps.
pub open spec fn union_parent(stash: &TyStore, left_root: TyId, right_root: TyId) -> TyId {
    if stash.types()[left_root.0 as int] is InferVar {
        right_root
    } else {
        left_root
    }
}

/// `a` with the members of `b` added in order, skipping those present.
pub open spec fn merge_wakes(a: Seq<InferVarIndex>, b: Seq<InferVarIndex>) -> Seq<InferVarIndex>
    decreases b.len(),
{
    if b.len() == 0 {
        a
    } else {
        set_insert(merge_wakes(a, b.drop_last()), b.last())
    }
}

/// Variable indices in strictly increasing order.
pub open spec fn strictly_sorted(s: Seq<InferVarIndex>) -> bool {
    forall|i: int, j: int| 0 <= i < j < s.len() ==> (#[trigger] s[i]).0 < (#[trigger] s[j]).0
}

/// Add the members of `src` missing from `dst`, in order.
fn merge_into(dst: &mut Vec<InferVarIndex>, src: &Vec<InferVarIndex>)
    requires
        old(dst)@.no_duplicates(),
    ensures
        final(dst)@ == merge_wakes(old(dst)@, src@),
        final(dst)@.no_duplicates(),
        forall|x: InferVarIndex| #[trigger]
            final(dst)@.contains(x) <==> (old(dst)@.contains(x) || src@.contains(x)),
{
    let mut k: usize = 0;
    while k < src.len()
        invariant
            k <= src@.len(),
            dst@ == merge_wakes(old(dst)@, src@.take(k as int)),
            dst@.no_duplicates(),
            forall|x: InferVarIndex| #[trigger]
                dst@.contains(x) <==> (old(dst)@.contains(x) || src@.take(k as int).contains(x)),
        decreases src@.len() - k,
    {
        let x = src[k];
        let ghost before = dst@;
        proof {
            assert(src@.take(k + 1).drop_last() =~= src@.take(k as int));
            assert(src@.take(k + 1).last() == x);
        }
        if !contains_var(dst, x) {
            dst.push(x);
            proof {
                assert forall|a: int, b: int|
                    0 <= a < dst@.len() && 0 <= b < dst@.len() && a != b implies dst@[a] != dst@[b] by {
                    if a == before.len() {
                        assert(before[b] != x);
                    } else if b == before.len() {
                        assert(before[a] != x);
                    }
                }
            }
        }
        proof {
            assert forall|y: InferVarIndex| #[trigger] dst@.contains(y) <==> (old(dst)@.contains(y)
                || src@.take(k + 1).contains(y)) by {
                if src@.take(k + 1).contains(y) && !src@.take(k as int).contains(y) {
                    let j = src@.take(k + 1).index_of(y);
                    assert(j == k);
                }
                if src@.take(k as int).contains(y) {
                    let j = src@.take(k as int).index_of(y);
                    assert(src@.take(k + 1)[j] == y);
                }
                if dst@.contains(y) && !before.contains(y) {
                    assert(y == x);
                    assert(src@.take(k + 1)[k as int] == y);
                }
                if before.contains(y) {
                    let j = before.index_of(y);
                    assert(dst@[j] == y);
                }
                if y == x {
                    assert(before.contains(x) || dst@[dst@.len() - 1] == x);
                }
            }
        }
        k += 1;
    }
    proof {
        assert(src@.take(src@.len() as int) =~= src@);
    }
}

/// The members of a duplicate-free list in increasing order.
fn sorted_vars(src: &Vec<InferVarIndex>) -> (sorted: Vec<InferVarIndex>)
    requires
        src@.no_duplicates(),
    ensures
        strictly_sorted(sorted@),
        forall|x: InferVarIndex| #[trigger] sorted@.contains(x) <==> src@.contains(x),
{
    let mut sorted: Vec<InferVarIndex> = Vec::new();
    let mut i: usize = 0;
    while i < src.len()
        invariant
            i <= src@.len(),
            src@.no_duplicates(),
            strictly_sorted(sorted@),
            forall|x: InferVarIndex| #[trigger] sorted@.contains(x) <==> src@.take(i as int).contains(x),
        decreases src@.len() - i,
    {
        let x = src[i];
        proof {
            assert(!src@.take(i as int).contains(x)) by {
                if src@.take(i as int).contains(x) {
                    let j = src@.take(i as int).index_of(x);
                    assert(src@[j] == src@[i as int]);
                }
            }
        }
        let mut k: usize = 0;
        while k < sorted.len() && sorted[k].0 < x.0
            invariant
                k <= sorted@.len(),
                forall|j: int| 0 <= j < k ==> (#[trigger] sorted@[j]).0 < x.0,
            decreases sorted@.len() - k,
        {
            k += 1;
        }
        let ghost before = sorted@;
        proof {
            assert forall|j: int| k <= j < before.len() implies (#[trigger] before[j]).0 > x.0 by {
                assert(before[k as int].0 >= x.0);
                if before[k as int].0 == x.0 {
                    assert(before[k as int] == x);
                    assert(before.contains(x));
                }
                if j > k {
                    assert(before[k as int].0 < before[j].0);
                }
            }
        }
        sorted.insert(k, x);
        proof {
            assert(sorted@ == before.insert(k as int, x));
            assert forall|a: int, b: int| 0 <= a < b < sorted@.len() implies (
            #[trigger] sorted@[a]).0 < (#[trigger] sorted@[b]).0 by {
                if b < k {
                    assert(sorted@[a] == before[a] && sorted@[b] == before[b]);
                } else if b == k {
                    assert(sorted@[a] == before[a]);
                } else if a < k {
                    assert(sorted@[a] == before[a] && sorted@[b] == before[b - 1]);
                } else if a == k {
                    assert(sorted@[b] == before[b - 1]);
                } else {
                    assert(sorted@[a] == before[a - 1] && sorted@[b] == before[b - 1]);
                }
            }
            assert forall|y: InferVarIndex| #[trigger] sorted@.contains(y) <==> src@.take(i + 1).contains(
                y,
            ) by {
                assert(src@.take(i + 1) == src@.take(i as int).push(x));
                if sorted@.contains(y) {
                    let j = sorted@.index_of(y);
                    if j < k {
                        assert(before[j] == y);
                    } else if j > k {
                        assert(before[j - 1] == y);
                    }
                }
                if before.contains(y) {
                    let j = before.index_of(y);
                    if j < k {
                        assert(sorted@[j] == y);
                    } else {
                        assert(sorted@[j + 1] == y);
                    }
                }
                if y == x {
                    assert(sorted@[k as int] == x);
                    assert(src@.take(i + 1)[i as int] == x);
                }
                if src@.take(i as int).contains(y) {
                    let j = src@.take(i as int).index_of(y);
                    assert(src@.take(i + 1)[j] == y);
                }
                if src@.take(i + 1).contains(y) && y != x {
                    let j = src@.take(i + 1).index_of(y);
                    assert(src@.take(i as int)[j] == y);
                }
            }
        }
        i += 1;
    }
    proof {
        assert(src@.take(src@.len() as int) =~= src@);
    }
    sorted
}

/// Membership test on a list of type identities.
fn contains_id(ids: &Vec<TyId>, x: TyId) -> (found: bool)
    ensures
        found == ids@.contains(x),
{
    let mut i: usize = 0;
    while i < ids.len()
        invariant
            i <= ids@.len(),
            forall|j: int| 0 <= j < i ==> ids@[j] != x,
        decreases ids@.len() - i,
    {
        if ids[i] == x {
            return true;
        }
        i += 1;
    }
    false
}

/// Membership test on a duplicate-free variable list.
fn contains_var(vars: &Vec<InferVarIndex>, x: InferVarIndex) -> (found: bool)
    ensures
        found == vars@.contains(x),
{
    let mut i: usize = 0;
    while i < vars.len()
        invariant
            i <= vars@.len(),
            forall|j: int| 0 <= j < i ==> vars@[j] != x,
        decreases vars@.len() - i,
    {
        if vars[i] == x {
            return true;
        }
        i += 1;
    }
    false
}

/// Versioned union-find and bounds over a store of types.
pub struct VersionedEGraph {
    versions: VersionTree,
    states: Vec<VersionState>,
    placeholder_universes: Vec<(GenericParam, Universe)>,
}

impl VersionedEGraph {
    // -----------------------------------------------------------------------
    // Abstract model
    // -----------------------------------------------------------------------
    /// The version tree.
    pub closed spec fn tree(&self) -> VersionTree {
        self.versions
    }

    /// The diff recorded in `version`.
    pub closed spec fn state(&self, version: Version) -> StateView {
        self.states@[version.0 as int].view()
    }

    /// The registered placeholder universes (last entry wins).
    pub closed spec fn placeholders(&self) -> Seq<(GenericParam, Universe)> {
        self.placeholder_universes@
    }

    /// Ranks that strictly increase along the effective parent edges of
    /// `version`.
    pub closed spec fn rank(&self, version: Version) -> spec_fn(TyId) -> nat {
        self.states@[version.0 as int].rank@
    }

    /// Upper bound of the ranks of `version`.
    pub closed spec fn rank_bound(&self, version: Version) -> nat {
        self.states@[version.0 as int].rank_bound@
    }

    /// The union-find parent of `ty` as seen from `version`, if any version
    /// on the path to the root records one.
    pub open spec fn eff_parent(&self, version: Version, ty: TyId) -> Option<TyId>
        decreases version.0,
    {
        match log_get(self.state(version).parents, ty) {
            Some(p) => Some(p),
            None => match self.tree().parent_of(version) {
                Some(up) => if up.0 < version.0 {
                    self.eff_parent(up, ty)
                } else {
                    None
                },
                None => None,
            },
        }
    }

    /// The union-find parent of `ty` in `version` (itself when unrecorded).
    pub open spec fn parent_spec(&self, version: Version, ty: TyId) -> TyId {
        match self.eff_parent(version, ty) {
            Some(p) => p,
            None => ty,
        }
    }

    /// The representative of the class of `ty` in `version`.
    pub open spec fn find_spec(&self, version: Version, ty: TyId) -> TyId
        decreases self.rank_bound(version) - self.rank(version)(ty),
    {
        let p = self.parent_spec(version, ty);
        if p == ty {
            ty
        } else if self.rank(version)(ty) < self.rank(version)(p) && self.rank(version)(p)
            <= self.rank_bound(version) {
            self.find_spec(version, p)
        } else {
            ty
        }
    }

    /// `target` lies on the parent chain of `ty` in `version`.
    pub open spec fn reaches(&self, version: Version, ty: TyId, target: TyId) -> bool
        decreases self.rank_bound(version) - self.rank(version)(ty),
    {
        let p = self.parent_spec(version, ty);
        if ty == target {
            true
        } else if p == ty {
            false
        } else if self.rank(version)(ty) < self.rank(version)(p) && self.rank(version)(p)
            <= self.rank_bound(version) {
            self.reaches(version, p, target)
        } else {
            false
        }
    }

    /// The bound of `ty` seen from `version`, if any version records one.
    pub open spec fn eff_bound(&self, version: Version, ty: TyId) -> Option<Bound>
        decreases version.0,
    {
        match log_get(self.state(version).bounds, ty) {
            Some(b) => Some(b),
            None => match self.tree().parent_of(version) {
                Some(up) => if up.0 < version.0 {
                    self.eff_bound(up, ty)
                } else {
                    None
                },
                None => None,
            },
        }
    }

    /// The bound of `ty` in `version`.
    pub open spec fn bound_spec(&self, version: Version, ty: TyId) -> Bound {
        match self.eff_bound(version, ty) {
            Some(b) => b,
            None => Bound::Unknown,
        }
    }

    /// The lowered universe of a variable seen from `version`, if any.
    pub open spec fn eff_ceiling(&self, version: Version, index: InferVarIndex) -> Option<Universe>
        decreases version.0,
    {
        match log_get(self.state(version).universe_ceilings, index) {
            Some(u) => Some(u),
            None => match self.tree().parent_of(version) {
                Some(up) => if up.0 < version.0 {
                    self.eff_ceiling(up, index)
                } else {
                    None
                },
                None => None,
            },
        }
    }

    /// The current universe of a variable in `version`.
    pub open spec fn universe_spec(&self, version: Version, index: InferVarIndex) -> Universe {
        match self.eff_ceiling(version, index) {
            Some(u) => u,
            None => self.tree().vars()[index.0 as int].creation_universe,
        }
    }

    /// The universe registered for a placeholder (the root universe when
    /// unregistered).
    pub open spec fn placeholder_spec(&self, param: GenericParam) -> Universe {
        match log_get(self.placeholders(), param) {
            Some(u) => u,
            None => Universe::root(),
        }
    }

    /// The types registered as depending on `ty` in `version` or an ancestor.
    pub open spec fn dependents_spec(&self, version: Version, ty: TyId) -> Set<TyId>
        decreases version.0,
    {
        let here = Set::new(|p: TyId| self.state(version).dependents.contains((ty, p)));
        match self.tree().parent_of(version) {
            Some(up) => if up.0 < version.0 {
                here.union(self.dependents_spec(up, ty))
            } else {
                here
            },
            None => here,
        }
    }

    /// `version` may be mutated.
    pub open spec fn mutable(&self, version: Version) -> bool {
        self.tree().live(version) && self.tree().children_of(version).len() == 0
    }

    /// The ranks of `version` witness that its parent relation is acyclic.
    pub open spec fn rank_ok(&self, version: Version) -> bool {
        &&& forall|x: TyId|
            #![trigger self.parent_spec(version, x)]
            self.parent_spec(version, x) != x ==> self.rank(version)(x) < self.rank(version)(
                self.parent_spec(version, x),
            )
        &&& forall|x: TyId| #[trigger] self.rank(version)(x) <= self.rank_bound(version)
    }

    /// Well-formedness.
    pub closed spec fn wf(&self) -> bool {
        &&& self.versions.wf()
        &&& self.states@.len() == self.versions.num_versions()
        &&& forall|v: Version| #[trigger] self.versions.live(v) ==> self.rank_ok(v)
        &&& forall|i: int| 0 <= i < self.states@.len() ==> (#[trigger] self.states@[i]).wakes@.no_duplicates()
    }

    // -----------------------------------------------------------------------
    // Construction and queries
    // -----------------------------------------------------------------------
    pub fn new() -> (egraph: Self)
        ensures
            egraph.wf(),
            egraph.tree().num_versions() == 1,
            egraph.tree().live(Version::root()),
            egraph.tree().children_of(Version::root()) == Seq::<Version>::empty(),
            egraph.tree().vars() == Seq::<VarInfo>::empty(),
            egraph.state(Version::root()) == StateView::empty(0),
            egraph.placeholders() == Seq::<(GenericParam, Universe)>::empty(),
    {
        let mut states: Vec<VersionState> = Vec::new();
        states.push(VersionState::fresh(0, Ghost(|x: TyId| 0nat), Ghost(0nat)));
        let egraph = Self {
            versions: VersionTree::new(),
            states,
            placeholder_universes: Vec::new(),
        };
        proof {
            egraph.versions.lemma_root();
            assert forall|v: Version| #[trigger] egraph.versions.live(v) implies egraph.rank_ok(v) by {
                egraph.versions.lemma_live(v);
                assert(v == Version::root());
                assert forall|x: TyId| #![trigger egraph.parent_spec(v, x)] egraph.parent_spec(v, x) == x by {
                    assert(egraph.state(v).parents == Seq::<(TyId, TyId)>::empty());
                }
            }
        }
        egraph
    }

    pub fn root_version(&self) -> (root: Version)
        ensures
            root == Version::root(),
    {
        self.versions.root()
    }

    pub fn version_tree(&self) -> (tree: &VersionTree)
        ensures
            *tree == self.tree(),
    {
        &self.versions
    }

    pub fn semantic_revision(&self, version: Version) -> (revision: u64)
        requires
            self.wf(),
            self.tree().live(version),
        ensures
            revision == self.state(version).semantic_revision,
    {
        self.versions.assert_live(version);
        proof {
            self.lemma_state_index(version);
        }
        self.states[version.0 as usize].semantic_revision
    }

    /// `self` differs from `old` only in the state of `version`, and the
    /// tree keeps every parent pointer and liveness of `old`'s versions.
    pub open spec fn others_unchanged(&self, old: &Self, version: Version) -> bool {
        &&& old.tree().num_versions() <= self.tree().num_versions()
        &&& forall|w: Version|
            #![trigger self.state(w)]
            old.tree().is_known(w) && w != version ==> {
                &&& self.state(w) == old.state(w)
                &&& self.rank(w) == old.rank(w)
                &&& self.rank_bound(w) == old.rank_bound(w)
            }
        &&& forall|w: Version|
            #![trigger self.tree().parent_of(w)]
            old.tree().is_known(w) ==> self.tree().parent_of(w) == old.tree().parent_of(w)
                && self.tree().live(w) == old.tree().live(w)
    }

    /// Everything a version sees is determined by the states on its path to
    /// the root.
    pub proof fn lemma_views_agree(&self, old: &Self, w: Version)
        requires
            old.wf(),
            old.tree().live(w),
            forall|a: Version|
                #![trigger old.tree().ancestor(a, w)]
                old.tree().ancestor(a, w) ==> self.state(a) == old.state(a) && self.tree().parent_of(
                    a,
                ) == old.tree().parent_of(a),
        ensures
            forall|x: TyId| #[trigger] self.eff_parent(w, x) == old.eff_parent(w, x),
            forall|x: TyId| #[trigger] self.eff_bound(w, x) == old.eff_bound(w, x),
            forall|i: InferVarIndex| #[trigger] self.eff_ceiling(w, i) == old.eff_ceiling(w, i),
            forall|x: TyId| #[trigger] self.dependents_spec(w, x) == old.dependents_spec(w, x),
            forall|x: TyId| #[trigger] self.parent_spec(w, x) == old.parent_spec(w, x),
        decreases w.0,
    {
        old.tree().lemma_live(w);
        old.tree().lemma_ancestor_refl(w);
        assert(self.state(w) == old.state(w));
        assert(self.tree().parent_of(w) == old.tree().parent_of(w));
        match old.tree().parent_of(w) {
            Some(up) => {
                old.tree().lemma_parent_is_ancestor(w);
                assert forall|a: Version| #[trigger] old.tree().ancestor(a, up) implies self.state(a)
                    == old.state(a) && self.tree().parent_of(a) == old.tree().parent_of(a) by {
                    old.tree().lemma_ancestor_trans(a, up, w);
                }
                self.lemma_views_agree(old, up);
            },
            None => {},
        }
        assert forall|x: TyId| #[trigger] self.eff_parent(w, x) == old.eff_parent(w, x) by {
            assert(self.state(w).parents == old.state(w).parents);
            match old.tree().parent_of(w) {
                Some(up) => {
                    assert(self.eff_parent(up, x) == old.eff_parent(up, x));
                },
                None => {},
            }
        }
        assert forall|x: TyId| #[trigger] self.eff_bound(w, x) == old.eff_bound(w, x) by {
            assert(self.state(w).bounds == old.state(w).bounds);
            match old.tree().parent_of(w) {
                Some(up) => {
                    assert(self.eff_bound(up, x) == old.eff_bound(up, x));
                },
                None => {},
            }
        }
        assert forall|i: InferVarIndex| #[trigger] self.eff_ceiling(w, i) == old.eff_ceiling(w, i) by {
            assert(self.state(w).universe_ceilings == old.state(w).universe_ceilings);
            match old.tree().parent_of(w) {
                Some(up) => {
                    assert(self.eff_ceiling(up, i) == old.eff_ceiling(up, i));
                },
                None => {},
            }
        }
        assert forall|x: TyId| #[trigger] self.dependents_spec(w, x) == old.dependents_spec(w, x) by {
            assert(self.state(w).dependents == old.state(w).dependents);
            assert(Set::new(|p: TyId| self.state(w).dependents.contains((x, p))) == Set::new(
                |p: TyId| old.state(w).dependents.contains((x, p)),
            ));
            match old.tree().parent_of(w) {
                Some(up) => {
                    assert(self.dependents_spec(up, x) == old.dependents_spec(up, x));
                },
                None => {},
            }
        }
    }

    /// A change confined to one version that is not an ancestor of `w`
    /// leaves everything `w` sees unchanged.
    pub proof fn lemma_view_frame(&self, old: &Self, version: Version, w: Version)
        requires
            old.wf(),
            self.others_unchanged(old, version),
            old.mutable(version) || !old.tree().is_known(version),
            old.tree().live(w),
            w != version,
        ensures
            forall|x: TyId| #[trigger] self.eff_parent(w, x) == old.eff_parent(w, x),
            forall|x: TyId| #[trigger] self.eff_bound(w, x) == old.eff_bound(w, x),
            forall|i: InferVarIndex| #[trigger] self.eff_ceiling(w, i) == old.eff_ceiling(w, i),
            forall|x: TyId| #[trigger] self.dependents_spec(w, x) == old.dependents_spec(w, x),
            forall|x: TyId| #[trigger] self.parent_spec(w, x) == old.parent_spec(w, x),
            forall|x: TyId| #[trigger] self.find_spec(w, x) == old.find_spec(w, x),
            self.rank(w) == old.rank(w),
            self.rank_bound(w) == old.rank_bound(w),
    {
        old.tree().lemma_live(w);
        assert forall|a: Version| #[trigger] old.tree().ancestor(a, w) implies self.state(a) == old.state(
            a,
        ) && self.tree().parent_of(a) == old.tree().parent_of(a) by {
            old.tree().lemma_ancestor_live(a, w);
            old.tree().lemma_live(a);
            if a == version {
                old.tree().lemma_ancestor_has_child(a, w);
            }
        }
        self.lemma_views_agree(old, w);
        assert(old.tree().is_known(w));
        assert(self.state(w) == old.state(w));
        assert(self.rank(w) == old.rank(w));
        assert forall|x: TyId| #[trigger] self.find_spec(w, x) == old.find_spec(w, x) by {
            self.lemma_find_same(old, w, w, x);
        }
    }

    /// `find_spec` depends only on the parents and ranks of a version.
    pub proof fn lemma_find_same(&self, old: &Self, w: Version, ow: Version, x: TyId)
        requires
            forall|y: TyId| #[trigger] self.parent_spec(w, y) == old.parent_spec(ow, y),
            self.rank(w) == old.rank(ow),
            self.rank_bound(w) == old.rank_bound(ow),
        ensures
            self.find_spec(w, x) == old.find_spec(ow, x),
        decreases old.rank_bound(ow) - old.rank(ow)(x),
    {
        let p = old.parent_spec(ow, x);
        assert(self.parent_spec(w, x) == p);
        if p != x && old.rank(ow)(x) < old.rank(ow)(p) && old.rank(ow)(p) <= old.rank_bound(ow) {
            self.lemma_find_same(old, w, ow, p);
        }
    }

    /// Under a valid ranking, `find_spec` returns a root on the chain of `ty`.
    pub proof fn lemma_find_root(&self, version: Version, ty: TyId)
        requires
            self.rank_ok(version),
        ensures
            self.parent_spec(version, self.find_spec(version, ty)) == self.find_spec(version, ty),
            self.reaches(version, ty, self.find_spec(version, ty)),
            self.rank(version)(ty) <= self.rank(version)(self.find_spec(version, ty)),
            self.find_spec(version, self.find_spec(version, ty)) == self.find_spec(version, ty),
            self.parent_spec(version, ty) != ty ==> self.find_spec(version, ty) == self.find_spec(
                version,
                self.parent_spec(version, ty),
            ),
        decreases self.rank_bound(version) - self.rank(version)(ty),
    {
        let p = self.parent_spec(version, ty);
        assert(self.rank(version)(ty) <= self.rank_bound(version));
        if p != ty {
            assert(self.rank(version)(ty) < self.rank(version)(p));
            assert(self.rank(version)(p) <= self.rank_bound(version));
            self.lemma_find_root(version, p);
            let r = self.find_spec(version, ty);
            assert(r == self.find_spec(version, p));
            self.lemma_reaches_trans(version, ty, p, r);
        }
    }

    proof fn lemma_reaches_trans(&self, version: Version, a: TyId, b: TyId, c: TyId)
        requires
            self.rank_ok(version),
            self.parent_spec(version, a) == b,
            a != b,
            self.reaches(version, b, c),
        ensures
            self.reaches(version, a, c),
    {
        assert(self.rank(version)(a) < self.rank(version)(b));
        assert(self.rank(version)(b) <= self.rank_bound(version));
    }

    /// Ranks do not decrease along a parent chain.
    proof fn lemma_reaches_rank(&self, version: Version, a: TyId, b: TyId)
        requires
            self.rank_ok(version),
            self.reaches(version, a, b),
        ensures
            self.rank(version)(a) <= self.rank(version)(b),
        decreases self.rank_bound(version) - self.rank(version)(a),
    {
        let p = self.parent_spec(version, a);
        if a != b {
            self.lemma_reaches_rank(version, p, b);
        }
    }

    /// Parent chains compose.
    proof fn lemma_reaches_chain(&self, version: Version, a: TyId, b: TyId, c: TyId)
        requires
            self.rank_ok(version),
            self.reaches(version, a, b),
            self.reaches(version, b, c),
        ensures
            self.reaches(version, a, c),
        decreases self.rank_bound(version) - self.rank(version)(a),
    {
        let p = self.parent_spec(version, a);
        if a != b {
            self.lemma_reaches_chain(version, p, b, c);
        }
    }

    /// The parent views of a version agree when every known version keeps
    /// its parent entries and tree parent.
    proof fn lemma_parents_same(&self, old: &Self, w: Version)
        requires
            old.wf(),
            old.tree().live(w),
            forall|a: Version|
                #![trigger self.state(a)]
                old.tree().is_known(a) ==> self.state(a).parents == old.state(a).parents,
            forall|a: Version|
                #![trigger self.tree().parent_of(a)]
                old.tree().is_known(a) ==> self.tree().parent_of(a) == old.tree().parent_of(a),
        ensures
            forall|x: TyId| #[trigger] self.eff_parent(w, x) == old.eff_parent(w, x),
            forall|x: TyId| #[trigger] self.parent_spec(w, x) == old.parent_spec(w, x),
        decreases w.0,
    {
        old.tree().lemma_live(w);
        assert(self.state(w).parents == old.state(w).parents);
        assert(self.tree().parent_of(w) == old.tree().parent_of(w));
        match old.tree().parent_of(w) {
            Some(up) => {
                self.lemma_parents_same(old, up);
            },
            None => {},
        }
        assert forall|x: TyId| #[trigger] self.eff_parent(w, x) == old.eff_parent(w, x) by {
            match old.tree().parent_of(w) {
                Some(up) => {
                    assert(self.eff_parent(up, x) == old.eff_parent(up, x));
                },
                None => {},
            }
        }
    }

    /// The effective parent entry of `ty` in `version`.
    fn get_parent(&self, version: Version, ty: TyId) -> (parent: TyId)
        requires
            self.wf(),
            self.tree().live(version),
        ensures
            parent == self.parent_spec(version, ty),
    {
        let mut iter = self.versions.ancestors(version);
        loop
            invariant
                self.wf(),
                iter.valid(),
                iter.tree() == self.versions,
                self.eff_parent(version, ty) == match iter.cursor() {
                    Some(a) => self.eff_parent(a, ty),
                    None => None,
                },
            decreases match iter.cursor() {
                Some(a) => a.0 as int + 1,
                None => 0,
            },
        {
            let ghost before = iter.cursor();
            match iter.next() {
                None => {
                    return ty;
                },
                Some(a) => {
                    proof {
                        self.lemma_state_index(a);
                        self.versions.lemma_live(a);
                    }
                    match log_find(&self.states[a.0 as usize].parents, ty) {
                        Some(p) => {
                            return p;
                        },
                        None => {},
                    }
                },
            }
        }
    }

    /// The effective bound entry of `ty` in `version`.
    fn get_bound_entry(&self, version: Version, ty: TyId) -> (bound: Option<Bound>)
        requires
            self.wf(),
            self.tree().live(version),
        ensures
            bound == self.eff_bound(version, ty),
    {
        let mut iter = self.versions.ancestors(version);
        loop
            invariant
                self.wf(),
                iter.valid(),
                iter.tree() == self.versions,
                self.eff_bound(version, ty) == match iter.cursor() {
                    Some(a) => self.eff_bound(a, ty),
                    None => None,
                },
            decreases match iter.cursor() {
                Some(a) => a.0 as int + 1,
                None => 0,
            },
        {
            match iter.next() {
                None => {
                    return None;
                },
                Some(a) => {
                    proof {
                        self.lemma_state_index(a);
                        self.versions.lemma_live(a);
                    }
                    match log_find(&self.states[a.0 as usize].bounds, ty) {
                        Some(b) => {
                            return Some(b);
                        },
                        None => {},
                    }
                },
            }
        }
    }

    /// The effective ceiling entry of a variable in `version`.
    fn get_ceiling_entry(&self, version: Version, index: InferVarIndex) -> (ceiling: Option<
        Universe,
    >)
        requires
            self.wf(),
            self.tree().live(version),
        ensures
            ceiling == self.eff_ceiling(version, index),
    {
        let mut iter = self.versions.ancestors(version);
        loop
            invariant
                self.wf(),
                iter.valid(),
                iter.tree() == self.versions,
                self.eff_ceiling(version, index) == match iter.cursor() {
                    Some(a) => self.eff_ceiling(a, index),
                    None => None,
                },
            decreases match iter.cursor() {
                Some(a) => a.0 as int + 1,
                None => 0,
            },
        {
            match iter.next() {
                None => {
                    return None;
                },
                Some(a) => {
                    proof {
                        self.lemma_state_index(a);
                        self.versions.lemma_live(a);
                    }
                    match var_log_find(&self.states[a.0 as usize].universe_ceilings, index) {
                        Some(u) => {
                            return Some(u);
                        },
                        None => {},
                    }
                },
            }
        }
    }

    // -----------------------------------------------------------------------
    // Union-find reads
    // -----------------------------------------------------------------------
    pub fn find(&self, version: Version, ty: TyId) -> (root: TyId)
        requires
            self.wf(),
            self.tree().live(version),
        ensures
            root == self.find_spec(version, ty),
            self.parent_spec(version, root) == root,
    {
        self.versions.assert_live(version);
        proof {
            assert(self.rank_ok(version));
            self.lemma_find_root(version, ty);
        }
        let mut current = ty;
        loop
            invariant
                self.wf(),
                self.tree().live(version),
                self.rank_ok(version),
                self.find_spec(version, current) == self.find_spec(version, ty),
            decreases self.rank_bound(version) - self.rank(version)(current),
        {
            let parent = self.get_parent(version, current);
            if parent == current {
                return current;
            }
            proof {
                assert(self.rank(version)(current) < self.rank(version)(parent));
                assert(self.rank(version)(parent) <= self.rank_bound(version));
            }
            current = parent;
        }
    }

    // -----------------------------------------------------------------------
    // Bounds and universes (reads)
    // -----------------------------------------------------------------------
    pub fn get_bound(&self, version: Version, ty: TyId) -> (bound: Bound)
        requires
            self.wf(),
            self.tree().live(version),
        ensures
            bound == self.bound_spec(version, ty),
    {
        self.versions.assert_live(version);
        match self.get_bound_entry(version, ty) {
            Some(bound) => bound,
            None => Bound::Unknown,
        }
    }

    pub fn get_var_info(&self, version: Version, index: InferVarIndex) -> (info: &VarInfo)
        requires
            self.wf(),
            self.tree().live(version),
            index.0 < self.tree().vars().len(),
            self.tree().ancestor(self.tree().vars()[index.0 as int].owner, version),
        ensures
            *info == self.tree().vars()[index.0 as int],
    {
        self.versions.get_variable(version, index)
    }

    pub fn current_universe(&self, version: Version, index: InferVarIndex) -> (universe: Universe)
        requires
            self.wf(),
            self.tree().live(version),
            index.0 < self.tree().vars().len(),
            self.tree().ancestor(self.tree().vars()[index.0 as int].owner, version),
        ensures
            universe == self.universe_spec(version, index),
    {
        let info = self.versions.get_variable(version, index);
        match self.get_ceiling_entry(version, index) {
            Some(universe) => universe,
            None => info.creation_universe,
        }
    }

    pub fn placeholder_universe(&self, param: GenericParam) -> (universe: Universe)
        ensures
            universe == self.placeholder_spec(param),
    {
        let mut i: usize = self.placeholder_universes.len();
        proof {
            assert(self.placeholders().take(i as int) =~= self.placeholders());
        }
        while i > 0
            invariant
                i <= self.placeholders().len(),
                log_get(self.placeholders(), param) == log_get(
                    self.placeholders().take(i as int),
                    param,
                ),
            decreases i,
        {
            let entry = self.placeholder_universes[i - 1];
            proof {
                assert(self.placeholders().take(i as int).drop_last() =~= self.placeholders().take(
                    i - 1,
                ));
                assert(self.placeholders().take(i as int).last() == self.placeholders()[i - 1]);
            }
            if entry.0 == param {
                return entry.1;
            }
            i -= 1;
        }
        proof {
            assert(self.placeholders().take(0) =~= Seq::<(GenericParam, Universe)>::empty());
        }
        Universe(0)
    }

    /// Every identity recorded in any version lies below `n`.
    pub open spec fn ids_below(&self, n: nat) -> bool {
        forall|w: Version| #[trigger] self.tree().is_known(w) ==> state_ids_below(self.state(w), n)
    }

    /// Well-formedness carries over when the tree keeps its shape and every
    /// version keeps its parent entries and ranks.
    proof fn lemma_wf_frame(&self, old: &Self)
        requires
            old.wf(),
            self.versions.wf(),
            self.states@.len() == self.versions.num_versions(),
            self.tree().num_versions() == old.tree().num_versions(),
            forall|a: Version|
                #![trigger self.tree().parent_of(a)]
                old.tree().is_known(a) ==> self.tree().parent_of(a) == old.tree().parent_of(a)
                    && self.tree().live(a) == old.tree().live(a),
            forall|a: Version|
                #![trigger self.state(a)]
                old.tree().is_known(a) ==> self.state(a).parents == old.state(a).parents
                    && self.rank(a) == old.rank(a) && self.rank_bound(a) == old.rank_bound(a),
            forall|i: int| 0 <= i < self.states@.len() ==> (#[trigger] self.states@[i]).wakes@.no_duplicates(),
        ensures
            self.wf(),
            forall|v: Version, x: TyId|
                #![trigger self.parent_spec(v, x)]
                old.tree().live(v) ==> self.parent_spec(v, x) == old.parent_spec(v, x),
            forall|v: Version, x: TyId|
                #![trigger self.find_spec(v, x)]
                old.tree().live(v) ==> self.find_spec(v, x) == old.find_spec(v, x),
    {
        assert forall|v: Version, x: TyId|
            #![trigger self.parent_spec(v, x)]
            old.tree().live(v) implies self.parent_spec(v, x) == old.parent_spec(v, x) by {
            self.lemma_parents_same(old, v);
        }
        assert forall|v: Version| #[trigger] self.versions.live(v) implies self.rank_ok(v) by {
            self.tree().lemma_live(v);
            assert(self.tree().parent_of(v) == old.tree().parent_of(v));
            assert(old.tree().live(v));
            assert(old.rank_ok(v));
            assert(self.state(v).parents == old.state(v).parents);
            assert(self.rank(v) == old.rank(v) && self.rank_bound(v) == old.rank_bound(v));
            self.lemma_parents_same(old, v);
            assert forall|x: TyId| #![trigger self.parent_spec(v, x)]
                self.parent_spec(v, x) != x implies self.rank(v)(x) < self.rank(v)(self.parent_spec(v, x)) by {
                assert(old.parent_spec(v, x) == self.parent_spec(v, x));
            }
            assert forall|x: TyId| #[trigger] self.rank(v)(x) <= self.rank_bound(v) by {
                assert(old.rank(v)(x) <= old.rank_bound(v));
            }
        }
        assert forall|v: Version, x: TyId|
            #![trigger self.find_spec(v, x)]
            old.tree().live(v) implies self.find_spec(v, x) == old.find_spec(v, x) by {
            old.tree().lemma_live(v);
            assert(self.state(v).parents == old.state(v).parents);
            self.lemma_parents_same(old, v);
            self.lemma_find_same(old, v, v, x);
        }
    }

    /// Record a semantic change in `version`, waking `wake` if given.
    fn mark_semantic_change(&mut self, version: Version, wake: Option<InferVarIndex>)
        requires
            old(self).wf(),
            old(self).tree().live(version),
        ensures
            final(self).wf(),
            final(self).tree() == old(self).tree(),
            final(self).placeholders() == old(self).placeholders(),
            final(self).others_unchanged(old(self), version),
            final(self).rank(version) == old(self).rank(version),
            final(self).rank_bound(version) == old(self).rank_bound(version),
            final(self).state(version) == (StateView {
                semantic_revision: next_revision(old(self).state(version).semantic_revision),
                wakes: match wake {
                    Some(i) => set_insert(old(self).state(version).wakes, i),
                    None => old(self).state(version).wakes,
                },
                ..old(self).state(version)
            }),
            forall|v: Version, x: TyId|
                #![trigger final(self).find_spec(v, x)]
                old(self).tree().live(v) ==> final(self).find_spec(v, x) == old(self).find_spec(v, x),
            forall|n: nat| old(self).ids_below(n) ==> final(self).ids_below(n),
    {
        proof {
            self.lemma_state_index(version);
        }
        let i = version.0 as usize;
        let revision = self.states[i].semantic_revision;
        self.states[i].semantic_revision = if revision == u64::MAX {
            0
        } else {
            revision + 1
        };
        match wake {
            Some(index) => {
                if !contains_var(&self.states[i].wakes, index) {
                    self.states[i].wakes.push(index);
                }
            },
            None => {},
        }
        proof {
            let ghost o = *old(self);
            assert forall|j: int| 0 <= j < self.states@.len() implies (
            #[trigger] self.states@[j]).wakes@.no_duplicates() by {
                if j == i {
                    match wake {
                        Some(index) => {
                            if !o.states@[j].wakes@.contains(index) {
                                let w = o.states@[j].wakes@;
                                assert forall|a: int, b: int|
                                    0 <= a < w.push(index).len() && 0 <= b < w.push(index).len()
                                        && a != b implies w.push(index)[a] != w.push(index)[b] by {
                                    if a == w.len() {
                                        assert(w[b] != index);
                                    } else if b == w.len() {
                                        assert(w[a] != index);
                                    }
                                }
                            }
                        },
                        None => {},
                    }
                }
            }
            assert(self.state(version) =~= (StateView {
                semantic_revision: next_revision(o.state(version).semantic_revision),
                wakes: match wake {
                    Some(i) => set_insert(o.state(version).wakes, i),
                    None => o.state(version).wakes,
                },
                ..o.state(version)
            }));
            assert forall|w: Version| #![trigger self.state(w)] o.tree().is_known(w) implies self.state(
                w,
            ).parents == o.state(w).parents && self.rank(w) == o.rank(w) && self.rank_bound(w)
                == o.rank_bound(w) by {}
            self.lemma_wf_frame(&o);
            assert forall|n: nat| o.ids_below(n) implies self.ids_below(n) by {
                assert forall|w: Version| #[trigger] self.tree().is_known(w) implies state_ids_below(
                    self.state(w),
                    n,
                ) by {
                    assert(state_ids_below(o.state(w), n));
                }
            }
        }
    }

    /// The registered universe of a placeholder, if any.
    fn placeholder_entry(&self, param: GenericParam) -> (universe: Option<Universe>)
        ensures
            universe == log_get(self.placeholders(), param),
    {
        let mut i: usize = self.placeholder_universes.len();
        proof {
            assert(self.placeholders().take(i as int) =~= self.placeholders());
        }
        while i > 0
            invariant
                i <= self.placeholders().len(),
                log_get(self.placeholders(), param) == log_get(
                    self.placeholders().take(i as int),
                    param,
                ),
            decreases i,
        {
            let entry = self.placeholder_universes[i - 1];
            proof {
                assert(self.placeholders().take(i as int).drop_last() =~= self.placeholders().take(
                    i - 1,
                ));
                assert(self.placeholders().take(i as int).last() == self.placeholders()[i - 1]);
            }
            if entry.0 == param {
                return Some(entry.1);
            }
            i -= 1;
        }
        proof {
            assert(self.placeholders().take(0) =~= Seq::<(GenericParam, Universe)>::empty());
        }
        None
    }

    /// Record the universe of a rigid placeholder. A placeholder lives in one
    /// universe only.
    pub fn register_placeholder(&mut self, param: GenericParam, universe: Universe)
        requires
            log_get(old(self).placeholders(), param) is None || log_get(
                old(self).placeholders(),
                param,
            ) == Some(universe),
        ensures
            final(self).tree() == old(self).tree(),
            forall|v: Version| #[trigger] final(self).state(v) == old(self).state(v),
            forall|v: Version| #[trigger] final(self).rank(v) == old(self).rank(v),
            forall|v: Version| #[trigger] final(self).rank_bound(v) == old(self).rank_bound(v),
            forall|p: GenericParam| #[trigger]
                log_get(final(self).placeholders(), p) == if p == param {
                    Some(universe)
                } else {
                    log_get(old(self).placeholders(), p)
                },
            old(self).wf() ==> final(self).wf(),
    {
        let ghost o = *self;
        match self.placeholder_entry(param) {
            Some(_previous) => {},
            None => {
                self.placeholder_universes.push((param, universe));
                proof {
                    assert forall|p: GenericParam| #[trigger]
                        log_get(self.placeholders(), p) == if p == param {
                            Some(universe)
                        } else {
                            log_get(old(self).placeholders(), p)
                        } by {
                        assert(self.placeholders().drop_last() =~= old(self).placeholders());
                    }
                }
            },
        }
        proof {
            assert(self.versions == o.versions && self.states == o.states);
            if o.wf() {
                assert forall|a: Version|
                    #![trigger self.tree().parent_of(a)]
                    o.tree().is_known(a) implies self.tree().parent_of(a) == o.tree().parent_of(a)
                    && self.tree().live(a) == o.tree().live(a) by {}
                assert forall|a: Version|
                    #![trigger self.state(a)]
                    o.tree().is_known(a) implies self.state(a).parents == o.state(a).parents
                    && self.rank(a) == o.rank(a) && self.rank_bound(a) == o.rank_bound(a) by {}
                self.lemma_wf_frame(&o);
            }
        }
    }

    /// Allocate a variable owned by a leaf version, starting in `universe`.
    pub fn alloc_var(&mut self, version: Version, universe: Universe) -> (index: InferVarIndex)
        requires
            old(self).wf(),
            old(self).mutable(version),
            old(self).tree().vars().len() <= u32::MAX,
        ensures
            final(self).wf(),
            index.0 == old(self).tree().vars().len(),
            final(self).tree().vars() == old(self).tree().vars().push(
                VarInfo { owner: version, creation_universe: universe },
            ),
            final(self).tree().owned_by(version) == old(self).tree().owned_by(version).push(index),
            final(self).tree().num_versions() == old(self).tree().num_versions(),
            forall|v: Version|
                #![trigger final(self).tree().live(v)]
                old(self).tree().is_known(v) ==> {
                    &&& final(self).tree().live(v) == old(self).tree().live(v)
                    &&& final(self).tree().parent_of(v) == old(self).tree().parent_of(v)
                    &&& final(self).tree().children_of(v) == old(self).tree().children_of(v)
                    &&& v != version ==> final(self).tree().owned_by(v) == old(self).tree().owned_by(
                        v,
                    )
                },
            forall|a: Version, v: Version| #[trigger]
                final(self).tree().ancestor(a, v) == old(self).tree().ancestor(a, v),
            final(self).state(version) == (StateView {
                universe_ceilings: old(self).state(version).universe_ceilings.push((index, universe)),
                ..old(self).state(version)
            }),
            final(self).others_unchanged(old(self), version),
            final(self).rank(version) == old(self).rank(version),
            final(self).rank_bound(version) == old(self).rank_bound(version),
            final(self).placeholders() == old(self).placeholders(),
            final(self).universe_spec(version, index) == universe,
            forall|v: Version, x: TyId|
                #![trigger final(self).find_spec(v, x)]
                old(self).tree().live(v) ==> final(self).find_spec(v, x) == old(self).find_spec(v, x),
            forall|n: nat| old(self).ids_below(n) ==> final(self).ids_below(n),
    {
        let ghost o = *self;
        proof {
            self.lemma_state_index(version);
        }
        let index = self.versions.alloc_var(version, universe);
        self.states[version.0 as usize].universe_ceilings.push((index, universe));
        proof {
            assert forall|a: Version|
                #![trigger self.tree().parent_of(a)]
                o.tree().is_known(a) implies self.tree().parent_of(a) == o.tree().parent_of(a)
                && self.tree().live(a) == o.tree().live(a) by {
                assert(self.tree().live(a) == o.tree().live(a));
            }
            assert forall|a: Version|
                #![trigger self.state(a)]
                o.tree().is_known(a) implies self.state(a).parents == o.state(a).parents
                && self.rank(a) == o.rank(a) && self.rank_bound(a) == o.rank_bound(a) by {}
            assert forall|w: Version|
                #![trigger self.tree().parent_of(w)]
                o.tree().is_known(w) implies self.tree().parent_of(w) == o.tree().parent_of(w)
                && self.tree().live(w) == o.tree().live(w) by {
                assert(self.tree().live(w) == o.tree().live(w));
            }
            assert(self.state(version) =~= (StateView {
                universe_ceilings: o.state(version).universe_ceilings.push((index, universe)),
                ..o.state(version)
            }));
            self.lemma_wf_frame(&o);
            assert(log_get(self.state(version).universe_ceilings, index) == Some(universe));
            assert forall|n: nat| o.ids_below(n) implies self.ids_below(n) by {
                assert forall|w: Version| #[trigger] self.tree().is_known(w) implies state_ids_below(
                    self.state(w),
                    n,
                ) by {
                    assert(o.tree().is_known(w));
                    assert(state_ids_below(o.state(w), n));
                    if w == version {
                        assert(self.state(w).parents == o.state(w).parents);
                        assert(self.state(w).bounds == o.state(w).bounds);
                        assert(self.state(w).dependents == o.state(w).dependents);
                        assert(self.state(w).worklist == o.state(w).worklist);
                    } else {
                        assert(self.state(w) == o.state(w));
                    }
                }
            }
        }
        index
    }

    /// Lower the universe of a variable; reports whether it changed.
    pub fn lower_universe(&mut self, version: Version, index: InferVarIndex, ceiling: Universe) -> (lowered: bool)
        requires
            old(self).wf(),
            old(self).mutable(version),
            index.0 < old(self).tree().vars().len(),
            old(self).tree().ancestor(old(self).tree().vars()[index.0 as int].owner, version),
        ensures
            final(self).wf(),
            final(self).tree() == old(self).tree(),
            final(self).placeholders() == old(self).placeholders(),
            lowered == (ceiling.0 < old(self).universe_spec(version, index).0),
            lowered ==> final(self).state(version) == (StateView {
                universe_ceilings: old(self).state(version).universe_ceilings.push((index, ceiling)),
                semantic_revision: next_revision(old(self).state(version).semantic_revision),
                wakes: set_insert(old(self).state(version).wakes, index),
                ..old(self).state(version)
            }),
            !lowered ==> final(self).state(version) == old(self).state(version),
            final(self).universe_spec(version, index) == if lowered {
                ceiling
            } else {
                old(self).universe_spec(version, index)
            },
            final(self).others_unchanged(old(self), version),
            final(self).rank(version) == old(self).rank(version),
            final(self).rank_bound(version) == old(self).rank_bound(version),
            forall|v: Version, x: TyId|
                #![trigger final(self).find_spec(v, x)]
                old(self).tree().live(v) ==> final(self).find_spec(v, x) == old(self).find_spec(v, x),
            forall|n: nat| old(self).ids_below(n) ==> final(self).ids_below(n),
            forall|y: TyId| #[trigger]
                final(self).bound_spec(version, y) == old(self).bound_spec(version, y),
            forall|i: InferVarIndex|
                i != index ==> #[trigger] final(self).universe_spec(version, i) == old(
                    self,
                ).universe_spec(version, i),
    {
        let ghost o = *self;
        self.versions.assert_mutable(version);
        self.versions.get_variable(version, index);
        let old_universe = self.current_universe(version, index);
        if ceiling.0 >= old_universe.0 {
            return false;
        }
        proof {
            self.lemma_state_index(version);
        }
        self.states[version.0 as usize].universe_ceilings.push((index, ceiling));
        let ghost mid = *self;
        proof {
            assert forall|a: Version|
                #![trigger self.state(a)]
                o.tree().is_known(a) implies self.state(a).parents == o.state(a).parents
                && self.rank(a) == o.rank(a) && self.rank_bound(a) == o.rank_bound(a) by {}
            self.lemma_wf_frame(&o);
            assert forall|n: nat| o.ids_below(n) implies self.ids_below(n) by {
                assert forall|w: Version| #[trigger] self.tree().is_known(w) implies state_ids_below(
                    self.state(w),
                    n,
                ) by {
                    assert(o.tree().is_known(w));
                    assert(state_ids_below(o.state(w), n));
                    if w == version {
                        assert(self.state(w).parents == o.state(w).parents);
                        assert(self.state(w).bounds == o.state(w).bounds);
                        assert(self.state(w).dependents == o.state(w).dependents);
                        assert(self.state(w).worklist == o.state(w).worklist);
                    } else {
                        assert(self.state(w) == o.state(w));
                    }
                }
            }
        }
        self.mark_semantic_change(version, Some(index));
        proof {
            assert(self.state(version).universe_ceilings == o.state(version).universe_ceilings.push(
                (index, ceiling),
            ));
            assert(log_get(self.state(version).universe_ceilings, index) == Some(ceiling));
            assert forall|w: Version| #![trigger self.state(w)] o.tree().is_known(w) && w != version implies {
                &&& self.state(w) == o.state(w)
                &&& self.rank(w) == o.rank(w)
                &&& self.rank_bound(w) == o.rank_bound(w)
            } by {
                assert(mid.state(w) == o.state(w));
            }
            assert forall|a: Version| #[trigger] o.tree().ancestor(a, version) implies {
                &&& self.state(a).bounds == o.state(a).bounds
                &&& self.tree().parent_of(a) == o.tree().parent_of(a)
                &&& forall|i: InferVarIndex|
                    i != index ==> #[trigger] log_get(self.state(a).universe_ceilings, i) == log_get(
                        o.state(a).universe_ceilings,
                        i,
                    )
            } by {
                o.tree().lemma_ancestor_live(a, version);
                o.tree().lemma_live(a);
                if a == version {
                    assert(self.state(version).universe_ceilings.drop_last() =~= o.state(
                        version,
                    ).universe_ceilings);
                } else {
                    assert(self.state(a) == o.state(a));
                }
            }
            self.lemma_ceiling_views_agree(&o, version, index);
        }
        true
    }

    /// A change to `version` that keeps its bounds, and leaves every other
    /// version and the tree as they were, keeps every bound seen from
    /// `version`.
    pub proof fn lemma_bounds_kept(&self, old: &Self, version: Version)
        requires
            old.wf(),
            old.tree().live(version),
            self.tree() == old.tree(),
            self.others_unchanged(old, version),
            self.state(version).bounds == old.state(version).bounds,
        ensures
            forall|x: TyId| #[trigger] self.bound_spec(version, x) == old.bound_spec(version, x),
    {
        assert forall|a: Version| #[trigger] old.tree().ancestor(a, version) implies self.state(a).bounds
            == old.state(a).bounds by {
            old.tree().lemma_ancestor_live(a, version);
            old.tree().lemma_live(a);
            if a != version {
                assert(self.state(a) == old.state(a));
            }
        }
        self.lemma_bounds_agree(old, version);
        assert forall|x: TyId| #[trigger] self.bound_spec(version, x) == old.bound_spec(version, x) by {
            assert(self.eff_bound(version, x) == old.eff_bound(version, x));
        }
    }

    proof fn lemma_bounds_agree(&self, old: &Self, w: Version)
        requires
            old.wf(),
            old.tree().live(w),
            self.tree() == old.tree(),
            forall|a: Version|
                #![trigger old.tree().ancestor(a, w)]
                old.tree().ancestor(a, w) ==> self.state(a).bounds == old.state(a).bounds,
        ensures
            forall|x: TyId| #[trigger] self.eff_bound(w, x) == old.eff_bound(w, x),
        decreases w.0,
    {
        old.tree().lemma_live(w);
        old.tree().lemma_ancestor_refl(w);
        match old.tree().parent_of(w) {
            Some(up) => {
                old.tree().lemma_parent_is_ancestor(w);
                assert forall|a: Version| #[trigger] old.tree().ancestor(a, up) implies self.state(a).bounds
                    == old.state(a).bounds by {
                    old.tree().lemma_ancestor_trans(a, up, w);
                }
                self.lemma_bounds_agree(old, up);
            },
            None => {},
        }
        assert forall|x: TyId| #[trigger] self.eff_bound(w, x) == old.eff_bound(w, x) by {
            match old.tree().parent_of(w) {
                Some(up) => {
                    assert(self.eff_bound(up, x) == old.eff_bound(up, x));
                },
                None => {},
            }
        }
    }

    /// A change to `version` that keeps its lowered universes, and leaves
    /// every other version and the tree as they were, keeps the universe of
    /// every variable seen from `version`.
    pub proof fn lemma_universes_kept(&self, old: &Self, version: Version)
        requires
            old.wf(),
            old.tree().live(version),
            self.tree() == old.tree(),
            self.others_unchanged(old, version),
            self.state(version).universe_ceilings == old.state(version).universe_ceilings,
        ensures
            forall|i: InferVarIndex| #[trigger]
                self.universe_spec(version, i) == old.universe_spec(version, i),
    {
        assert forall|a: Version| #[trigger] old.tree().ancestor(a, version) implies self.state(
            a,
        ).universe_ceilings == old.state(a).universe_ceilings by {
            old.tree().lemma_ancestor_live(a, version);
            old.tree().lemma_live(a);
            if a != version {
                assert(self.state(a) == old.state(a));
            }
        }
        self.lemma_ceilings_agree(old, version);
        assert forall|i: InferVarIndex| #[trigger] self.universe_spec(version, i) == old.universe_spec(
            version,
            i,
        ) by {
            assert(self.eff_ceiling(version, i) == old.eff_ceiling(version, i));
        }
    }

    proof fn lemma_ceilings_agree(&self, old: &Self, w: Version)
        requires
            old.wf(),
            old.tree().live(w),
            self.tree() == old.tree(),
            forall|a: Version|
                #![trigger old.tree().ancestor(a, w)]
                old.tree().ancestor(a, w) ==> self.state(a).universe_ceilings == old.state(a).universe_ceilings,
        ensures
            forall|i: InferVarIndex| #[trigger] self.eff_ceiling(w, i) == old.eff_ceiling(w, i),
        decreases w.0,
    {
        old.tree().lemma_live(w);
        old.tree().lemma_ancestor_refl(w);
        match old.tree().parent_of(w) {
            Some(up) => {
                old.tree().lemma_parent_is_ancestor(w);
                assert forall|a: Version| #[trigger] old.tree().ancestor(a, up) implies self.state(a).universe_ceilings
                    == old.state(a).universe_ceilings by {
                    old.tree().lemma_ancestor_trans(a, up, w);
                }
                self.lemma_ceilings_agree(old, up);
            },
            None => {},
        }
        assert forall|i: InferVarIndex| #[trigger] self.eff_ceiling(w, i) == old.eff_ceiling(w, i) by {
            match old.tree().parent_of(w) {
                Some(up) => {
                    assert(self.eff_ceiling(up, i) == old.eff_ceiling(up, i));
                },
                None => {},
            }
        }
    }

    /// Views agree on every bound, and on the universe of every variable but
    /// `index`, when the states on the path to the root agree on them.
    proof fn lemma_ceiling_views_agree(&self, old: &Self, w: Version, index: InferVarIndex)
        requires
            old.wf(),
            old.tree().live(w),
            forall|a: Version|
                #![trigger old.tree().ancestor(a, w)]
                old.tree().ancestor(a, w) ==> {
                    &&& self.state(a).bounds == old.state(a).bounds
                    &&& self.tree().parent_of(a) == old.tree().parent_of(a)
                    &&& forall|i: InferVarIndex|
                        i != index ==> #[trigger] log_get(self.state(a).universe_ceilings, i)
                            == log_get(old.state(a).universe_ceilings, i)
                },
        ensures
            forall|x: TyId| #[trigger] self.eff_bound(w, x) == old.eff_bound(w, x),
            forall|i: InferVarIndex|
                i != index ==> #[trigger] self.eff_ceiling(w, i) == old.eff_ceiling(w, i),
        decreases w.0,
    {
        old.tree().lemma_live(w);
        old.tree().lemma_ancestor_refl(w);
        match old.tree().parent_of(w) {
            Some(up) => {
                old.tree().lemma_parent_is_ancestor(w);
                assert forall|a: Version| #[trigger] old.tree().ancestor(a, up) implies {
                    &&& self.state(a).bounds == old.state(a).bounds
                    &&& self.tree().parent_of(a) == old.tree().parent_of(a)
                    &&& forall|i: InferVarIndex|
                        i != index ==> #[trigger] log_get(self.state(a).universe_ceilings, i)
                            == log_get(old.state(a).universe_ceilings, i)
                } by {
                    old.tree().lemma_ancestor_trans(a, up, w);
                }
                self.lemma_ceiling_views_agree(old, up, index);
            },
            None => {},
        }
        assert forall|x: TyId| #[trigger] self.eff_bound(w, x) == old.eff_bound(w, x) by {
            match old.tree().parent_of(w) {
                Some(up) => {
                    assert(self.eff_bound(up, x) == old.eff_bound(up, x));
                },
                None => {},
            }
        }
        assert forall|i: InferVarIndex| i != index implies #[trigger] self.eff_ceiling(w, i)
            == old.eff_ceiling(w, i) by {
            assert(log_get(self.state(w).universe_ceilings, i) == log_get(
                old.state(w).universe_ceilings,
                i,
            ));
            match old.tree().parent_of(w) {
                Some(up) => {
                    assert(self.eff_ceiling(up, i) == old.eff_ceiling(up, i));
                },
                None => {},
            }
        }
    }

    /// Create a child version branching from the specified parent.
    pub fn branch_from(&mut self, parent: Version) -> (child: Version)
        requires
            old(self).wf(),
            old(self).tree().live(parent),
            old(self).tree().num_versions() <= u32::MAX,
        ensures
            final(self).wf(),
            child.0 == old(self).tree().num_versions(),
            final(self).tree().num_versions() == old(self).tree().num_versions() + 1,
            final(self).tree().live(child),
            final(self).tree().parent_of(child) == Some(parent),
            final(self).tree().children_of(child) == Seq::<Version>::empty(),
            final(self).tree().children_of(parent) == old(self).tree().children_of(parent).push(child),
            final(self).tree().vars() == old(self).tree().vars(),
            final(self).tree().owned_by(child) == Seq::<InferVarIndex>::empty(),
            forall|v: Version|
                #![trigger final(self).tree().live(v)]
                old(self).tree().is_known(v) ==> {
                    &&& final(self).tree().live(v) == old(self).tree().live(v)
                    &&& final(self).tree().parent_of(v) == old(self).tree().parent_of(v)
                    &&& final(self).tree().owned_by(v) == old(self).tree().owned_by(v)
                    &&& v != parent ==> final(self).tree().children_of(v) == old(
                        self,
                    ).tree().children_of(v)
                },
            forall|a: Version, v: Version|
                old(self).tree().is_known(v) ==> #[trigger] final(self).tree().ancestor(a, v) == old(
                    self,
                ).tree().ancestor(a, v),
            final(self).state(child) == StateView::empty(old(self).state(parent).semantic_revision),
            final(self).others_unchanged(old(self), child),
            final(self).placeholders() == old(self).placeholders(),
            forall|x: TyId| #[trigger]
                final(self).find_spec(child, x) == old(self).find_spec(parent, x),
            forall|x: TyId| #[trigger]
                final(self).bound_spec(child, x) == old(self).bound_spec(parent, x),
            forall|i: InferVarIndex| #[trigger]
                final(self).universe_spec(child, i) == old(self).universe_spec(parent, i),
            forall|v: Version, x: TyId|
                #![trigger final(self).find_spec(v, x)]
                old(self).tree().live(v) ==> final(self).find_spec(v, x) == old(self).find_spec(v, x),
            forall|n: nat| old(self).ids_below(n) ==> final(self).ids_below(n),
    {
        let ghost o = *self;
        let revision = self.semantic_revision(parent);
        proof {
            self.lemma_state_index(parent);
        }
        let ghost rank = self.states@[parent.0 as int].rank@;
        let ghost rank_bound = self.states@[parent.0 as int].rank_bound@;
        let child = self.versions.branch_from(parent);
        self.states.push(VersionState::fresh(revision, Ghost(rank), Ghost(rank_bound)));
        proof {
            assert(self.state(child) == StateView::empty(revision));
            assert forall|w: Version|
                #![trigger self.state(w)]
                o.tree().is_known(w) && w != child implies {
                &&& self.state(w) == o.state(w)
                &&& self.rank(w) == o.rank(w)
                &&& self.rank_bound(w) == o.rank_bound(w)
            } by {
                assert(self.states@[w.0 as int] == o.states@[w.0 as int]);
            }
            assert forall|w: Version|
                #![trigger self.tree().parent_of(w)]
                o.tree().is_known(w) implies self.tree().parent_of(w) == o.tree().parent_of(w)
                && self.tree().live(w) == o.tree().live(w) by {
                assert(self.tree().live(w) == o.tree().live(w));
            }
            assert forall|w: Version|
                #![trigger self.state(w)]
                o.tree().is_known(w) implies self.state(w).parents == o.state(w).parents by {
                assert(self.states@[w.0 as int] == o.states@[w.0 as int]);
            }
            // the child sees exactly its parent's view
            self.lemma_parents_same(&o, parent);
            self.lemma_view_frame(&o, child, parent);
            assert forall|x: TyId| #[trigger] self.parent_spec(child, x) == o.parent_spec(parent, x) by {
                assert(self.eff_parent(child, x) == self.eff_parent(parent, x));
            }
            assert forall|x: TyId| #[trigger] self.find_spec(child, x) == o.find_spec(parent, x) by {
                self.lemma_find_same(&o, child, parent, x);
            }
            assert forall|x: TyId| #[trigger] self.bound_spec(child, x) == o.bound_spec(parent, x) by {
                assert(self.eff_bound(child, x) == self.eff_bound(parent, x));
            }
            assert forall|i: InferVarIndex| #[trigger] self.universe_spec(child, i) == o.universe_spec(
                parent,
                i,
            ) by {
                assert(self.eff_ceiling(child, i) == self.eff_ceiling(parent, i));
            }
            assert forall|v: Version| #[trigger] self.versions.live(v) implies self.rank_ok(v) by {
                if v == child {
                    assert(o.rank_ok(parent));
                    assert forall|x: TyId| #![trigger self.parent_spec(v, x)]
                        self.parent_spec(v, x) != x implies self.rank(v)(x) < self.rank(v)(self.parent_spec(v, x)) by {
                        assert(o.parent_spec(parent, x) == self.parent_spec(v, x));
                    }
                    assert forall|x: TyId| #[trigger] self.rank(v)(x) <= self.rank_bound(v) by {
                        assert(o.rank(parent)(x) <= o.rank_bound(parent));
                    }
                } else {
                    self.tree().lemma_live(v);
                    assert(o.tree().live(v));
                    o.tree().lemma_live(v);
                    assert(o.rank_ok(v));
                    self.lemma_parents_same(&o, v);
                    assert forall|x: TyId| #![trigger self.parent_spec(v, x)]
                        self.parent_spec(v, x) != x implies self.rank(v)(x) < self.rank(v)(self.parent_spec(v, x)) by {
                        assert(o.parent_spec(v, x) == self.parent_spec(v, x));
                    }
                    assert forall|x: TyId| #[trigger] self.rank(v)(x) <= self.rank_bound(v) by {
                        assert(o.rank(v)(x) <= o.rank_bound(v));
                    }
                }
            }
            assert forall|i: int| 0 <= i < self.states@.len() implies (
            #[trigger] self.states@[i]).wakes@.no_duplicates() by {
                if i < o.states@.len() {
                    assert(self.states@[i] == o.states@[i]);
                }
            }
            assert forall|v: Version, x: TyId|
                #![trigger self.find_spec(v, x)]
                o.tree().live(v) implies self.find_spec(v, x) == o.find_spec(v, x) by {
                o.tree().lemma_live(v);
                self.lemma_parents_same(&o, v);
                self.lemma_find_same(&o, v, v, x);
            }
            assert forall|n: nat| o.ids_below(n) implies self.ids_below(n) by {
                assert forall|w: Version| #[trigger] self.tree().is_known(w) implies state_ids_below(
                    self.state(w),
                    n,
                ) by {
                    if w != child {
                        assert(o.tree().is_known(w));
                        assert(state_ids_below(o.state(w), n));
                    }
                }
            }
        }
        child
    }

    /// A chain through `t` ends where the chain of `t` ends.
    pub proof fn lemma_reaches_find(&self, version: Version, y: TyId, t: TyId)
        requires
            self.rank_ok(version),
            self.reaches(version, y, t),
        ensures
            self.find_spec(version, y) == self.find_spec(version, t),
        decreases self.rank_bound(version) - self.rank(version)(y),
    {
        let p = self.parent_spec(version, y);
        if y != t {
            assert(self.rank(version)(y) <= self.rank_bound(version));
            self.lemma_reaches_find(version, p, t);
        }
    }

    /// A root is reached exactly from the members of its class.
    pub proof fn lemma_root_reached(&self, version: Version, y: TyId, c: TyId)
        requires
            self.rank_ok(version),
            self.parent_spec(version, c) == c,
        ensures
            self.reaches(version, y, c) <==> self.find_spec(version, y) == c,
        decreases self.rank_bound(version) - self.rank(version)(y),
    {
        let p = self.parent_spec(version, y);
        assert(self.rank(version)(y) <= self.rank_bound(version));
        if y != c && p != y {
            self.lemma_root_reached(version, p, c);
        }
    }

    /// Identities below `n` have parents and representatives below `n`.
    proof fn lemma_parent_below(&self, version: Version, x: TyId, n: nat)
        requires
            self.wf(),
            self.tree().live(version),
            self.ids_below(n),
            x.0 < n,
        ensures
            self.parent_spec(version, x).0 < n,
            self.find_spec(version, x).0 < n,
        decreases self.rank_bound(version) - self.rank(version)(x),
    {
        self.lemma_eff_parent_below(version, x, n);
        let p = self.parent_spec(version, x);
        assert(self.rank_ok(version));
        assert(self.rank(version)(x) <= self.rank_bound(version));
        if p != x {
            self.lemma_parent_below(version, p, n);
        }
    }

    proof fn lemma_eff_parent_below(&self, version: Version, x: TyId, n: nat)
        requires
            self.wf(),
            self.tree().live(version),
            self.ids_below(n),
        ensures
            self.eff_parent(version, x) matches Some(p) ==> p.0 < n,
        decreases version.0,
    {
        self.tree().lemma_live(version);
        assert(state_ids_below(self.state(version), n));
        self.lemma_log_values_below(self.state(version).parents, x, n);
        match self.tree().parent_of(version) {
            Some(up) => {
                self.lemma_eff_parent_below(up, x, n);
            },
            None => {},
        }
    }

    proof fn lemma_log_values_below(&self, log: Seq<(TyId, TyId)>, x: TyId, n: nat)
        requires
            forall|j: int| 0 <= j < log.len() ==> (#[trigger] log[j]).1.0 < n,
        ensures
            log_get(log, x) matches Some(p) ==> p.0 < n,
        decreases log.len(),
    {
        if log.len() > 0 {
            assert(log.last() == log[log.len() - 1]);
            self.lemma_log_values_below(log.drop_last(), x, n);
        }
    }

    /// Point `ty` at the root `parent` in the leaf `version`.
    fn set_parent(&mut self, version: Version, ty: TyId, parent: TyId)
        requires
            old(self).wf(),
            old(self).mutable(version),
            old(self).parent_spec(version, parent) == parent,
            ty != parent,
        ensures
            final(self).wf(),
            final(self).tree() == old(self).tree(),
            final(self).placeholders() == old(self).placeholders(),
            final(self).others_unchanged(old(self), version),
            final(self).state(version) == (StateView {
                parents: old(self).state(version).parents.push((ty, parent)),
                ..old(self).state(version)
            }),
            forall|y: TyId| #[trigger]
                final(self).parent_spec(version, y) == if y == ty {
                    parent
                } else {
                    old(self).parent_spec(version, y)
                },
            forall|y: TyId| #[trigger]
                final(self).find_spec(version, y) == if old(self).reaches(version, y, ty) {
                    parent
                } else {
                    old(self).find_spec(version, y)
                },
            old(self).rank(version)(ty) < old(self).rank(version)(parent) ==> final(self).rank(
                version,
            ) == old(self).rank(version) && final(self).rank_bound(version) == old(self).rank_bound(
                version,
            ),
            forall|v: Version, x: TyId|
                #![trigger final(self).find_spec(v, x)]
                old(self).tree().live(v) && v != version ==> final(self).find_spec(v, x) == old(
                    self,
                ).find_spec(v, x),
            forall|n: nat|
                old(self).ids_below(n) && ty.0 < n && parent.0 < n ==> final(self).ids_below(n),
    {
        let ghost o = *self;
        proof {
            self.lemma_state_index(version);
            assert(o.rank_ok(version));
        }
        let i = version.0 as usize;
        self.states[i].parents.push((ty, parent));
        let ghost r = o.rank(version);
        let ghost b = o.rank_bound(version);
        self.states[i].rank = Ghost(
            if r(ty) >= r(parent) {
                |y: TyId| if y == parent { (r(ty) + 1) as nat } else { r(y) }
            } else {
                r
            },
        );
        self.states[i].rank_bound = Ghost(if r(ty) + 1 > b { (r(ty) + 1) as nat } else { b });
        proof {
            let nr = self.rank(version);
            let nb = self.rank_bound(version);
            assert(self.state(version) =~= (StateView {
                parents: o.state(version).parents.push((ty, parent)),
                ..o.state(version)
            }));
            assert forall|w: Version|
                #![trigger self.state(w)]
                o.tree().is_known(w) && w != version implies {
                &&& self.state(w) == o.state(w)
                &&& self.rank(w) == o.rank(w)
                &&& self.rank_bound(w) == o.rank_bound(w)
            } by {
                assert(self.states@[w.0 as int] == o.states@[w.0 as int]);
            }
            // parents at `version`
            assert forall|y: TyId| #[trigger] self.parent_spec(version, y) == if y == ty {
                parent
            } else {
                o.parent_spec(version, y)
            } by {
                let ps = self.state(version).parents;
                assert(ps.last() == (ty, parent));
                assert(ps.drop_last() =~= o.state(version).parents);
                o.tree().lemma_live(version);
                match o.tree().parent_of(version) {
                    Some(up) => {
                        self.lemma_view_frame(&o, version, up);
                        assert(self.eff_parent(up, y) == o.eff_parent(up, y));
                    },
                    None => {},
                }
                if y != ty {
                    assert(log_get(ps, y) == log_get(o.state(version).parents, y));
                    assert(self.eff_parent(version, y) == o.eff_parent(version, y));
                }
            }
            // the ranks stay valid
            assert forall|y: TyId| #[trigger] nr(y) >= r(y) by {}
            assert(nr(ty) == r(ty));
            assert(nr(parent) > nr(ty));
            assert forall|y: TyId| #![trigger self.parent_spec(version, y)]
                self.parent_spec(version, y) != y implies nr(y) < nr(self.parent_spec(version, y)) by {
                if y != ty {
                    assert(o.parent_spec(version, y) != y);
                    assert(r(y) < r(o.parent_spec(version, y)));
                    if y == parent {
                        assert(false);
                    }
                }
            }
            assert forall|y: TyId| #[trigger] nr(y) <= nb by {
                assert(r(y) <= b);
            }
            assert(self.rank_ok(version));
            assert forall|v: Version| #[trigger] self.versions.live(v) implies self.rank_ok(v) by {
                if v != version {
                    self.lemma_view_frame(&o, version, v);
                    assert(o.rank_ok(v));
                    assert forall|x: TyId| #![trigger self.parent_spec(v, x)]
                        self.parent_spec(v, x) != x implies self.rank(v)(x) < self.rank(v)(self.parent_spec(v, x)) by {
                        assert(o.parent_spec(v, x) == self.parent_spec(v, x));
                    }
                    assert forall|x: TyId| #[trigger] self.rank(v)(x) <= self.rank_bound(v) by {
                        assert(o.rank(v)(x) <= o.rank_bound(v));
                    }
                }
            }
            assert forall|j: int| 0 <= j < self.states@.len() implies (
            #[trigger] self.states@[j]).wakes@.no_duplicates() by {
                assert(o.states@[j].wakes@.no_duplicates());
            }
            assert(self.wf());
            assert forall|y: TyId| #[trigger] self.find_spec(version, y) == if o.reaches(version, y, ty) {
                parent
            } else {
                o.find_spec(version, y)
            } by {
                self.lemma_find_after_set_parent(&o, version, ty, parent, y);
            }
            assert forall|v: Version, x: TyId|
                #![trigger self.find_spec(v, x)]
                o.tree().live(v) && v != version implies self.find_spec(v, x) == o.find_spec(v, x) by {
                self.lemma_view_frame(&o, version, v);
            }
            assert forall|n: nat| o.ids_below(n) && ty.0 < n && parent.0 < n implies self.ids_below(
                n,
            ) by {
                assert forall|w: Version| #[trigger] self.tree().is_known(w) implies state_ids_below(
                    self.state(w),
                    n,
                ) by {
                    assert(o.tree().is_known(w));
                    assert(state_ids_below(o.state(w), n));
                    if w == version {
                        let ps = self.state(w).parents;
                        assert forall|j: int| 0 <= j < ps.len() implies (#[trigger] ps[j]).0.0 < n
                            && ps[j].1.0 < n by {
                            if j < ps.len() - 1 {
                                assert(ps[j] == o.state(w).parents[j]);
                            }
                        }
                    } else {
                        assert(self.state(w) == o.state(w));
                    }
                }
            }
        }
    }

    /// How `find_spec` changes when `ty` is pointed at the root `parent`.
    proof fn lemma_find_after_set_parent(
        &self,
        old: &Self,
        version: Version,
        ty: TyId,
        parent: TyId,
        y: TyId,
    )
        requires
            old.rank_ok(version),
            self.rank_ok(version),
            old.parent_spec(version, parent) == parent,
            ty != parent,
            forall|z: TyId| #[trigger]
                self.parent_spec(version, z) == if z == ty {
                    parent
                } else {
                    old.parent_spec(version, z)
                },
        ensures
            self.find_spec(version, y) == if old.reaches(version, y, ty) {
                parent
            } else {
                old.find_spec(version, y)
            },
        decreases old.rank_bound(version) - old.rank(version)(y),
    {
        let p = old.parent_spec(version, y);
        assert(old.rank(version)(y) <= old.rank_bound(version));
        assert(self.rank(version)(y) <= self.rank_bound(version));
        assert(self.parent_spec(version, parent) == parent);
        if y == ty {
            assert(self.parent_spec(version, ty) == parent);
            assert(self.rank(version)(parent) <= self.rank_bound(version));
            assert(self.find_spec(version, parent) == parent);
        } else if p == y {
            assert(self.parent_spec(version, y) == y);
        } else {
            assert(self.parent_spec(version, y) == p);
            assert(self.rank(version)(p) <= self.rank_bound(version));
            self.lemma_find_after_set_parent(old, version, ty, parent, p);
        }
    }

    /// Frames compose.
    pub proof fn lemma_others_trans(&self, mid: &Self, old: &Self, version: Version)
        requires
            self.others_unchanged(mid, version),
            mid.others_unchanged(old, version),
        ensures
            self.others_unchanged(old, version),
    {
        assert forall|w: Version|
            #![trigger self.state(w)]
            old.tree().is_known(w) && w != version implies {
            &&& self.state(w) == old.state(w)
            &&& self.rank(w) == old.rank(w)
            &&& self.rank_bound(w) == old.rank_bound(w)
        } by {
            assert(mid.tree().is_known(w));
            assert(mid.state(w) == old.state(w));
            assert(mid.rank(w) == old.rank(w));
            assert(self.state(w) == mid.state(w));
            assert(self.rank(w) == mid.rank(w));
            assert(self.rank_bound(w) == mid.rank_bound(w));
        }
        assert forall|w: Version|
            #![trigger self.tree().parent_of(w)]
            old.tree().is_known(w) implies self.tree().parent_of(w) == old.tree().parent_of(w)
            && self.tree().live(w) == old.tree().live(w) by {
            assert(mid.tree().parent_of(w) == old.tree().parent_of(w));
            assert(mid.tree().is_known(w));
        }
    }

    /// Point every type on the chain from `ty` directly at `root`.
    fn compress_path(&mut self, version: Version, ty: TyId, root: TyId)
        requires
            old(self).wf(),
            old(self).mutable(version),
            old(self).find_spec(version, ty) == root,
        ensures
            final(self).wf(),
            final(self).tree() == old(self).tree(),
            final(self).placeholders() == old(self).placeholders(),
            final(self).others_unchanged(old(self), version),
            final(self).rank(version) == old(self).rank(version),
            final(self).rank_bound(version) == old(self).rank_bound(version),
            forall|y: TyId| #[trigger]
                final(self).find_spec(version, y) == old(self).find_spec(version, y),
            final(self).state(version) == (StateView {
                parents: final(self).state(version).parents,
                ..old(self).state(version)
            }),
            old(self).state(version).parents.len() <= final(self).state(version).parents.len(),
            forall|j: int|
                0 <= j < old(self).state(version).parents.len() ==> #[trigger] final(self).state(
                    version,
                ).parents[j] == old(self).state(version).parents[j],
            forall|v: Version, x: TyId|
                #![trigger final(self).find_spec(v, x)]
                old(self).tree().live(v) ==> final(self).find_spec(v, x) == old(self).find_spec(v, x),
            forall|n: nat| old(self).ids_below(n) && ty.0 < n ==> final(self).ids_below(n),
            forall|y: TyId| #[trigger]
                final(self).parent_spec(version, y) == if old(self).reaches(version, ty, y) {
                    root
                } else {
                    old(self).parent_spec(version, y)
                },
    {
        let ghost o = *self;
        proof {
            assert(o.rank_ok(version));
            o.lemma_find_root(version, ty);
            assert forall|w: Version|
                #![trigger self.state(w)]
                o.tree().is_known(w) && w != version implies {
                &&& self.state(w) == o.state(w)
                &&& self.rank(w) == o.rank(w)
                &&& self.rank_bound(w) == o.rank_bound(w)
            } by {}
        }
        let mut current = ty;
        loop
            invariant
                self.wf(),
                self.mutable(version),
                self.tree() == o.tree(),
                self.placeholders() == o.placeholders(),
                self.others_unchanged(&o, version),
                self.rank(version) == o.rank(version),
                self.rank_bound(version) == o.rank_bound(version),
                forall|y: TyId| #[trigger] self.find_spec(version, y) == o.find_spec(version, y),
                self.find_spec(version, current) == root,
                o.parent_spec(version, root) == root,
                self.state(version) == (StateView {
                    parents: self.state(version).parents,
                    ..o.state(version)
                }),
                o.state(version).parents.len() <= self.state(version).parents.len(),
                forall|j: int|
                    0 <= j < o.state(version).parents.len() ==> #[trigger] self.state(
                        version,
                    ).parents[j] == o.state(version).parents[j],
                forall|n: nat| o.ids_below(n) && ty.0 < n ==> self.ids_below(n) && current.0 < n,
                o.rank_ok(version),
                o.reaches(version, ty, current),
                forall|y: TyId| #[trigger]
                    self.parent_spec(version, y) == if o.reaches(version, ty, y) && !o.reaches(
                        version,
                        current,
                        y,
                    ) {
                        root
                    } else {
                        o.parent_spec(version, y)
                    },
            ensures
                o.parent_spec(version, current) == root || o.parent_spec(version, current) == current,
            decreases self.rank_bound(version) - self.rank(version)(current),
        {
            let parent = self.get_parent(version, current);
            proof {
                assert(self.parent_spec(version, current) == o.parent_spec(version, current));
            }
            if parent == root || parent == current {
                break;
            }
            let ghost mid = *self;
            proof {
                assert(self.rank_ok(version));
                self.lemma_find_root(version, current);
                self.lemma_find_root(version, parent);
                assert(self.rank(version)(current) < self.rank(version)(parent));
                assert(self.find_spec(version, parent) == root);
                self.lemma_find_root(version, root);
                assert(self.parent_spec(version, root) == root);
                assert(current != root);
                assert forall|n: nat| o.ids_below(n) && ty.0 < n implies parent.0 < n && root.0 < n by {
                    self.lemma_parent_below(version, current, n);
                }
            }
            self.set_parent(version, current, root);
            proof {
                assert(o.rank(version)(current) < o.rank(version)(parent));
                assert(o.rank(version)(parent) <= o.rank_bound(version));
                assert(o.reaches(version, parent, parent));
                assert(o.reaches(version, current, parent));
                o.lemma_reaches_chain(version, ty, current, parent);
                assert forall|y: TyId| #[trigger]
                    self.parent_spec(version, y) == if o.reaches(version, ty, y) && !o.reaches(
                        version,
                        parent,
                        y,
                    ) {
                        root
                    } else {
                        o.parent_spec(version, y)
                    } by {
                    if y == current {
                        if o.reaches(version, parent, current) {
                            o.lemma_reaches_rank(version, parent, current);
                        }
                    } else {
                        assert(o.reaches(version, current, y) == o.reaches(version, parent, y));
                    }
                }
                self.lemma_others_trans(&mid, &o, version);
                assert forall|y: TyId| #[trigger] self.find_spec(version, y) == o.find_spec(version, y) by {
                    if mid.reaches(version, y, current) {
                        mid.lemma_reaches_find(version, y, current);
                    }
                }
                assert(self.state(version).parents == mid.state(version).parents.push((current, root)));
                assert forall|j: int|
                    0 <= j < o.state(version).parents.len() implies #[trigger] self.state(
                        version,
                    ).parents[j] == o.state(version).parents[j] by {
                    assert(mid.state(version).parents[j] == o.state(version).parents[j]);
                }
                assert(self.rank(version)(parent) > self.rank(version)(current));
                assert(self.rank(version)(parent) <= self.rank_bound(version));
            }
            current = parent;
        }
        proof {
            assert forall|v: Version, x: TyId|
                #![trigger self.find_spec(v, x)]
                o.tree().live(v) implies self.find_spec(v, x) == o.find_spec(v, x) by {
                if v != version {
                    self.lemma_view_frame(&o, version, v);
                }
            }
            o.lemma_find_root(version, current);
            assert forall|y: TyId| #[trigger]
                self.parent_spec(version, y) == if o.reaches(version, ty, y) {
                    root
                } else {
                    o.parent_spec(version, y)
                } by {
                if o.reaches(version, ty, y) && o.reaches(version, current, y) {
                    let p = o.parent_spec(version, current);
                    if y != current {
                        if p != current {
                            assert(p == root);
                            assert(o.reaches(version, root, y));
                            assert(y == root);
                        }
                    }
                }
            }
        }
    }

    /// Find the representative and compress the path to it.
    pub fn find_mut(&mut self, version: Version, ty: TyId) -> (root: TyId)
        requires
            old(self).wf(),
            old(self).mutable(version),
        ensures
            final(self).wf(),
            root == old(self).find_spec(version, ty),
            final(self).parent_spec(version, root) == root,
            final(self).tree() == old(self).tree(),
            final(self).placeholders() == old(self).placeholders(),
            final(self).others_unchanged(old(self), version),
            forall|v: Version, x: TyId|
                #![trigger final(self).find_spec(v, x)]
                old(self).tree().live(v) ==> final(self).find_spec(v, x) == old(self).find_spec(v, x),
            final(self).state(version) == (StateView {
                parents: final(self).state(version).parents,
                ..old(self).state(version)
            }),
            forall|n: nat| old(self).ids_below(n) && ty.0 < n ==> final(self).ids_below(n) && root.0 < n,
    {
        self.versions.assert_mutable(version);
        let root = self.find(version, ty);
        proof {
            assert forall|n: nat| old(self).ids_below(n) && ty.0 < n implies root.0 < n by {
                self.lemma_parent_below(version, ty, n);
            }
        }
        self.compress_path(version, ty, root);
        proof {
            assert(self.find_spec(version, root) == old(self).find_spec(version, root));
            old(self).lemma_find_root(version, ty);
            self.lemma_find_root(version, root);
        }
        root
    }

    /// Union two classes. The class whose representative is a concrete or
    /// structured type keeps its representative.
    pub fn union(&mut self, version: Version, stash: &TyStore, left: TyId, right: TyId) -> (root:
        TyId)
        requires
            old(self).wf(),
            old(self).mutable(version),
            stash.wf(),
            old(self).ids_below(stash.types().len()),
            left.0 < stash.types().len(),
            right.0 < stash.types().len(),
        ensures
            final(self).wf(),
            final(self).tree() == old(self).tree(),
            final(self).placeholders() == old(self).placeholders(),
            final(self).others_unchanged(old(self), version),
            final(self).ids_below(stash.types().len()),
            ({
                let lr = old(self).find_spec(version, left);
                let rr = old(self).find_spec(version, right);
                if lr == rr {
                    &&& root == lr
                    &&& final(self).state(version) == old(self).state(version)
                    &&& forall|y: TyId| #[trigger]
                        final(self).find_spec(version, y) == old(self).find_spec(version, y)
                } else {
                    let child = union_child(stash, lr, rr);
                    let parent = union_parent(stash, lr, rr);
                    &&& root == parent
                    &&& final(self).state(version) == (StateView {
                        parents: old(self).state(version).parents.push((child, parent)),
                        worklist: old(self).state(version).worklist.push(child),
                        semantic_revision: next_revision(old(self).state(version).semantic_revision),
                        wakes: match stash.types()[child.0 as int] {
                            Ty::InferVar(i) => set_insert(old(self).state(version).wakes, i),
                            _ => old(self).state(version).wakes,
                        },
                        ..old(self).state(version)
                    })
                    &&& forall|y: TyId| #[trigger]
                        final(self).find_spec(version, y) == if old(self).find_spec(version, y)
                            == child {
                            parent
                        } else {
                            old(self).find_spec(version, y)
                        }
                }
            }),
            final(self).find_spec(version, left) == final(self).find_spec(version, right),
            final(self).find_spec(version, root) == root,
            forall|v: Version, x: TyId|
                #![trigger final(self).find_spec(v, x)]
                old(self).tree().live(v) && v != version ==> final(self).find_spec(v, x) == old(
                    self,
                ).find_spec(v, x),
    {
        let ghost o = *self;
        let ghost n = stash.types().len();
        self.versions.assert_mutable(version);
        let left_root = self.find(version, left);
        let right_root = self.find(version, right);
        proof {
            self.lemma_parent_below(version, left, n);
            self.lemma_parent_below(version, right, n);
            o.lemma_find_root(version, left);
            o.lemma_find_root(version, right);
        }
        if left_root == right_root {
            proof {
                assert forall|w: Version|
                    #![trigger self.state(w)]
                    o.tree().is_known(w) && w != version implies {
                    &&& self.state(w) == o.state(w)
                    &&& self.rank(w) == o.rank(w)
                    &&& self.rank_bound(w) == o.rank_bound(w)
                } by {}
            }
            return left_root;
        }
        let (child, parent) = match stash.get(left_root) {
            Ty::InferVar(_) => (left_root, right_root),
            _ => (right_root, left_root),
        };
        self.set_parent(version, child, parent);
        let ghost after_set = *self;
        proof {
            self.lemma_state_index(version);
        }
        self.states[version.0 as usize].worklist.push(child);
        let ghost after_push = *self;
        proof {
            assert forall|a: Version|
                #![trigger self.state(a)]
                after_set.tree().is_known(a) implies self.state(a).parents == after_set.state(a).parents
                && self.rank(a) == after_set.rank(a) && self.rank_bound(a) == after_set.rank_bound(a) by {}
            assert forall|a: Version|
                #![trigger self.tree().parent_of(a)]
                after_set.tree().is_known(a) implies self.tree().parent_of(a) == after_set.tree().parent_of(a)
                && self.tree().live(a) == after_set.tree().live(a) by {}
            self.lemma_wf_frame(&after_set);
            assert forall|w: Version| #[trigger] self.tree().is_known(w) implies state_ids_below(
                self.state(w),
                n,
            ) by {
                assert(after_set.tree().is_known(w));
                assert(state_ids_below(after_set.state(w), n));
                if w == version {
                    let wl = self.state(w).worklist;
                    assert forall|j: int| 0 <= j < wl.len() implies (#[trigger] wl[j]).0 < n by {
                        if j < wl.len() - 1 {
                            assert(wl[j] == after_set.state(w).worklist[j]);
                        }
                    }
                    assert(self.state(w).parents == after_set.state(w).parents);
                    assert(self.state(w).bounds == after_set.state(w).bounds);
                    assert(self.state(w).dependents == after_set.state(w).dependents);
                } else {
                    assert(self.state(w) == after_set.state(w));
                }
            }
            assert forall|w: Version|
                #![trigger self.state(w)]
                after_set.tree().is_known(w) && w != version implies {
                &&& self.state(w) == after_set.state(w)
                &&& self.rank(w) == after_set.rank(w)
                &&& self.rank_bound(w) == after_set.rank_bound(w)
            } by {}
        }
        let changed_var = match stash.get(child) {
            Ty::InferVar(index) => Some(index),
            _ => None,
        };
        self.mark_semantic_change(version, changed_var);
        proof {
            self.lemma_others_trans(&after_push, &after_set, version);
            self.lemma_others_trans(&after_set, &o, version);
            assert(self.state(version) =~= (StateView {
                parents: o.state(version).parents.push((child, parent)),
                worklist: o.state(version).worklist.push(child),
                semantic_revision: next_revision(o.state(version).semantic_revision),
                wakes: match stash.types()[child.0 as int] {
                    Ty::InferVar(i) => set_insert(o.state(version).wakes, i),
                    _ => o.state(version).wakes,
                },
                ..o.state(version)
            }));
            assert forall|y: TyId| #[trigger] self.find_spec(version, y) == if o.find_spec(version, y)
                == child {
                parent
            } else {
                o.find_spec(version, y)
            } by {
                o.lemma_root_reached(version, y, child);
                assert(after_set.find_spec(version, y) == after_push.find_spec(version, y));
            }
            assert(o.find_spec(version, parent) == parent);
            assert(self.find_spec(version, parent) == parent);
            assert forall|v: Version, x: TyId|
                #![trigger self.find_spec(v, x)]
                o.tree().live(v) && v != version implies self.find_spec(v, x) == o.find_spec(v, x) by {
                self.lemma_view_frame(&o, version, v);
            }
        }
        parent
    }

    // -----------------------------------------------------------------------
    // Bounds and congruence bookkeeping (writes)
    // -----------------------------------------------------------------------
    /// Set a bound inside an already-transactional leaf version; reports
    /// whether the bound changed.
    pub fn set_bound_in(&mut self, version: Version, stash: &TyStore, ty: TyId, bound: Bound) -> (changed: bool)
        requires
            old(self).wf(),
            old(self).mutable(version),
            stash.wf(),
            ty.0 < stash.types().len(),
            stash.types()[ty.0 as int] is InferVar,
            ({
                let index = stash.types()[ty.0 as int]->InferVar_0;
                &&& index.0 < old(self).tree().vars().len()
                &&& old(self).tree().ancestor(old(self).tree().vars()[index.0 as int].owner, version)
            }),
        ensures
            final(self).wf(),
            final(self).tree() == old(self).tree(),
            final(self).placeholders() == old(self).placeholders(),
            final(self).others_unchanged(old(self), version),
            changed == (old(self).bound_spec(version, ty) != bound),
            changed ==> final(self).state(version) == (StateView {
                bounds: old(self).state(version).bounds.push((ty, bound)),
                semantic_revision: next_revision(old(self).state(version).semantic_revision),
                wakes: set_insert(
                    old(self).state(version).wakes,
                    stash.types()[ty.0 as int]->InferVar_0,
                ),
                ..old(self).state(version)
            }),
            !changed ==> final(self).state(version) == old(self).state(version),
            final(self).bound_spec(version, ty) == bound,
            forall|v: Version, x: TyId|
                #![trigger final(self).find_spec(v, x)]
                old(self).tree().live(v) ==> final(self).find_spec(v, x) == old(self).find_spec(v, x),
            forall|n: nat|
                old(self).ids_below(n) && ty.0 < n && (bound.spec_ty() matches Some(t) ==> t.0 < n)
                    ==> final(self).ids_below(n),
    {
        let ghost o = *self;
        self.versions.assert_mutable(version);
        let index = match stash.get(ty) {
            Ty::InferVar(index) => index,
            _ => {
                return false;
            },
        };
        self.versions.get_variable(version, index);
        if self.get_bound(version, ty) == bound {
            proof {
                assert forall|w: Version|
                    #![trigger self.state(w)]
                    o.tree().is_known(w) && w != version implies {
                    &&& self.state(w) == o.state(w)
                    &&& self.rank(w) == o.rank(w)
                    &&& self.rank_bound(w) == o.rank_bound(w)
                } by {}
            }
            return false;
        }
        proof {
            self.lemma_state_index(version);
        }
        self.states[version.0 as usize].bounds.push((ty, bound));
        let ghost mid = *self;
        proof {
            assert forall|a: Version|
                #![trigger self.state(a)]
                o.tree().is_known(a) implies self.state(a).parents == o.state(a).parents
                && self.rank(a) == o.rank(a) && self.rank_bound(a) == o.rank_bound(a) by {}
            assert forall|a: Version|
                #![trigger self.tree().parent_of(a)]
                o.tree().is_known(a) implies self.tree().parent_of(a) == o.tree().parent_of(a)
                && self.tree().live(a) == o.tree().live(a) by {}
            self.lemma_wf_frame(&o);
            assert forall|w: Version|
                #![trigger self.state(w)]
                o.tree().is_known(w) && w != version implies {
                &&& self.state(w) == o.state(w)
                &&& self.rank(w) == o.rank(w)
                &&& self.rank_bound(w) == o.rank_bound(w)
            } by {}
            // the new bound is visible at `version`
            let bs = self.state(version).bounds;
            assert(bs.last() == (ty, bound));
            assert(self.eff_bound(version, ty) == Some(bound));
        }
        self.mark_semantic_change(version, Some(index));
        proof {
            self.lemma_others_trans(&mid, &o, version);
            assert(self.state(version).bounds == mid.state(version).bounds);
            assert(self.tree() == mid.tree());
            assert(self.eff_bound(version, ty) == mid.eff_bound(version, ty));
            assert forall|n: nat|
                o.ids_below(n) && ty.0 < n && (bound.spec_ty() matches Some(t) ==> t.0 < n)
                implies self.ids_below(n) by {
                assert forall|w: Version| #[trigger] self.tree().is_known(w) implies state_ids_below(
                    self.state(w),
                    n,
                ) by {
                    assert(o.tree().is_known(w));
                    assert(state_ids_below(o.state(w), n));
                    if w == version {
                        let bs = self.state(w).bounds;
                        assert forall|j: int| 0 <= j < bs.len() implies (#[trigger] bs[j]).0.0 < n
                            && match bs[j].1.spec_ty() {
                            Some(t) => t.0 < n,
                            None => true,
                        } by {
                            if j < bs.len() - 1 {
                                assert(bs[j] == o.state(w).bounds[j]);
                            }
                        }
                        assert(self.state(w).parents == o.state(w).parents);
                        assert(self.state(w).dependents == o.state(w).dependents);
                        assert(self.state(w).worklist == o.state(w).worklist);
                    } else {
                        assert(self.state(w) == o.state(w));
                    }
                }
            }
        }
        true
    }

    /// Record that `parent_ty` has `arg_ty` among its children.
    pub fn add_dependent(&mut self, version: Version, arg_ty: TyId, parent_ty: TyId)
        requires
            old(self).wf(),
            old(self).mutable(version),
        ensures
            final(self).wf(),
            final(self).tree() == old(self).tree(),
            final(self).placeholders() == old(self).placeholders(),
            final(self).others_unchanged(old(self), version),
            final(self).state(version) == (StateView {
                dependents: old(self).state(version).dependents.push((arg_ty, parent_ty)),
                ..old(self).state(version)
            }),
            final(self).dependents_spec(version, arg_ty) == old(self).dependents_spec(
                version,
                arg_ty,
            ).insert(parent_ty),
            forall|v: Version, x: TyId|
                #![trigger final(self).find_spec(v, x)]
                old(self).tree().live(v) ==> final(self).find_spec(v, x) == old(self).find_spec(v, x),
            forall|n: nat|
                old(self).ids_below(n) && arg_ty.0 < n && parent_ty.0 < n ==> final(self).ids_below(
                    n,
                ),
    {
        let ghost o = *self;
        self.versions.assert_mutable(version);
        proof {
            self.lemma_state_index(version);
        }
        self.states[version.0 as usize].dependents.push((arg_ty, parent_ty));
        proof {
            assert(self.state(version) =~= (StateView {
                dependents: o.state(version).dependents.push((arg_ty, parent_ty)),
                ..o.state(version)
            }));
            assert forall|a: Version|
                #![trigger self.state(a)]
                o.tree().is_known(a) implies self.state(a).parents == o.state(a).parents
                && self.rank(a) == o.rank(a) && self.rank_bound(a) == o.rank_bound(a) by {}
            assert forall|a: Version|
                #![trigger self.tree().parent_of(a)]
                o.tree().is_known(a) implies self.tree().parent_of(a) == o.tree().parent_of(a)
                && self.tree().live(a) == o.tree().live(a) by {}
            self.lemma_wf_frame(&o);
            assert forall|w: Version|
                #![trigger self.state(w)]
                o.tree().is_known(w) && w != version implies {
                &&& self.state(w) == o.state(w)
                &&& self.rank(w) == o.rank(w)
                &&& self.rank_bound(w) == o.rank_bound(w)
            } by {}
            let ds = self.state(version).dependents;
            let here = Set::new(|p: TyId| ds.contains((arg_ty, p)));
            let old_here = Set::new(|p: TyId| o.state(version).dependents.contains((arg_ty, p)));
            assert forall|p: TyId| here.contains(p) <==> old_here.insert(parent_ty).contains(p) by {
                if ds.contains((arg_ty, p)) && p != parent_ty {
                    let j = ds.index_of((arg_ty, p));
                    assert(o.state(version).dependents[j] == (arg_ty, p));
                }
                if old_here.contains(p) {
                    let j = o.state(version).dependents.index_of((arg_ty, p));
                    assert(ds[j] == (arg_ty, p));
                }
                if p == parent_ty {
                    assert(ds[ds.len() - 1] == (arg_ty, p));
                }
            }
            assert(here =~= old_here.insert(parent_ty));
            o.tree().lemma_live(version);
            match o.tree().parent_of(version) {
                Some(up) => {
                    self.lemma_view_frame(&o, version, up);
                    assert(self.dependents_spec(version, arg_ty) == here.union(
                        self.dependents_spec(up, arg_ty),
                    ));
                    assert(o.dependents_spec(version, arg_ty) == old_here.union(
                        o.dependents_spec(up, arg_ty),
                    ));
                    assert(self.dependents_spec(up, arg_ty) == o.dependents_spec(up, arg_ty));
                },
                None => {
                    assert(self.dependents_spec(version, arg_ty) == here);
                    assert(o.dependents_spec(version, arg_ty) == old_here);
                },
            }
            assert(self.dependents_spec(version, arg_ty) =~= o.dependents_spec(version, arg_ty).insert(
                parent_ty,
            ));
            assert forall|n: nat| o.ids_below(n) && arg_ty.0 < n && parent_ty.0 < n implies self.ids_below(
                n,
            ) by {
                assert forall|w: Version| #[trigger] self.tree().is_known(w) implies state_ids_below(
                    self.state(w),
                    n,
                ) by {
                    assert(o.tree().is_known(w));
                    assert(state_ids_below(o.state(w), n));
                    if w == version {
                        assert forall|j: int| 0 <= j < ds.len() implies (#[trigger] ds[j]).0.0 < n
                            && ds[j].1.0 < n by {
                            if j < ds.len() - 1 {
                                assert(ds[j] == o.state(w).dependents[j]);
                            }
                        }
                    } else {
                        assert(self.state(w) == o.state(w));
                    }
                }
            }
        }
    }

    // -----------------------------------------------------------------------
    // Version lifecycle (commit and rollback)
    // -----------------------------------------------------------------------
    /// The diff of `child` laid over the diff of `parent`.
    pub open spec fn collapsed(parent: StateView, child: StateView) -> StateView {
        StateView {
            parents: parent.parents + child.parents,
            bounds: parent.bounds + child.bounds,
            universe_ceilings: parent.universe_ceilings + child.universe_ceilings,
            dependents: parent.dependents + child.dependents,
            worklist: parent.worklist + child.worklist,
            wakes: merge_wakes(parent.wakes, child.wakes),
            semantic_revision: child.semantic_revision,
        }
    }

    /// After a collapse, `parent` sees what `child` saw.
    proof fn lemma_collapse_view(&self, old: &Self, child: Version, parent: Version)
        requires
            old.wf(),
            old.tree().live(child),
            old.tree().parent_of(child) == Some(parent),
            self.state(parent) == Self::collapsed(old.state(parent), old.state(child)),
            self.tree().parent_of(parent) == old.tree().parent_of(parent),
            forall|a: Version|
                #![trigger old.tree().ancestor(a, parent)]
                old.tree().ancestor(a, parent) && a != parent ==> self.state(a) == old.state(a)
                    && self.tree().parent_of(a) == old.tree().parent_of(a),
        ensures
            forall|x: TyId| #[trigger] self.eff_parent(parent, x) == old.eff_parent(child, x),
            forall|x: TyId| #[trigger] self.parent_spec(parent, x) == old.parent_spec(child, x),
            forall|x: TyId| #[trigger] self.eff_bound(parent, x) == old.eff_bound(child, x),
            forall|i: InferVarIndex| #[trigger] self.eff_ceiling(parent, i) == old.eff_ceiling(child, i),
            forall|x: TyId| #[trigger] self.dependents_spec(parent, x) == old.dependents_spec(child, x),
    {
        old.tree().lemma_live(child);
        old.tree().lemma_live(parent);
        let ps = old.state(parent);
        let cs = old.state(child);
        match old.tree().parent_of(parent) {
            Some(up) => {
                old.tree().lemma_parent_is_ancestor(parent);
                assert forall|a: Version| #[trigger] old.tree().ancestor(a, up) implies self.state(a)
                    == old.state(a) && self.tree().parent_of(a) == old.tree().parent_of(a) by {
                    old.tree().lemma_ancestor_trans(a, up, parent);
                    old.tree().lemma_ancestor_live(a, up);
                }
                self.lemma_views_agree(old, up);
            },
            None => {},
        }
        assert forall|x: TyId| #[trigger] self.eff_parent(parent, x) == old.eff_parent(child, x) by {
            lemma_log_get_append(ps.parents, cs.parents, x);
            match old.tree().parent_of(parent) {
                Some(up) => {
                    assert(self.eff_parent(up, x) == old.eff_parent(up, x));
                },
                None => {},
            }
            assert(old.eff_parent(child, x) == match log_get(cs.parents, x) {
                Some(p) => Some(p),
                None => old.eff_parent(parent, x),
            });
            assert(old.eff_parent(parent, x) == match log_get(ps.parents, x) {
                Some(p) => Some(p),
                None => match old.tree().parent_of(parent) {
                    Some(up) => if up.0 < parent.0 {
                        old.eff_parent(up, x)
                    } else {
                        None
                    },
                    None => None,
                },
            });
        }
        assert forall|x: TyId| #[trigger] self.eff_bound(parent, x) == old.eff_bound(child, x) by {
            lemma_log_get_append(ps.bounds, cs.bounds, x);
            match old.tree().parent_of(parent) {
                Some(up) => {
                    assert(self.eff_bound(up, x) == old.eff_bound(up, x));
                },
                None => {},
            }
            assert(old.eff_bound(child, x) == match log_get(cs.bounds, x) {
                Some(b) => Some(b),
                None => old.eff_bound(parent, x),
            });
            assert(old.eff_bound(parent, x) == match log_get(ps.bounds, x) {
                Some(b) => Some(b),
                None => match old.tree().parent_of(parent) {
                    Some(up) => if up.0 < parent.0 {
                        old.eff_bound(up, x)
                    } else {
                        None
                    },
                    None => None,
                },
            });
        }
        assert forall|i: InferVarIndex| #[trigger] self.eff_ceiling(parent, i) == old.eff_ceiling(
            child,
            i,
        ) by {
            lemma_log_get_append(ps.universe_ceilings, cs.universe_ceilings, i);
            match old.tree().parent_of(parent) {
                Some(up) => {
                    assert(self.eff_ceiling(up, i) == old.eff_ceiling(up, i));
                },
                None => {},
            }
            assert(old.eff_ceiling(child, i) == match log_get(cs.universe_ceilings, i) {
                Some(u) => Some(u),
                None => old.eff_ceiling(parent, i),
            });
            assert(old.eff_ceiling(parent, i) == match log_get(ps.universe_ceilings, i) {
                Some(u) => Some(u),
                None => match old.tree().parent_of(parent) {
                    Some(up) => if up.0 < parent.0 {
                        old.eff_ceiling(up, i)
                    } else {
                        None
                    },
                    None => None,
                },
            });
        }
        assert forall|x: TyId| #[trigger] self.dependents_spec(parent, x) == old.dependents_spec(
            child,
            x,
        ) by {
            let both = Set::new(|p: TyId| (ps.dependents + cs.dependents).contains((x, p)));
            let here_p = Set::new(|p: TyId| ps.dependents.contains((x, p)));
            let here_c = Set::new(|p: TyId| cs.dependents.contains((x, p)));
            assert forall|p: TyId| both.contains(p) <==> here_c.union(here_p).contains(p) by {
                let pair = (x, p);
                if (ps.dependents + cs.dependents).contains(pair) {
                    let j = (ps.dependents + cs.dependents).index_of(pair);
                    if j < ps.dependents.len() {
                        assert(ps.dependents[j] == pair);
                    } else {
                        assert(cs.dependents[j - ps.dependents.len()] == pair);
                    }
                }
                if ps.dependents.contains(pair) {
                    let j = ps.dependents.index_of(pair);
                    assert((ps.dependents + cs.dependents)[j] == pair);
                }
                if cs.dependents.contains(pair) {
                    let j = cs.dependents.index_of(pair);
                    assert((ps.dependents + cs.dependents)[j + ps.dependents.len()] == pair);
                }
            }
            assert(both =~= here_c.union(here_p));
            match old.tree().parent_of(parent) {
                Some(up) => {
                    assert(self.dependents_spec(parent, x) == both.union(
                        self.dependents_spec(up, x),
                    ));
                    assert(old.dependents_spec(parent, x) == here_p.union(old.dependents_spec(up, x)));
                    assert(old.dependents_spec(child, x) == here_c.union(
                        old.dependents_spec(parent, x),
                    ));
                    assert(self.dependents_spec(parent, x) =~= old.dependents_spec(child, x));
                },
                None => {
                    assert(self.dependents_spec(parent, x) == both);
                    assert(old.dependents_spec(parent, x) == here_p);
                    assert(old.dependents_spec(child, x) == here_c.union(old.dependents_spec(parent, x)));
                },
            }
        }
    }

    /// Atomically merge an exclusive leaf child into its direct parent: the
    /// parent takes over the child's diff, revision and variables, and the
    /// child is removed.
    pub fn collapse_into(&mut self, child: Version, parent: Version) -> (effects: CommitEffects)
        requires
            old(self).wf(),
            old(self).tree().live(child),
            old(self).tree().live(parent),
            old(self).tree().parent_of(child) == Some(parent),
            old(self).tree().children_of(child).len() == 0,
            old(self).tree().children_of(parent) == seq![child],
        ensures
            final(self).wf(),
            effects.semantic_revision == old(self).state(child).semantic_revision,
            strictly_sorted(effects.wakes@),
            forall|i: InferVarIndex| #[trigger]
                effects.wakes@.contains(i) <==> old(self).state(child).wakes.contains(i),
            final(self).state(parent) == Self::collapsed(
                old(self).state(parent),
                old(self).state(child),
            ),
            final(self).state(child) == StateView::empty(0),
            final(self).placeholders() == old(self).placeholders(),
            final(self).tree().num_versions() == old(self).tree().num_versions(),
            !final(self).tree().live(child),
            final(self).tree().children_of(parent) == Seq::<Version>::empty(),
            final(self).tree().owned_by(child) == Seq::<InferVarIndex>::empty(),
            final(self).tree().owned_by(parent) == old(self).tree().owned_by(parent) + old(
                self,
            ).tree().owned_by(child),
            final(self).tree().vars().len() == old(self).tree().vars().len(),
            forall|k: int|
                0 <= k < old(self).tree().vars().len() ==> #[trigger] final(self).tree().vars()[k]
                    == if old(self).tree().owned_by(child).contains(InferVarIndex(k as u32)) {
                    VarInfo { owner: parent, creation_universe: old(self).tree().vars()[k].creation_universe }
                } else {
                    old(self).tree().vars()[k]
                },
            forall|v: Version|
                #![trigger final(self).tree().live(v)]
                old(self).tree().is_known(v) && v != child ==> {
                    &&& final(self).tree().live(v) == old(self).tree().live(v)
                    &&& final(self).tree().parent_of(v) == old(self).tree().parent_of(v)
                    &&& v != parent ==> final(self).tree().children_of(v) == old(self).tree().children_of(v)
                    &&& v != parent ==> final(self).tree().owned_by(v) == old(self).tree().owned_by(v)
                },
            forall|a: Version, v: Version| #[trigger]
                final(self).tree().ancestor(a, v) == old(self).tree().ancestor(a, v),
            forall|w: Version|
                #![trigger final(self).state(w)]
                old(self).tree().is_known(w) && w != parent && w != child ==> final(self).state(w)
                    == old(self).state(w),
            // the parent now sees exactly what the child saw
            forall|x: TyId| #[trigger]
                final(self).find_spec(parent, x) == old(self).find_spec(child, x),
            forall|x: TyId| #[trigger]
                final(self).bound_spec(parent, x) == old(self).bound_spec(child, x),
            forall|i: InferVarIndex|
                i.0 < old(self).tree().vars().len() ==> #[trigger] final(self).universe_spec(parent, i)
                    == old(self).universe_spec(child, i),
            forall|x: TyId| #[trigger]
                final(self).dependents_spec(parent, x) == old(self).dependents_spec(child, x),
            // every other live version sees what it saw
            forall|v: Version, x: TyId|
                #![trigger final(self).find_spec(v, x)]
                old(self).tree().live(v) && v != parent && v != child ==> final(self).find_spec(v, x)
                    == old(self).find_spec(v, x),
            forall|v: Version, x: TyId|
                #![trigger final(self).bound_spec(v, x)]
                old(self).tree().live(v) && v != parent && v != child ==> final(self).bound_spec(v, x)
                    == old(self).bound_spec(v, x),
            forall|n: nat| old(self).ids_below(n) ==> final(self).ids_below(n),
    {
        let ghost o = *self;
        proof {
            o.lemma_state_index(child);
            o.lemma_state_index(parent);
            o.tree().lemma_live(child);
            o.tree().lemma_live(parent);
        }
        let ci = child.0 as usize;
        let pi = parent.0 as usize;
        let mut child_parents: Vec<(TyId, TyId)> = Vec::new();
        let mut child_bounds: Vec<(TyId, Bound)> = Vec::new();
        let mut child_ceilings: Vec<(InferVarIndex, Universe)> = Vec::new();
        let mut child_dependents: Vec<(TyId, TyId)> = Vec::new();
        let mut child_worklist: Vec<TyId> = Vec::new();
        let mut child_wakes: Vec<InferVarIndex> = Vec::new();
        std::mem::swap(&mut child_parents, &mut self.states[ci].parents);
        std::mem::swap(&mut child_bounds, &mut self.states[ci].bounds);
        std::mem::swap(&mut child_ceilings, &mut self.states[ci].universe_ceilings);
        std::mem::swap(&mut child_dependents, &mut self.states[ci].dependents);
        std::mem::swap(&mut child_worklist, &mut self.states[ci].worklist);
        std::mem::swap(&mut child_wakes, &mut self.states[ci].wakes);
        let revision = self.states[ci].semantic_revision;
        self.states[ci].semantic_revision = 0;
        let wakes = sorted_vars(&child_wakes);

        self.states[pi].parents.append(&mut child_parents);
        self.states[pi].bounds.append(&mut child_bounds);
        self.states[pi].universe_ceilings.append(&mut child_ceilings);
        self.states[pi].dependents.append(&mut child_dependents);
        self.states[pi].worklist.append(&mut child_worklist);
        merge_into(&mut self.states[pi].wakes, &child_wakes);
        self.states[pi].semantic_revision = revision;
        self.states[pi].rank = Ghost(o.rank(child));
        self.states[pi].rank_bound = Ghost(o.rank_bound(child));
        let ghost merged = *self;

        self.versions.reown_variables(child, parent);
        let ghost reowned = self.versions;
        proof {
            assert(reowned.live(child) == o.tree().live(child));
            assert(reowned.live(parent) == o.tree().live(parent));
            reowned.lemma_leaf_subtree(child);
        }
        let _removed = self.versions.remove(child);
        proof {
            let t = self.tree();
            assert(self.state(parent) =~= Self::collapsed(o.state(parent), o.state(child)));
            assert(self.state(child) =~= StateView::empty(0));
            assert forall|w: Version|
                #![trigger self.state(w)]
                o.tree().is_known(w) && w != parent && w != child implies self.state(w) == o.state(w)
                && self.rank(w) == o.rank(w) && self.rank_bound(w) == o.rank_bound(w) by {
                assert(self.states@[w.0 as int] == o.states@[w.0 as int]);
            }
            // the new tree
            assert(_removed@ == seq![child]);
            assert(t.live(child) == (reowned.live(child) && !_removed@.contains(child)));
            assert(t.live(parent) == (reowned.live(parent) && !_removed@.contains(parent)));
            crate::version::lemma_filter_ne(seq![child], child);
            assert forall|v: Version|
                #![trigger t.live(v)]
                o.tree().is_known(v) && v != child implies {
                &&& t.live(v) == o.tree().live(v)
                &&& t.parent_of(v) == o.tree().parent_of(v)
                &&& v != parent ==> t.children_of(v) == o.tree().children_of(v)
                &&& v != parent ==> t.owned_by(v) == o.tree().owned_by(v)
            } by {
                assert(reowned.live(v) == o.tree().live(v));
                assert(t.live(v) == (reowned.live(v) && !_removed@.contains(v)));
            }
            assert forall|v: Version| #[trigger] t.live(v) implies o.tree().live(v) && v != child by {
                t.lemma_live(v);
                assert(reowned.live(v) == o.tree().live(v));
                if v == child {
                    assert(_removed@.contains(child));
                }
            }
            let kids = t.children_of(parent);
            if kids.len() > 0 {
                assert(kids.contains(kids[0]));
            }
            assert(kids =~= Seq::<Version>::empty());
            // the parent's view
            assert forall|a: Version|
                #![trigger o.tree().ancestor(a, parent)]
                o.tree().ancestor(a, parent) && a != parent implies self.state(a) == o.state(a)
                && self.tree().parent_of(a) == o.tree().parent_of(a) by {
                o.tree().lemma_ancestor_live(a, parent);
                o.tree().lemma_live(a);
                assert(t.live(a) == reowned.live(a));
                assert(reowned.live(a) == o.tree().live(a));
            }
            assert(t.live(parent) == reowned.live(parent));
            self.lemma_collapse_view(&o, child, parent);
            // every other live version keeps its view
            assert forall|v: Version|
                o.tree().live(v) && v != parent && v != child implies forall|a: Version|
                #![trigger o.tree().ancestor(a, v)]
                o.tree().ancestor(a, v) ==> self.state(a) == o.state(a) && self.tree().parent_of(a)
                    == o.tree().parent_of(a) by {
                assert forall|a: Version|
                    #![trigger o.tree().ancestor(a, v)]
                    o.tree().ancestor(a, v) implies self.state(a) == o.state(a) && self.tree().parent_of(
                    a,
                ) == o.tree().parent_of(a) by {
                    o.tree().lemma_ancestor_live(a, v);
                    o.tree().lemma_live(a);
                    assert(reowned.live(a) == o.tree().live(a));
                    assert(t.live(a) == (reowned.live(a) && !_removed@.contains(a)));
                    if a == parent {
                        let j = o.tree().lemma_ancestor_via_child(parent, v);
                        assert(o.tree().children_of(parent)[j] == child);
                        o.tree().lemma_ancestor_has_child(child, v);
                    }
                    if a == child {
                        o.tree().lemma_ancestor_has_child(child, v);
                    }
                }
            }
            // ranks stay valid
            assert forall|v: Version| #[trigger] self.versions.live(v) implies self.rank_ok(v) by {
                assert(o.tree().live(v));
                if v == parent {
                    assert(o.rank_ok(child));
                    assert forall|x: TyId| #![trigger self.parent_spec(v, x)]
                        self.parent_spec(v, x) != x implies self.rank(v)(x) < self.rank(v)(self.parent_spec(v, x)) by {
                        assert(o.parent_spec(child, x) == self.parent_spec(v, x));
                    }
                    assert forall|x: TyId| #[trigger] self.rank(v)(x) <= self.rank_bound(v) by {
                        assert(o.rank(child)(x) <= o.rank_bound(child));
                    }
                } else {
                    assert(o.rank_ok(v));
                    self.lemma_views_agree(&o, v);
                    o.tree().lemma_live(v);
                    assert(self.state(v) == o.state(v));
                    assert(self.rank(v) == o.rank(v));
                    assert forall|x: TyId| #![trigger self.parent_spec(v, x)]
                        self.parent_spec(v, x) != x implies self.rank(v)(x) < self.rank(v)(self.parent_spec(v, x)) by {
                        assert(o.parent_spec(v, x) == self.parent_spec(v, x));
                    }
                    assert forall|x: TyId| #[trigger] self.rank(v)(x) <= self.rank_bound(v) by {
                        assert(o.rank(v)(x) <= o.rank_bound(v));
                    }
                }
            }
            assert forall|j: int| 0 <= j < self.states@.len() implies (
            #[trigger] self.states@[j]).wakes@.no_duplicates() by {
                if j != pi && j != ci {
                    assert(self.states@[j] == o.states@[j]);
                }
            }
            assert(self.wf());
            assert forall|x: TyId| #[trigger] self.find_spec(parent, x) == o.find_spec(child, x) by {
                self.lemma_find_same(&o, parent, child, x);
            }
            assert forall|i: InferVarIndex|
                i.0 < o.tree().vars().len() implies #[trigger] self.universe_spec(parent, i)
                == o.universe_spec(child, i) by {
                assert(self.tree().vars()[i.0 as int].creation_universe == o.tree().vars()[i.0 as int].creation_universe);
            }
            assert forall|v: Version, x: TyId|
                #![trigger self.find_spec(v, x)]
                o.tree().live(v) && v != parent && v != child implies self.find_spec(v, x)
                == o.find_spec(v, x) by {
                self.lemma_views_agree(&o, v);
                o.tree().lemma_live(v);
                assert(self.state(v) == o.state(v));
                self.lemma_find_same(&o, v, v, x);
            }
            assert forall|v: Version, x: TyId|
                #![trigger self.bound_spec(v, x)]
                o.tree().live(v) && v != parent && v != child implies self.bound_spec(v, x)
                == o.bound_spec(v, x) by {
                self.lemma_views_agree(&o, v);
            }
            assert forall|n: nat| o.ids_below(n) implies self.ids_below(n) by {
                assert forall|w: Version| #[trigger] self.tree().is_known(w) implies state_ids_below(
                    self.state(w),
                    n,
                ) by {
                    assert(o.tree().is_known(w));
                    if w == parent {
                        assert(state_ids_below(o.state(parent), n));
                        assert(o.tree().is_known(child));
                        assert(state_ids_below(o.state(child), n));
                        let a = o.state(parent);
                        let b = o.state(child);
                        let m = self.state(w);
                        assert forall|j: int| 0 <= j < m.parents.len() implies (#[trigger] m.parents[j]).0.0 < n
                            && m.parents[j].1.0 < n by {
                            if j < a.parents.len() {
                                assert(m.parents[j] == a.parents[j]);
                            } else {
                                assert(m.parents[j] == b.parents[j - a.parents.len()]);
                            }
                        }
                        assert forall|j: int| 0 <= j < m.bounds.len() implies (#[trigger] m.bounds[j]).0.0 < n
                            && match m.bounds[j].1.spec_ty() {
                            Some(t) => t.0 < n,
                            None => true,
                        } by {
                            if j < a.bounds.len() {
                                assert(m.bounds[j] == a.bounds[j]);
                            } else {
                                assert(m.bounds[j] == b.bounds[j - a.bounds.len()]);
                            }
                        }
                        assert forall|j: int| 0 <= j < m.dependents.len() implies (
                        #[trigger] m.dependents[j]).0.0 < n && m.dependents[j].1.0 < n by {
                            if j < a.dependents.len() {
                                assert(m.dependents[j] == a.dependents[j]);
                            } else {
                                assert(m.dependents[j] == b.dependents[j - a.dependents.len()]);
                            }
                        }
                        assert forall|j: int| 0 <= j < m.worklist.len() implies (#[trigger] m.worklist[j]).0
                            < n by {
                            if j < a.worklist.len() {
                                assert(m.worklist[j] == a.worklist[j]);
                            } else {
                                assert(m.worklist[j] == b.worklist[j - a.worklist.len()]);
                            }
                        }
                    } else if w != child {
                        assert(state_ids_below(o.state(w), n));
                    }
                }
            }
        }
        CommitEffects { wakes, semantic_revision: revision }
    }

    /// Remove a version and all its descendants; their diffs are dropped.
    pub fn discard(&mut self, version: Version)
        requires
            old(self).wf(),
            old(self).tree().live(version),
            version != Version::root(),
        ensures
            final(self).wf(),
            final(self).placeholders() == old(self).placeholders(),
            final(self).tree().num_versions() == old(self).tree().num_versions(),
            final(self).tree().vars() == old(self).tree().vars(),
            forall|v: Version|
                #![trigger final(self).tree().live(v)]
                old(self).tree().is_known(v) ==> {
                    &&& final(self).tree().live(v) == (old(self).tree().live(v) && !old(
                        self,
                    ).tree().ancestor(version, v))
                    &&& final(self).tree().parent_of(v) == old(self).tree().parent_of(v)
                    &&& final(self).tree().owned_by(v) == old(self).tree().owned_by(v)
                    &&& v != old(self).tree().parent_of(version)->0 && final(self).tree().live(v)
                        ==> final(self).tree().children_of(v) == old(self).tree().children_of(v)
                },
            final(self).tree().children_of(old(self).tree().parent_of(version)->0) == old(
                self,
            ).tree().children_of(old(self).tree().parent_of(version)->0).filter(
                crate::version::other_than(version),
            ),
            forall|a: Version, v: Version| #[trigger]
                final(self).tree().ancestor(a, v) == old(self).tree().ancestor(a, v),
            forall|w: Version|
                #![trigger final(self).state(w)]
                old(self).tree().is_known(w) ==> final(self).state(w) == if old(self).tree().live(w)
                    && old(self).tree().ancestor(version, w) {
                    StateView::empty(0)
                } else {
                    old(self).state(w)
                },
            // every surviving version sees what it saw
            forall|v: Version, x: TyId|
                #![trigger final(self).find_spec(v, x)]
                final(self).tree().live(v) ==> final(self).find_spec(v, x) == old(self).find_spec(v, x),
            forall|v: Version, x: TyId|
                #![trigger final(self).bound_spec(v, x)]
                final(self).tree().live(v) ==> final(self).bound_spec(v, x) == old(self).bound_spec(v, x),
            forall|v: Version, i: InferVarIndex|
                #![trigger final(self).universe_spec(v, i)]
                final(self).tree().live(v) ==> final(self).universe_spec(v, i) == old(self).universe_spec(v, i),
            forall|v: Version, x: TyId|
                #![trigger final(self).dependents_spec(v, x)]
                final(self).tree().live(v) ==> final(self).dependents_spec(v, x) == old(
                    self,
                ).dependents_spec(v, x),
            forall|n: nat| old(self).ids_below(n) ==> final(self).ids_below(n),
    {
        let ghost o = *self;
        let removed = self.versions.remove(version);
        let ghost t = self.versions;
        proof {
            assert forall|j: int| 0 <= j < removed@.len() implies o.tree().live(#[trigger] removed@[j]) by {
                o.tree().lemma_post_member(version, removed@[j]);
            }
        }
        let mut k: usize = 0;
        while k < removed.len()
            invariant
                self.versions == t,
                self.placeholder_universes == o.placeholder_universes,
                t.wf(),
                o.wf(),
                t.num_versions() == o.tree().num_versions(),
                removed@ == o.tree().subtree(version),
                forall|v: Version| o.tree().live(v) ==> (#[trigger] removed@.contains(v) <==> o.tree().ancestor(version, v)),
                forall|j: int| 0 <= j < removed@.len() ==> o.tree().live(#[trigger] removed@[j]),
                k <= removed@.len(),
                self.states@.len() == o.states@.len(),
                forall|w: Version|
                    #![trigger self.state(w)]
                    o.tree().is_known(w) ==> {
                        &&& removed@.take(k as int).contains(w) ==> self.state(w) == StateView::empty(0)
                        &&& !removed@.take(k as int).contains(w) ==> self.state(w) == o.state(w)
                            && self.rank(w) == o.rank(w) && self.rank_bound(w) == o.rank_bound(w)
                    },
                forall|j: int| 0 <= j < self.states@.len() ==> (#[trigger] self.states@[j]).wakes@.no_duplicates(),
            decreases removed@.len() - k,
        {
            let w = removed[k];
            proof {
                o.tree().lemma_live(w);
                o.lemma_state_index(w);
            }
            let fresh = VersionState::fresh(0, Ghost(|x: TyId| 0nat), Ghost(0nat));
            let ghost before = *self;
            self.states.set(w.0 as usize, fresh);
            let ghost prev: int = k as int;
            k += 1;
            proof {
                assert forall|u: Version| u != w && u.0 < self.states@.len() implies #[trigger] self.states@[u.0 as int] == before.states@[u.0 as int] by {
                    assert(u.0 != w.0);
                }
                assert(removed@.take(k as int) =~= removed@.take(prev).push(w));
                assert forall|u: Version|
                    #![trigger self.state(u)]
                    o.tree().is_known(u) implies {
                    &&& removed@.take(k as int).contains(u) ==> self.state(u) == StateView::empty(0)
                    &&& !removed@.take(k as int).contains(u) ==> self.state(u) == o.state(u)
                        && self.rank(u) == o.rank(u) && self.rank_bound(u) == o.rank_bound(u)
                } by {
                    if u == w {
                        assert(removed@.take(k as int)[prev] == w);
                        assert(self.states@[w.0 as int] == fresh);
                    } else {
                        assert(self.states@[u.0 as int] == before.states@[u.0 as int]);
                        assert(before.state(u) == self.state(u));
                        assert(removed@.take(k as int).contains(u) == removed@.take(prev).contains(u)) by {
                            if removed@.take(k as int).contains(u) {
                                let j = removed@.take(k as int).index_of(u);
                                assert(removed@.take(prev)[j] == u);
                            }
                            if removed@.take(prev).contains(u) {
                                let j = removed@.take(prev).index_of(u);
                                assert(removed@.take(k as int)[j] == u);
                            }
                        }
                    }
                }
            }
        }
        proof {
            assert(removed@.take(removed@.len() as int) =~= removed@);
            assert forall|v: Version| #[trigger] t.live(v) implies o.tree().live(v) && !o.tree().ancestor(
                version,
                v,
            ) by {
                t.lemma_live(v);
            }
            // live versions after the removal keep every ancestor
            assert forall|v: Version| #[trigger] t.live(v) implies forall|a: Version|
                #![trigger o.tree().ancestor(a, v)]
                o.tree().ancestor(a, v) ==> self.state(a) == o.state(a) && self.tree().parent_of(a)
                    == o.tree().parent_of(a) && self.rank(a) == o.rank(a) && self.rank_bound(a)
                    == o.rank_bound(a) by {
                t.lemma_live(v);
                assert(o.tree().live(v));
                assert forall|a: Version|
                    #![trigger o.tree().ancestor(a, v)]
                    o.tree().ancestor(a, v) implies self.state(a) == o.state(a) && self.tree().parent_of(
                    a,
                ) == o.tree().parent_of(a) && self.rank(a) == o.rank(a) && self.rank_bound(a)
                    == o.rank_bound(a) by {
                    o.tree().lemma_ancestor_live(a, v);
                    o.tree().lemma_live(a);
                    assert(t.live(a) == (o.tree().live(a) && !removed@.contains(a)));
                    if removed@.contains(a) {
                        o.tree().lemma_ancestor_trans(version, a, v);
                        assert(removed@.contains(v));
                    }
                    assert(self.state(a) == o.state(a));
                }
            }
            assert forall|v: Version| #[trigger] self.versions.live(v) implies self.rank_ok(v) by {
                t.lemma_live(v);
                assert(o.tree().live(v));
                assert(o.rank_ok(v));
                o.tree().lemma_ancestor_refl(v);
                self.lemma_views_agree(&o, v);
                assert forall|x: TyId| #![trigger self.parent_spec(v, x)]
                    self.parent_spec(v, x) != x implies self.rank(v)(x) < self.rank(v)(self.parent_spec(v, x)) by {
                    assert(o.parent_spec(v, x) == self.parent_spec(v, x));
                }
                assert forall|x: TyId| #[trigger] self.rank(v)(x) <= self.rank_bound(v) by {
                    assert(o.rank(v)(x) <= o.rank_bound(v));
                }
            }
            assert(self.wf());
            assert forall|w: Version|
                #![trigger self.state(w)]
                o.tree().is_known(w) implies self.state(w) == if o.tree().live(w) && o.tree().ancestor(version, w) {
                    StateView::empty(0)
                } else {
                    o.state(w)
                } by {
                if removed@.contains(w) {
                    let j = removed@.index_of(w);
                    assert(o.tree().live(removed@[j]));
                }
            }
            assert forall|v: Version, x: TyId|
                #![trigger self.find_spec(v, x)]
                self.tree().live(v) implies self.find_spec(v, x) == o.find_spec(v, x) by {
                o.tree().lemma_ancestor_refl(v);
                self.lemma_views_agree(&o, v);
                self.lemma_find_same(&o, v, v, x);
            }
            assert forall|v: Version, x: TyId|
                #![trigger self.bound_spec(v, x)]
                self.tree().live(v) implies self.bound_spec(v, x) == o.bound_spec(v, x) by {
                self.lemma_views_agree(&o, v);
            }
            assert forall|v: Version, i: InferVarIndex|
                #![trigger self.universe_spec(v, i)]
                self.tree().live(v) implies self.universe_spec(v, i) == o.universe_spec(v, i) by {
                self.lemma_views_agree(&o, v);
            }
            assert forall|v: Version, x: TyId|
                #![trigger self.dependents_spec(v, x)]
                self.tree().live(v) implies self.dependents_spec(v, x) == o.dependents_spec(v, x) by {
                self.lemma_views_agree(&o, v);
            }
            assert forall|n: nat| o.ids_below(n) implies self.ids_below(n) by {
                assert forall|w: Version| #[trigger] self.tree().is_known(w) implies state_ids_below(
                    self.state(w),
                    n,
                ) by {
                    assert(o.tree().is_known(w));
                    assert(state_ids_below(o.state(w), n));
                }
            }
        }
    }

    // -----------------------------------------------------------------------
    // Congruence closure
    // -----------------------------------------------------------------------
    /// A larger bound bounds every identity too.
    proof fn lemma_ids_below_mono(&self, n: nat, m: nat)
        requires
            self.ids_below(n),
            n <= m,
        ensures
            self.ids_below(m),
    {
        assert forall|w: Version| #[trigger] self.tree().is_known(w) implies state_ids_below(
            self.state(w),
            m,
        ) by {
            assert(state_ids_below(self.state(w), n));
        }
    }

    /// Recorded dependents lie below any bound of the recorded identities.
    proof fn lemma_dependents_below(&self, version: Version, ty: TyId, p: TyId, n: nat)
        requires
            self.wf(),
            self.tree().live(version),
            self.ids_below(n),
            self.dependents_spec(version, ty).contains(p),
        ensures
            p.0 < n,
        decreases version.0,
    {
        self.tree().lemma_live(version);
        let ds = self.state(version).dependents;
        assert(state_ids_below(self.state(version), n));
        if ds.contains((ty, p)) {
            let j = ds.index_of((ty, p));
            assert(ds[j].1.0 < n);
        } else {
            match self.tree().parent_of(version) {
                Some(up) => {
                    self.lemma_dependents_below(up, ty, p, n);
                },
                None => {},
            }
        }
    }

    /// The types registered as depending on `ty` in `version` or an
    /// ancestor, each listed once.
    fn collect_dependents(&self, version: Version, ty: TyId) -> (dependents: Vec<TyId>)
        requires
            self.wf(),
            self.tree().live(version),
        ensures
            dependents@.no_duplicates(),
            forall|p: TyId| #[trigger]
                dependents@.contains(p) <==> self.dependents_spec(version, ty).contains(p),
    {
        let mut out: Vec<TyId> = Vec::new();
        let mut iter = self.versions.ancestors(version);
        loop
            invariant
                self.wf(),
                iter.valid(),
                iter.tree() == self.versions,
                out@.no_duplicates(),
                forall|p: TyId| #[trigger]
                    self.dependents_spec(version, ty).contains(p) <==> (out@.contains(p)
                        || match iter.cursor() {
                        Some(a) => self.dependents_spec(a, ty).contains(p),
                        None => false,
                    }),
            decreases match iter.cursor() {
                Some(a) => a.0 as int + 1,
                None => 0,
            },
        {
            let ghost before = iter.cursor();
            match iter.next() {
                None => {
                    return out;
                },
                Some(a) => {
                    proof {
                        self.lemma_state_index(a);
                        self.versions.lemma_live(a);
                    }
                    let log = &self.states[a.0 as usize].dependents;
                    let ghost base = out@;
                    let ghost here = Set::new(|p: TyId| log@.contains((ty, p)));
                    let mut k: usize = 0;
                    while k < log.len()
                        invariant
                            k <= log@.len(),
                            log@ == self.state(a).dependents,
                            out@.no_duplicates(),
                            forall|p: TyId| #[trigger]
                                out@.contains(p) <==> (base.contains(p) || log@.take(k as int).contains(
                                    (ty, p),
                                )),
                        decreases log@.len() - k,
                    {
                        let entry = log[k];
                        let ghost prev = out@;
                        if entry.0 == ty && !contains_id(&out, entry.1) {
                            out.push(entry.1);
                            proof {
                                assert forall|x: int, y: int|
                                    0 <= x < out@.len() && 0 <= y < out@.len() && x != y implies out@[x]
                                    != out@[y] by {
                                    if x == prev.len() {
                                        assert(prev[y] != entry.1);
                                    } else if y == prev.len() {
                                        assert(prev[x] != entry.1);
                                    }
                                }
                            }
                        }
                        proof {
                            assert(log@.take(k + 1) =~= log@.take(k as int).push(entry));
                            assert forall|p: TyId| #[trigger]
                                out@.contains(p) <==> (base.contains(p) || log@.take(k + 1).contains(
                                    (ty, p),
                                )) by {
                                if log@.take(k as int).contains((ty, p)) {
                                    let j = log@.take(k as int).index_of((ty, p));
                                    assert(log@.take(k + 1)[j] == (ty, p));
                                }
                                if log@.take(k + 1).contains((ty, p)) && entry != (ty, p) {
                                    let j = log@.take(k + 1).index_of((ty, p));
                                    assert(log@.take(k as int)[j] == (ty, p));
                                }
                                if entry == (ty, p) {
                                    assert(log@.take(k + 1)[k as int] == entry);
                                }
                                if prev.contains(p) {
                                    let j = prev.index_of(p);
                                    assert(out@[j] == p);
                                }
                                if out@.contains(p) && !prev.contains(p) {
                                    let j = out@.index_of(p);
                                    if j < prev.len() {
                                        assert(prev[j] == p);
                                    }
                                    assert(out@.len() == prev.len() + 1);
                                    assert(j == prev.len());
                                    assert(p == entry.1);
                                }
                                if entry == (ty, p) && !prev.contains(p) {
                                    assert(out@[prev.len() as int] == p);
                                }
                            }
                        }
                        k += 1;
                    }
                    proof {
                        assert(log@.take(log@.len() as int) =~= log@);
                        assert forall|p: TyId| #[trigger]
                            self.dependents_spec(version, ty).contains(p) <==> (out@.contains(p)
                                || match iter.cursor() {
                                Some(b) => self.dependents_spec(b, ty).contains(p),
                                None => false,
                            }) by {
                            assert(self.dependents_spec(a, ty).contains(p) == (here.contains(p)
                                || match self.tree().parent_of(a) {
                                Some(up) => self.dependents_spec(up, ty).contains(p),
                                None => false,
                            }));
                        }
                    }
                },
            }
        }
    }

    /// Rebuild `ty` over the current representatives of its children, if
    /// any child is not a representative. Nothing is rebuilt once the store
    /// has no room for the new type.
    fn recanonicalize(&self, version: Version, stash: &mut TyStore, ty: TyId) -> (new_ty: Option<
        TyId,
    >)
        requires
            self.wf(),
            self.tree().live(version),
            old(stash).wf(),
            self.ids_below(old(stash).types().len()),
            ty.0 < old(stash).types().len(),
        ensures
            final(stash).wf(),
            final(stash).extends(old(stash)),
            forall|i: int|
                old(stash).types().len() <= i < final(stash).types().len() ==> !(
                #[trigger] final(stash).types()[i] is InferVar),
            ({
                let (skeleton, children) = decomposition(
                    old(stash).types()[ty.0 as int],
                    old(stash).lists(),
                );
                let canonical = children.map_values(|c: TyId| self.find_spec(version, c));
                match new_ty {
                    Some(t) => {
                        &&& canonical != children
                        &&& t.0 < final(stash).types().len()
                        &&& decomposition(final(stash).types()[t.0 as int], final(stash).lists())
                            == (skeleton, canonical)
                    },
                    None => children.len() == 0 || canonical == children || old(stash).types().len()
                        + 1 >= u32::MAX || old(stash).lists().len() + 2 > u32::MAX,
                }
            }),
    {
        let decomposed = crate::skeleton::decompose(stash, ty);
        let ghost children = decomposed.children_view();
        if children_len(&decomposed.children) == 0 {
            return None;
        }
        let mut new_children: Vec<TyId> = Vec::new();
        let mut same = true;
        proof {
            assert(children.take(0) =~= Seq::<TyId>::empty());
            assert(children.take(0).map_values(|c: TyId| self.find_spec(version, c)) =~= Seq::<TyId>::empty());
        }
        let mut k: usize = 0;
        while k < children_len(&decomposed.children)
            invariant
                k <= children.len(),
                decomposed.children_view() == children,
                self.wf(),
                self.tree().live(version),
                new_children@ == children.take(k as int).map_values(|c: TyId| self.find_spec(version, c)),
                same == (new_children@ == children.take(k as int)),
            decreases children.len() - k,
        {
            let c = children_get(&decomposed.children, k);
            let root = self.find(version, c);
            let ghost prev = new_children@;
            new_children.push(root);
            proof {
                assert(children.take(k + 1) =~= children.take(k as int).push(c));
                assert(new_children@ =~= children.take(k + 1).map_values(|c: TyId| self.find_spec(version, c)));
                if same {
                    if root != c {
                        assert(new_children@[k as int] != children.take(k + 1)[k as int]);
                    }
                } else {
                    assert(prev != children.take(k as int));
                    if new_children@ == children.take(k + 1) {
                        assert(prev =~= children.take(k as int));
                    }
                }
            }
            if root != c {
                same = false;
            }
            k += 1;
        }
        proof {
            assert(children.take(children.len() as int) =~= children);
        }
        if same {
            return None;
        }
        if stash.type_count() >= 4294967294 || stash.list_count() >= 4294967294 {
            return None;
        }
        proof {
            let t = stash.types()[ty.0 as int];
            let (skeleton, cs) = decomposition(t, stash.lists());
            crate::skeleton::lemma_decomposition_fixpoint(stash, ty.0 as int);
            crate::skeleton::lemma_same_shape(skeleton, cs, new_children@);
            assert forall|k: int| 0 <= k < new_children@.len() implies (#[trigger] new_children@[k]).0
                < stash.types().len() by {
                assert(cs[k].0 < ty.0);
                self.lemma_parent_below(version, cs[k], stash.types().len());
            }
        }
        let ghost before = *stash;
        let new_ty = crate::skeleton::recompose(stash, decomposed.skeleton, new_children.as_slice());
        proof {
            assert forall|i: int|
                before.types().len() <= i < stash.types().len() implies !(
                #[trigger] stash.types()[i] is InferVar) by {
                assert(stash.types() == before.types().push(stash.types()[new_ty.0 as int]));
                assert(stash.types()[i] == stash.types()[new_ty.0 as int]);
                assert(decomposition(stash.types()[new_ty.0 as int], stash.lists()).1.len() > 0);
            }
        }
        Some(new_ty)
    }

    /// `t` rebuilds `d` in `version`: a type of the skeleton of `d`, in the
    /// class of `d`, whose children lie in the classes of the children of
    /// `d` and were each the representative of their class in `base`.
    pub open spec fn rebuilt_as(&self, base: &Self, stash: &TyStore, version: Version, d: TyId, t: TyId) -> bool {
        let (skeleton, cs) = decomposition(stash.types()[d.0 as int], stash.lists());
        let (t_skeleton, t_cs) = decomposition(stash.types()[t.0 as int], stash.lists());
        &&& t.0 < stash.types().len()
        &&& self.find_spec(version, t) == self.find_spec(version, d)
        &&& t_skeleton == skeleton
        &&& t_cs.len() == cs.len()
        &&& forall|k: int|
            0 <= k < cs.len() ==> self.find_spec(version, #[trigger] t_cs[k]) == self.find_spec(version, cs[k])
                && base.find_spec(version, t_cs[k]) == t_cs[k]
    }

    /// After a rebuild that started from `base`, the compound type `d` shares
    /// its class with its form over the representatives of its children,
    /// unless the store had no room left to intern that form.
    pub open spec fn congruent_after(&self, base: &Self, stash: &TyStore, version: Version, d: TyId) -> bool {
        &&& d.0 < stash.types().len()
        &&& {
            ||| decomposition(stash.types()[d.0 as int], stash.lists()).1.len() == 0
            ||| stash.types().len() + 1 >= u32::MAX
            ||| stash.lists().len() + 2 > u32::MAX
            ||| exists|t: TyId| #[trigger] self.rebuilt_as(base, stash, version, d, t)
        }
    }

    /// Congruence of the types in `ds` survives merging classes and growing
    /// the store.
    proof fn lemma_congruent_keep(
        &self,
        old: &Self,
        base: &Self,
        stash: &TyStore,
        old_stash: &TyStore,
        version: Version,
        ds: Seq<TyId>,
    )
        requires
            old_stash.wf(),
            stash.extends(old_stash),
            crate::unify::coarser(self, old, version),
            forall|q: int| 0 <= q < ds.len() ==> old.congruent_after(base, old_stash, version, #[trigger] ds[q]),
        ensures
            forall|q: int| 0 <= q < ds.len() ==> self.congruent_after(base, stash, version, #[trigger] ds[q]),
    {
        assert forall|q: int| 0 <= q < ds.len() implies self.congruent_after(base, stash, version, #[trigger] ds[q]) by {
            let d = ds[q];
            assert(old.congruent_after(base, old_stash, version, d));
            crate::skeleton::lemma_decomposition_extends(stash, old_stash, d.0 as int);
            if exists|t: TyId| #[trigger] old.rebuilt_as(base, old_stash, version, d, t) {
                let t = choose|t: TyId| #[trigger] old.rebuilt_as(base, old_stash, version, d, t);
                crate::skeleton::lemma_decomposition_extends(stash, old_stash, t.0 as int);
                let cs = decomposition(old_stash.types()[d.0 as int], old_stash.lists()).1;
                let t_cs = decomposition(old_stash.types()[t.0 as int], old_stash.lists()).1;
                assert(self.find_spec(version, t) == self.find_spec(version, old.find_spec(version, t)));
                assert(self.find_spec(version, d) == self.find_spec(version, old.find_spec(version, d)));
                assert forall|k: int| 0 <= k < cs.len() implies self.find_spec(version, #[trigger] t_cs[k])
                    == self.find_spec(version, cs[k]) && base.find_spec(version, t_cs[k]) == t_cs[k] by {
                    assert(old.find_spec(version, t_cs[k]) == old.find_spec(version, cs[k]));
                    assert(self.find_spec(version, t_cs[k]) == self.find_spec(version, old.find_spec(version, t_cs[k])));
                    assert(self.find_spec(version, cs[k]) == self.find_spec(version, old.find_spec(version, cs[k])));
                }
                assert(self.rebuilt_as(base, stash, version, d, t));
            }
        }
    }

    /// What a rebuild from `base` has shown so far: a representative now was
    /// one in `base`, every type of `cong` is congruent, and every dependent
    /// of a handled type of `done` is in `cong`.
    #[verifier::opaque]
    spec fn rebuild_progress(&self, base: &Self, stash: &TyStore, version: Version, cong: Seq<TyId>, done: Seq<TyId>) -> bool {
        &&& forall|c: TyId| #[trigger] self.find_spec(version, c) == c ==> base.find_spec(version, c) == c
        &&& forall|q: int| 0 <= q < cong.len() ==> self.congruent_after(base, stash, version, #[trigger] cong[q])
        &&& forall|m: TyId, d: TyId|
            #![trigger base.dependents_spec(version, m).contains(d)]
            done.contains(m) && base.dependents_spec(version, m).contains(d) ==> cong.contains(d)
    }

    proof fn lemma_progress_same(&self, old: &Self, base: &Self, stash: &TyStore, version: Version, cong: Seq<TyId>, done: Seq<TyId>)
        requires
            old.wf(),
            old.tree().live(version),
            stash.wf(),
            old.rebuild_progress(base, stash, version, cong, done),
            forall|y: TyId| #[trigger] self.find_spec(version, y) == old.find_spec(version, y),
        ensures
            self.rebuild_progress(base, stash, version, cong, done),
    {
        reveal(VersionedEGraph::rebuild_progress);
        crate::unify::lemma_coarser_same(self, old, version);
        self.lemma_congruent_keep(old, base, stash, stash, version, cong);
        assert forall|c: TyId| #[trigger] self.find_spec(version, c) == c implies base.find_spec(version, c) == c by {
            assert(old.find_spec(version, c) == c);
        }
    }

    proof fn lemma_progress_moved(
        &self,
        before: &Self,
        after_set: &Self,
        base: &Self,
        stash: &TyStore,
        stash_before: &TyStore,
        version: Version,
        d: TyId,
        new_ty: TyId,
        old_canonical: TyId,
        new_canonical: TyId,
        cong: Seq<TyId>,
        done: Seq<TyId>,
    )
        requires
            before.wf(),
            before.tree().live(version),
            after_set.wf(),
            after_set.tree().live(version),
            stash_before.wf(),
            stash.extends(stash_before),
            before.rebuild_progress(base, stash_before, version, cong, done),
            d.0 < stash_before.types().len(),
            new_ty.0 < stash.types().len(),
            old_canonical == before.find_spec(version, d),
            new_canonical == before.find_spec(version, new_ty),
            new_canonical != old_canonical,
            ({
                let (skeleton, children) = decomposition(stash_before.types()[d.0 as int], stash_before.lists());
                decomposition(stash.types()[new_ty.0 as int], stash.lists()) == (
                    skeleton,
                    children.map_values(|c: TyId| before.find_spec(version, c)),
                )
            }),
            forall|y: TyId| #[trigger]
                after_set.find_spec(version, y) == if before.find_spec(version, y) == old_canonical {
                    new_canonical
                } else {
                    before.find_spec(version, y)
                },
            forall|y: TyId| #[trigger] self.find_spec(version, y) == after_set.find_spec(version, y),
        ensures
            self.rebuild_progress(base, stash, version, cong.push(d), done),
    {
        reveal(VersionedEGraph::rebuild_progress);
        crate::unify::lemma_coarser_merge(after_set, before, version, old_canonical, new_canonical);
        crate::unify::lemma_coarser_same(self, after_set, version);
        crate::unify::lemma_coarser_trans(self, after_set, before, version);
        self.lemma_congruent_keep(before, base, stash, stash_before, version, cong);
        before.lemma_rank_ok(version);
        before.lemma_find_root(version, new_ty);
        crate::skeleton::lemma_decomposition_extends(stash, stash_before, d.0 as int);
        let cs = decomposition(stash_before.types()[d.0 as int], stash_before.lists()).1;
        let t_cs = decomposition(stash.types()[new_ty.0 as int], stash.lists()).1;
        assert forall|k: int| 0 <= k < cs.len() implies self.find_spec(version, #[trigger] t_cs[k]) == self.find_spec(
            version,
            cs[k],
        ) && base.find_spec(version, t_cs[k]) == t_cs[k] by {
            before.lemma_find_root(version, cs[k]);
            assert(t_cs[k] == before.find_spec(version, cs[k]));
            assert(after_set.find_spec(version, t_cs[k]) == after_set.find_spec(version, cs[k]));
            assert(before.find_spec(version, t_cs[k]) == t_cs[k]);
        }
        assert(self.rebuilt_as(base, stash, version, d, new_ty));
        assert(self.congruent_after(base, stash, version, d));
        assert forall|c: TyId| #[trigger] self.find_spec(version, c) == c implies base.find_spec(version, c) == c by {
            assert(after_set.find_spec(version, c) == c);
            if before.find_spec(version, c) == old_canonical {
                assert(before.find_spec(version, new_canonical) == new_canonical);
            } else {
                assert(before.find_spec(version, c) == c);
            }
        }
        lemma_push_contains(cong, d);
    }

    proof fn lemma_progress_kept(
        &self,
        base: &Self,
        stash: &TyStore,
        stash_before: &TyStore,
        version: Version,
        d: TyId,
        new_ty: TyId,
        cong: Seq<TyId>,
        done: Seq<TyId>,
    )
        requires
            self.wf(),
            self.tree().live(version),
            stash_before.wf(),
            stash.extends(stash_before),
            self.rebuild_progress(base, stash_before, version, cong, done),
            d.0 < stash_before.types().len(),
            new_ty.0 < stash.types().len(),
            self.find_spec(version, new_ty) == self.find_spec(version, d),
            ({
                let (skeleton, children) = decomposition(stash_before.types()[d.0 as int], stash_before.lists());
                decomposition(stash.types()[new_ty.0 as int], stash.lists()) == (
                    skeleton,
                    children.map_values(|c: TyId| self.find_spec(version, c)),
                )
            }),
        ensures
            self.rebuild_progress(base, stash, version, cong.push(d), done),
    {
        reveal(VersionedEGraph::rebuild_progress);
        crate::unify::lemma_coarser_same(self, self, version);
        self.lemma_congruent_keep(self, base, stash, stash_before, version, cong);
        self.lemma_rank_ok(version);
        crate::skeleton::lemma_decomposition_extends(stash, stash_before, d.0 as int);
        let cs = decomposition(stash_before.types()[d.0 as int], stash_before.lists()).1;
        let t_cs = decomposition(stash.types()[new_ty.0 as int], stash.lists()).1;
        assert forall|k: int| 0 <= k < cs.len() implies self.find_spec(version, #[trigger] t_cs[k]) == self.find_spec(
            version,
            cs[k],
        ) && base.find_spec(version, t_cs[k]) == t_cs[k] by {
            self.lemma_find_root(version, cs[k]);
            assert(t_cs[k] == self.find_spec(version, cs[k]));
        }
        assert(self.rebuilt_as(base, stash, version, d, new_ty));
        assert(self.congruent_after(base, stash, version, d));
        lemma_push_contains(cong, d);
    }

    proof fn lemma_progress_unchanged(
        &self,
        base: &Self,
        stash: &TyStore,
        stash_before: &TyStore,
        version: Version,
        d: TyId,
        cong: Seq<TyId>,
        done: Seq<TyId>,
    )
        requires
            self.wf(),
            self.tree().live(version),
            stash_before.wf(),
            stash.extends(stash_before),
            self.rebuild_progress(base, stash_before, version, cong, done),
            d.0 < stash_before.types().len(),
            ({
                let (skeleton, children) = decomposition(stash_before.types()[d.0 as int], stash_before.lists());
                let canonical = children.map_values(|c: TyId| self.find_spec(version, c));
                children.len() == 0 || canonical == children || stash_before.types().len() + 1 >= u32::MAX
                    || stash_before.lists().len() + 2 > u32::MAX
            }),
        ensures
            self.rebuild_progress(base, stash, version, cong.push(d), done),
    {
        reveal(VersionedEGraph::rebuild_progress);
        crate::unify::lemma_coarser_same(self, self, version);
        self.lemma_congruent_keep(self, base, stash, stash_before, version, cong);
        crate::skeleton::lemma_decomposition_extends(stash, stash_before, d.0 as int);
        let cs = decomposition(stash_before.types()[d.0 as int], stash_before.lists()).1;
        let canonical = cs.map_values(|c: TyId| self.find_spec(version, c));
        if cs.len() != 0 && canonical == cs && stash.types().len() + 1 < u32::MAX && stash.lists().len() + 2
            <= u32::MAX {
            assert forall|k: int| 0 <= k < cs.len() implies self.find_spec(version, #[trigger] cs[k])
                == self.find_spec(version, cs[k]) && base.find_spec(version, cs[k]) == cs[k] by {
                assert(canonical[k] == cs[k]);
                assert(self.find_spec(version, cs[k]) == cs[k]);
            }
            assert(self.rebuilt_as(base, stash, version, d, d));
        }
        assert(self.congruent_after(base, stash, version, d));
        lemma_push_contains(cong, d);
    }

    proof fn lemma_progress_done(
        &self,
        base: &Self,
        stash: &TyStore,
        version: Version,
        cong: Seq<TyId>,
        done: Seq<TyId>,
        merged: TyId,
        dependents: Seq<TyId>,
    )
        requires
            self.rebuild_progress(base, stash, version, cong, done),
            forall|p: TyId| #[trigger] dependents.contains(p) <==> base.dependents_spec(version, merged).contains(p),
            forall|q: int| 0 <= q < dependents.len() ==> cong.contains(#[trigger] dependents[q]),
        ensures
            self.rebuild_progress(base, stash, version, cong, done.push(merged)),
    {
        reveal(VersionedEGraph::rebuild_progress);
        lemma_push_contains(done, merged);
        assert forall|m2: TyId, d: TyId|
            #![trigger base.dependents_spec(version, m2).contains(d)]
            done.push(merged).contains(m2) && base.dependents_spec(version, m2).contains(d) implies cong.contains(d) by {
            if m2 == merged {
                assert(dependents.contains(d));
                let q = dependents.index_of(d);
                assert(cong.contains(dependents[q]));
            } else {
                assert(done.contains(m2));
            }
        }
    }

    proof fn lemma_progress_final(&self, base: &Self, stash: &TyStore, version: Version, cong: Seq<TyId>, done: Seq<TyId>)
        requires
            self.rebuild_progress(base, stash, version, cong, done),
        ensures
            forall|m: TyId, d: TyId|
                #![trigger base.dependents_spec(version, m).contains(d)]
                done.contains(m) && base.dependents_spec(version, m).contains(d) ==> self.congruent_after(
                    base,
                    stash,
                    version,
                    d,
                ),
    {
        reveal(VersionedEGraph::rebuild_progress);
        assert forall|m: TyId, d: TyId|
            #![trigger base.dependents_spec(version, m).contains(d)]
            done.contains(m) && base.dependents_spec(version, m).contains(d) implies self.congruent_after(
                base,
                stash,
                version,
                d,
            ) by {
            assert(cong.contains(d));
            let q = cong.index_of(d);
            assert(self.congruent_after(base, stash, version, cong[q]));
        }
    }

    /// The dependents seen from a version depend on the dependents logs alone.
    proof fn lemma_dependents_frame(&self, old: &Self, version: Version, ty: TyId)
        requires
            self.tree() == old.tree(),
            forall|a: Version| a.0 <= version.0 ==> #[trigger] self.state(a).dependents == old.state(a).dependents,
        ensures
            self.dependents_spec(version, ty) == old.dependents_spec(version, ty),
        decreases version.0,
    {
        assert(self.state(version).dependents == old.state(version).dependents);
        match self.tree().parent_of(version) {
            Some(up) => if up.0 < version.0 {
                self.lemma_dependents_frame(old, up, ty);
            },
            None => {},
        }
        assert(self.dependents_spec(version, ty) =~= old.dependents_spec(version, ty));
    }

    /// The frame every step of `rebuild` keeps: the version's parent log
    /// grows by one entry per changed type and its worklist may change;
    /// nothing else does.
    pub open spec fn rebuild_frame(
        &self,
        old: &Self,
        version: Version,
        changed: Seq<TyId>,
    ) -> bool {
        let ps = self.state(version).parents;
        let ops = old.state(version).parents;
        &&& self.tree() == old.tree()
        &&& self.placeholders() == old.placeholders()
        &&& self.others_unchanged(old, version)
        &&& self.state(version) == (StateView {
            parents: ps,
            worklist: self.state(version).worklist,
            ..old.state(version)
        })
        &&& ps.len() == ops.len() + changed.len()
        &&& forall|j: int| 0 <= j < ops.len() ==> #[trigger] ps[j] == ops[j]
    }

    /// Restore congruence after merges: the class of every type that
    /// depends on a merged class and whose children now have other
    /// representatives is merged into the class of its rebuilt form, until no
    /// merge is pending. Classes are only ever merged, never split. Returns
    /// the moved types in order. Once no merge is pending, every type that
    /// depends on a type that was pending or moved shares its class with its
    /// form over the representatives of its children.
    #[verifier::rlimit(80)]
    pub fn rebuild(&mut self, version: Version, stash: &mut TyStore) -> (changed: Vec<TyId>)
        requires
            old(self).wf(),
            old(self).mutable(version),
            old(stash).wf(),
            old(self).ids_below(old(stash).types().len()),
        ensures
            final(self).wf(),
            final(stash).wf(),
            final(stash).extends(old(stash)),
            forall|i: int|
                old(stash).types().len() <= i < final(stash).types().len() ==> !(
                #[trigger] final(stash).types()[i] is InferVar),
            final(self).ids_below(final(stash).types().len()),
            final(self).rebuild_frame(old(self), version, changed@),
            forall|v: Version, x: TyId|
                #![trigger final(self).find_spec(v, x)]
                old(self).tree().live(v) && v != version ==> final(self).find_spec(v, x) == old(
                    self,
                ).find_spec(v, x),
            final(self).state(version).worklist.len() == 0 || changed@.len() >= u64::MAX,
            crate::unify::coarser(final(self), old(self), version),
            final(self).state(version).worklist.len() == 0 ==> forall|m: TyId, d: TyId|
                #![trigger old(self).dependents_spec(version, m).contains(d)]
                (old(self).state(version).worklist.contains(m) || changed@.contains(m))
                    && old(self).dependents_spec(version, m).contains(d) ==> final(self).congruent_after(
                    old(self),
                    final(stash),
                    version,
                    d,
                ),
    {
        let ghost o = *self;
        let ghost os = *stash;
        proof {
            o.lemma_tree_wf();
            o.tree().lemma_live(version);
            crate::unify::lemma_coarser_same(&o, &o, version);
        }
        proof {
            self.lemma_state_index(version);
        }
        let i = version.0 as usize;
        let mut changed: Vec<TyId> = Vec::new();
        let mut rounds: u64 = 0;
        let ghost mut done: Seq<TyId> = Seq::empty();
        let ghost mut cong: Seq<TyId> = Seq::empty();
        assert(self.rebuild_progress(&o, stash, version, cong, done)) by {
            reveal(VersionedEGraph::rebuild_progress);
        }
        assert(covered(o.state(version).worklist, changed@, done, Seq::empty(), self.state(version).worklist)) by {
            reveal(covered);
        }
        proof {
            assert forall|w: Version|
                #![trigger self.state(w)]
                o.tree().is_known(w) && w != version implies {
                &&& self.state(w) == o.state(w)
                &&& self.rank(w) == o.rank(w)
                &&& self.rank_bound(w) == o.rank_bound(w)
            } by {}
            assert(self.state(version) =~= (StateView {
                parents: self.state(version).parents,
                worklist: self.state(version).worklist,
                ..o.state(version)
            }));
        }
        while rounds < u64::MAX
            invariant
                self.wf(),
                self.mutable(version),
                i == version.0,
                stash.wf(),
                stash.extends(&os),
                forall|i: int|
                    os.types().len() <= i < stash.types().len() ==> !(#[trigger] stash.types()[i] is InferVar),
                self.ids_below(stash.types().len()),
                self.rebuild_frame(&o, version, changed@),
                crate::unify::coarser(self, &o, version),
                o.wf(),
                o.tree().live(version),
                forall|v: Version, x: TyId|
                    #![trigger self.find_spec(v, x)]
                    o.tree().live(v) && v != version ==> self.find_spec(v, x) == o.find_spec(v, x),
                self.state(version).worklist.len() > 0 ==> rounds <= changed@.len(),
                rounds <= changed@.len() + 1,
                self.rebuild_progress(&o, stash, version, cong, done),
                covered(o.state(version).worklist, changed@, done, Seq::empty(), self.state(version).worklist),
            ensures
                self.state(version).worklist.len() == 0 || changed@.len() >= u64::MAX,
            decreases u64::MAX - rounds,
        {
            let ghost pending = self.state(version).worklist.len();
            let ghost round_start = changed@.len();
            let ghost rounds_before = rounds;
            proof {
                self.lemma_state_index(version);
            }
            let mut worklist: Vec<TyId> = Vec::new();
            let ghost before_take = *self;
            std::mem::swap(&mut worklist, &mut self.states[i].worklist);
            proof {
                assert forall|a: Version|
                    #![trigger self.state(a)]
                    before_take.tree().is_known(a) implies self.state(a).parents == before_take.state(a).parents
                    && self.rank(a) == before_take.rank(a) && self.rank_bound(a) == before_take.rank_bound(a) by {}
                assert forall|a: Version|
                    #![trigger self.tree().parent_of(a)]
                    before_take.tree().is_known(a) implies self.tree().parent_of(a) == before_take.tree().parent_of(a)
                    && self.tree().live(a) == before_take.tree().live(a) by {}
                self.lemma_wf_frame(&before_take);
                assert forall|w: Version|
                    #![trigger self.state(w)]
                    o.tree().is_known(w) && w != version implies {
                    &&& self.state(w) == o.state(w)
                    &&& self.rank(w) == o.rank(w)
                    &&& self.rank_bound(w) == o.rank_bound(w)
                } by {
                    assert(self.states@[w.0 as int] == before_take.states@[w.0 as int]);
                }
                assert(self.state(version) =~= (StateView {
                    parents: self.state(version).parents,
                    worklist: self.state(version).worklist,
                    ..o.state(version)
                }));
                let n = stash.types().len();
                before_take.tree().lemma_live(version);
                assert(before_take.tree().is_known(version));
                assert(state_ids_below(before_take.state(version), n));
                assert forall|w: Version| #[trigger] self.tree().is_known(w) implies state_ids_below(
                    self.state(w),
                    n,
                ) by {
                    assert(state_ids_below(before_take.state(w), n));
                    if w != version {
                        assert(self.states@[w.0 as int] == before_take.states@[w.0 as int]);
                    }
                }
                assert forall|j: int| 0 <= j < worklist@.len() implies (#[trigger] worklist@[j]).0 < n by {
                    assert(before_take.state(version).worklist[j] == worklist@[j]);
                }
                assert(self.state(version).worklist.len() == 0);
                assert(worklist@.len() == pending);
                assert forall|a: Version|
                    #![trigger self.state(a)]
                    before_take.tree().is_known(a) implies self.state(a).parents == before_take.state(a).parents by {}
                self.lemma_parents_same(&before_take, version);
                assert forall|y: TyId| #![trigger self.find_spec(version, y)]
                    self.find_spec(version, y) == self.find_spec(version, o.find_spec(version, y)) by {
                    self.lemma_find_same(&before_take, version, version, y);
                    self.lemma_find_same(&before_take, version, version, o.find_spec(version, y));
                }
                assert forall|y: TyId| #[trigger] self.find_spec(version, y) == before_take.find_spec(version, y) by {
                    self.lemma_find_same(&before_take, version, version, y);
                }
                self.lemma_progress_same(&before_take, &o, stash, version, cong, done);
                assert(worklist@ =~= before_take.state(version).worklist);
                assert(worklist@.subrange(0, worklist@.len() as int) =~= worklist@);
                assert(self.state(version).worklist =~= Seq::<TyId>::empty());
                lemma_covered_swap(
                    o.state(version).worklist,
                    changed@,
                    done,
                    before_take.state(version).worklist,
                    self.state(version).worklist,
                );
            }
            if worklist.len() == 0 {
                break;
            }
            rounds += 1;
            let mut j: usize = 0;
            while j < worklist.len()
                invariant
                    self.wf(),
                    self.mutable(version),
                    i == version.0,
                    stash.wf(),
                    stash.extends(&os),
                    forall|i: int|
                        os.types().len() <= i < stash.types().len() ==> !(#[trigger] stash.types()[i] is InferVar),
                    self.ids_below(stash.types().len()),
                    self.rebuild_frame(&o, version, changed@),
                    crate::unify::coarser(self, &o, version),
                    o.wf(),
                    o.tree().live(version),
                    forall|v: Version, x: TyId|
                        #![trigger self.find_spec(v, x)]
                        o.tree().live(v) && v != version ==> self.find_spec(v, x) == o.find_spec(v, x),
                    j <= worklist@.len(),
                    self.state(version).worklist.len() + round_start == changed@.len(),
                    rounds == rounds_before + 1,
                    worklist@.len() == pending,
                    pending > 0 ==> rounds_before <= round_start,
                    rounds_before <= round_start + 1,
                    pending > 0,
                    forall|m: int| 0 <= m < worklist@.len() ==> (#[trigger] worklist@[m]).0 < stash.types().len(),
                    self.rebuild_progress(&o, stash, version, cong, done),
                    covered(
                        o.state(version).worklist,
                        changed@,
                        done,
                        worklist@.subrange(j as int, worklist@.len() as int),
                        self.state(version).worklist,
                    ),
                decreases worklist@.len() - j,
            {
                let merged = worklist[j];
                let dependents = self.collect_dependents(version, merged);
                proof {
                    o.tree().lemma_live(version);
                    assert forall|a: Version| a.0 <= version.0 implies #[trigger] self.state(a).dependents
                        == o.state(a).dependents by {
                        if a != version {
                            assert(o.tree().is_known(a));
                        }
                    }
                    self.lemma_dependents_frame(&o, version, merged);
                }
                proof {
                    assert forall|m: int| 0 <= m < dependents@.len() implies (#[trigger] dependents@[m]).0
                        < stash.types().len() by {
                        assert(dependents@.contains(dependents@[m]));
                        self.lemma_dependents_below(version, merged, dependents@[m], stash.types().len());
                    }
                }
                let mut m: usize = 0;
                while m < dependents.len()
                    invariant
                        self.wf(),
                        self.mutable(version),
                        i == version.0,
                        stash.wf(),
                        stash.extends(&os),
                        forall|i: int|
                            os.types().len() <= i < stash.types().len() ==> !(#[trigger] stash.types()[i] is InferVar),
                        self.ids_below(stash.types().len()),
                        self.rebuild_frame(&o, version, changed@),
                        crate::unify::coarser(self, &o, version),
                        o.wf(),
                        o.tree().live(version),
                        forall|v: Version, x: TyId|
                            #![trigger self.find_spec(v, x)]
                            o.tree().live(v) && v != version ==> self.find_spec(v, x) == o.find_spec(v, x),
                        m <= dependents@.len(),
                        self.state(version).worklist.len() + round_start == changed@.len(),
                        rounds == rounds_before + 1,
                        worklist@.len() == pending,
                        pending > 0 ==> rounds_before <= round_start,
                        rounds_before <= round_start + 1,
                        pending > 0,
                        forall|q: int| 0 <= q < dependents@.len() ==> (#[trigger] dependents@[q]).0 < stash.types().len(),
                        j < worklist@.len(),
                        forall|q: int| 0 <= q < worklist@.len() ==> (#[trigger] worklist@[q]).0 < stash.types().len(),
                        merged == worklist@[j as int],
                        forall|p: TyId| #[trigger] dependents@.contains(p) <==> o.dependents_spec(version, merged).contains(p),
                        forall|q: int| 0 <= q < m ==> cong.contains(#[trigger] dependents@[q]),
                        self.rebuild_progress(&o, stash, version, cong, done),
                        covered(
                            o.state(version).worklist,
                            changed@,
                            done,
                            worklist@.subrange(j as int, worklist@.len() as int),
                            self.state(version).worklist,
                        ),
                    decreases dependents@.len() - m,
                {
                    let dependent = dependents[m];
                    let old_canonical = self.find(version, dependent);
                    let ghost stash_before = *stash;
                    let ghost iter_self = *self;
                    match self.recanonicalize(version, stash, dependent) {
                        Some(new_ty) => {
                            proof {
                                self.lemma_ids_below_mono(stash_before.types().len(), stash.types().len());
                                assert forall|i: int|
                                    os.types().len() <= i < stash.types().len() implies !(
                                    #[trigger] stash.types()[i] is InferVar) by {
                                    if i < stash_before.types().len() {
                                        assert(stash.types()[i] == stash_before.types()[i]);
                                    }
                                }
                            }
                            let new_canonical = self.find(version, new_ty);
                            if new_canonical != old_canonical {
                                let ghost before = *self;
                                let ghost n = stash.types().len();
                                proof {
                                    self.lemma_find_root(version, new_ty);
                                    self.lemma_find_root(version, dependent);
                                    if dependent == new_canonical {
                                        assert(self.find_spec(version, new_canonical) == new_canonical);
                                    }
                                    self.lemma_parent_below(version, new_ty, n);
                                    self.lemma_parent_below(version, dependent, n);
                                }
                                self.set_parent(version, old_canonical, new_canonical);
                                let ghost after_set = *self;
                                proof {
                                    before.lemma_rank_ok(version);
                                    assert forall|y: TyId| #[trigger] after_set.find_spec(version, y)
                                        == if before.find_spec(version, y) == old_canonical {
                                        new_canonical
                                    } else {
                                        before.find_spec(version, y)
                                    } by {
                                        before.lemma_root_reached(version, y, old_canonical);
                                    }
                                    crate::unify::lemma_coarser_merge(
                                        &after_set,
                                        &before,
                                        version,
                                        old_canonical,
                                        new_canonical,
                                    );
                                    crate::unify::lemma_coarser_trans(&after_set, &before, &o, version);
                                }
                                proof {
                                    self.lemma_state_index(version);
                                }
                                self.states[i].worklist.push(dependent);
                                let ghost changed_before = changed@;
                                changed.push(dependent);
                                proof {
                                    assert(self.state(version).worklist.len() == after_set.state(version).worklist.len() + 1);
                                    assert(after_set.state(version).worklist == before.state(version).worklist);
                                    assert forall|a: Version|
                                        #![trigger self.state(a)]
                                        after_set.tree().is_known(a) implies self.state(a).parents == after_set.state(a).parents
                                        && self.rank(a) == after_set.rank(a) && self.rank_bound(a) == after_set.rank_bound(a) by {}
                                    assert forall|a: Version|
                                        #![trigger self.tree().parent_of(a)]
                                        after_set.tree().is_known(a) implies self.tree().parent_of(a) == after_set.tree().parent_of(a)
                                        && self.tree().live(a) == after_set.tree().live(a) by {}
                                    self.lemma_wf_frame(&after_set);
                                    assert forall|w: Version|
                                        #![trigger self.state(w)]
                                        after_set.tree().is_known(w) && w != version implies {
                                        &&& self.state(w) == after_set.state(w)
                                        &&& self.rank(w) == after_set.rank(w)
                                        &&& self.rank_bound(w) == after_set.rank_bound(w)
                                    } by {}
                                    self.lemma_others_trans(&after_set, &before, version);
                                    self.lemma_others_trans(&before, &o, version);
                                    let ps = self.state(version).parents;
                                    let bps = before.state(version).parents;
                                    let ops = o.state(version).parents;
                                    assert(ps == bps.push((old_canonical, new_canonical)));
                                    assert forall|q: int| 0 <= q < ops.len() implies #[trigger] ps[q] == ops[q] by {
                                        assert(bps[q] == ops[q]);
                                    }
                                    self.lemma_parents_same(&after_set, version);
                                    assert forall|y: TyId| #![trigger self.find_spec(version, y)]
                                        self.find_spec(version, y) == self.find_spec(version, o.find_spec(version, y)) by {
                                        self.lemma_find_same(&after_set, version, version, y);
                                        self.lemma_find_same(&after_set, version, version, o.find_spec(version, y));
                                    }
                                    assert(self.state(version) =~= (StateView {
                                        parents: ps,
                                        worklist: self.state(version).worklist,
                                        ..o.state(version)
                                    }));
                                    assert forall|w: Version| #[trigger] self.tree().is_known(w) implies state_ids_below(
                                        self.state(w),
                                        n,
                                    ) by {
                                        assert(state_ids_below(after_set.state(w), n));
                                        if w == version {
                                            let wl = self.state(w).worklist;
                                            assert forall|q: int| 0 <= q < wl.len() implies (#[trigger] wl[q]).0 < n by {
                                                if q < wl.len() - 1 {
                                                    assert(wl[q] == after_set.state(w).worklist[q]);
                                                }
                                            }
                                            assert(self.state(w).parents == after_set.state(w).parents);
                                            assert(self.state(w).bounds == after_set.state(w).bounds);
                                            assert(self.state(w).dependents == after_set.state(w).dependents);
                                        } else {
                                            assert(self.state(w) == after_set.state(w));
                                        }
                                    }
                                    assert forall|v: Version, x: TyId|
                                        #![trigger self.find_spec(v, x)]
                                        o.tree().live(v) && v != version implies self.find_spec(v, x) == o.find_spec(v, x) by {
                                        assert(before.find_spec(v, x) == o.find_spec(v, x));
                                        self.lemma_view_frame(&after_set, version, v);
                                        assert(after_set.find_spec(v, x) == before.find_spec(v, x));
                                    }
                                }
                                proof {
                                    assert(before == iter_self);
                                    assert forall|y: TyId| #[trigger] self.find_spec(version, y) == after_set.find_spec(version, y) by {
                                        self.lemma_find_same(&after_set, version, version, y);
                                    }
                                    self.lemma_progress_moved(
                                        &before,
                                        &after_set,
                                        &o,
                                        stash,
                                        &stash_before,
                                        version,
                                        dependent,
                                        new_ty,
                                        old_canonical,
                                        new_canonical,
                                        cong,
                                        done,
                                    );
                                    assert(self.state(version).worklist == after_set.state(version).worklist.push(dependent));
                                    assert(after_set.state(version).worklist == iter_self.state(version).worklist);
                                    lemma_covered_push(
                                        o.state(version).worklist,
                                        changed_before,
                                        done,
                                        worklist@.subrange(j as int, worklist@.len() as int),
                                        iter_self.state(version).worklist,
                                        dependent,
                                    );
                                }
                            } else {
                                proof {
                                    self.lemma_progress_kept(&o, stash, &stash_before, version, dependent, new_ty, cong, done);
                                }
                            }
                        },
                        None => {
                            proof {
                                self.lemma_progress_unchanged(&o, stash, &stash_before, version, dependent, cong, done);
                            }
                        },
                    }
                    proof {
                        lemma_push_contains(cong, dependent);
                        cong = cong.push(dependent);
                    }
                    m += 1;
                }
                proof {
                    self.lemma_progress_done(&o, stash, version, cong, done, merged, dependents@);
                    lemma_covered_advance(
                        o.state(version).worklist,
                        changed@,
                        done,
                        worklist@.subrange(j as int, worklist@.len() as int),
                        self.state(version).worklist,
                    );
                    assert(worklist@.subrange(j as int, worklist@.len() as int).drop_first() =~= worklist@.subrange(
                        j + 1,
                        worklist@.len() as int,
                    ));
                    done = done.push(merged);
                    if j + 1 == worklist@.len() {
                        assert(worklist@.subrange(j + 1, worklist@.len() as int) =~= Seq::<TyId>::empty());
                    }
                }
                j += 1;
            }
            proof {
                assert(worklist@.subrange(j as int, worklist@.len() as int) =~= Seq::<TyId>::empty());
            }
        }
        proof {
            if self.state(version).worklist.len() == 0 {
                assert(self.state(version).worklist =~= Seq::<TyId>::empty());
                lemma_covered_final(o.state(version).worklist, changed@, done);
                self.lemma_progress_final(&o, stash, version, cong, done);
            }
        }
        changed
    }

    /// The bound of a recorded type names a type below any bound of the
    /// recorded identities.
    pub proof fn lemma_bound_below(&self, version: Version, x: TyId, n: nat)
        requires
            self.wf(),
            self.tree().live(version),
            self.ids_below(n),
        ensures
            self.bound_spec(version, x).spec_ty() matches Some(t) ==> t.0 < n,
        decreases version.0,
    {
        self.tree().lemma_live(version);
        assert(state_ids_below(self.state(version), n));
        self.lemma_bound_log_below(self.state(version).bounds, x, n);
        match self.tree().parent_of(version) {
            Some(up) => {
                self.lemma_bound_below(up, x, n);
            },
            None => {},
        }
    }

    proof fn lemma_bound_log_below(&self, log: Seq<(TyId, Bound)>, x: TyId, n: nat)
        requires
            forall|j: int|
                0 <= j < log.len() ==> match (#[trigger] log[j]).1.spec_ty() {
                    Some(t) => t.0 < n,
                    None => true,
                },
        ensures
            log_get(log, x) matches Some(b) ==> (b.spec_ty() matches Some(t) ==> t.0 < n),
        decreases log.len(),
    {
        if log.len() > 0 {
            assert(log.last() == log[log.len() - 1]);
            self.lemma_bound_log_below(log.drop_last(), x, n);
        }
    }

    /// Identities below `n` have representatives below `n`.
    pub proof fn lemma_find_below(&self, version: Version, x: TyId, n: nat)
        requires
            self.wf(),
            self.tree().live(version),
            self.ids_below(n),
            x.0 < n,
        ensures
            self.find_spec(version, x).0 < n,
    {
        self.lemma_parent_below(version, x, n);
    }

    /// The tree of a well-formed egraph is well formed.
    pub proof fn lemma_tree_wf(&self)
        requires
            self.wf(),
        ensures
            self.tree().wf(),
    {
    }

    /// Every live version of a well-formed egraph has valid ranks.
    pub proof fn lemma_rank_ok(&self, version: Version)
        requires
            self.wf(),
            self.tree().live(version),
        ensures
            self.rank_ok(version),
    {
    }

    /// The bounds and universes a version sees are determined by the bound
    /// and ceiling logs on its path to the root.
    pub proof fn lemma_bound_views_agree(&self, old: &Self, w: Version)
        requires
            old.wf(),
            old.tree().live(w),
            forall|a: Version|
                #![trigger old.tree().ancestor(a, w)]
                old.tree().ancestor(a, w) ==> self.state(a).bounds == old.state(a).bounds
                    && self.state(a).universe_ceilings == old.state(a).universe_ceilings
                    && self.tree().parent_of(a) == old.tree().parent_of(a),
        ensures
            forall|x: TyId| #[trigger] self.eff_bound(w, x) == old.eff_bound(w, x),
            forall|i: InferVarIndex| #[trigger] self.eff_ceiling(w, i) == old.eff_ceiling(w, i),
        decreases w.0,
    {
        old.tree().lemma_live(w);
        old.tree().lemma_ancestor_refl(w);
        match old.tree().parent_of(w) {
            Some(up) => {
                old.tree().lemma_parent_is_ancestor(w);
                assert forall|a: Version| #[trigger] old.tree().ancestor(a, up) implies self.state(a).bounds
                    == old.state(a).bounds && self.state(a).universe_ceilings == old.state(a).universe_ceilings
                    && self.tree().parent_of(a) == old.tree().parent_of(a) by {
                    old.tree().lemma_ancestor_trans(a, up, w);
                }
                self.lemma_bound_views_agree(old, up);
            },
            None => {},
        }
        assert forall|x: TyId| #[trigger] self.eff_bound(w, x) == old.eff_bound(w, x) by {
            match old.tree().parent_of(w) {
                Some(up) => {
                    assert(self.eff_bound(up, x) == old.eff_bound(up, x));
                },
                None => {},
            }
        }
        assert forall|i: InferVarIndex| #[trigger] self.eff_ceiling(w, i) == old.eff_ceiling(w, i) by {
            match old.tree().parent_of(w) {
                Some(up) => {
                    assert(self.eff_ceiling(up, i) == old.eff_ceiling(up, i));
                },
                None => {},
            }
        }
    }

    /// A version with a live child is a frozen snapshot: no mutation of it
    /// is allowed until the child is committed or discarded.
    pub proof fn law_parent_with_live_child_is_frozen(&self, version: Version, child: Version)
        requires
            self.wf(),
            self.tree().live(child),
            self.tree().parent_of(child) == Some(version),
        ensures
            !self.mutable(version),
    {
        self.tree().lemma_live(child);
    }

    /// A live version's state index is in range.
    proof fn lemma_state_index(&self, version: Version)
        requires
            self.wf(),
            self.tree().live(version),
        ensures
            version.0 < self.states@.len(),
    {
        self.tree().lemma_live(version);
    }
}

impl Default for VersionedEGraph {
    fn default() -> (egraph: Self)
        ensures
            egraph.wf(),
            egraph.tree().num_versions() == 1,
            egraph.tree().live(Version::root()),
            egraph.tree().children_of(Version::root()) == Seq::<Version>::empty(),
            egraph.tree().vars() == Seq::<VarInfo>::empty(),
            egraph.state(Version::root()) == StateView::empty(0),
            egraph.placeholders() == Seq::<(GenericParam, Universe)>::empty(),
    {
        Self::new()
    }
}

} // verus!
