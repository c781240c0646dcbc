use vstd::prelude::*;

use crate::ty::InferVarIndex;

verus! {

/// Stable version-tree node identifier.
///
/// Version identities are append-only for the lifetime of an egraph. A removed
/// version is never reused, which makes stale branch handles reliably invalid.
#[derive(Copy, Clone, Debug, PartialEq, Eq, Structural, Hash, PartialOrd, Ord)]
pub struct Version(pub u32);

impl Version {
    /// The root version, created with every tree.
    pub open spec fn root() -> Version {
        Version(0)
    }
}

/// Scope depth. A variable at universe `U` cannot name a rigid placeholder
/// from a universe greater than `U`.
#[derive(Copy, Clone, Debug, PartialEq, Eq, Structural, Hash, PartialOrd, Ord)]
pub struct Universe(pub u32);

impl Universe {
    /// The outermost universe.
    pub open spec fn root() -> Universe {
        Universe(0)
    }
}

/// Immutable metadata for one globally unique inference variable.
#[derive(Copy, Clone, Debug, PartialEq, Eq, Structural)]
pub struct VarInfo {
    pub owner: Version,
    pub creation_universe: Universe,
}

/// A node in the version tree.
#[derive(Debug)]
pub struct VersionNode {
    parent: Option<Version>,
    children: Vec<Version>,
    owned_variables: Vec<InferVarIndex>,
    removed: bool,
}

impl VersionNode {
    fn root() -> (node: Self)
        ensures
            node.parent is None,
            node.children@ == Seq::<Version>::empty(),
            node.owned_variables@ == Seq::<InferVarIndex>::empty(),
            !node.removed,
    {
        Self { parent: None, children: Vec::new(), owned_variables: Vec::new(), removed: false }
    }

    fn child(parent: Version) -> (node: Self)
        ensures
            node.parent == Some(parent),
            node.children@ == Seq::<Version>::empty(),
            node.owned_variables@ == Seq::<InferVarIndex>::empty(),
            !node.removed,
    {
        Self {
            parent: Some(parent),
            children: Vec::new(),
            owned_variables: Vec::new(),
            removed: false,
        }
    }
}

/// The append-only version tree and global inference-variable identity table.
#[derive(Debug)]
pub struct VersionTree {
    nodes: Vec<VersionNode>,
    variables: Vec<VarInfo>,
}

impl VersionTree {
    // -----------------------------------------------------------------------
    // Abstract model
    // -----------------------------------------------------------------------
    /// Number of version identities ever created (live or tombstoned).
    pub closed spec fn num_versions(&self) -> nat {
        self.nodes@.len()
    }

    /// `version` names a node that was created at some point.
    pub open spec fn is_known(&self, version: Version) -> bool {
        version.0 < self.num_versions()
    }

    /// `version` names a node that has not been removed.
    pub closed spec fn live(&self, version: Version) -> bool {
        version.0 < self.nodes@.len() && !self.nodes@[version.0 as int].removed
    }

    /// The parent recorded for `version` (kept after removal).
    pub closed spec fn parent_of(&self, version: Version) -> Option<Version> {
        self.nodes@[version.0 as int].parent
    }

    /// The live children of `version`, in creation order.
    pub closed spec fn children_of(&self, version: Version) -> Seq<Version> {
        self.nodes@[version.0 as int].children@
    }

    /// The variables currently owned by `version`, in ownership order.
    pub closed spec fn owned_by(&self, version: Version) -> Seq<InferVarIndex> {
        self.nodes@[version.0 as int].owned_variables@
    }

    /// Metadata of every variable ever allocated, indexed by variable id.
    pub closed spec fn vars(&self) -> Seq<VarInfo> {
        self.variables@
    }

    /// `ancestor` is `version` itself or lies on its parent chain.
    pub closed spec fn ancestor(&self, ancestor: Version, version: Version) -> bool
        decreases version.0,
    {
        if ancestor == version {
            true
        } else if version.0 < self.nodes@.len() {
            match self.nodes@[version.0 as int].parent {
                Some(p) => if p.0 < version.0 {
                    self.ancestor(ancestor, p)
                } else {
                    false
                },
                None => false,
            }
        } else {
            false
        }
    }

    /// Post-order listing of the subtree of `version`, starting at its
    /// `k`-th child: every child subtree in order, then `version` itself.
    pub closed spec fn post(&self, version: Version, k: nat) -> Seq<Version>
        decreases self.num_versions() - version.0, self.children_of(version).len() - k,
    {
        if version.0 >= self.nodes@.len() || k >= self.children_of(version).len() {
            seq![version]
        } else {
            let c = self.children_of(version)[k as int];
            if version.0 < c.0 && c.0 < self.nodes@.len() {
                self.post(c, 0) + self.post(version, k + 1)
            } else {
                self.post(version, k + 1)
            }
        }
    }

    /// The subtree of `version` in post order.
    pub open spec fn subtree(&self, version: Version) -> Seq<Version> {
        self.post(version, 0)
    }

    /// Variable `i` is visible from `version`: its owner is live and an
    /// ancestor of `version`.
    pub open spec fn visible(&self, version: Version, i: int) -> bool {
        0 <= i < self.vars().len() && self.live(self.vars()[i].owner) && self.ancestor(
            self.vars()[i].owner,
            version,
        )
    }

    /// Tree well-formedness.
    pub closed spec fn wf(&self) -> bool {
        let n = self.nodes@;
        &&& 1 <= n.len() <= u32::MAX as nat + 1
        &&& n[0].parent is None
        &&& !n[0].removed
        &&& forall|i: int|
            1 <= i < n.len() ==> (#[trigger] n[i]).parent is Some && (n[i].parent->0).0 < i
        &&& forall|i: int|
            1 <= i < n.len() && !(#[trigger] n[i]).removed ==> !n[(n[i].parent->0).0 as int].removed
        &&& forall|i: int| 0 <= i < n.len() && (#[trigger] n[i]).removed ==> n[i].children@.len() == 0
        &&& forall|i: int, j: int|
            0 <= i < n.len() && 0 <= j < (#[trigger] n[i]).children@.len() ==> {
                let c = #[trigger] n[i].children@[j];
                &&& c.0 < n.len()
                &&& n[c.0 as int].parent == Some(Version(i as u32))
                &&& !n[c.0 as int].removed
            }
        &&& forall|i: int|
            1 <= i < n.len() && !(#[trigger] n[i]).removed ==> n[(n[i].parent->0).0 as int].children@.contains(
                Version(i as u32),
            )
        &&& forall|i: int| 0 <= i < n.len() ==> (#[trigger] n[i]).children@.no_duplicates()
        &&& self.variables@.len() <= u32::MAX as nat + 1
        &&& forall|k: int|
            0 <= k < self.variables@.len() ==> {
                let owner = (#[trigger] self.variables@[k]).owner;
                &&& owner.0 < n.len()
                &&& n[owner.0 as int].owned_variables@.contains(InferVarIndex(k as u32))
            }
        &&& forall|i: int, j: int|
            0 <= i < n.len() && 0 <= j < (#[trigger] n[i]).owned_variables@.len() ==> {
                let x = #[trigger] n[i].owned_variables@[j];
                &&& x.0 < self.variables@.len()
                &&& self.variables@[x.0 as int].owner == Version(i as u32)
            }
        &&& forall|i: int| 0 <= i < n.len() ==> (#[trigger] n[i]).owned_variables@.no_duplicates()
    }

    // -----------------------------------------------------------------------
    // Lemmas about the model
    // -----------------------------------------------------------------------
    /// In a well-formed tree, the root is live and has no parent.
    pub proof fn lemma_root(&self)
        requires
            self.wf(),
        ensures
            self.live(Version::root()),
            self.parent_of(Version::root()) is None,
            self.num_versions() >= 1,
    {
    }

    /// Facts about a live version: its parent is live, and it is listed among
    /// its parent's children.
    pub proof fn lemma_live(&self, v: Version)
        requires
            self.wf(),
            self.live(v),
        ensures
            self.is_known(v),
            v.0 == 0 <==> self.parent_of(v) is None,
            self.parent_of(v) is Some ==> {
                let p = self.parent_of(v)->0;
                &&& p.0 < v.0
                &&& self.live(p)
                &&& self.children_of(p).contains(v)
            },
            forall|j: int|
                0 <= j < self.children_of(v).len() ==> {
                    let c = #[trigger] self.children_of(v)[j];
                    &&& self.live(c)
                    &&& self.parent_of(c) == Some(v)
                    &&& v.0 < c.0
                },
            self.children_of(v).no_duplicates(),
    {
        let n = self.nodes@;
        if v.0 > 0 {
            assert(n[v.0 as int].parent is Some);
        }
        assert forall|j: int| 0 <= j < self.children_of(v).len() implies {
            let c = #[trigger] self.children_of(v)[j];
            &&& self.live(c)
            &&& self.parent_of(c) == Some(v)
            &&& v.0 < c.0
        } by {
            let c = n[v.0 as int].children@[j];
            assert(n[c.0 as int].parent == Some(Version(v.0 as u32)));
            if c.0 == 0 {
            } else {
                assert((n[c.0 as int].parent->0).0 < c.0);
            }
        }
    }

    /// Every version is its own ancestor.
    pub proof fn lemma_ancestor_refl(&self, v: Version)
        ensures
            self.ancestor(v, v),
    {
    }

    /// The parent of a live version is its ancestor.
    pub proof fn lemma_parent_is_ancestor(&self, v: Version)
        requires
            self.wf(),
            self.live(v),
            self.parent_of(v) is Some,
        ensures
            self.ancestor(self.parent_of(v)->0, v),
    {
        self.lemma_live(v);
        let p = self.parent_of(v)->0;
        assert(self.ancestor(p, p));
    }

    /// A proper ancestor of a live version is reached through one of its
    /// children.
    pub proof fn lemma_ancestor_via_child(&self, a: Version, v: Version) -> (j: int)
        requires
            self.wf(),
            self.live(v),
            self.ancestor(a, v),
            a != v,
        ensures
            0 <= j < self.children_of(a).len(),
            self.ancestor(self.children_of(a)[j], v),
        decreases v.0,
    {
        self.lemma_live(v);
        let p = self.parent_of(v)->0;
        if p == a {
            let j = self.children_of(a).index_of(v);
            assert(self.ancestor(v, v));
            j
        } else {
            let j = self.lemma_ancestor_via_child(a, p);
            let c = self.children_of(a)[j];
            self.lemma_parent_is_ancestor(v);
            self.lemma_ancestor_trans(c, p, v);
            j
        }
    }

    /// The subtree of a leaf is the leaf itself.
    pub proof fn lemma_leaf_subtree(&self, v: Version)
        requires
            self.children_of(v).len() == 0,
        ensures
            self.subtree(v) == seq![v],
    {
    }

    /// A proper ancestor of a live version has at least one child.
    pub proof fn lemma_ancestor_has_child(&self, a: Version, v: Version)
        requires
            self.wf(),
            self.live(v),
            self.ancestor(a, v),
            a != v,
        ensures
            self.children_of(a).len() > 0,
        decreases v.0,
    {
        self.lemma_live(v);
        let p = self.parent_of(v)->0;
        if p == a {
            assert(self.children_of(a).contains(v));
        } else {
            self.lemma_ancestor_has_child(a, p);
        }
    }

    /// Every ancestor of a live version is live and has an id no larger.
    pub proof fn lemma_ancestor_live(&self, a: Version, v: Version)
        requires
            self.wf(),
            self.live(v),
            self.ancestor(a, v),
        ensures
            self.live(a),
            a.0 <= v.0,
        decreases v.0,
    {
        if a != v {
            self.lemma_live(v);
            let p = self.parent_of(v)->0;
            self.lemma_ancestor_live(a, p);
        }
    }

    /// The root is an ancestor of every live version.
    pub proof fn lemma_root_ancestor(&self, v: Version)
        requires
            self.wf(),
            self.live(v),
        ensures
            self.ancestor(Version::root(), v),
        decreases v.0,
    {
        if v.0 != 0 {
            self.lemma_live(v);
            let p = self.parent_of(v)->0;
            self.lemma_root_ancestor(p);
        }
    }

    /// Ancestry is transitive.
    pub proof fn lemma_ancestor_trans(&self, a: Version, b: Version, c: Version)
        requires
            self.ancestor(a, b),
            self.ancestor(b, c),
        ensures
            self.ancestor(a, c),
        decreases c.0,
    {
        if b != c {
            let p = self.nodes@[c.0 as int].parent->0;
            self.lemma_ancestor_trans(a, b, p);
        }
    }

    // -----------------------------------------------------------------------
    // Operations
    // -----------------------------------------------------------------------
    pub fn new() -> (tree: Self)
        ensures
            tree.wf(),
            tree.num_versions() == 1,
            tree.live(Version::root()),
            tree.parent_of(Version::root()) is None,
            tree.children_of(Version::root()) == Seq::<Version>::empty(),
            tree.owned_by(Version::root()) == Seq::<InferVarIndex>::empty(),
            tree.vars() == Seq::<VarInfo>::empty(),
    {
        let mut nodes = Vec::new();
        nodes.push(VersionNode::root());
        Self { nodes, variables: Vec::new() }
    }

    pub fn root(&self) -> (root: Version)
        ensures
            root == Version::root(),
    {
        Version(0)
    }

    pub fn is_live(&self, version: Version) -> (live: bool)
        ensures
            live == self.live(version),
    {
        let i = version.0 as usize;
        i < self.nodes.len() && !self.nodes[i].removed
    }

    pub fn assert_live(&self, version: Version)
        requires
            self.live(version),
    {
    }

    pub fn is_leaf(&self, version: Version) -> (leaf: bool)
        requires
            self.live(version),
        ensures
            leaf == (self.children_of(version).len() == 0),
    {
        self.nodes[version.0 as usize].children.len() == 0
    }

    pub fn parent(&self, version: Version) -> (parent: Option<Version>)
        requires
            self.live(version),
        ensures
            parent == self.parent_of(version),
    {
        self.nodes[version.0 as usize].parent
    }

    pub fn children(&self, version: Version) -> (children: &[Version])
        requires
            self.live(version),
        ensures
            children@ == self.children_of(version),
    {
        self.nodes[version.0 as usize].children.as_slice()
    }

    pub fn is_ancestor(&self, ancestor: Version, start: Version) -> (is_ancestor: bool)
        requires
            self.wf(),
            self.live(ancestor),
            self.live(start),
        ensures
            is_ancestor == self.ancestor(ancestor, start),
    {
        let mut version = start;
        loop
            invariant
                self.wf(),
                self.live(version),
                self.ancestor(ancestor, version) == self.ancestor(ancestor, start),
            decreases version.0,
        {
            if ancestor == version {
                return true;
            }
            proof {
                self.lemma_live(version);
            }
            match self.nodes[version.0 as usize].parent {
                Some(parent) => {
                    version = parent;
                },
                None => {
                    return false;
                },
            }
        }
    }

    /// Create a child version branching from the specified parent.
    pub fn branch_from(&mut self, parent: Version) -> (child: Version)
        requires
            old(self).wf(),
            old(self).live(parent),
            old(self).num_versions() <= u32::MAX,
        ensures
            keeps_dead(&*final(self), &*old(self)),
            final(self).wf(),
            child.0 == old(self).num_versions(),
            forall|v: Version| old(self).is_known(v) ==> child != v,
            final(self).num_versions() == old(self).num_versions() + 1,
            final(self).live(child),
            final(self).parent_of(child) == Some(parent),
            final(self).children_of(child) == Seq::<Version>::empty(),
            final(self).owned_by(child) == Seq::<InferVarIndex>::empty(),
            final(self).children_of(parent) == old(self).children_of(parent).push(child),
            final(self).vars() == old(self).vars(),
            forall|v: Version|
                #![trigger final(self).live(v)]
                old(self).is_known(v) ==> {
                    &&& final(self).live(v) == old(self).live(v)
                    &&& final(self).parent_of(v) == old(self).parent_of(v)
                    &&& final(self).owned_by(v) == old(self).owned_by(v)
                    &&& v != parent ==> final(self).children_of(v) == old(self).children_of(v)
                },
            forall|a: Version, v: Version|
                old(self).is_known(v) ==> #[trigger] final(self).ancestor(a, v) == old(
                    self,
                ).ancestor(a, v),
    {
        let ghost old_tree = *self;
        let child = Version(self.nodes.len() as u32);
        self.nodes.push(VersionNode::child(parent));
        self.nodes[parent.0 as usize].children.push(child);
        proof {
            let n = self.nodes@;
            let o = old_tree.nodes@;
            assert forall|i: int| 0 <= i < o.len() implies !(#[trigger] o[i]).children@.contains(
                child,
            ) by {
                if o[i].children@.contains(child) {
                    let j = o[i].children@.index_of(child);
                    assert(o[i].children@[j].0 < o.len());
                }
            }
            assert forall|i: int| 0 <= i < n.len() implies (#[trigger] n[i]).children@.no_duplicates() by {
                if i == parent.0 {
                    assert(!o[i].children@.contains(child));
                }
            }
            assert forall|i: int, j: int|
                0 <= i < n.len() && 0 <= j < (#[trigger] n[i]).children@.len() implies {
                let c = #[trigger] n[i].children@[j];
                &&& c.0 < n.len()
                &&& n[c.0 as int].parent == Some(Version(i as u32))
                &&& !n[c.0 as int].removed
            } by {
                if i == parent.0 && j == o[i].children@.len() {
                } else {
                    assert(o[i].children@[j] == n[i].children@[j]);
                }
            }
            assert forall|i: int|
                1 <= i < n.len() && !(#[trigger] n[i]).removed implies n[(n[i].parent->0).0 as int].children@.contains(
                Version(i as u32),
            ) by {
                if i == child.0 {
                    assert(n[parent.0 as int].children@.last() == child);
                } else {
                    let c = Version(i as u32);
                    let p = (o[i].parent->0).0 as int;
                    let j = o[p].children@.index_of(c);
                    if p == parent.0 {
                        assert(n[p].children@[j] == c);
                    }
                }
            }
            assert forall|k: int| 0 <= k < self.variables@.len() implies {
                let owner = (#[trigger] self.variables@[k]).owner;
                &&& owner.0 < n.len()
                &&& n[owner.0 as int].owned_variables@.contains(InferVarIndex(k as u32))
            } by {
                let owner = self.variables@[k].owner;
                assert(o[owner.0 as int].owned_variables@.contains(InferVarIndex(k as u32)));
            }
            assert forall|a: Version, v: Version| old_tree.is_known(v) implies #[trigger] self.ancestor(
                a,
                v,
            ) == old_tree.ancestor(a, v) by {
                self.lemma_ancestor_frame(old_tree, a, v);
            }
        }
        child
    }

    /// Ancestry among previously known versions is unchanged when the parent
    /// pointers of those versions are unchanged.
    proof fn lemma_ancestor_frame(&self, other: Self, a: Version, v: Version)
        requires
            other.is_known(v),
            other.num_versions() <= self.num_versions(),
            forall|i: int|
                0 <= i < other.nodes@.len() ==> (#[trigger] self.nodes@[i]).parent
                    == other.nodes@[i].parent,
        ensures
            self.ancestor(a, v) == other.ancestor(a, v),
        decreases v.0,
    {
        assert(self.nodes@[v.0 as int].parent == other.nodes@[v.0 as int].parent);
        if a != v {
            match other.nodes@[v.0 as int].parent {
                Some(p) => {
                    if p.0 < v.0 {
                        self.lemma_ancestor_frame(other, a, p);
                    }
                },
                None => {},
            }
        }
    }

    /// Allocate a globally unique variable owned by a leaf version.
    pub fn alloc_var(&mut self, version: Version, creation_universe: Universe) -> (index:
        InferVarIndex)
        requires
            old(self).wf(),
            old(self).live(version),
            old(self).children_of(version).len() == 0,
            old(self).vars().len() <= u32::MAX,
        ensures
            keeps_dead(&*final(self), &*old(self)),
            final(self).wf(),
            index.0 == old(self).vars().len(),
            final(self).vars() == old(self).vars().push(
                VarInfo { owner: version, creation_universe },
            ),
            final(self).owned_by(version) == old(self).owned_by(version).push(index),
            final(self).num_versions() == old(self).num_versions(),
            forall|v: Version|
                #![trigger final(self).live(v)]
                old(self).is_known(v) ==> {
                    &&& final(self).live(v) == old(self).live(v)
                    &&& final(self).parent_of(v) == old(self).parent_of(v)
                    &&& final(self).children_of(v) == old(self).children_of(v)
                    &&& v != version ==> final(self).owned_by(v) == old(self).owned_by(v)
                },
            forall|a: Version, v: Version| #[trigger]
                final(self).ancestor(a, v) == old(self).ancestor(a, v),
    {
        let ghost old_tree = *self;
        let index = InferVarIndex(self.variables.len() as u32);
        self.variables.push(VarInfo { owner: version, creation_universe });
        self.nodes[version.0 as usize].owned_variables.push(index);
        proof {
            let n = self.nodes@;
            let o = old_tree.nodes@;
            assert forall|i: int| 0 <= i < o.len() implies !(
            #[trigger] o[i]).owned_variables@.contains(index) by {
                if o[i].owned_variables@.contains(index) {
                    let j = o[i].owned_variables@.index_of(index);
                    assert(o[i].owned_variables@[j].0 < old_tree.variables@.len());
                }
            }
            assert forall|i: int| 0 <= i < n.len() implies (
            #[trigger] n[i]).owned_variables@.no_duplicates() by {
                if i == version.0 {
                    assert(!o[i].owned_variables@.contains(index));
                }
            }
            assert forall|k: int| 0 <= k < self.variables@.len() implies {
                let owner = (#[trigger] self.variables@[k]).owner;
                &&& owner.0 < n.len()
                &&& n[owner.0 as int].owned_variables@.contains(InferVarIndex(k as u32))
            } by {
                let owner = self.variables@[k].owner;
                if k == index.0 {
                    assert(n[version.0 as int].owned_variables@.last() == index);
                } else {
                    let j = o[owner.0 as int].owned_variables@.index_of(InferVarIndex(k as u32));
                    assert(n[owner.0 as int].owned_variables@[j] == InferVarIndex(k as u32));
                }
            }
            assert forall|i: int, j: int|
                0 <= i < n.len() && 0 <= j < (#[trigger] n[i]).owned_variables@.len() implies {
                let x = #[trigger] n[i].owned_variables@[j];
                &&& x.0 < self.variables@.len()
                &&& self.variables@[x.0 as int].owner == Version(i as u32)
            } by {
                if i == version.0 && j == o[i].owned_variables@.len() {
                } else {
                    assert(n[i].owned_variables@[j] == o[i].owned_variables@[j]);
                }
            }
            assert forall|a: Version, v: Version| #[trigger]
                self.ancestor(a, v) == old_tree.ancestor(a, v) by {
                self.lemma_ancestor_same_parents(old_tree, a, v);
            }
        }
        index
    }

    /// Ancestry depends only on parent pointers.
    proof fn lemma_ancestor_same_parents(&self, other: Self, a: Version, v: Version)
        requires
            other.nodes@.len() == self.nodes@.len(),
            forall|i: int|
                0 <= i < other.nodes@.len() ==> (#[trigger] self.nodes@[i]).parent
                    == other.nodes@[i].parent,
        ensures
            self.ancestor(a, v) == other.ancestor(a, v),
        decreases v.0,
    {
        if a != v && v.0 < self.nodes@.len() {
            assert(self.nodes@[v.0 as int].parent == other.nodes@[v.0 as int].parent);
            match other.nodes@[v.0 as int].parent {
                Some(p) => {
                    if p.0 < v.0 {
                        self.lemma_ancestor_same_parents(other, a, p);
                    }
                },
                None => {},
            }
        }
    }

    /// Return metadata after checking that `version` may see the variable.
    pub fn get_variable(&self, version: Version, index: InferVarIndex) -> (info: &VarInfo)
        requires
            self.wf(),
            self.live(version),
            index.0 < self.vars().len(),
            self.ancestor(self.vars()[index.0 as int].owner, version),
        ensures
            *info == self.vars()[index.0 as int],
            self.visible(version, index.0 as int),
    {
        proof {
            self.lemma_ancestor_live(self.vars()[index.0 as int].owner, version);
        }
        &self.variables[index.0 as usize]
    }

    /// Every variable visible from `version`, in allocation order.
    pub fn visible_variables(&self, version: Version) -> (visible: Vec<InferVarIndex>)
        requires
            self.wf(),
            self.live(version),
        ensures
            forall|j: int|
                0 <= j < visible@.len() ==> self.visible(version, (#[trigger] visible@[j]).0 as int),
            forall|i: int| self.visible(version, i) ==> visible@.contains(InferVarIndex(i as u32)),
            forall|j: int, k: int|
                0 <= j < k < visible@.len() ==> (#[trigger] visible@[j]).0 < (#[trigger] visible@[k]).0,
    {
        let mut visible: Vec<InferVarIndex> = Vec::new();
        let mut i: usize = 0;
        while i < self.variables.len()
            invariant
                self.wf(),
                self.live(version),
                i <= self.variables@.len(),
                forall|j: int|
                    0 <= j < visible@.len() ==> (#[trigger] visible@[j]).0 < i && self.visible(
                        version,
                        visible@[j].0 as int,
                    ),
                forall|m: int|
                    0 <= m < i && self.visible(version, m) ==> visible@.contains(
                        InferVarIndex(m as u32),
                    ),
                forall|j: int, k: int|
                    0 <= j < k < visible@.len() ==> (#[trigger] visible@[j]).0 < (
                    #[trigger] visible@[k]).0,
            decreases self.variables@.len() - i,
        {
            let owner = self.variables[i].owner;
            let ghost prev = visible@;
            if self.is_live(owner) && self.is_ancestor(owner, version) {
                visible.push(InferVarIndex(i as u32));
                proof {
                    assert(visible@.last() == InferVarIndex(i as u32));
                    assert forall|m: int|
                        0 <= m < i && self.visible(version, m) implies visible@.contains(
                        InferVarIndex(m as u32),
                    ) by {
                        let j = prev.index_of(InferVarIndex(m as u32));
                        assert(visible@[j] == InferVarIndex(m as u32));
                    }
                }
            }
            i += 1;
        }
        visible
    }

    /// Walk from `version` up to the root.
    pub fn ancestors(&self, version: Version) -> (iter: AncestorIter<'_>)
        requires
            self.wf(),
            self.live(version),
        ensures
            iter.tree() == *self,
            iter.cursor() == Some(version),
            iter.valid(),
    {
        AncestorIter { tree: self, current: Some(version) }
    }

    pub fn assert_mutable(&self, version: Version)
        requires
            self.live(version),
            self.children_of(version).len() == 0,
    {
    }

    /// Re-own variables allocated in `child` immediately before a commit.
    pub fn reown_variables(&mut self, child: Version, parent: Version)
        requires
            old(self).wf(),
            old(self).live(child),
            old(self).live(parent),
            old(self).parent_of(child) == Some(parent),
        ensures
            keeps_dead(&*final(self), &*old(self)),
            final(self).wf(),
            final(self).owned_by(child) == Seq::<InferVarIndex>::empty(),
            final(self).owned_by(parent) == old(self).owned_by(parent) + old(self).owned_by(child),
            final(self).vars().len() == old(self).vars().len(),
            forall|k: int|
                0 <= k < old(self).vars().len() ==> #[trigger] final(self).vars()[k] == if old(
                    self,
                ).owned_by(child).contains(InferVarIndex(k as u32)) {
                    VarInfo { owner: parent, creation_universe: old(self).vars()[k].creation_universe }
                } else {
                    old(self).vars()[k]
                },
            final(self).num_versions() == old(self).num_versions(),
            forall|v: Version|
                #![trigger final(self).live(v)]
                old(self).is_known(v) ==> {
                    &&& final(self).live(v) == old(self).live(v)
                    &&& final(self).parent_of(v) == old(self).parent_of(v)
                    &&& final(self).children_of(v) == old(self).children_of(v)
                    &&& v != child && v != parent ==> final(self).owned_by(v) == old(self).owned_by(v)
                },
            forall|a: Version, v: Version| #[trigger]
                final(self).ancestor(a, v) == old(self).ancestor(a, v),
    {
        let ghost old_tree = *self;
        proof {
            self.lemma_live(child);
        }
        let mut variables: Vec<InferVarIndex> = Vec::new();
        std::mem::swap(&mut variables, &mut self.nodes[child.0 as usize].owned_variables);
        let ghost moved = variables@;
        let mut k: usize = 0;
        while k < variables.len()
            invariant
                variables@ == moved,
                old_tree.wf(),
                old_tree.live(child),
                moved == old_tree.nodes@[child.0 as int].owned_variables@,
                moved.no_duplicates(),
                k <= moved.len(),
                forall|m: int| 0 <= m < moved.len() ==> (#[trigger] moved[m]).0 < old_tree.variables@.len(),
                self.variables@.len() == old_tree.variables@.len(),
                forall|x: int|
                    0 <= x < self.variables@.len() ==> #[trigger] self.variables@[x] == if moved.take(
                        k as int,
                    ).contains(InferVarIndex(x as u32)) {
                        VarInfo {
                            owner: parent,
                            creation_universe: old_tree.variables@[x].creation_universe,
                        }
                    } else {
                        old_tree.variables@[x]
                    },
                self.nodes@.len() == old_tree.nodes@.len(),
                forall|i: int|
                    0 <= i < self.nodes@.len() ==> {
                        &&& (#[trigger] self.nodes@[i]).parent == old_tree.nodes@[i].parent
                        &&& self.nodes@[i].children == old_tree.nodes@[i].children
                        &&& self.nodes@[i].removed == old_tree.nodes@[i].removed
                        &&& i != child.0 ==> self.nodes@[i].owned_variables
                            == old_tree.nodes@[i].owned_variables
                    },
                self.nodes@[child.0 as int].owned_variables@ == Seq::<InferVarIndex>::empty(),
            decreases moved.len() - k,
        {
            let index = variables[k];
            proof {
                assert(old_tree.wf());
                assert(index.0 < old_tree.variables@.len());
            }
            self.variables[index.0 as usize].owner = parent;
            proof {
                assert forall|x: int| 0 <= x < self.variables@.len() implies #[trigger] self.variables@[x]
                    == if moved.take(k + 1).contains(InferVarIndex(x as u32)) {
                    VarInfo {
                        owner: parent,
                        creation_universe: old_tree.variables@[x].creation_universe,
                    }
                } else {
                    old_tree.variables@[x]
                } by {
                    assert(moved.take(k + 1) == moved.take(k as int).push(index));
                    if x == index.0 {
                        assert(moved.take(k + 1)[k as int] == index);
                    } else {
                        assert(InferVarIndex(x as u32) != index);
                    }
                }
            }
            k += 1;
        }
        proof {
            assert(moved.take(moved.len() as int) == moved);
        }
        self.nodes[parent.0 as usize].owned_variables.append(&mut variables);
        proof {
            let n = self.nodes@;
            let o = old_tree.nodes@;
            assert(child != parent);
            assert(n[child.0 as int].owned_variables@ == Seq::<InferVarIndex>::empty());
            assert(n[parent.0 as int].owned_variables@ == o[parent.0 as int].owned_variables@
                + moved);
            assert forall|i: int| 0 <= i < n.len() implies (#[trigger] n[i]).parent == o[i].parent
                && n[i].children == o[i].children && n[i].removed == o[i].removed by {}
            assert forall|x: int| 0 <= x < o[parent.0 as int].owned_variables@.len() implies !moved.contains(
                #[trigger] o[parent.0 as int].owned_variables@[x],
            ) by {
                let y = o[parent.0 as int].owned_variables@[x];
                if moved.contains(y) {
                    let j = moved.index_of(y);
                    assert(old_tree.variables@[y.0 as int].owner == Version(child.0));
                }
            }
            assert(n[parent.0 as int].owned_variables@.no_duplicates()) by {
                let a = o[parent.0 as int].owned_variables@;
                assert forall|i: int, j: int|
                    0 <= i < (a + moved).len() && 0 <= j < (a + moved).len() && i != j implies (a
                    + moved)[i] != (a + moved)[j] by {
                    if i < a.len() && j >= a.len() {
                        assert(!moved.contains(a[i]));
                        assert(moved[j - a.len()] == (a + moved)[j]);
                    } else if j < a.len() && i >= a.len() {
                        assert(!moved.contains(a[j]));
                        assert(moved[i - a.len()] == (a + moved)[i]);
                    }
                }
            }
            assert forall|x: int| 0 <= x < self.variables@.len() implies {
                let owner = (#[trigger] self.variables@[x]).owner;
                &&& owner.0 < n.len()
                &&& n[owner.0 as int].owned_variables@.contains(InferVarIndex(x as u32))
            } by {
                let vx = InferVarIndex(x as u32);
                if moved.contains(vx) {
                    let j = moved.index_of(vx);
                    assert(n[parent.0 as int].owned_variables@[o[parent.0 as int].owned_variables@.len()
                        + j] == vx);
                } else {
                    let owner = old_tree.variables@[x].owner;
                    assert(o[owner.0 as int].owned_variables@.contains(vx));
                    if owner == child {
                        assert(false);
                    }
                    let j = o[owner.0 as int].owned_variables@.index_of(vx);
                    if owner == parent {
                        assert(n[parent.0 as int].owned_variables@[j] == vx);
                    } else {
                        assert(n[owner.0 as int].owned_variables@[j] == vx);
                    }
                }
            }
            assert forall|i: int, j: int|
                0 <= i < n.len() && 0 <= j < (#[trigger] n[i]).owned_variables@.len() implies {
                let x = #[trigger] n[i].owned_variables@[j];
                &&& x.0 < self.variables@.len()
                &&& self.variables@[x.0 as int].owner == Version(i as u32)
            } by {
                let x = n[i].owned_variables@[j];
                if i == parent.0 {
                    let a = o[parent.0 as int].owned_variables@;
                    if j < a.len() {
                        assert(x == a[j]);
                        assert(!moved.contains(x));
                    } else {
                        assert(x == moved[j - a.len()]);
                    }
                } else if i == child.0 {
                } else {
                    assert(x == o[i].owned_variables@[j]);
                    if moved.contains(x) {
                        let m = moved.index_of(x);
                        assert(old_tree.variables@[x.0 as int].owner == Version(child.0));
                    }
                }
            }
            assert forall|a: Version, v: Version| #[trigger]
                self.ancestor(a, v) == old_tree.ancestor(a, v) by {
                self.lemma_ancestor_same_parents(old_tree, a, v);
            }
        }
    }
}

impl VersionTree {
    // -----------------------------------------------------------------------
    // Subtree lemmas
    // -----------------------------------------------------------------------
    proof fn lemma_post_unfold(&self, v: Version, k: nat)
        requires
            self.wf(),
            self.live(v),
            k < self.children_of(v).len(),
        ensures
            self.post(v, k) == self.post(self.children_of(v)[k as int], 0) + self.post(v, k + 1),
            self.live(self.children_of(v)[k as int]),
            v.0 < self.children_of(v)[k as int].0,
    {
        self.lemma_live(v);
        let c = self.children_of(v)[k as int];
        assert(self.live(c));
    }

    proof fn lemma_post_contains_self(&self, v: Version, k: nat)
        requires
            self.wf(),
            self.live(v),
        ensures
            self.post(v, k).contains(v),
        decreases self.children_of(v).len() - k,
    {
        if k >= self.children_of(v).len() {
            assert(self.post(v, k)[0] == v);
        } else {
            self.lemma_post_unfold(v, k);
            self.lemma_post_contains_self(v, k + 1);
            let a = self.post(self.children_of(v)[k as int], 0);
            let b = self.post(v, k + 1);
            let j = b.index_of(v);
            assert((a + b)[a.len() + j] == v);
        }
    }

    /// Members of `post(v, k)` are `v` itself or lie in the subtree of some
    /// child at position `k` or later.
    proof fn lemma_post_split(&self, v: Version, k: nat, x: Version) -> (j: int)
        requires
            self.wf(),
            self.live(v),
            self.post(v, k).contains(x),
            x != v,
        ensures
            k <= j < self.children_of(v).len(),
            self.subtree(self.children_of(v)[j]).contains(x),
        decreases self.children_of(v).len() - k,
    {
        if k >= self.children_of(v).len() {
            assert(self.post(v, k) == seq![v]);
            assert(false);
            0
        } else {
            self.lemma_post_unfold(v, k);
            let a = self.post(self.children_of(v)[k as int], 0);
            let b = self.post(v, k + 1);
            if a.contains(x) {
                k as int
            } else {
                let i = (a + b).index_of(x);
                assert(b[i - a.len()] == x);
                self.lemma_post_split(v, k + 1, x)
            }
        }
    }

    /// The subtree of the `j`-th child is contained in `post(v, k)` for `k <= j`.
    proof fn lemma_post_child_subset(&self, v: Version, k: nat, j: int, x: Version)
        requires
            self.wf(),
            self.live(v),
            k <= j < self.children_of(v).len(),
            self.subtree(self.children_of(v)[j]).contains(x),
        ensures
            self.post(v, k).contains(x),
        decreases j - k,
    {
        self.lemma_post_unfold(v, k);
        let a = self.post(self.children_of(v)[k as int], 0);
        let b = self.post(v, k + 1);
        if j == k {
            let i = a.index_of(x);
            assert((a + b)[i] == x);
        } else {
            self.lemma_post_child_subset(v, k + 1, j, x);
            let i = b.index_of(x);
            assert((a + b)[a.len() + i] == x);
        }
    }

    /// The post-order listing from any child position ends with the version
    /// itself.
    proof fn lemma_post_last(&self, v: Version, k: nat)
        ensures
            self.post(v, k).len() >= 1,
            self.post(v, k).last() == v,
        decreases self.num_versions() - v.0, self.children_of(v).len() - k,
    {
        if v.0 >= self.nodes@.len() || k >= self.children_of(v).len() {
        } else {
            let c = self.children_of(v)[k as int];
            self.lemma_post_last(v, k + 1);
            if v.0 < c.0 && c.0 < self.nodes@.len() {
                let a = self.post(c, 0);
                let b = self.post(v, k + 1);
                assert((a + b).last() == b.last());
            }
        }
    }

    /// The subtree of a version lists the version itself last, after all
    /// its descendants.
    pub proof fn lemma_subtree_ends_with_root(&self, v: Version)
        ensures
            self.subtree(v).len() >= 1,
            self.subtree(v).last() == v,
    {
        self.lemma_post_last(v, 0);
    }

    /// A variable's recorded owner lists it among its owned variables, and a
    /// version owns exactly the variables whose owner it is recorded as.
    pub proof fn lemma_owner_owns(&self, version: Version, i: int)
        requires
            self.wf(),
            0 <= i < self.vars().len(),
            version.0 < self.num_versions(),
        ensures
            self.vars()[i].owner.0 < self.num_versions(),
            self.owned_by(self.vars()[i].owner).contains(InferVarIndex(i as u32)),
            self.owned_by(version).contains(InferVarIndex(i as u32)) <==> self.vars()[i].owner == version,
            forall|j: int|
                0 <= j < self.owned_by(version).len() ==> (#[trigger] self.owned_by(version)[j]).0 < self.vars().len()
                    && self.vars()[self.owned_by(version)[j].0 as int].owner == version,
    {
        let n = self.nodes@;
        let x = InferVarIndex(i as u32);
        assert(self.variables@[i].owner.0 < n.len());
        if self.owned_by(version).contains(x) {
            let j = self.owned_by(version).index_of(x);
            assert(n[version.0 as int].owned_variables@[j] == x);
        }
        assert forall|j: int| 0 <= j < self.owned_by(version).len() implies (#[trigger] self.owned_by(version)[j]).0
            < self.vars().len() && self.vars()[self.owned_by(version)[j].0 as int].owner == version by {
            assert(n[version.0 as int].owned_variables@[j] == self.owned_by(version)[j]);
        }
    }

    /// Members of a live subtree are live descendants with larger-or-equal ids.
    pub proof fn lemma_post_member(&self, v: Version, x: Version)
        requires
            self.wf(),
            self.live(v),
            self.subtree(v).contains(x),
        ensures
            self.live(x),
            v.0 <= x.0,
            self.ancestor(v, x),
            x != v ==> self.parent_of(x) is Some && self.subtree(v).contains(self.parent_of(x)->0),
        decreases self.num_versions() - v.0,
    {
        if x != v {
            let j = self.lemma_post_split(v, 0, x);
            self.lemma_post_unfold(v, j as nat);
            let c = self.children_of(v)[j];
            self.lemma_live(v);
            self.lemma_post_member(c, x);
            if x == c {
                self.lemma_post_contains_self(v, 0);
            } else {
                self.lemma_post_child_subset(v, 0, j, self.parent_of(x)->0);
            }
            assert(self.ancestor(v, v));
            assert(self.parent_of(c) == Some(v));
            assert(self.ancestor(v, c));
            self.lemma_ancestor_trans(v, c, x);
        }
    }

    /// Subtrees are closed under taking children.
    proof fn lemma_post_closed(&self, v: Version, x: Version, c: Version)
        requires
            self.wf(),
            self.live(v),
            self.subtree(v).contains(x),
            self.children_of(x).contains(c),
        ensures
            self.subtree(v).contains(c),
        decreases self.num_versions() - v.0,
    {
        self.lemma_post_member(v, x);
        if x == v {
            let j = self.children_of(v).index_of(c);
            self.lemma_post_unfold(v, j as nat);
            self.lemma_post_contains_self(c, 0);
            self.lemma_post_child_subset(v, 0, j, c);
        } else {
            let j = self.lemma_post_split(v, 0, x);
            self.lemma_post_unfold(v, j as nat);
            let d = self.children_of(v)[j];
            self.lemma_post_closed(d, x, c);
            self.lemma_post_child_subset(v, 0, j, c);
        }
    }

    /// Append the post-order subtree of `version` to `out`.
    fn collect_subtree(&self, version: Version, out: &mut Vec<Version>)
        requires
            self.wf(),
            self.live(version),
        ensures
            final(out)@ == old(out)@ + self.subtree(version),
        decreases self.num_versions() - version.0,
    {
        let children = &self.nodes[version.0 as usize].children;
        let mut k: usize = 0;
        while k < children.len()
            invariant
                self.wf(),
                self.live(version),
                children@ == self.children_of(version),
                k <= children@.len(),
                out@ + self.post(version, k as nat) == old(out)@ + self.post(version, 0),
            decreases children@.len() - k,
        {
            let c = children[k];
            proof {
                self.lemma_post_unfold(version, k as nat);
            }
            let ghost before = out@;
            self.collect_subtree(c, out);
            proof {
                assert(out@ + self.post(version, (k + 1) as nat) == before + (self.post(c, 0)
                    + self.post(version, (k + 1) as nat)));
            }
            k += 1;
        }
        out.push(version);
    }

    /// Remove a version and all descendants. Identities remain tombstoned.
    pub fn remove(&mut self, version: Version) -> (removed: Vec<Version>)
        requires
            old(self).wf(),
            old(self).live(version),
            version != Version::root(),
        ensures
            keeps_dead(&*final(self), &*old(self)),
            final(self).wf(),
            removed@ == old(self).subtree(version),
            final(self).num_versions() == old(self).num_versions(),
            final(self).vars() == old(self).vars(),
            forall|v: Version|
                #![trigger final(self).live(v)]
                old(self).is_known(v) ==> {
                    &&& final(self).live(v) == (old(self).live(v) && !removed@.contains(v))
                    &&& final(self).parent_of(v) == old(self).parent_of(v)
                    &&& final(self).owned_by(v) == old(self).owned_by(v)
                    &&& removed@.contains(v) ==> final(self).children_of(v) == Seq::<
                        Version,
                    >::empty()
                    &&& !removed@.contains(v) && v != old(self).parent_of(version)->0
                        ==> final(self).children_of(v) == old(self).children_of(v)
                },
            final(self).children_of(old(self).parent_of(version)->0) == old(self).children_of(
                old(self).parent_of(version)->0,
            ).filter(other_than(version)),
            forall|a: Version, v: Version| #[trigger]
                final(self).ancestor(a, v) == old(self).ancestor(a, v),
            forall|v: Version|
                old(self).live(v) ==> (#[trigger] removed@.contains(v) <==> old(self).ancestor(
                    version,
                    v,
                )),
    {
        let ghost old_tree = *self;
        let parent = match self.parent(version) {
            Some(parent) => parent,
            None => {
                proof {
                    self.lemma_live(version);
                }
                return Vec::new();
            },
        };
        let mut removed = Vec::new();
        self.remove_subtree(version, &mut removed);
        let ghost marked = *self;
        let mut kept: Vec<Version> = Vec::new();
        let siblings = &self.nodes[parent.0 as usize].children;
        let mut k: usize = 0;
        while k < siblings.len()
            invariant
                siblings@ == marked.nodes@[parent.0 as int].children@,
                k <= siblings@.len(),
                kept@ == siblings@.take(k as int).filter(other_than(version)),
            decreases siblings@.len() - k,
        {
            let c = siblings[k];
            proof {
                assert(siblings@.take(k + 1).drop_last() == siblings@.take(k as int));
                reveal_with_fuel(Seq::filter, 1);
            }
            if c != version {
                kept.push(c);
            }
            k += 1;
        }
        proof {
            assert(siblings@.take(siblings@.len() as int) == siblings@);
        }
        self.nodes[parent.0 as usize].children = kept;
        proof {
            self.lemma_remove_wf(old_tree, marked, version, parent, removed@);
        }
        removed
    }

    /// Post-state reasoning for `remove`.
    proof fn lemma_remove_wf(
        &self,
        old_tree: Self,
        marked: Self,
        version: Version,
        parent: Version,
        removed: Seq<Version>,
    )
        requires
            old_tree.wf(),
            old_tree.live(version),
            version != Version::root(),
            old_tree.parent_of(version) == Some(parent),
            removed == old_tree.subtree(version),
            marked.variables == old_tree.variables,
            marked.nodes@.len() == old_tree.nodes@.len(),
            forall|i: int|
                0 <= i < marked.nodes@.len() ==> {
                    &&& (#[trigger] marked.nodes@[i]).parent == old_tree.nodes@[i].parent
                    &&& marked.nodes@[i].owned_variables == old_tree.nodes@[i].owned_variables
                    &&& marked.nodes@[i].removed == (old_tree.nodes@[i].removed
                        || removed.contains(Version(i as u32)))
                    &&& marked.nodes@[i].children@ == if removed.contains(Version(i as u32)) {
                        Seq::<Version>::empty()
                    } else {
                        old_tree.nodes@[i].children@
                    }
                },
            self.variables == old_tree.variables,
            self.nodes@.len() == old_tree.nodes@.len(),
            forall|i: int|
                0 <= i < self.nodes@.len() ==> {
                    &&& (#[trigger] self.nodes@[i]).parent == marked.nodes@[i].parent
                    &&& self.nodes@[i].owned_variables == marked.nodes@[i].owned_variables
                    &&& self.nodes@[i].removed == marked.nodes@[i].removed
                    &&& i != parent.0 ==> self.nodes@[i].children == marked.nodes@[i].children
                },
            self.nodes@[parent.0 as int].children@ == marked.nodes@[parent.0 as int].children@.filter(
                other_than(version),
            ),
        ensures
            self.wf(),
            self.children_of(parent) == old_tree.children_of(parent).filter(
                other_than(version),
            ),
            forall|a: Version, v: Version| #[trigger]
                self.ancestor(a, v) == old_tree.ancestor(a, v),
            forall|v: Version|
                old_tree.live(v) ==> (#[trigger] removed.contains(v) <==> old_tree.ancestor(
                    version,
                    v,
                )),
    {
        let n = self.nodes@;
        let o = old_tree.nodes@;
        old_tree.lemma_live(version);
        old_tree.lemma_post_contains_self(version, 0);
        assert forall|x: Version| removed.contains(x) implies old_tree.live(x) && version.0 <= x.0
            && old_tree.ancestor(version, x) by {
            old_tree.lemma_post_member(version, x);
        }
        assert(!removed.contains(parent));
        assert(!removed.contains(Version::root()));
        assert(n[parent.0 as int].children@ == o[parent.0 as int].children@.filter(
            other_than(version),
        ));
        let pc = o[parent.0 as int].children@;
        let fc = pc.filter(other_than(version));
        lemma_filter_ne(pc, version);
        // descendants of removed nodes are removed; parents of removed
        // non-roots of the subtree are removed
        assert forall|i: int|
            1 <= i < n.len() && !(#[trigger] n[i]).removed implies !n[(n[i].parent->0).0 as int].removed by {
            let c = Version(i as u32);
            let p = (o[i].parent->0);
            assert(!removed.contains(c));
            if removed.contains(p) {
                assert(o[p.0 as int].children@.contains(c));
                old_tree.lemma_post_closed(version, p, c);
            }
        }
        assert forall|i: int, j: int|
            0 <= i < n.len() && 0 <= j < (#[trigger] n[i]).children@.len() implies {
            let c = #[trigger] n[i].children@[j];
            &&& c.0 < n.len()
            &&& n[c.0 as int].parent == Some(Version(i as u32))
            &&& !n[c.0 as int].removed
        } by {
            let c = n[i].children@[j];
            let vi = Version(i as u32);
            assert(!removed.contains(vi));
            if i == parent.0 {
                assert(fc.contains(c));
                assert(pc.contains(c));
                let jj = pc.index_of(c);
                assert(o[i].children@[jj] == c);
            } else {
                assert(o[i].children@[j] == c);
            }
            assert(o[c.0 as int].parent == Some(vi));
            if removed.contains(c) {
                old_tree.lemma_post_member(version, c);
                if c == version {
                    assert(vi == parent);
                }
            }
        }
        assert forall|i: int|
            1 <= i < n.len() && !(#[trigger] n[i]).removed implies n[(n[i].parent->0).0 as int].children@.contains(
            Version(i as u32),
        ) by {
            let c = Version(i as u32);
            let p = o[i].parent->0;
            assert(o[p.0 as int].children@.contains(c));
            if removed.contains(p) {
                old_tree.lemma_post_closed(version, p, c);
            }
            if p == parent {
                assert(c != version);
                assert(fc.contains(c));
            }
        }
        assert forall|i: int| 0 <= i < n.len() implies (#[trigger] n[i]).children@.no_duplicates() by {

        }
        assert forall|k: int| 0 <= k < self.variables@.len() implies {
            let owner = (#[trigger] self.variables@[k]).owner;
            &&& owner.0 < n.len()
            &&& n[owner.0 as int].owned_variables@.contains(InferVarIndex(k as u32))
        } by {
            let owner = self.variables@[k].owner;
            assert(o[owner.0 as int].owned_variables@.contains(InferVarIndex(k as u32)));
        }
        assert forall|a: Version, v: Version| #[trigger]
            self.ancestor(a, v) == old_tree.ancestor(a, v) by {
            self.lemma_ancestor_same_parents(old_tree, a, v);
        }
        assert forall|v: Version| old_tree.live(v) implies (#[trigger] removed.contains(v)
            <==> old_tree.ancestor(version, v)) by {
            if old_tree.ancestor(version, v) {
                old_tree.lemma_in_subtree(version, v);
            }
        }
    }

    /// Every live descendant of a live version lies in its subtree.
    pub proof fn lemma_in_subtree(&self, v: Version, x: Version)
        requires
            self.wf(),
            self.live(v),
            self.live(x),
            self.ancestor(v, x),
        ensures
            self.subtree(v).contains(x),
        decreases x.0,
    {
        if x == v {
            self.lemma_post_contains_self(v, 0);
        } else {
            self.lemma_live(x);
            let p = self.parent_of(x)->0;
            self.lemma_in_subtree(v, p);
            self.lemma_post_closed(v, p, x);
        }
    }

    /// Mark the subtree of `version` removed, appending it to `removed` in
    /// post order.
    fn remove_subtree(&mut self, version: Version, removed: &mut Vec<Version>)
        requires
            old(self).wf(),
            old(self).live(version),
            old(removed)@ == Seq::<Version>::empty(),
        ensures
            final(removed)@ == old(self).subtree(version),
            final(self).variables == old(self).variables,
            final(self).nodes@.len() == old(self).nodes@.len(),
            forall|i: int|
                0 <= i < final(self).nodes@.len() ==> {
                    &&& (#[trigger] final(self).nodes@[i]).parent == old(self).nodes@[i].parent
                    &&& final(self).nodes@[i].owned_variables == old(self).nodes@[i].owned_variables
                    &&& final(self).nodes@[i].removed == (old(self).nodes@[i].removed
                        || final(removed)@.contains(Version(i as u32)))
                    &&& final(self).nodes@[i].children@ == if final(removed)@.contains(
                        Version(i as u32),
                    ) {
                        Seq::<Version>::empty()
                    } else {
                        old(self).nodes@[i].children@
                    }
                },
    {
        self.collect_subtree(version, removed);
        let ghost old_tree = *old(self);
        let ghost list = removed@;
        proof {
            assert(list == old_tree.subtree(version));
            assert forall|x: Version| list.contains(x) implies x.0 < old_tree.nodes@.len() by {
                old_tree.lemma_post_member(version, x);
            }
        }
        let mut k: usize = 0;
        while k < removed.len()
            invariant
                removed@ == list,
                k <= list.len(),
                self.nodes@.len() <= u32::MAX as nat + 1,
                forall|x: Version| list.contains(x) ==> x.0 < old_tree.nodes@.len(),
                self.variables == old_tree.variables,
                self.nodes@.len() == old_tree.nodes@.len(),
                forall|i: int|
                    0 <= i < self.nodes@.len() ==> {
                        &&& (#[trigger] self.nodes@[i]).parent == old_tree.nodes@[i].parent
                        &&& self.nodes@[i].owned_variables == old_tree.nodes@[i].owned_variables
                        &&& self.nodes@[i].removed == (old_tree.nodes@[i].removed
                            || list.take(k as int).contains(Version(i as u32)))
                        &&& self.nodes@[i].children@ == if list.take(k as int).contains(
                            Version(i as u32),
                        ) {
                            Seq::<Version>::empty()
                        } else {
                            old_tree.nodes@[i].children@
                        }
                    },
            decreases list.len() - k,
        {
            let v = removed[k];
            proof {
                assert(list.contains(v));
            }
            self.nodes[v.0 as usize].children.clear();
            self.nodes[v.0 as usize].removed = true;
            proof {
                assert(list.take(k + 1) == list.take(k as int).push(v));
                assert forall|i: int| 0 <= i < self.nodes@.len() implies (#[trigger] list.take(k + 1).contains(
                    Version(i as u32),
                ) <==> (list.take(k as int).contains(Version(i as u32)) || Version(i as u32)
                    == v)) by {
                    if list.take(k + 1).contains(Version(i as u32)) && Version(i as u32) != v {
                        let j = list.take(k + 1).index_of(Version(i as u32));
                        assert(list.take(k as int)[j] == Version(i as u32));
                    }
                    if Version(i as u32) == v {
                        assert(list.take(k + 1)[k as int] == v);
                    }
                }
            }
            k += 1;
        }
        proof {
            assert(list.take(list.len() as int) == list);
        }
    }
}

/// Every version that `old` knows but holds removed is known and removed in
/// `new` as well.
pub open spec fn keeps_dead(new: &VersionTree, old: &VersionTree) -> bool {
    &&& old.num_versions() <= new.num_versions()
    &&& forall|v: Version| #[trigger] old.is_known(v) && !old.live(v) ==> !new.live(v)
}

/// A removed version stays removed through any sequence of later trees,
/// each obtained from the one before by an operation that keeps removed
/// versions removed, as every mutating operation of the tree does.
pub proof fn law_removed_stays_dead(trees: Seq<VersionTree>, v: Version)
    requires
        trees.len() > 0,
        forall|i: int| #![trigger trees[i]] 0 <= i < trees.len() - 1 ==> keeps_dead(&trees[i + 1], &trees[i]),
        trees[0].is_known(v),
        !trees[0].live(v),
    ensures
        forall|i: int| 0 <= i < trees.len() ==> (#[trigger] trees[i]).is_known(v) && !trees[i].live(v),
    decreases trees.len(),
{
    if trees.len() > 1 {
        let shorter = trees.drop_last();
        assert forall|i: int| #![trigger shorter[i]] 0 <= i < shorter.len() - 1 implies keeps_dead(&shorter[i + 1], &shorter[i]) by {
            assert(shorter[i] == trees[i]);
            assert(shorter[i + 1] == trees[i + 1]);
        }
        law_removed_stays_dead(shorter, v);
        assert forall|i: int| 0 <= i < trees.len() implies (#[trigger] trees[i]).is_known(v) && !trees[i].live(v) by {
            if i < trees.len() - 1 {
                assert(shorter[i] == trees[i]);
            } else {
                let j = trees.len() - 2;
                assert(shorter[j] == trees[j]);
                assert(keeps_dead(&trees[j + 1], &trees[j]));
            }
        }
    }
}

/// `ancestor` walks the parent links: `a` is an ancestor of the live
/// version `v` exactly when it is `v` itself or an ancestor of the parent
/// of `v`.
pub proof fn law_ancestor_walks_parents(tree: VersionTree, a: Version, v: Version)
    requires
        tree.wf(),
        tree.live(v),
    ensures
        tree.ancestor(a, v) == (a == v || match tree.parent_of(v) {
            Some(p) => tree.ancestor(a, p),
            None => false,
        }),
{
    tree.lemma_live(v);
}

/// A version created after `known` was known differs from it: identities
/// are never reused, not even those of removed versions.
pub proof fn law_version_ids_are_fresh(tree: VersionTree, known: Version, created: Version)
    requires
        tree.is_known(known),
        created.0 == tree.num_versions(),
    ensures
        created != known,
{
}

/// A variable owned by one version is not visible from a sibling of that
/// version.
pub proof fn law_sibling_variables_are_invisible(tree: VersionTree, left: Version, right: Version, i: int)
    requires
        tree.wf(),
        tree.live(left),
        tree.live(right),
        left != right,
        tree.parent_of(left) is Some,
        tree.parent_of(left) == tree.parent_of(right),
        0 <= i < tree.vars().len(),
        tree.vars()[i].owner == left,
    ensures
        !tree.visible(right, i),
{
    tree.lemma_live(left);
    tree.lemma_live(right);
    if tree.ancestor(left, right) {
        let p = tree.parent_of(right)->0;
        assert(tree.ancestor(left, p));
        tree.lemma_ancestor_live(left, p);
    }
}

/// A variable visible from a version is visible from every live
/// descendant of it.
pub proof fn law_visibility_is_inherited(tree: VersionTree, version: Version, descendant: Version, i: int)
    requires
        tree.wf(),
        tree.visible(version, i),
        tree.ancestor(version, descendant),
    ensures
        tree.visible(descendant, i),
{
    tree.lemma_ancestor_trans(tree.vars()[i].owner, version, descendant);
}

/// A variable whose owner was removed is visible from no version.
pub proof fn law_removed_owner_hides_variable(tree: VersionTree, version: Version, i: int)
    requires
        0 <= i < tree.vars().len(),
        !tree.live(tree.vars()[i].owner),
    ensures
        !tree.visible(version, i),
{
}

/// The predicate "differs from `x`".
pub open spec fn other_than(x: Version) -> spec_fn(Version) -> bool {
    |c: Version| c != x
}

/// Filtering out one value keeps exactly the other members and preserves
/// the absence of duplicates.
pub proof fn lemma_filter_ne(s: Seq<Version>, x: Version)
    ensures
        forall|c: Version| #[trigger]
            s.filter(other_than(x)).contains(c) <==> (s.contains(c) && c != x),
        s.no_duplicates() ==> s.filter(other_than(x)).no_duplicates(),
    decreases s.len(),
{
    reveal_with_fuel(Seq::filter, 1);
    let p = other_than(x);
    assert forall|c: Version| #[trigger] s.filter(p).contains(c) <==> (s.contains(c) && c != x) by {
        if s.filter(p).contains(c) {
            s.lemma_filter_contains_rev(p, c);
            let i = s.filter(p).index_of(c);
            s.lemma_filter_pred(p, i);
        }
        if s.contains(c) && c != x {
            s.lemma_filter_contains(p, s.index_of(c));
        }
    }
    if s.len() > 0 {
        let rest = s.drop_last();
        lemma_filter_ne(rest, x);
        if s.no_duplicates() {
            assert(rest.no_duplicates());
            assert(!rest.contains(s.last())) by {
                if rest.contains(s.last()) {
                    let i = rest.index_of(s.last());
                    assert(s[i] == s[s.len() - 1]);
                }
            }
            assert(!rest.filter(p).contains(s.last()));
            if p(s.last()) {
                assert(s.filter(p) == rest.filter(p).push(s.last()));
                let f = rest.filter(p);
                assert forall|i: int, j: int|
                    0 <= i < f.push(s.last()).len() && 0 <= j < f.push(s.last()).len() && i != j
                    implies f.push(s.last())[i] != f.push(s.last())[j] by {
                    if i == f.len() {
                        assert(f[j] != s.last());
                    } else if j == f.len() {
                        assert(f[i] != s.last());
                    }
                }
            } else {
                assert(s.filter(p) == rest.filter(p));
            }
        }
    }
}

impl Default for VersionTree {
    fn default() -> (tree: Self)
        ensures
            tree.wf(),
            tree.num_versions() == 1,
            tree.live(Version::root()),
            tree.children_of(Version::root()) == Seq::<Version>::empty(),
            tree.vars() == Seq::<VarInfo>::empty(),
    {
        Self::new()
    }
}

/// Cursor over a version and its ancestors, nearest first.
pub struct AncestorIter<'tree> {
    tree: &'tree VersionTree,
    current: Option<Version>,
}

impl<'tree> AncestorIter<'tree> {
    /// The tree being walked.
    pub closed spec fn tree(&self) -> VersionTree {
        *self.tree
    }

    /// The next version to be produced, if any.
    pub closed spec fn cursor(&self) -> Option<Version> {
        self.current
    }

    /// The tree is well formed and the cursor, if any, names a live version.
    pub open spec fn valid(&self) -> bool {
        &&& self.tree().wf()
        &&& self.cursor() is Some ==> self.tree().live(self.cursor()->0)
    }

    /// Produce the current version and step to its parent.
    pub fn next(&mut self) -> (item: Option<Version>)
        requires
            old(self).valid(),
        ensures
            final(self).valid(),
            final(self).tree() == old(self).tree(),
            item == old(self).cursor(),
            final(self).cursor() == match old(self).cursor() {
                Some(v) => old(self).tree().parent_of(v),
                None => None,
            },
    {
        match self.current {
            None => None,
            Some(version) => {
                proof {
                    self.tree.lemma_live(version);
                }
                self.current = self.tree.nodes[version.0 as usize].parent;
                Some(version)
            },
        }
    }
}

} // verus!
