use sage_ir::bound::Bound;
use sage_ir::egraph::VersionedEGraph;
use sage_ir::generic_param::{AlphaEquivParam, GenericParam, GenericParamKind};
use sage_ir::ty::{IntTy, Ty, TyStore};
use sage_ir::version::{Universe, Version};

#[test]
fn committed_child_variable_is_reowned_by_parent() {
    let mut egraph = VersionedEGraph::new();
    let child = egraph.branch_from(Version(0));
    let variable = egraph.alloc_var(child, Universe(2));
    egraph.collapse_into(child, Version(0));

    let info = egraph.get_var_info(Version(0), variable);
    assert_eq!(info.owner, Version(0));
    assert_eq!(info.creation_universe, Universe(2));
}

#[test]
fn discarding_a_child_unfreezes_its_parent() {
    let mut egraph = VersionedEGraph::new();
    let child = egraph.branch_from(Version(0));
    assert!(!egraph.version_tree().is_leaf(Version(0)));
    egraph.discard(child);
    assert!(egraph.version_tree().is_leaf(Version(0)));
    egraph.alloc_var(Version(0), Universe(0));
}

#[test]
fn collapse_with_the_only_child_publishes_its_work() {
    let mut egraph = VersionedEGraph::new();
    let mut stash = TyStore::new();
    let left = egraph.branch_from(Version(0));
    let right = egraph.branch_from(Version(0));
    egraph.discard(right);

    let index = egraph.alloc_var(left, Universe(0));
    let variable = stash.intern(Ty::InferVar(index));
    let int = stash.intern(Ty::Int(IntTy::I32));
    egraph.union(left, &stash, variable, int);
    let revision = egraph.semantic_revision(left);
    let effects = egraph.collapse_into(left, Version(0));

    assert_eq!(effects.semantic_revision, revision);
    assert_eq!(effects.wakes, vec![index]);
    assert_eq!(egraph.find(Version(0), variable), int);
    assert!(!egraph.version_tree().is_live(left));
}

#[test]
fn child_reads_its_parent_and_discard_leaves_the_parent_unchanged() {
    let mut egraph = VersionedEGraph::new();
    let mut stash = TyStore::new();
    let a = egraph.alloc_var(Version(0), Universe(0));
    let b = egraph.alloc_var(Version(0), Universe(0));
    let ta = stash.intern(Ty::InferVar(a));
    let tb = stash.intern(Ty::InferVar(b));
    let boolean = stash.intern(Ty::Bool);
    egraph.union(Version(0), &stash, ta, tb);

    let child = egraph.branch_from(Version(0));
    assert_eq!(egraph.find(child, ta), tb);
    egraph.union(child, &stash, tb, boolean);
    egraph.set_bound_in(child, &stash, ta, Bound::Exactly(boolean));
    assert_eq!(egraph.find(child, ta), boolean);

    egraph.discard(child);
    assert_eq!(egraph.find(Version(0), ta), tb);
    assert_eq!(egraph.get_bound(Version(0), ta), Bound::Unknown);
}

#[test]
fn union_prefers_the_structured_representative() {
    let mut egraph = VersionedEGraph::new();
    let mut stash = TyStore::new();
    let index = egraph.alloc_var(Version(0), Universe(0));
    let variable = stash.intern(Ty::InferVar(index));
    let int = stash.intern(Ty::Int(IntTy::I32));

    assert_eq!(egraph.union(Version(0), &stash, int, variable), int);
    assert_eq!(egraph.find(Version(0), variable), int);
    assert_eq!(egraph.find_mut(Version(0), variable), int);
    assert_eq!(egraph.semantic_revision(Version(0)), 1);
}

#[test]
fn universes_only_go_down() {
    let mut egraph = VersionedEGraph::new();
    let index = egraph.alloc_var(Version(0), Universe(3));
    assert!(!egraph.lower_universe(Version(0), index, Universe(5)));
    assert_eq!(egraph.current_universe(Version(0), index), Universe(3));
    assert!(egraph.lower_universe(Version(0), index, Universe(1)));
    assert_eq!(egraph.current_universe(Version(0), index), Universe(1));
    assert_eq!(egraph.semantic_revision(Version(0)), 1);
}

#[test]
fn placeholders_default_to_the_root_universe() {
    let mut egraph = VersionedEGraph::new();
    let param = GenericParam::AlphaEquiv(AlphaEquivParam::new(GenericParamKind::Type, 7));
    let other = GenericParam::AlphaEquiv(AlphaEquivParam::new(GenericParamKind::Type, 8));
    egraph.register_placeholder(param, Universe(4));
    egraph.register_placeholder(param, Universe(4));
    assert_eq!(egraph.placeholder_universe(param), Universe(4));
    assert_eq!(egraph.placeholder_universe(other), Universe(0));
}

#[test]
fn rebuild_moves_dependents_to_their_rebuilt_class() {
    let mut egraph = VersionedEGraph::new();
    let mut stash = TyStore::new();
    let index = egraph.alloc_var(Version(0), Universe(0));
    let variable = stash.intern(Ty::InferVar(index));
    let int = stash.intern(Ty::Int(IntTy::I32));
    let elements = stash.intern_list(&[variable]);
    let tuple = stash.intern(Ty::Tuple(elements));
    egraph.add_dependent(Version(0), variable, tuple);
    egraph.union(Version(0), &stash, variable, int);

    let changed = egraph.rebuild(Version(0), &mut stash);
    assert_eq!(changed, vec![tuple]);
    let int_elements = stash.intern_list(&[int]);
    let int_tuple = stash.intern(Ty::Tuple(int_elements));
    assert_eq!(egraph.find(Version(0), tuple), int_tuple);
    assert!(egraph.rebuild(Version(0), &mut stash).is_empty());
}

#[test]
fn rebuild_merges_a_dependent_with_its_rebuilt_form() {
    let mut egraph = VersionedEGraph::new();
    let mut stash = TyStore::new();
    let a = egraph.alloc_var(Version(0), Universe(0));
    let ta = stash.intern(Ty::InferVar(a));
    let int = stash.intern(Ty::Int(IntTy::I32));
    let of_var = stash.intern_list(&[ta]);
    let tuple_of_var = stash.intern(Ty::Tuple(of_var));
    let of_int = stash.intern_list(&[int]);
    let tuple_of_int = stash.intern(Ty::Tuple(of_int));
    egraph.add_dependent(Version(0), ta, tuple_of_var);
    egraph.union(Version(0), &stash, ta, int);
    assert_ne!(egraph.find(Version(0), tuple_of_var), egraph.find(Version(0), tuple_of_int));

    let changed = egraph.rebuild(Version(0), &mut stash);
    assert_eq!(changed, vec![tuple_of_var]);
    assert_eq!(egraph.find(Version(0), tuple_of_var), egraph.find(Version(0), tuple_of_int));
}

#[test]
fn rebuild_with_nothing_pending_changes_nothing() {
    let mut egraph = VersionedEGraph::new();
    let mut stash = TyStore::new();
    let int = stash.intern(Ty::Int(IntTy::I32));
    let boolean = stash.intern(Ty::Bool);
    let changed = egraph.rebuild(Version(0), &mut stash);
    assert!(changed.is_empty());
    assert_ne!(egraph.find(Version(0), int), egraph.find(Version(0), boolean));
}
