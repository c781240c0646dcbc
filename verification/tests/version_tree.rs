use sage_ir::version::{Universe, Version, VersionTree};

#[test]
fn version_ids_are_not_reused() {
    let mut tree = VersionTree::new();
    let first = tree.branch_from(Version(0));
    tree.remove(first);
    let second = tree.branch_from(Version(0));

    assert_ne!(first, second);
    assert!(!tree.is_live(first));
    assert!(tree.is_live(second));
}

#[test]
fn discarded_variables_are_not_visible_from_root() {
    let mut tree = VersionTree::new();
    let child = tree.branch_from(Version(0));
    let discarded = tree.alloc_var(child, Universe(0));
    tree.remove(child);

    let visible = tree.visible_variables(Version(0));
    assert!(!visible.contains(&discarded));
}

#[test]
fn sibling_variables_are_unique_and_not_listed_as_visible() {
    let mut tree = VersionTree::new();
    let left = tree.branch_from(Version(0));
    let right = tree.branch_from(Version(0));
    let left_var = tree.alloc_var(left, Universe(0));
    let right_var = tree.alloc_var(right, Universe(0));

    assert_ne!(left_var, right_var);
    assert_eq!(tree.get_variable(left, left_var).owner, left);
    assert_eq!(tree.get_variable(right, right_var).owner, right);
    assert!(!tree.visible_variables(right).contains(&left_var));
    assert!(tree.visible_variables(right).contains(&right_var));
}

#[test]
fn variables_of_an_ancestor_are_visible_from_descendants() {
    let mut tree = VersionTree::new();
    let root_var = tree.alloc_var(Version(0), Universe(3));
    let child = tree.branch_from(Version(0));
    let grandchild = tree.branch_from(child);
    let child_var = tree.alloc_var(grandchild, Universe(1));

    assert_eq!(tree.visible_variables(grandchild), vec![root_var, child_var]);
    assert_eq!(tree.visible_variables(child), vec![root_var]);
    assert_eq!(tree.get_variable(grandchild, root_var).creation_universe, Universe(3));
}

#[test]
fn removing_a_version_removes_its_subtree_in_post_order() {
    let mut tree = VersionTree::new();
    let a = tree.branch_from(Version(0));
    let b = tree.branch_from(a);
    let c = tree.branch_from(a);
    let d = tree.branch_from(b);
    let sibling = tree.branch_from(Version(0));

    let removed = tree.remove(a);
    assert_eq!(removed, vec![d, b, c, a]);
    assert!(!tree.is_live(d));
    assert!(tree.is_live(sibling));
    assert_eq!(tree.children(Version(0)), &[sibling]);
}

#[test]
fn ancestry_and_leaves() {
    let mut tree = VersionTree::new();
    let a = tree.branch_from(Version(0));
    let b = tree.branch_from(a);

    assert!(tree.is_ancestor(Version(0), b));
    assert!(tree.is_ancestor(a, b));
    assert!(tree.is_ancestor(b, b));
    assert!(!tree.is_ancestor(b, a));
    assert!(tree.is_leaf(b));
    assert!(!tree.is_leaf(a));
    assert_eq!(tree.parent(b), Some(a));
    assert_eq!(tree.parent(Version(0)), None);

    let walked: Vec<Version> = {
        let mut iter = tree.ancestors(b);
        let mut out = Vec::new();
        while let Some(v) = iter.next() {
            out.push(v);
        }
        out
    };
    assert_eq!(walked, vec![b, a, Version(0)]);
}

#[test]
fn committed_variables_move_to_the_parent() {
    let mut tree = VersionTree::new();
    let child = tree.branch_from(Version(0));
    let variable = tree.alloc_var(child, Universe(2));
    tree.reown_variables(child, Version(0));

    assert_eq!(tree.get_variable(Version(0), variable).owner, Version(0));
    tree.remove(child);
    assert!(tree.visible_variables(Version(0)).contains(&variable));
}

#[test]
fn removed_version_stays_dead_through_later_operations() {
    let mut tree = VersionTree::new();
    let child = tree.branch_from(Version(0));
    let grandchild = tree.branch_from(child);
    tree.remove(child);
    assert!(!tree.is_live(child));
    assert!(!tree.is_live(grandchild));

    let other = tree.branch_from(Version(0));
    tree.alloc_var(other, Universe(0));
    let nested = tree.branch_from(other);
    tree.remove(nested);
    assert!(!tree.is_live(child));
    assert!(!tree.is_live(grandchild));
    assert_ne!(other, child);
    assert_ne!(other, grandchild);
}

#[test]
fn ancestry_walks_parent_links() {
    let mut tree = VersionTree::new();
    let child = tree.branch_from(Version(0));
    let grandchild = tree.branch_from(child);
    let sibling = tree.branch_from(Version(0));
    assert!(tree.is_ancestor(grandchild, grandchild));
    assert!(tree.is_ancestor(child, grandchild));
    assert!(tree.is_ancestor(Version(0), grandchild));
    assert!(!tree.is_ancestor(sibling, grandchild));
    assert!(!tree.is_ancestor(grandchild, child));
}
