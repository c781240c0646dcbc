use sage_ir::skeleton::{decompose, recompose, Skeleton};
use sage_ir::ty::{IntTy, Ty, TyStore};

#[test]
fn round_trip_leaf() {
    let mut stash = TyStore::new();
    let ty = stash.intern(Ty::Int(IntTy::I32));
    let d = decompose(&stash, ty);
    assert_eq!(d.skeleton, Skeleton::Int(IntTy::I32));
    assert!(d.child_ids().is_empty());

    let recomposed = recompose(&mut stash, d.skeleton, d.child_ids());
    assert_eq!(recomposed, ty);
}

#[test]
fn round_trip_tuple() {
    let mut stash = TyStore::new();
    let i32_ptr = stash.intern(Ty::Int(IntTy::I32));
    let bool_ptr = stash.intern(Ty::Bool);
    let tup_elems = stash.intern_list(&[i32_ptr, bool_ptr]);
    let tup = stash.intern(Ty::Tuple(tup_elems));

    let d = decompose(&stash, tup);
    assert_eq!(d.skeleton, Skeleton::Tuple(2));
    assert_eq!(d.child_ids().len(), 2);

    let recomposed = recompose(&mut stash, d.skeleton, d.child_ids());
    assert_eq!(recomposed, tup);
}

#[test]
fn round_trip_fn_ptr() {
    let mut stash = TyStore::new();
    let i32_ptr = stash.intern(Ty::Int(IntTy::I32));
    let bool_ptr = stash.intern(Ty::Bool);
    let params = stash.intern_list(&[i32_ptr]);
    let fn_ty = stash.intern(Ty::FnPtr(params, bool_ptr));

    let d = decompose(&stash, fn_ty);
    assert_eq!(d.skeleton, Skeleton::FnPtr(1));
    assert_eq!(d.child_ids().len(), 2);

    let recomposed = recompose(&mut stash, d.skeleton, d.child_ids());
    assert_eq!(recomposed, fn_ty);
}

#[test]
fn recompose_with_other_children_builds_a_new_type() {
    let mut stash = TyStore::new();
    let i32_ptr = stash.intern(Ty::Int(IntTy::I32));
    let bool_ptr = stash.intern(Ty::Bool);
    let elems = stash.intern_list(&[i32_ptr, i32_ptr]);
    let tup = stash.intern(Ty::Tuple(elems));

    let d = decompose(&stash, tup);
    let other = recompose(&mut stash, d.skeleton, &[bool_ptr, i32_ptr, bool_ptr]);
    assert_ne!(other, tup);
    let again = decompose(&stash, other);
    assert_eq!(again.skeleton, Skeleton::Tuple(3));
    assert_eq!(again.child_ids(), &[bool_ptr, i32_ptr, bool_ptr]);
}

#[test]
fn interning_returns_existing_identities() {
    let mut stash = TyStore::new();
    let a = stash.intern(Ty::Bool);
    let b = stash.intern(Ty::Char);
    let c = stash.intern(Ty::Bool);
    assert_eq!(a, c);
    assert_ne!(a, b);
    let l1 = stash.intern_list(&[a, b]);
    let l2 = stash.intern_list(&[a, b]);
    assert_eq!(l1, l2);
    assert_eq!(stash.list(l1), &[a, b]);
    assert_eq!(stash.get(b), Ty::Char);
}
