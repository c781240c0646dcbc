//! Splitting a type into its rigid skeleton and its sub-type children, and
//! putting it back together.
use vstd::prelude::*;

use smallvec::SmallVec;

use crate::cst::Mutability;
use crate::generic_param::GenericParam;
use crate::ty::{
    refs_below, ty_direct, ty_lists, AliasTy, Const, ErrorReported, FloatTy, InferVarIndex, IntTy,
    Lifetime, NamedAliasTy, OpaqueAliasTy, ProjectionTy, Symbol, TraitRef, TraitSymbol, Ty, TyId,
    TyList, TyStore, TypeAliasSymbol, UintTy,
};

verus! {

/// The rigid part of a type: everything except the sub-type children.
#[derive(Copy, Clone, Debug, PartialEq, Eq, Structural, Hash)]
pub enum Skeleton {
    // Primitives (0 children)
    Bool,
    Char,
    Int(IntTy),
    Uint(UintTy),
    Float(FloatTy),
    Str,
    Never,
    Error(ErrorReported),
    Param(GenericParam),
    InferVar(InferVarIndex),
    // Compound (1+ children)
    Adt(Symbol, u32),
    NamedAlias(TypeAliasSymbol, u32),
    AssociatedAlias {
        associated_ty: TypeAliasSymbol,
        trait_sym: TraitSymbol,
        trait_arg_count: u32,
        item_arg_count: u32,
    },
    OpaqueAlias(TypeAliasSymbol, u32),
    Ref(Mutability, Lifetime),
    Tuple(u32),
    Slice,
    Array(Const),
    /// Children are [params..., ret].
    FnPtr(u32),
}

/// The sub-type children of a type, stored inline up to five.
#[verifier::external_body]
pub struct Children {
    items: SmallVec<[TyId; 5]>,
}

/// The identities a children vector holds, in order.
pub uninterp spec fn children_items(children: Children) -> Seq<TyId>;

/// `SmallVec::new`: an empty vector.
#[verifier::external_body]
fn children_new() -> (children: Children)
    ensures
        children_items(children) == Seq::<TyId>::empty(),
{
    Children { items: SmallVec::new() }
}

/// `SmallVec::from_slice`: a vector holding a copy of `ids`.
#[verifier::external_body]
fn children_from_slice(ids: &[TyId]) -> (children: Children)
    ensures
        children_items(children) == ids@,
{
    Children { items: SmallVec::from_slice(ids) }
}

/// `SmallVec::push`: appends `id`. The capacity grows to the next power
/// of two, which a `usize` of 32 or 64 bits holds below 2^31 items.
#[verifier::external_body]
fn children_push(children: &mut Children, id: TyId)
    requires
        children_items(*old(children)).len() < 0x8000_0000,
    ensures
        children_items(*final(children)) == children_items(*old(children)).push(id),
{
    children.items.push(id)
}

/// `SmallVec::len`: the number of items.
#[verifier::external_body]
pub(crate) fn children_len(children: &Children) -> (len: usize)
    ensures
        len == children_items(*children).len(),
{
    children.items.len()
}

/// Indexing a `SmallVec` (through its slice): the item at `index`.
#[verifier::external_body]
pub(crate) fn children_get(children: &Children, index: usize) -> (id: TyId)
    requires
        index < children_items(*children).len(),
    ensures
        id == children_items(*children)[index as int],
{
    children.items[index]
}

/// `SmallVec::as_slice`: the items as a slice.
#[verifier::external_body]
pub(crate) fn children_as_slice(children: &Children) -> (ids: &[TyId])
    ensures
        ids@ == children_items(*children),
{
    children.items.as_slice()
}

/// A decomposed type: skeleton + children.
pub struct Decomposed {
    pub skeleton: Skeleton,
    pub children: Children,
}

impl Decomposed {
    /// The children, in order.
    pub open spec fn children_view(&self) -> Seq<TyId> {
        children_items(self.children)
    }

    /// The children as a slice.
    pub fn child_ids(&self) -> (ids: &[TyId])
        ensures
            ids@ == self.children_view(),
    {
        children_as_slice(&self.children)
    }
}

/// The skeleton and children of `ty`, reading its lists from `lists`.
pub open spec fn decomposition(ty: Ty, lists: Seq<Seq<TyId>>) -> (Skeleton, Seq<TyId>) {
    match ty {
        Ty::Bool => (Skeleton::Bool, Seq::empty()),
        Ty::Char => (Skeleton::Char, Seq::empty()),
        Ty::Int(i) => (Skeleton::Int(i), Seq::empty()),
        Ty::Uint(u) => (Skeleton::Uint(u), Seq::empty()),
        Ty::Float(f) => (Skeleton::Float(f), Seq::empty()),
        Ty::Str => (Skeleton::Str, Seq::empty()),
        Ty::Never => (Skeleton::Never, Seq::empty()),
        Ty::Error(e) => (Skeleton::Error(e), Seq::empty()),
        Ty::Param(p) => (Skeleton::Param(p), Seq::empty()),
        Ty::InferVar(v) => (Skeleton::InferVar(v), Seq::empty()),
        Ty::Adt(sym, args) => (
            Skeleton::Adt(sym, lists[args.0 as int].len() as u32),
            lists[args.0 as int],
        ),
        Ty::Alias(AliasTy::Named(alias)) => (
            Skeleton::NamedAlias(alias.def, lists[alias.args.0 as int].len() as u32),
            lists[alias.args.0 as int],
        ),
        Ty::Alias(AliasTy::Associated(p)) => (
            Skeleton::AssociatedAlias {
                associated_ty: p.associated_ty,
                trait_sym: p.trait_ref.trait_sym,
                trait_arg_count: lists[p.trait_ref.args.0 as int].len() as u32,
                item_arg_count: lists[p.args.0 as int].len() as u32,
            },
            seq![p.self_ty] + lists[p.trait_ref.args.0 as int] + lists[p.args.0 as int],
        ),
        Ty::Alias(AliasTy::Opaque(alias)) => (
            Skeleton::OpaqueAlias(alias.def, lists[alias.args.0 as int].len() as u32),
            lists[alias.args.0 as int],
        ),
        Ty::Ref(inner, m, lt) => (Skeleton::Ref(m, lt), seq![inner]),
        Ty::Tuple(elems) => (Skeleton::Tuple(lists[elems.0 as int].len() as u32), lists[elems.0 as int]),
        Ty::Slice(inner) => (Skeleton::Slice, seq![inner]),
        Ty::Array(inner, c) => (Skeleton::Array(c), seq![inner]),
        Ty::FnPtr(params, ret) => (
            Skeleton::FnPtr(lists[params.0 as int].len() as u32),
            lists[params.0 as int].push(ret),
        ),
    }
}

/// The children of `ty`.
pub open spec fn children(ty: Ty, lists: Seq<Seq<TyId>>) -> Seq<TyId> {
    decomposition(ty, lists).1
}

/// `recompose` can rebuild `skeleton` from `count` children.
pub open spec fn enough_children(skeleton: Skeleton, count: nat) -> bool {
    match skeleton {
        Skeleton::Ref(_, _) | Skeleton::Slice | Skeleton::Array(_) => count >= 1,
        Skeleton::AssociatedAlias { trait_arg_count, item_arg_count, .. } => 1 + trait_arg_count
            + item_arg_count <= count,
        Skeleton::FnPtr(param_count) => param_count < count,
        _ => true,
    }
}

/// Skeletons whose children are stored as one list need that list to fit
/// in `u32` identities.
pub open spec fn whole_list_fits(skeleton: Skeleton, count: nat) -> bool {
    match skeleton {
        Skeleton::Adt(_, _) | Skeleton::NamedAlias(_, _) | Skeleton::OpaqueAlias(_, _)
        | Skeleton::Tuple(_) => count <= u32::MAX,
        _ => true,
    }
}

/// The children that `recompose` actually uses.
pub open spec fn used_children(skeleton: Skeleton, children: Seq<TyId>) -> Seq<TyId> {
    match skeleton {
        Skeleton::Adt(_, _) | Skeleton::NamedAlias(_, _) | Skeleton::OpaqueAlias(_, _)
        | Skeleton::Tuple(_) => children,
        Skeleton::AssociatedAlias { trait_arg_count, item_arg_count, .. } => children.take(
            1 + trait_arg_count + item_arg_count,
        ),
        Skeleton::Ref(_, _) | Skeleton::Slice | Skeleton::Array(_) => seq![children[0]],
        Skeleton::FnPtr(param_count) => children.take(param_count + 1),
        _ => Seq::empty(),
    }
}

/// The skeleton of the type that `recompose` builds: arities that the type
/// records implicitly are recomputed from the children.
pub open spec fn rebuilt_skeleton(skeleton: Skeleton, children: Seq<TyId>) -> Skeleton {
    match skeleton {
        Skeleton::Adt(sym, _) => Skeleton::Adt(sym, children.len() as u32),
        Skeleton::NamedAlias(def, _) => Skeleton::NamedAlias(def, children.len() as u32),
        Skeleton::OpaqueAlias(def, _) => Skeleton::OpaqueAlias(def, children.len() as u32),
        Skeleton::Tuple(_) => Skeleton::Tuple(children.len() as u32),
        _ => skeleton,
    }
}

/// Decompose a type into its skeleton and sub-type children.
pub fn decompose(stash: &TyStore, ty: TyId) -> (decomposed: Decomposed)
    requires
        stash.wf(),
        ty.0 < stash.types().len(),
    ensures
        (decomposed.skeleton, decomposed.children_view()) == decomposition(
            stash.types()[ty.0 as int],
            stash.lists(),
        ),
        forall|k: int|
            0 <= k < decomposed.children_view().len() ==> (#[trigger] decomposed.children_view()[k]).0 < ty.0,
{
    let t = stash.get(ty);
    proof {
        assert(refs_below(t, stash.lists(), ty.0 as nat));
    }
    let decomposed = match t {
        Ty::Bool => leaf(Skeleton::Bool),
        Ty::Char => leaf(Skeleton::Char),
        Ty::Int(i) => leaf(Skeleton::Int(i)),
        Ty::Uint(u) => leaf(Skeleton::Uint(u)),
        Ty::Float(f) => leaf(Skeleton::Float(f)),
        Ty::Str => leaf(Skeleton::Str),
        Ty::Never => leaf(Skeleton::Never),
        Ty::Error(e) => leaf(Skeleton::Error(e)),
        Ty::Param(p) => leaf(Skeleton::Param(p)),
        Ty::InferVar(idx) => leaf(Skeleton::InferVar(idx)),
        Ty::Adt(sym, args) => {
            proof {
                assert(ty_lists(t)[0] == args);
            }
            let children = children_from_slice(stash.list(args));
            let arity = children_len(&children) as u32;
            Decomposed { skeleton: Skeleton::Adt(sym, arity), children }
        },
        Ty::Alias(AliasTy::Named(alias)) => {
            proof {
                assert(ty_lists(t)[0] == alias.args);
            }
            let children = children_from_slice(stash.list(alias.args));
            let arity = children_len(&children) as u32;
            Decomposed { skeleton: Skeleton::NamedAlias(alias.def, arity), children }
        },
        Ty::Alias(AliasTy::Associated(projection)) => {
            proof {
                assert(ty_lists(t)[0] == projection.trait_ref.args);
                assert(ty_lists(t)[1] == projection.args);
                assert(ty_direct(t)[0] == projection.self_ty);
            }
            let trait_args = stash.list(projection.trait_ref.args);
            let item_args = stash.list(projection.args);
            let mut ids: Vec<TyId> = Vec::new();
            ids.push(projection.self_ty);
            extend_ids(&mut ids, trait_args);
            extend_ids(&mut ids, item_args);
            let children = children_from_slice(ids.as_slice());
            Decomposed {
                skeleton: Skeleton::AssociatedAlias {
                    associated_ty: projection.associated_ty,
                    trait_sym: projection.trait_ref.trait_sym,
                    trait_arg_count: trait_args.len() as u32,
                    item_arg_count: item_args.len() as u32,
                },
                children,
            }
        },
        Ty::Alias(AliasTy::Opaque(alias)) => {
            proof {
                assert(ty_lists(t)[0] == alias.args);
            }
            let children = children_from_slice(stash.list(alias.args));
            let arity = children_len(&children) as u32;
            Decomposed { skeleton: Skeleton::OpaqueAlias(alias.def, arity), children }
        },
        Ty::Ref(inner, m, lt) => {
            proof {
                assert(ty_direct(t)[0] == inner);
            }
            let mut children = children_new();
            children_push(&mut children, inner);
            Decomposed { skeleton: Skeleton::Ref(m, lt), children }
        },
        Ty::Tuple(elems) => {
            proof {
                assert(ty_lists(t)[0] == elems);
            }
            let children = children_from_slice(stash.list(elems));
            let arity = children_len(&children) as u32;
            Decomposed { skeleton: Skeleton::Tuple(arity), children }
        },
        Ty::Slice(inner) => {
            proof {
                assert(ty_direct(t)[0] == inner);
            }
            let mut children = children_new();
            children_push(&mut children, inner);
            Decomposed { skeleton: Skeleton::Slice, children }
        },
        Ty::Array(inner, c) => {
            proof {
                assert(ty_direct(t)[0] == inner);
            }
            let mut children = children_new();
            children_push(&mut children, inner);
            Decomposed { skeleton: Skeleton::Array(c), children }
        },
        Ty::FnPtr(params, ret) => {
            proof {
                assert(ty_lists(t)[0] == params);
                assert(ty_direct(t)[0] == ret);
            }
            let param_ids = stash.list(params);
            let param_count = param_ids.len() as u32;
            let mut ids: Vec<TyId> = Vec::new();
            extend_ids(&mut ids, param_ids);
            ids.push(ret);
            let children = children_from_slice(ids.as_slice());
            Decomposed { skeleton: Skeleton::FnPtr(param_count), children }
        },
    };
    proof {
        let (s, cs) = decomposition(t, stash.lists());
        assert(decomposed.children_view() =~= cs);
        assert forall|k: int| 0 <= k < cs.len() implies (#[trigger] cs[k]).0 < ty.0 by {
            match t {
                Ty::Adt(_, args) => {
                    assert(ty_lists(t)[0] == args);
                    assert(stash.lists()[ty_lists(t)[0].0 as int][k] == cs[k]);
                },
                Ty::Alias(AliasTy::Named(alias)) => {
                    assert(ty_lists(t)[0] == alias.args);
                    assert(stash.lists()[ty_lists(t)[0].0 as int][k] == cs[k]);
                },
                Ty::Alias(AliasTy::Opaque(alias)) => {
                    assert(ty_lists(t)[0] == alias.args);
                    assert(stash.lists()[ty_lists(t)[0].0 as int][k] == cs[k]);
                },
                Ty::Tuple(elems) => {
                    assert(ty_lists(t)[0] == elems);
                    assert(stash.lists()[ty_lists(t)[0].0 as int][k] == cs[k]);
                },
                Ty::Alias(AliasTy::Associated(p)) => {
                    let a = stash.lists()[p.trait_ref.args.0 as int];
                    let b = stash.lists()[p.args.0 as int];
                    assert(ty_direct(t)[0] == p.self_ty);
                    assert(ty_lists(t)[0] == p.trait_ref.args);
                    assert(ty_lists(t)[1] == p.args);
                    if k == 0 {
                    } else if k < 1 + a.len() {
                        assert(cs[k] == a[k - 1]);
                        assert(stash.lists()[ty_lists(t)[0].0 as int][k - 1] == cs[k]);
                    } else {
                        assert(cs[k] == b[k - 1 - a.len()]);
                        assert(stash.lists()[ty_lists(t)[1].0 as int][k - 1 - a.len()] == cs[k]);
                    }
                },
                Ty::FnPtr(params, ret) => {
                    assert(ty_lists(t)[0] == params);
                    assert(ty_direct(t)[0] == ret);
                    if k < stash.lists()[params.0 as int].len() {
                        assert(stash.lists()[ty_lists(t)[0].0 as int][k] == cs[k]);
                    }
                },
                Ty::Ref(inner, _, _) => {
                    assert(ty_direct(t)[0] == inner);
                },
                Ty::Slice(inner) => {
                    assert(ty_direct(t)[0] == inner);
                },
                Ty::Array(inner, _) => {
                    assert(ty_direct(t)[0] == inner);
                },
                _ => {},
            }
        }
    }
    decomposed
}


/// Recompose a skeleton and children back into a type.
pub fn recompose(stash: &mut TyStore, skeleton: Skeleton, children: &[TyId]) -> (ty: TyId)
    requires
        old(stash).wf(),
        enough_children(skeleton, children@.len()),
        whole_list_fits(skeleton, children@.len()),
        forall|k: int| 0 <= k < children@.len() ==> (#[trigger] children@[k]).0 < old(stash).types().len(),
        old(stash).types().len() < u32::MAX,
        old(stash).lists().len() + 2 <= u32::MAX,
    ensures
        final(stash).wf(),
        final(stash).extends(old(stash)),
        ty.0 < final(stash).types().len(),
        decomposition(final(stash).types()[ty.0 as int], final(stash).lists()) == (
            rebuilt_skeleton(skeleton, children@),
            used_children(skeleton, children@),
        ),
        final(stash).types() == old(stash).types() || final(stash).types() == old(
            stash,
        ).types().push(final(stash).types()[ty.0 as int]),
        final(stash).lists().len() <= old(stash).lists().len() + 2,
{
    let count = children.len();
    let ty: Ty = match skeleton {
        Skeleton::Bool => Ty::Bool,
        Skeleton::Char => Ty::Char,
        Skeleton::Int(i) => Ty::Int(i),
        Skeleton::Uint(u) => Ty::Uint(u),
        Skeleton::Float(f) => Ty::Float(f),
        Skeleton::Str => Ty::Str,
        Skeleton::Never => Ty::Never,
        Skeleton::Error(e) => Ty::Error(e),
        Skeleton::Param(p) => Ty::Param(p),
        Skeleton::InferVar(idx) => Ty::InferVar(idx),
        Skeleton::Adt(sym, _arity) => {
            let args = stash.intern_list(children);
            Ty::Adt(sym, args)
        },
        Skeleton::NamedAlias(def, _arity) => Ty::Alias(
            AliasTy::Named(NamedAliasTy { def, args: stash.intern_list(children) }),
        ),
        Skeleton::AssociatedAlias { associated_ty, trait_sym, trait_arg_count, item_arg_count } => {
            assert(1 + trait_arg_count + item_arg_count <= count);
            let trait_end = 1 + trait_arg_count as usize;
            let item_end = trait_end + item_arg_count as usize;
            let trait_part = sub_list(children, 1, trait_end);
            let item_part = sub_list(children, trait_end, item_end);
            let trait_args = stash.intern_list(trait_part.as_slice());
            let ghost mid = *stash;
            let args = stash.intern_list(item_part.as_slice());
            proof {
                assert(stash.lists()[trait_args.0 as int] == mid.lists()[trait_args.0 as int]);
            }
            Ty::Alias(
                AliasTy::Associated(
                    ProjectionTy {
                        associated_ty,
                        self_ty: children[0],
                        trait_ref: TraitRef { trait_sym, args: trait_args },
                        args,
                    },
                ),
            )
        },
        Skeleton::OpaqueAlias(def, _arity) => Ty::Alias(
            AliasTy::Opaque(OpaqueAliasTy { def, args: stash.intern_list(children) }),
        ),
        Skeleton::Ref(m, lt) => Ty::Ref(children[0], m, lt),
        Skeleton::Tuple(_arity) => {
            let elems = stash.intern_list(children);
            Ty::Tuple(elems)
        },
        Skeleton::Slice => Ty::Slice(children[0]),
        Skeleton::Array(c) => Ty::Array(children[0], c),
        Skeleton::FnPtr(param_count) => {
            let params = sub_list(children, 0, param_count as usize);
            let params_slice = stash.intern_list(params.as_slice());
            let ret = children[param_count as usize];
            Ty::FnPtr(params_slice, ret)
        },
    };
    proof {
        let lists = stash.lists();
        match ty {
            Ty::Adt(_, a) => {
                assert(ty_lists(ty)[0] == a);
            },
            Ty::Alias(AliasTy::Named(al)) => {
                assert(ty_lists(ty)[0] == al.args);
            },
            Ty::Alias(AliasTy::Opaque(al)) => {
                assert(ty_lists(ty)[0] == al.args);
            },
            Ty::Tuple(a) => {
                assert(ty_lists(ty)[0] == a);
            },
            Ty::FnPtr(a, _) => {
                assert(ty_lists(ty)[0] == a);
            },
            Ty::Alias(AliasTy::Associated(p)) => {
                assert(ty_lists(ty)[0] == p.trait_ref.args);
                assert(ty_lists(ty)[1] == p.args);
            },
            _ => {},
        }
        assert(refs_below(ty, stash.lists(), stash.types().len()));
    }
    let id = stash.intern(ty);
    proof {
        let lists = stash.lists();
        let cs = children@;
        match skeleton {
            Skeleton::AssociatedAlias { trait_arg_count, item_arg_count, .. } => {
                let te = 1 + trait_arg_count;
                let ie = te + item_arg_count;
                assert(cs.take(ie as int) =~= seq![cs[0]] + cs.subrange(1, te as int) + cs.subrange(
                    te as int,
                    ie as int,
                ));
            },
            Skeleton::FnPtr(pc) => {
                assert(cs.take(pc + 1) =~= cs.subrange(0, pc as int).push(cs[pc as int]));
            },
            _ => {},
        }
    }
    id
}

/// A store that extends `old` decomposes each type of `old` as `old` does.
pub proof fn lemma_decomposition_extends(new: &TyStore, old: &TyStore, i: int)
    requires
        old.wf(),
        new.extends(old),
        0 <= i < old.types().len(),
    ensures
        decomposition(new.types()[i], new.lists()) == decomposition(old.types()[i], old.lists()),
{
    let t = old.types()[i];
    assert(new.types()[i] == t);
    assert(refs_below(t, old.lists(), i as nat));
    assert forall|j: int| 0 <= j < ty_lists(t).len() implies new.lists()[(#[trigger] ty_lists(t)[j]).0 as int]
        == old.lists()[ty_lists(t)[j].0 as int] by {}
    match t {
        Ty::Alias(AliasTy::Associated(p)) => {
            assert(ty_lists(t)[0] == p.trait_ref.args);
            assert(ty_lists(t)[1] == p.args);
        },
        Ty::Adt(_, args) => { assert(ty_lists(t)[0] == args); },
        Ty::Alias(AliasTy::Named(a)) => { assert(ty_lists(t)[0] == a.args); },
        Ty::Alias(AliasTy::Opaque(a)) => { assert(ty_lists(t)[0] == a.args); },
        Ty::Tuple(e) => { assert(ty_lists(t)[0] == e); },
        Ty::FnPtr(ps, _) => { assert(ty_lists(t)[0] == ps); },
        _ => {},
    }
}

/// The decomposition of an interned type is unique to it.
pub proof fn lemma_decomposition_injective(stash: &TyStore, i: int, j: int)
    requires
        stash.wf(),
        0 <= i < stash.types().len(),
        0 <= j < stash.types().len(),
        decomposition(stash.types()[i], stash.lists()) == decomposition(
            stash.types()[j],
            stash.lists(),
        ),
    ensures
        i == j,
{
    let a = stash.types()[i];
    let b = stash.types()[j];
    let lists = stash.lists();
    assert(refs_below(a, lists, i as nat));
    assert(refs_below(b, lists, j as nat));
    match (a, b) {
        (Ty::Adt(_, x), Ty::Adt(_, y)) => {
            assert(ty_lists(a)[0] == x && ty_lists(b)[0] == y);
            assert(lists[x.0 as int] == lists[y.0 as int]);
        },
        (Ty::Tuple(x), Ty::Tuple(y)) => {
            assert(ty_lists(a)[0] == x && ty_lists(b)[0] == y);
        },
        (Ty::Alias(AliasTy::Named(x)), Ty::Alias(AliasTy::Named(y))) => {
            assert(ty_lists(a)[0] == x.args && ty_lists(b)[0] == y.args);
        },
        (Ty::Alias(AliasTy::Opaque(x)), Ty::Alias(AliasTy::Opaque(y))) => {
            assert(ty_lists(a)[0] == x.args && ty_lists(b)[0] == y.args);
        },
        (Ty::Alias(AliasTy::Associated(x)), Ty::Alias(AliasTy::Associated(y))) => {
            assert(ty_lists(a)[0] == x.trait_ref.args && ty_lists(b)[0] == y.trait_ref.args);
            assert(ty_lists(a)[1] == x.args && ty_lists(b)[1] == y.args);
            let xa = lists[x.trait_ref.args.0 as int];
            let xb = lists[x.args.0 as int];
            let ya = lists[y.trait_ref.args.0 as int];
            let yb = lists[y.args.0 as int];
            let cx = seq![x.self_ty] + xa + xb;
            let cy = seq![y.self_ty] + ya + yb;
            assert(xa.len() == ya.len());
            assert(xb.len() == yb.len());
            assert(cx == cy);
            assert(xa =~= cx.subrange(1, 1 + xa.len() as int));
            assert(ya =~= cy.subrange(1, 1 + ya.len() as int));
            assert(xb =~= cx.subrange(1 + xa.len() as int, cx.len() as int));
            assert(yb =~= cy.subrange(1 + ya.len() as int, cy.len() as int));
            assert(x.self_ty == cx[0]);
        },
        (Ty::FnPtr(x, rx), Ty::FnPtr(y, ry)) => {
            assert(ty_lists(a)[0] == x && ty_lists(b)[0] == y);
            let cx = lists[x.0 as int].push(rx);
            let cy = lists[y.0 as int].push(ry);
            assert(lists[x.0 as int] =~= cx.drop_last());
            assert(lists[y.0 as int] =~= cy.drop_last());
            assert(rx == cx.last());
        },
        (Ty::Ref(x, _, _), Ty::Ref(y, _, _)) => {
            assert(seq![x][0] == seq![y][0]);
        },
        (Ty::Slice(x), Ty::Slice(y)) => {
            assert(seq![x][0] == seq![y][0]);
        },
        (Ty::Array(x, _), Ty::Array(y, _)) => {
            assert(seq![x][0] == seq![y][0]);
        },
        _ => {},
    }
    assert(a == b);
}

/// Decomposing a type yields a skeleton and children from which `recompose`
/// rebuilds exactly that skeleton and those children.
pub proof fn lemma_decomposition_fixpoint(stash: &TyStore, i: int)
    requires
        stash.wf(),
        0 <= i < stash.types().len(),
    ensures
        ({
            let (skeleton, children) = decomposition(stash.types()[i], stash.lists());
            &&& enough_children(skeleton, children.len())
            &&& rebuilt_skeleton(skeleton, children) == skeleton
            &&& used_children(skeleton, children) == children
            &&& whole_list_fits(skeleton, children.len())
        }),
{
    let t = stash.types()[i];
    let lists = stash.lists();
    assert(refs_below(t, lists, i as nat));
    let (skeleton, children) = decomposition(t, lists);
    match t {
        Ty::Alias(AliasTy::Associated(p)) => {
            assert(ty_lists(t)[0] == p.trait_ref.args);
            assert(ty_lists(t)[1] == p.args);
            assert(children.take(children.len() as int) =~= children);
        },
        Ty::FnPtr(x, _) => {
            assert(ty_lists(t)[0] == x);
            assert(children.take(children.len() as int) =~= children);
        },
        Ty::Adt(_, x) => {
            assert(ty_lists(t)[0] == x);
        },
        Ty::Tuple(x) => {
            assert(ty_lists(t)[0] == x);
        },
        Ty::Alias(AliasTy::Named(x)) => {
            assert(ty_lists(t)[0] == x.args);
        },
        Ty::Alias(AliasTy::Opaque(x)) => {
            assert(ty_lists(t)[0] == x.args);
        },
        _ => {},
    }
}

/// Recomposing the decomposition of an interned type gives back that type:
/// the only type whose decomposition is what `recompose` builds from the
/// skeleton and children of type `i` is `i` itself.
pub proof fn law_recompose_inverts_decompose(stash: &TyStore, i: int, j: int)
    requires
        stash.wf(),
        0 <= i < stash.types().len(),
        0 <= j < stash.types().len(),
        ({
            let (skeleton, children) = decomposition(stash.types()[i], stash.lists());
            decomposition(stash.types()[j], stash.lists()) == (
                rebuilt_skeleton(skeleton, children),
                used_children(skeleton, children),
            )
        }),
    ensures
        i == j,
{
    lemma_decomposition_fixpoint(stash, i);
    lemma_decomposition_injective(stash, i, j);
}

/// Replacing the children of a decomposition by as many others keeps the
/// skeleton, and `recompose` uses all of them.
pub proof fn lemma_same_shape(skeleton: Skeleton, old_children: Seq<TyId>, new_children: Seq<TyId>)
    requires
        enough_children(skeleton, old_children.len()),
        whole_list_fits(skeleton, old_children.len()),
        rebuilt_skeleton(skeleton, old_children) == skeleton,
        used_children(skeleton, old_children) == old_children,
        new_children.len() == old_children.len(),
    ensures
        enough_children(skeleton, new_children.len()),
        whole_list_fits(skeleton, new_children.len()),
        rebuilt_skeleton(skeleton, new_children) == skeleton,
        used_children(skeleton, new_children) == new_children,
{
    match skeleton {
        Skeleton::AssociatedAlias { trait_arg_count, item_arg_count, .. } => {
            assert(old_children.take(1 + trait_arg_count + item_arg_count).len() == old_children.len());
            assert(new_children.take(1 + trait_arg_count + item_arg_count) =~= new_children);
        },
        Skeleton::FnPtr(param_count) => {
            assert(old_children.take(param_count + 1).len() == old_children.len());
            assert(new_children.take(param_count + 1) =~= new_children);
        },
        Skeleton::Ref(_, _) | Skeleton::Slice | Skeleton::Array(_) => {
            assert(seq![old_children[0]].len() == old_children.len());
            assert(seq![new_children[0]] =~= new_children);
        },
        Skeleton::Adt(_, _) | Skeleton::NamedAlias(_, _) | Skeleton::OpaqueAlias(_, _)
        | Skeleton::Tuple(_) => {},
        _ => {
            assert(Seq::<TyId>::empty().len() == old_children.len());
            assert(new_children =~= Seq::<TyId>::empty());
        },
    }
}

fn leaf(skeleton: Skeleton) -> (decomposed: Decomposed)
    ensures
        decomposed.skeleton == skeleton,
        decomposed.children_view() == Seq::<TyId>::empty(),
{
    Decomposed { skeleton, children: children_new() }
}

/// Append `ids` to `out`.
fn extend_ids(out: &mut Vec<TyId>, ids: &[TyId])
    ensures
        final(out)@ == old(out)@ + ids@,
{
    let mut i: usize = 0;
    while i < ids.len()
        invariant
            i <= ids@.len(),
            out@ == old(out)@ + ids@.take(i as int),
        decreases ids@.len() - i,
    {
        out.push(ids[i]);
        proof {
            assert(ids@.take(i + 1) == ids@.take(i as int).push(ids@[i as int]));
        }
        i += 1;
    }
    proof {
        assert(ids@.take(ids@.len() as int) == ids@);
    }
}

/// Copy `ids[from..to]`.
fn sub_list(ids: &[TyId], from: usize, to: usize) -> (part: Vec<TyId>)
    requires
        from <= to <= ids@.len(),
    ensures
        part@ == ids@.subrange(from as int, to as int),
{
    let mut part: Vec<TyId> = Vec::new();
    let mut i: usize = from;
    while i < to
        invariant
            from <= i <= to,
            to <= ids@.len(),
            part@ == ids@.subrange(from as int, i as int),
        decreases to - i,
    {
        part.push(ids[i]);
        proof {
            assert(ids@.subrange(from as int, i + 1) == ids@.subrange(from as int, i as int).push(
                ids@[i as int],
            ));
        }
        i += 1;
    }
    part
}

} // verus!
