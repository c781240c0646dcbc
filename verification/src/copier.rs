//! Copying types from one store into another under a substitution of
//! generic parameters and a renaming of bound ones.
use vstd::prelude::*;

use crate::anti_unify::{lemma_decomposition_extends, sizes_below, tree_size};
use crate::egraph::log_get;
use crate::generic_param::{AlphaEquivParam, GenericParam};
use crate::goal::{subst_at, subst_entry_below, Atom, GoalStore, Subst};
use crate::skeleton::children;
use crate::ty::{refs_below, ty_direct, ty_lists, Const, TraitRef, Ty, TyId, TyStore, WherePredicate};

verus! {

/// `p` under the binder renaming `renaming`.
pub open spec fn renamed(renaming: Seq<(GenericParam, GenericParam)>, p: GenericParam) -> GenericParam {
    match log_get(renaming, p) {
        Some(q) => q,
        None => p,
    }
}

/// A constant under the binder renaming `renaming`.
pub open spec fn copied_const(renaming: Seq<(GenericParam, GenericParam)>, c: Const) -> Const {
    match c {
        Const::Param(p) => Const::Param(renamed(renaming, p)),
        other => other,
    }
}

/// No alias type occurs in `ty` or below it.
pub open spec fn alias_free(stash: &TyStore, ty: TyId) -> bool
    decreases ty.0 as nat + 1, 0nat,
{
    !(stash.types()[ty.0 as int] is Alias) && all_alias_free(
        stash,
        children(stash.types()[ty.0 as int], stash.lists()),
        ty.0 as nat,
    )
}

/// No alias type occurs in those of `ids` below `bound` nor below them.
pub open spec fn all_alias_free(stash: &TyStore, ids: Seq<TyId>, bound: nat) -> bool
    decreases bound, ids.len(),
{
    if ids.len() == 0 {
        true
    } else {
        all_alias_free(stash, ids.drop_last(), bound) && if ids.last().0 < bound {
            alias_free(stash, ids.last())
        } else {
            true
        }
    }
}

/// Target type `t` is the copy of source type `s`: a parameter that
/// `mapping` maps is its image; another parameter is renamed by
/// `renaming`; compound types are rebuilt over the copies of their parts;
/// any other type is taken as it is.
pub open spec fn ty_copy(
    src: &TyStore,
    tgt: &TyStore,
    s: TyId,
    t: TyId,
    mapping: Seq<(GenericParam, TyId)>,
    renaming: Seq<(GenericParam, GenericParam)>,
) -> bool
    decreases s.0 as nat + 1, 0nat,
{
    &&& t.0 < tgt.types().len()
    &&& match src.types()[s.0 as int] {
        Ty::Param(p) => match log_get(mapping, p) {
            Some(image) => t == image,
            None => tgt.types()[t.0 as int] == Ty::Param(renamed(renaming, p)),
        },
        Ty::Adt(symbol, args) => match tgt.types()[t.0 as int] {
            Ty::Adt(symbol2, args2) => symbol2 == symbol && args2.0 < tgt.lists().len() && list_copy(
                src,
                tgt,
                src.lists()[args.0 as int],
                tgt.lists()[args2.0 as int],
                mapping,
                renaming,
                s.0 as nat,
            ),
            _ => false,
        },
        Ty::Ref(inner, m, l) => match tgt.types()[t.0 as int] {
            Ty::Ref(inner2, m2, l2) => m2 == m && l2 == l && if inner.0 < s.0 {
                ty_copy(src, tgt, inner, inner2, mapping, renaming)
            } else {
                false
            },
            _ => false,
        },
        Ty::Tuple(elems) => match tgt.types()[t.0 as int] {
            Ty::Tuple(elems2) => elems2.0 < tgt.lists().len() && list_copy(
                src,
                tgt,
                src.lists()[elems.0 as int],
                tgt.lists()[elems2.0 as int],
                mapping,
                renaming,
                s.0 as nat,
            ),
            _ => false,
        },
        Ty::Slice(inner) => match tgt.types()[t.0 as int] {
            Ty::Slice(inner2) => if inner.0 < s.0 {
                ty_copy(src, tgt, inner, inner2, mapping, renaming)
            } else {
                false
            },
            _ => false,
        },
        Ty::Array(inner, c) => match tgt.types()[t.0 as int] {
            Ty::Array(inner2, c2) => c2 == copied_const(renaming, c) && if inner.0 < s.0 {
                ty_copy(src, tgt, inner, inner2, mapping, renaming)
            } else {
                false
            },
            _ => false,
        },
        Ty::FnPtr(params, ret) => match tgt.types()[t.0 as int] {
            Ty::FnPtr(params2, ret2) => {
                &&& params2.0 < tgt.lists().len()
                &&& list_copy(
                    src,
                    tgt,
                    src.lists()[params.0 as int],
                    tgt.lists()[params2.0 as int],
                    mapping,
                    renaming,
                    s.0 as nat,
                )
                &&& if ret.0 < s.0 {
                    ty_copy(src, tgt, ret, ret2, mapping, renaming)
                } else {
                    false
                }
            },
            _ => false,
        },
        other => tgt.types()[t.0 as int] == other,
    }
}

/// Target list `ts` holds the copies of the source types `ss`, which are
/// below `bound`, in order.
pub open spec fn list_copy(
    src: &TyStore,
    tgt: &TyStore,
    ss: Seq<TyId>,
    ts: Seq<TyId>,
    mapping: Seq<(GenericParam, TyId)>,
    renaming: Seq<(GenericParam, GenericParam)>,
    bound: nat,
) -> bool
    decreases bound, ss.len(),
{
    &&& ss.len() == ts.len()
    &&& if ss.len() == 0 {
        true
    } else {
        &&& list_copy(src, tgt, ss.drop_last(), ts.drop_last(), mapping, renaming, bound)
        &&& if ss.last().0 < bound {
            ty_copy(src, tgt, ss.last(), ts.last(), mapping, renaming)
        } else {
            false
        }
    }
}

/// Copies stay copies as the target store grows.
pub proof fn lemma_ty_copy_extends(
    src: &TyStore,
    tgt: &TyStore,
    bigger: &TyStore,
    s: TyId,
    t: TyId,
    mapping: Seq<(GenericParam, TyId)>,
    renaming: Seq<(GenericParam, GenericParam)>,
)
    requires
        tgt.wf(),
        bigger.extends(tgt),
        ty_copy(src, tgt, s, t, mapping, renaming),
    ensures
        ty_copy(src, bigger, s, t, mapping, renaming),
    decreases s.0 as nat + 1, 0nat,
{
    match src.types()[s.0 as int] {
        Ty::Adt(_, args) => {
            let args2 = tgt.types()[t.0 as int]->Adt_1;
            lemma_list_copy_extends(
                src,
                tgt,
                bigger,
                src.lists()[args.0 as int],
                tgt.lists()[args2.0 as int],
                mapping,
                renaming,
                s.0 as nat,
            );
        },
        Ty::Tuple(elems) => {
            let elems2 = tgt.types()[t.0 as int]->Tuple_0;
            lemma_list_copy_extends(
                src,
                tgt,
                bigger,
                src.lists()[elems.0 as int],
                tgt.lists()[elems2.0 as int],
                mapping,
                renaming,
                s.0 as nat,
            );
        },
        Ty::FnPtr(params, ret) => {
            let params2 = tgt.types()[t.0 as int]->FnPtr_0;
            let ret2 = tgt.types()[t.0 as int]->FnPtr_1;
            lemma_list_copy_extends(
                src,
                tgt,
                bigger,
                src.lists()[params.0 as int],
                tgt.lists()[params2.0 as int],
                mapping,
                renaming,
                s.0 as nat,
            );
            lemma_ty_copy_extends(src, tgt, bigger, ret, ret2, mapping, renaming);
        },
        Ty::Ref(inner, _, _) => {
            let inner2 = tgt.types()[t.0 as int]->Ref_0;
            lemma_ty_copy_extends(src, tgt, bigger, inner, inner2, mapping, renaming);
        },
        Ty::Slice(inner) => {
            let inner2 = tgt.types()[t.0 as int]->Slice_0;
            lemma_ty_copy_extends(src, tgt, bigger, inner, inner2, mapping, renaming);
        },
        Ty::Array(inner, _) => {
            let inner2 = tgt.types()[t.0 as int]->Array_0;
            lemma_ty_copy_extends(src, tgt, bigger, inner, inner2, mapping, renaming);
        },
        _ => {},
    }
}

proof fn lemma_list_copy_extends(
    src: &TyStore,
    tgt: &TyStore,
    bigger: &TyStore,
    ss: Seq<TyId>,
    ts: Seq<TyId>,
    mapping: Seq<(GenericParam, TyId)>,
    renaming: Seq<(GenericParam, GenericParam)>,
    bound: nat,
)
    requires
        tgt.wf(),
        bigger.extends(tgt),
        list_copy(src, tgt, ss, ts, mapping, renaming, bound),
    ensures
        list_copy(src, bigger, ss, ts, mapping, renaming, bound),
    decreases bound, ss.len(),
{
    if ss.len() > 0 {
        lemma_list_copy_extends(src, tgt, bigger, ss.drop_last(), ts.drop_last(), mapping, renaming, bound);
        lemma_ty_copy_extends(src, tgt, bigger, ss.last(), ts.last(), mapping, renaming);
    }
}

/// A prefix of alias-free types is alias-free.
proof fn lemma_all_alias_free_prefix(stash: &TyStore, ids: Seq<TyId>, bound: nat, i: int)
    requires
        0 <= i <= ids.len(),
        all_alias_free(stash, ids, bound),
    ensures
        all_alias_free(stash, ids.take(i), bound),
    decreases ids.len(),
{
    if i == ids.len() {
        assert(ids.take(i) =~= ids);
    } else {
        assert(ids.drop_last().take(i) =~= ids.take(i));
        lemma_all_alias_free_prefix(stash, ids.drop_last(), bound, i);
    }
}

/// The image of a parameter is below any bound of all images.
proof fn lemma_image_below(mapping: Seq<(GenericParam, TyId)>, p: GenericParam, n: nat)
    requires
        forall|k: int| 0 <= k < mapping.len() ==> (#[trigger] mapping[k]).1.0 < n,
    ensures
        log_get(mapping, p) matches Some(image) ==> image.0 < n,
    decreases mapping.len(),
{
    if mapping.len() > 0 {
        assert(mapping.last() == mapping[mapping.len() - 1]);
        assert forall|k: int| 0 <= k < mapping.len() - 1 implies (#[trigger] mapping.drop_last()[k]).1.0 < n by {
            assert(mapping.drop_last()[k] == mapping[k]);
        }
        lemma_image_below(mapping.drop_last(), p, n);
    }
}

/// The tree sizes of the values of a substitution, added up.
pub open spec fn subst_size(stash: &TyStore, entries: Seq<crate::solve::SubstEntry>) -> nat
    decreases entries.len(),
{
    if entries.len() == 0 {
        0
    } else {
        subst_size(stash, entries.drop_last()) + tree_size(stash, entries.last().value)
    }
}

/// The state of a copy: the images of substituted parameters, the
/// renaming of bound parameters in force, and the next fresh binder index
/// when binders are freshened.
pub struct IrCopier {
    type_mapping: Vec<(GenericParam, TyId)>,
    binder_mapping: Vec<(GenericParam, GenericParam)>,
    fresh_binders: Option<u32>,
}

impl IrCopier {
    /// The images of substituted parameters; a later entry overrides.
    pub closed spec fn mapping(&self) -> Seq<(GenericParam, TyId)> {
        self.type_mapping@
    }

    /// The renaming of bound parameters in force; a later entry overrides.
    pub closed spec fn renaming(&self) -> Seq<(GenericParam, GenericParam)> {
        self.binder_mapping@
    }

    /// The next fresh binder index, when binders are freshened.
    pub closed spec fn fresh(&self) -> Option<u32> {
        self.fresh_binders
    }

    /// Every image is a type of a store with `n` types.
    pub open spec fn images_below(&self, n: nat) -> bool {
        forall|k: int| 0 <= k < self.mapping().len() ==> (#[trigger] self.mapping()[k]).1.0 < n
    }

    pub fn new(type_mapping: Vec<(GenericParam, TyId)>, fresh_binders: Option<u32>) -> (copier: Self)
        ensures
            copier.mapping() == type_mapping@,
            copier.renaming() == Seq::<(GenericParam, GenericParam)>::empty(),
            copier.fresh() == fresh_binders,
    {
        IrCopier { type_mapping, binder_mapping: Vec::new(), fresh_binders }
    }

    /// The next fresh binder index, when binders are freshened.
    pub fn next_fresh_binder(&self) -> (next: Option<u32>)
        ensures
            next == self.fresh(),
    {
        self.fresh_binders
    }

    /// The image of `p`, if it is substituted.
    fn mapped(&self, p: GenericParam) -> (image: Option<TyId>)
        ensures
            image == log_get(self.mapping(), p),
    {
        let mut i = self.type_mapping.len();
        proof {
            assert(self.type_mapping@.take(i as int) =~= self.type_mapping@);
        }
        while i > 0
            invariant
                i <= self.type_mapping@.len(),
                log_get(self.type_mapping@, p) == log_get(self.type_mapping@.take(i as int), p),
            decreases i,
        {
            proof {
                assert(self.type_mapping@.take(i as int).drop_last() =~= self.type_mapping@.take(i - 1));
            }
            if self.type_mapping[i - 1].0 == p {
                return Some(self.type_mapping[i - 1].1);
            }
            i -= 1;
        }
        proof {
            assert(self.type_mapping@.take(0) =~= Seq::<(GenericParam, TyId)>::empty());
        }
        None
    }

    /// `p` under the renaming in force.
    fn rename(&self, p: GenericParam) -> (q: GenericParam)
        ensures
            q == renamed(self.renaming(), p),
    {
        let mut i = self.binder_mapping.len();
        proof {
            assert(self.binder_mapping@.take(i as int) =~= self.binder_mapping@);
        }
        while i > 0
            invariant
                i <= self.binder_mapping@.len(),
                log_get(self.binder_mapping@, p) == log_get(self.binder_mapping@.take(i as int), p),
            decreases i,
        {
            proof {
                assert(self.binder_mapping@.take(i as int).drop_last() =~= self.binder_mapping@.take(i - 1));
            }
            if self.binder_mapping[i - 1].0 == p {
                return self.binder_mapping[i - 1].1;
            }
            i -= 1;
        }
        proof {
            assert(self.binder_mapping@.take(0) =~= Seq::<(GenericParam, GenericParam)>::empty());
        }
        p
    }

    /// A constant under the renaming in force.
    fn copy_const(&self, constant: Const) -> (copied: Const)
        ensures
            copied == copied_const(self.renaming(), constant),
    {
        match constant {
            Const::Param(param) => Const::Param(self.rename(param)),
            other => other,
        }
    }

    /// Copy each of `ids`, in order.
    fn copy_list(
        &self,
        source: &TyStore,
        target: &mut TyStore,
        ids: &[TyId],
        Ghost(bound): Ghost<nat>,
    ) -> (copied: Vec<TyId>)
        requires
            source.wf(),
            old(target).wf(),
            bound <= source.types().len(),
            forall|k: int| 0 <= k < ids@.len() ==> (#[trigger] ids@[k]).0 < bound,
            all_alias_free(source, ids@, bound),
            self.images_below(old(target).types().len()),
            old(target).types().len() + sizes_below(source, ids@, bound) <= u32::MAX,
            old(target).lists().len() + sizes_below(source, ids@, bound) <= u32::MAX,
        ensures
            final(target).wf(),
            final(target).extends(old(target)),
            list_copy(source, final(target), ids@, copied@, self.mapping(), self.renaming(), bound),
            forall|k: int| 0 <= k < copied@.len() ==> (#[trigger] copied@[k]).0 < final(target).types().len(),
            final(target).types().len() <= old(target).types().len() + sizes_below(source, ids@, bound),
            final(target).lists().len() <= old(target).lists().len() + sizes_below(source, ids@, bound),
        decreases bound, 0nat,
    {
        let mut copied: Vec<TyId> = Vec::new();
        let ghost o = *target;
        proof {
            assert(ids@.take(0) =~= Seq::<TyId>::empty());
        }
        let mut i: usize = 0;
        while i < ids.len()
            invariant
                source.wf(),
                o.wf(),
                target.wf(),
                target.extends(&o),
                bound <= source.types().len(),
                forall|k: int| 0 <= k < ids@.len() ==> (#[trigger] ids@[k]).0 < bound,
                all_alias_free(source, ids@, bound),
                self.images_below(o.types().len()),
                o.types().len() + sizes_below(source, ids@, bound) <= u32::MAX,
                o.lists().len() + sizes_below(source, ids@, bound) <= u32::MAX,
                i <= ids@.len(),
                list_copy(source, target, ids@.take(i as int), copied@, self.mapping(), self.renaming(), bound),
                forall|k: int| 0 <= k < copied@.len() ==> (#[trigger] copied@[k]).0 < target.types().len(),
                target.types().len() <= o.types().len() + sizes_below(source, ids@.take(i as int), bound),
                target.lists().len() <= o.lists().len() + sizes_below(source, ids@.take(i as int), bound),
            decreases ids@.len() - i,
        {
            let ghost before = *target;
            let ghost prefix = copied@;
            proof {
                let t = ids@.take(i + 1);
                assert(t.drop_last() =~= ids@.take(i as int));
                assert(t.last() == ids@[i as int]);
                lemma_all_alias_free_prefix(source, ids@, bound, i + 1);
                crate::anti_unify::lemma_sizes_prefix(source, ids@, bound, i + 1);
                assert forall|k: int| 0 <= k < self.mapping().len() implies (#[trigger] self.mapping()[k]).1.0
                    < target.types().len() by {}
            }
            let one = self.copy_ty(source, target, ids[i]);
            copied.push(one);
            proof {
                lemma_list_copy_extends(
                    source,
                    &before,
                    target,
                    ids@.take(i as int),
                    prefix,
                    self.mapping(),
                    self.renaming(),
                    bound,
                );
                let t = ids@.take(i + 1);
                assert(copied@.drop_last() =~= prefix);
                assert(copied@.last() == one);
            }
            i += 1;
        }
        proof {
            assert(ids@.take(ids@.len() as int) =~= ids@);
        }
        copied
    }

    /// Copy the source type `ty` into `target`.
    ///
    /// Alias types lie outside its domain (`alias_free`): an alias holds
    /// identities of lists and types of the source store, which copied as a
    /// leaf would name nothing, or something else, in `target`.
    pub fn copy_ty(&self, source: &TyStore, target: &mut TyStore, ty: TyId) -> (copied: TyId)
        requires
            source.wf(),
            old(target).wf(),
            ty.0 < source.types().len(),
            alias_free(source, ty),
            self.images_below(old(target).types().len()),
            old(target).types().len() + tree_size(source, ty) <= u32::MAX,
            old(target).lists().len() + tree_size(source, ty) <= u32::MAX,
        ensures
            final(target).wf(),
            final(target).extends(old(target)),
            ty_copy(source, final(target), ty, copied, self.mapping(), self.renaming()),
            final(target).types().len() <= old(target).types().len() + tree_size(source, ty),
            final(target).lists().len() <= old(target).lists().len() + tree_size(source, ty),
        decreases ty.0, 1nat,
    {
        let ghost o = *target;
        let t = source.get(ty);
        let ghost kids = children(t, source.lists());
        proof {
            assert(refs_below(t, source.lists(), ty.0 as nat));
            crate::merge::lemma_children_below(source, ty.0 as int);
        }
        if let Ty::Param(param) = t {
            if let Some(image) = self.mapped(param) {
                proof {
                    lemma_image_below(self.mapping(), param, target.types().len());
                }
                return image;
            }
        }
        let copied = match t {
            Ty::Param(param) => Ty::Param(self.rename(param)),
            Ty::Adt(symbol, args) => {
                proof {
                    assert(ty_lists(t)[0] == args);
                    assert(kids == source.lists()[args.0 as int]);
                }
                let list = self.copy_list(source, target, source.list(args), Ghost(ty.0 as nat));
                let ghost before = *target;
                let args2 = target.intern_list(list.as_slice());
                proof {
                    lemma_list_copy_extends(
                        source,
                        &before,
                        target,
                        source.lists()[args.0 as int],
                        list@,
                        self.mapping(),
                        self.renaming(),
                        ty.0 as nat,
                    );
                }
                Ty::Adt(symbol, args2)
            },
            Ty::Ref(inner, mutability, lifetime) => {
                proof {
                    assert(ty_direct(t)[0] == inner);
                    assert(kids.drop_last() =~= Seq::<TyId>::empty());
                }
                Ty::Ref(self.copy_ty(source, target, inner), mutability, lifetime)
            },
            Ty::Tuple(elements) => {
                proof {
                    assert(ty_lists(t)[0] == elements);
                    assert(kids == source.lists()[elements.0 as int]);
                }
                let list = self.copy_list(source, target, source.list(elements), Ghost(ty.0 as nat));
                let ghost before = *target;
                let elements2 = target.intern_list(list.as_slice());
                proof {
                    lemma_list_copy_extends(
                        source,
                        &before,
                        target,
                        source.lists()[elements.0 as int],
                        list@,
                        self.mapping(),
                        self.renaming(),
                        ty.0 as nat,
                    );
                }
                Ty::Tuple(elements2)
            },
            Ty::Slice(inner) => {
                proof {
                    assert(ty_direct(t)[0] == inner);
                    assert(kids.drop_last() =~= Seq::<TyId>::empty());
                }
                Ty::Slice(self.copy_ty(source, target, inner))
            },
            Ty::Array(inner, constant) => {
                proof {
                    assert(ty_direct(t)[0] == inner);
                    assert(kids.drop_last() =~= Seq::<TyId>::empty());
                }
                Ty::Array(self.copy_ty(source, target, inner), self.copy_const(constant))
            },
            Ty::FnPtr(parameters, result) => {
                proof {
                    assert(ty_lists(t)[0] == parameters);
                    assert(ty_direct(t)[0] == result);
                    assert(kids.drop_last() =~= source.lists()[parameters.0 as int]);
                    assert(kids.last() == result);
                }
                let list = self.copy_list(source, target, source.list(parameters), Ghost(ty.0 as nat));
                let ghost before = *target;
                let parameters2 = target.intern_list(list.as_slice());
                let ghost middle = *target;
                proof {
                    assert forall|k: int| 0 <= k < self.mapping().len() implies (#[trigger] self.mapping()[k]).1.0
                        < target.types().len() by {}
                }
                let result2 = self.copy_ty(source, target, result);
                proof {
                    lemma_list_copy_extends(
                        source,
                        &before,
                        &middle,
                        source.lists()[parameters.0 as int],
                        list@,
                        self.mapping(),
                        self.renaming(),
                        ty.0 as nat,
                    );
                    lemma_list_copy_extends(
                        source,
                        &middle,
                        target,
                        source.lists()[parameters.0 as int],
                        list@,
                        self.mapping(),
                        self.renaming(),
                        ty.0 as nat,
                    );
                    assert(target.lists()[parameters2.0 as int] == middle.lists()[parameters2.0 as int]);
                }
                Ty::FnPtr(parameters2, result2)
            },
            other => other,
        };
        let ghost before = *target;
        proof {
            match copied {
                Ty::Adt(_, a) => {
                    assert(ty_lists(copied)[0] == a);
                },
                Ty::Tuple(a) => {
                    assert(ty_lists(copied)[0] == a);
                },
                Ty::FnPtr(a, _) => {
                    assert(ty_lists(copied)[0] == a);
                },
                _ => {},
            }
            assert(refs_below(copied, target.lists(), target.types().len()));
        }
        let id = target.intern(copied);
        proof {
            match t {
                Ty::Adt(_, args) => {
                    let args2 = copied->Adt_1;
                    let list = target.lists()[args2.0 as int];
                    lemma_list_copy_extends(
                        source,
                        &before,
                        target,
                        source.lists()[args.0 as int],
                        list,
                        self.mapping(),
                        self.renaming(),
                        ty.0 as nat,
                    );
                },
                Ty::Tuple(elements) => {
                    let elements2 = copied->Tuple_0;
                    let list = target.lists()[elements2.0 as int];
                    lemma_list_copy_extends(
                        source,
                        &before,
                        target,
                        source.lists()[elements.0 as int],
                        list,
                        self.mapping(),
                        self.renaming(),
                        ty.0 as nat,
                    );
                },
                Ty::FnPtr(parameters, result) => {
                    let list = target.lists()[(copied->FnPtr_0).0 as int];
                    lemma_list_copy_extends(
                        source,
                        &before,
                        target,
                        source.lists()[parameters.0 as int],
                        list,
                        self.mapping(),
                        self.renaming(),
                        ty.0 as nat,
                    );
                    lemma_ty_copy_extends(source, &before, target, result, copied->FnPtr_1, self.mapping(), self.renaming());
                },
                Ty::Ref(inner, _, _) => {
                    lemma_ty_copy_extends(source, &before, target, inner, copied->Ref_0, self.mapping(), self.renaming());
                },
                Ty::Slice(inner) => {
                    lemma_ty_copy_extends(source, &before, target, inner, copied->Slice_0, self.mapping(), self.renaming());
                },
                Ty::Array(inner, _) => {
                    lemma_ty_copy_extends(source, &before, target, inner, copied->Array_0, self.mapping(), self.renaming());
                },
                _ => {},
            }
        }
        id
    }

    /// Copy the values of the substitution stored at `substitution`.
    ///
    /// Alias types lie outside its domain (`alias_free`): an alias holds
    /// identities of lists and types of the source store, which copied as a
    /// leaf would name nothing, or something else, in `target`.
    pub fn copy_substitution(
        &self,
        goals: &GoalStore,
        source: &TyStore,
        target: &mut TyStore,
        substitution: Subst,
    ) -> (copied: Vec<(AlphaEquivParam, TyId)>)
        requires
            source.wf(),
            old(target).wf(),
            subst_entry_below(goals.entries(), substitution.0, goals.entries().len()),
            forall|k: int|
                0 <= k < subst_at(goals.entries(), substitution.0).len() ==> {
                    &&& (#[trigger] subst_at(goals.entries(), substitution.0)[k]).value.0 < source.types().len()
                    &&& alias_free(source, subst_at(goals.entries(), substitution.0)[k].value)
                },
            self.images_below(old(target).types().len()),
            old(target).types().len() + subst_size(source, subst_at(goals.entries(), substitution.0))
                <= u32::MAX,
            old(target).lists().len() + subst_size(source, subst_at(goals.entries(), substitution.0))
                <= u32::MAX,
        ensures
            final(target).wf(),
            final(target).extends(old(target)),
            copied@.len() == subst_at(goals.entries(), substitution.0).len(),
            forall|k: int|
                0 <= k < copied@.len() ==> {
                    &&& (#[trigger] copied@[k]).0 == subst_at(goals.entries(), substitution.0)[k].key
                    &&& ty_copy(
                        source,
                        final(target),
                        subst_at(goals.entries(), substitution.0)[k].value,
                        copied@[k].1,
                        self.mapping(),
                        self.renaming(),
                    )
                },
            final(target).types().len() <= old(target).types().len() + subst_size(
                source,
                subst_at(goals.entries(), substitution.0),
            ),
            final(target).lists().len() <= old(target).lists().len() + subst_size(
                source,
                subst_at(goals.entries(), substitution.0),
            ),
    {
        let entries = goals.subst(substitution);
        let ghost es = entries@;
        let ghost o = *target;
        let mut copied: Vec<(AlphaEquivParam, TyId)> = Vec::new();
        proof {
            assert(es.take(0) =~= Seq::<crate::solve::SubstEntry>::empty());
        }
        let mut i: usize = 0;
        while i < entries.len()
            invariant
                source.wf(),
                o.wf(),
                target.wf(),
                target.extends(&o),
                es == entries@,
                forall|k: int|
                    0 <= k < es.len() ==> {
                        &&& (#[trigger] es[k]).value.0 < source.types().len()
                        &&& alias_free(source, es[k].value)
                    },
                self.images_below(o.types().len()),
                o.types().len() + subst_size(source, es) <= u32::MAX,
                o.lists().len() + subst_size(source, es) <= u32::MAX,
                i <= es.len(),
                copied@.len() == i,
                forall|k: int|
                    0 <= k < i ==> {
                        &&& (#[trigger] copied@[k]).0 == es[k].key
                        &&& ty_copy(source, target, es[k].value, copied@[k].1, self.mapping(), self.renaming())
                    },
                target.types().len() <= o.types().len() + subst_size(source, es.take(i as int)),
                target.lists().len() <= o.lists().len() + subst_size(source, es.take(i as int)),
            decreases es.len() - i,
        {
            let ghost before = *target;
            proof {
                let t = es.take(i + 1);
                assert(t.drop_last() =~= es.take(i as int));
                assert(t.last() == es[i as int]);
                lemma_subst_size_prefix(source, es, i + 1);
                assert forall|k: int| 0 <= k < self.mapping().len() implies (#[trigger] self.mapping()[k]).1.0
                    < target.types().len() by {}
            }
            let entry = entries[i];
            let value = self.copy_ty(source, target, entry.value);
            copied.push((entry.key, value));
            proof {
                assert forall|k: int| 0 <= k < i implies ty_copy(
                    source,
                    target,
                    es[k].value,
                    (#[trigger] copied@[k]).1,
                    self.mapping(),
                    self.renaming(),
                ) by {
                    lemma_ty_copy_extends(
                        source,
                        &before,
                        target,
                        es[k].value,
                        copied@[k].1,
                        self.mapping(),
                        self.renaming(),
                    );
                }
            }
            i += 1;
        }
        proof {
            assert(es.take(es.len() as int) =~= es);
        }
        copied
    }
}

/// A prefix of a substitution adds up to no more than all of it.
proof fn lemma_subst_size_prefix(stash: &TyStore, entries: Seq<crate::solve::SubstEntry>, i: int)
    requires
        0 <= i <= entries.len(),
    ensures
        subst_size(stash, entries.take(i)) <= subst_size(stash, entries),
    decreases entries.len(),
{
    if i == entries.len() {
        assert(entries.take(i) =~= entries);
    } else {
        assert(entries.drop_last().take(i) =~= entries.take(i));
        lemma_subst_size_prefix(stash, entries.drop_last(), i);
    }
}

/// `r2` is the copy of `r`: the same trait over the copies of its
/// arguments.
pub open spec fn trait_ref_copy(
    src: &TyStore,
    tgt: &TyStore,
    r: TraitRef,
    r2: TraitRef,
    mapping: Seq<(GenericParam, TyId)>,
    renaming: Seq<(GenericParam, GenericParam)>,
) -> bool {
    &&& r2.trait_sym == r.trait_sym
    &&& r2.args.0 < tgt.lists().len()
    &&& list_copy(
        src,
        tgt,
        src.lists()[r.args.0 as int],
        tgt.lists()[r2.args.0 as int],
        mapping,
        renaming,
        src.types().len(),
    )
}

/// The types `r` names, read as trees, added up.
pub open spec fn trait_ref_size(src: &TyStore, r: TraitRef) -> nat {
    sizes_below(src, src.lists()[r.args.0 as int], src.types().len())
}

/// Every type `r` names is alias-free.
pub open spec fn trait_ref_alias_free(src: &TyStore, r: TraitRef) -> bool {
    all_alias_free(src, src.lists()[r.args.0 as int], src.types().len())
}

impl IrCopier {
    /// Copy a trait reference: the same trait over copied arguments.
    ///
    /// Alias types lie outside its domain (`alias_free`): an alias holds
    /// identities of lists and types of the source store, which copied as a
    /// leaf would name nothing, or something else, in `target`.
    pub fn copy_trait_ref(&self, source: &TyStore, target: &mut TyStore, trait_ref: TraitRef) -> (copied:
        TraitRef)
        requires
            source.wf(),
            old(target).wf(),
            trait_ref.args.0 < source.lists().len(),
            trait_ref_alias_free(source, trait_ref),
            self.images_below(old(target).types().len()),
            old(target).types().len() + trait_ref_size(source, trait_ref) <= u32::MAX,
            old(target).lists().len() + trait_ref_size(source, trait_ref) + 1 <= u32::MAX,
        ensures
            final(target).wf(),
            final(target).extends(old(target)),
            trait_ref_copy(source, final(target), trait_ref, copied, self.mapping(), self.renaming()),
            final(target).types().len() <= old(target).types().len() + trait_ref_size(source, trait_ref),
            final(target).lists().len() <= old(target).lists().len() + trait_ref_size(source, trait_ref) + 1,
    {
        let args = self.copy_list(
            source,
            target,
            source.list(trait_ref.args),
            Ghost(source.types().len()),
        );
        let ghost before = *target;
        let list = target.intern_list(args.as_slice());
        proof {
            lemma_list_copy_extends(
                source,
                &before,
                target,
                source.lists()[trait_ref.args.0 as int],
                args@,
                self.mapping(),
                self.renaming(),
                source.types().len(),
            );
        }
        TraitRef { trait_sym: trait_ref.trait_sym, args: list }
    }

    /// Copy a where-predicate: its self type and its trait reference.
    pub fn copy_predicate(&self, source: &TyStore, target: &mut TyStore, predicate: WherePredicate) -> (copied:
        WherePredicate)
        requires
            source.wf(),
            old(target).wf(),
            predicate.self_ty.0 < source.types().len(),
            predicate.trait_ref.args.0 < source.lists().len(),
            alias_free(source, predicate.self_ty),
            trait_ref_alias_free(source, predicate.trait_ref),
            self.images_below(old(target).types().len()),
            old(target).types().len() + tree_size(source, predicate.self_ty) + trait_ref_size(
                source,
                predicate.trait_ref,
            ) <= u32::MAX,
            old(target).lists().len() + tree_size(source, predicate.self_ty) + trait_ref_size(
                source,
                predicate.trait_ref,
            ) + 1 <= u32::MAX,
        ensures
            final(target).wf(),
            final(target).extends(old(target)),
            ty_copy(
                source,
                final(target),
                predicate.self_ty,
                copied.self_ty,
                self.mapping(),
                self.renaming(),
            ),
            trait_ref_copy(
                source,
                final(target),
                predicate.trait_ref,
                copied.trait_ref,
                self.mapping(),
                self.renaming(),
            ),
    {
        let self_ty = self.copy_ty(source, target, predicate.self_ty);
        let ghost middle = *target;
        proof {
            assert forall|k: int| 0 <= k < self.mapping().len() implies (#[trigger] self.mapping()[k]).1.0
                < target.types().len() by {}
        }
        let trait_ref = self.copy_trait_ref(source, target, predicate.trait_ref);
        proof {
            lemma_ty_copy_extends(
                source,
                &middle,
                target,
                predicate.self_ty,
                self_ty,
                self.mapping(),
                self.renaming(),
            );
        }
        WherePredicate { self_ty, trait_ref }
    }

    /// Copy an atom, type by type.
    pub fn copy_atom(&self, source: &TyStore, target: &mut TyStore, atom: Atom) -> (copied: Atom)
        requires
            source.wf(),
            old(target).wf(),
            crate::goal::goal_tys_ok(source, crate::goal::Goal::Atom(atom)),
            atom_alias_free(source, atom),
            self.images_below(old(target).types().len()),
            old(target).types().len() + atom_size(source, atom) <= u32::MAX,
            old(target).lists().len() + atom_size(source, atom) + 1 <= u32::MAX,
        ensures
            final(target).wf(),
            final(target).extends(old(target)),
            atom_copy(source, final(target), atom, copied, self.mapping(), self.renaming()),
    {
        match atom {
            Atom::TraitImpl { self_ty, trait_ref } => {
                let predicate = self.copy_predicate(source, target, WherePredicate { self_ty, trait_ref });
                Atom::TraitImpl { self_ty: predicate.self_ty, trait_ref: predicate.trait_ref }
            },
            Atom::Equals(left, right) => {
                let left2 = self.copy_ty(source, target, left);
                let ghost middle = *target;
                proof {
                    assert forall|k: int| 0 <= k < self.mapping().len() implies (#[trigger] self.mapping()[k]).1.0
                        < target.types().len() by {}
                }
                let right2 = self.copy_ty(source, target, right);
                proof {
                    lemma_ty_copy_extends(source, &middle, target, left, left2, self.mapping(), self.renaming());
                }
                Atom::Equals(left2, right2)
            },
        }
    }
}

/// Every type `atom` names is alias-free.
pub open spec fn atom_alias_free(src: &TyStore, atom: Atom) -> bool {
    match atom {
        Atom::TraitImpl { self_ty, trait_ref } => alias_free(src, self_ty) && trait_ref_alias_free(
            src,
            trait_ref,
        ),
        Atom::Equals(left, right) => alias_free(src, left) && alias_free(src, right),
    }
}

/// The types `atom` names, read as trees, added up.
pub open spec fn atom_size(src: &TyStore, atom: Atom) -> nat {
    match atom {
        Atom::TraitImpl { self_ty, trait_ref } => tree_size(src, self_ty) + trait_ref_size(src, trait_ref),
        Atom::Equals(left, right) => tree_size(src, left) + tree_size(src, right),
    }
}

/// `a2` is the copy of `a`, type by type.
pub open spec fn atom_copy(
    src: &TyStore,
    tgt: &TyStore,
    a: Atom,
    a2: Atom,
    mapping: Seq<(GenericParam, TyId)>,
    renaming: Seq<(GenericParam, GenericParam)>,
) -> bool {
    match (a, a2) {
        (
            Atom::TraitImpl { self_ty, trait_ref },
            Atom::TraitImpl { self_ty: self_ty2, trait_ref: trait_ref2 },
        ) => ty_copy(src, tgt, self_ty, self_ty2, mapping, renaming) && trait_ref_copy(
            src,
            tgt,
            trait_ref,
            trait_ref2,
            mapping,
            renaming,
        ),
        (Atom::Equals(l, r), Atom::Equals(l2, r2)) => ty_copy(src, tgt, l, l2, mapping, renaming)
            && ty_copy(src, tgt, r, r2, mapping, renaming),
        _ => false,
    }
}

} // verus!
