//! Types and the interning type store.
//!
//! Types are interned: allocating a value equal to one already in the store
//! returns the existing identity, so identity comparison is value
//! comparison. Identities are dense indices that never move, and every type
//! refers only to types allocated before it.
use vstd::prelude::*;

pub use crate::diagnostic::ErrorReported;

use crate::cst::Mutability;
use crate::generic_param::GenericParam;

verus! {

/// Index of a globally unique inference variable.
#[derive(Copy, Clone, Debug, PartialEq, Eq, Structural, Hash, PartialOrd, Ord)]
pub struct InferVarIndex(pub u32);

/// An interned identifier.
#[derive(Copy, Clone, Debug, PartialEq, Eq, Structural, Hash)]
pub struct Name(pub u32);

/// A named item (struct, enum, function, ...).
#[derive(Copy, Clone, Debug, PartialEq, Eq, Structural, Hash)]
pub struct Symbol(pub u32);

/// A type alias or associated type item.
#[derive(Copy, Clone, Debug, PartialEq, Eq, Structural, Hash)]
pub struct TypeAliasSymbol(pub u32);

/// A trait item.
#[derive(Copy, Clone, Debug, PartialEq, Eq, Structural, Hash)]
pub struct TraitSymbol(pub u32);

/// A byte range relative to the start of an item's body.
#[derive(Copy, Clone, Debug, PartialEq, Eq, Structural, Hash)]
pub struct RelativeSpan {
    pub start: u32,
    pub end: u32,
}

#[derive(Copy, Clone, Debug, PartialEq, Eq, Structural, Hash)]
pub enum IntTy {
    Isize,
    I8,
    I16,
    I32,
    I64,
    I128,
}

#[derive(Copy, Clone, Debug, PartialEq, Eq, Structural, Hash)]
pub enum UintTy {
    Usize,
    U8,
    U16,
    U32,
    U64,
    U128,
}

#[derive(Copy, Clone, Debug, PartialEq, Eq, Structural, Hash)]
pub enum FloatTy {
    F32,
    F64,
}

#[derive(Copy, Clone, Debug, PartialEq, Eq, Structural, Hash)]
pub enum Lifetime {
    Static,
    Erased,
    Dummy,
    Param(GenericParam),
}

#[derive(Copy, Clone, Debug, PartialEq, Eq, Structural, Hash)]
pub enum Const {
    Literal(u64),
    Param(GenericParam),
    Other(u32),
}

/// Identity of an interned type.
#[derive(Copy, Clone, Debug, PartialEq, Eq, Structural, Hash, PartialOrd, Ord)]
pub struct TyId(pub u32);

/// Identity of an interned list of types.
#[derive(Copy, Clone, Debug, PartialEq, Eq, Structural, Hash)]
pub struct TyList(pub u32);

#[derive(Copy, Clone, Debug, PartialEq, Eq, Structural, Hash)]
pub struct NamedAliasTy {
    pub def: TypeAliasSymbol,
    pub args: TyList,
}

#[derive(Copy, Clone, Debug, PartialEq, Eq, Structural, Hash)]
pub struct OpaqueAliasTy {
    pub def: TypeAliasSymbol,
    pub args: TyList,
}

#[derive(Copy, Clone, Debug, PartialEq, Eq, Structural, Hash)]
pub struct TraitRef {
    pub trait_sym: TraitSymbol,
    pub args: TyList,
}

/// A predicate `self_ty: Trait<args>`.
#[derive(Copy, Clone, Debug, PartialEq, Eq, Structural, Hash)]
pub struct WherePredicate {
    pub self_ty: TyId,
    pub trait_ref: TraitRef,
}

#[derive(Copy, Clone, Debug, PartialEq, Eq, Structural, Hash)]
pub struct ProjectionTy {
    pub associated_ty: TypeAliasSymbol,
    pub self_ty: TyId,
    pub trait_ref: TraitRef,
    pub args: TyList,
}

#[derive(Copy, Clone, Debug, PartialEq, Eq, Structural, Hash)]
pub enum AliasTy {
    Named(NamedAliasTy),
    Associated(ProjectionTy),
    Opaque(OpaqueAliasTy),
}

/// A primitive type that names itself in source: the intrinsic type symbols.
#[derive(Copy, Clone, Debug, PartialEq, Eq, Structural, Hash)]
pub enum Intrinsic {
    Bool,
    Char,
    Str,
    Int(IntTy),
    Uint(UintTy),
    Float(FloatTy),
}

/// The type an intrinsic type symbol denotes.
pub fn intrinsic_to_ty(intrinsic: Intrinsic) -> (ty: Ty)
    ensures
        match intrinsic {
            Intrinsic::Bool => ty == Ty::Bool,
            Intrinsic::Char => ty == Ty::Char,
            Intrinsic::Str => ty == Ty::Str,
            Intrinsic::Int(i) => ty == Ty::Int(i),
            Intrinsic::Uint(u) => ty == Ty::Uint(u),
            Intrinsic::Float(f) => ty == Ty::Float(f),
        },
{
    match intrinsic {
        Intrinsic::Bool => Ty::Bool,
        Intrinsic::Char => Ty::Char,
        Intrinsic::Str => Ty::Str,
        Intrinsic::Int(i) => Ty::Int(i),
        Intrinsic::Uint(u) => Ty::Uint(u),
        Intrinsic::Float(f) => Ty::Float(f),
    }
}

/// A type. Sub-types are referred to by identity.
#[derive(Copy, Clone, Debug, PartialEq, Eq, Structural, Hash)]
pub enum Ty {
    Bool,
    Char,
    Int(IntTy),
    Uint(UintTy),
    Float(FloatTy),
    Str,
    Never,
    Error(ErrorReported),
    Param(GenericParam),
    InferVar(InferVarIndex),
    Adt(Symbol, TyList),
    Alias(AliasTy),
    Ref(TyId, Mutability, Lifetime),
    Tuple(TyList),
    Slice(TyId),
    Array(TyId, Const),
    FnPtr(TyList, TyId),
}

/// The lists a type refers to.
pub open spec fn ty_lists(ty: Ty) -> Seq<TyList> {
    match ty {
        Ty::Adt(_, args) => seq![args],
        Ty::Alias(AliasTy::Named(alias)) => seq![alias.args],
        Ty::Alias(AliasTy::Opaque(alias)) => seq![alias.args],
        Ty::Alias(AliasTy::Associated(p)) => seq![p.trait_ref.args, p.args],
        Ty::Tuple(elems) => seq![elems],
        Ty::FnPtr(params, _) => seq![params],
        _ => Seq::empty(),
    }
}

/// The types a type refers to directly (not through a list).
pub open spec fn ty_direct(ty: Ty) -> Seq<TyId> {
    match ty {
        Ty::Alias(AliasTy::Associated(p)) => seq![p.self_ty],
        Ty::Ref(inner, _, _) => seq![inner],
        Ty::Slice(inner) => seq![inner],
        Ty::Array(inner, _) => seq![inner],
        Ty::FnPtr(_, ret) => seq![ret],
        _ => Seq::empty(),
    }
}

/// Every identity in `ty` refers into a store with `n_types` types and
/// `lists` lists, and every type mentioned has an identity below `bound`.
pub open spec fn refs_below(ty: Ty, lists: Seq<Seq<TyId>>, bound: nat) -> bool {
    &&& forall|j: int| 0 <= j < ty_lists(ty).len() ==> (#[trigger] ty_lists(ty)[j]).0 < lists.len()
    &&& forall|j: int| 0 <= j < ty_direct(ty).len() ==> (#[trigger] ty_direct(ty)[j]).0 < bound
    &&& forall|j: int, k: int|
        0 <= j < ty_lists(ty).len() && 0 <= k < lists[ty_lists(ty)[j].0 as int].len() ==> (
        #[trigger] lists[(#[trigger] ty_lists(ty)[j]).0 as int][k]).0 < bound
}

/// Distinct identities below `n` number at most `n`.
pub proof fn lemma_distinct_ids_bounded(ids: Seq<TyId>, n: nat)
    requires
        ids.no_duplicates(),
        forall|k: int| 0 <= k < ids.len() ==> (#[trigger] ids[k]).0 < n,
    ensures
        ids.len() <= n,
{
    let nums = ids.map_values(|t: TyId| t.0 as int);
    assert forall|a: int, b: int| 0 <= a < nums.len() && 0 <= b < nums.len() && a != b implies nums[a]
        != nums[b] by {
        assert(ids[a] != ids[b]);
        if nums[a] == nums[b] {
            assert(ids[a].0 == ids[b].0);
        }
    }
    nums.unique_seq_to_set();
    vstd::set_lib::lemma_int_range(0, n as int);
    assert forall|x: int| nums.to_set().contains(x) implies vstd::set_lib::set_int_range(0, n as int).contains(x) by {
        let k = nums.index_of(x);
        assert(ids[k].0 < n);
    }
    vstd::set_lib::lemma_len_subset(nums.to_set(), vstd::set_lib::set_int_range(0, n as int));
}

/// The interning store of types and type lists.
pub struct TyStore {
    types: Vec<Ty>,
    lists: Vec<Vec<TyId>>,
}

impl TyStore {
    /// The interned types, indexed by identity.
    pub closed spec fn types(&self) -> Seq<Ty> {
        self.types@
    }

    /// The interned lists, indexed by identity.
    pub closed spec fn lists(&self) -> Seq<Seq<TyId>> {
        self.lists@.map_values(|l: Vec<TyId>| l@)
    }

    /// Store well-formedness: interning (no duplicate values), identities fit
    /// in `u32`, and each type refers only to lists in the store and to types
    /// allocated before it.
    pub open spec fn wf(&self) -> bool {
        &&& self.types().len() <= u32::MAX as nat + 1
        &&& self.lists().len() <= u32::MAX as nat + 1
        &&& self.types().no_duplicates()
        &&& self.lists().no_duplicates()
        &&& forall|i: int|
            0 <= i < self.types().len() ==> refs_below(
                #[trigger] self.types()[i],
                self.lists(),
                i as nat,
            )
        &&& forall|l: int, k: int|
            0 <= l < self.lists().len() && 0 <= k < self.lists()[l].len() ==> (
            #[trigger] self.lists()[l][k]).0 < self.types().len()
        &&& forall|l: int| 0 <= l < self.lists().len() ==> (#[trigger] self.lists()[l]).len() <= u32::MAX
    }

    /// `other` extends `self`: every type and list keeps its identity.
    pub open spec fn extends(&self, other: &TyStore) -> bool {
        &&& other.types().len() <= self.types().len()
        &&& other.lists().len() <= self.lists().len()
        &&& forall|i: int| 0 <= i < other.types().len() ==> #[trigger] self.types()[i] == other.types()[i]
        &&& forall|l: int| 0 <= l < other.lists().len() ==> #[trigger] self.lists()[l] == other.lists()[l]
    }

    pub fn new() -> (store: Self)
        ensures
            store.wf(),
            store.types() == Seq::<Ty>::empty(),
            store.lists() == Seq::<Seq<TyId>>::empty(),
    {
        let store = TyStore { types: Vec::new(), lists: Vec::new() };
        proof {
            assert(store.lists() =~= Seq::<Seq<TyId>>::empty());
        }
        store
    }

    /// The number of interned types.
    pub fn type_count(&self) -> (count: usize)
        ensures
            count == self.types().len(),
    {
        self.types.len()
    }

    /// The number of interned lists.
    pub fn list_count(&self) -> (count: usize)
        ensures
            count == self.lists().len(),
    {
        self.lists.len()
    }

    /// The type with identity `id`.
    pub fn get(&self, id: TyId) -> (ty: Ty)
        requires
            id.0 < self.types().len(),
        ensures
            ty == self.types()[id.0 as int],
    {
        self.types[id.0 as usize]
    }

    /// The list with identity `list`.
    pub fn list(&self, list: TyList) -> (ids: &[TyId])
        requires
            list.0 < self.lists().len(),
        ensures
            ids@ == self.lists()[list.0 as int],
    {
        self.lists[list.0 as usize].as_slice()
    }

    /// Intern `ty`, returning the identity of the equal type if one exists.
    pub fn intern(&mut self, ty: Ty) -> (id: TyId)
        requires
            old(self).wf(),
            refs_below(ty, old(self).lists(), old(self).types().len()),
            old(self).types().contains(ty) || old(self).types().len() <= u32::MAX,
        ensures
            final(self).wf(),
            final(self).extends(old(self)),
            final(self).lists() == old(self).lists(),
            id.0 < final(self).types().len(),
            final(self).types()[id.0 as int] == ty,
            old(self).types().contains(ty) ==> final(self).types() == old(self).types(),
            !old(self).types().contains(ty) ==> final(self).types() == old(self).types().push(ty),
    {
        let mut i: usize = 0;
        while i < self.types.len()
            invariant
                *self == *old(self),
                self.wf(),
                i <= self.types@.len(),
                forall|j: int| 0 <= j < i ==> self.types@[j] != ty,
            decreases self.types@.len() - i,
        {
            if self.types[i] == ty {
                return TyId(i as u32);
            }
            i += 1;
        }
        let id = TyId(self.types.len() as u32);
        let ghost old_store = *self;
        self.types.push(ty);
        proof {
            assert(!old_store.types().contains(ty));
            assert(self.lists() == old_store.lists());
            assert forall|x: int| 0 <= x < self.types().len() implies refs_below(
                #[trigger] self.types()[x],
                self.lists(),
                x as nat,
            ) by {
                if x < old_store.types().len() {
                    assert(self.types()[x] == old_store.types()[x]);
                }
            }
            assert forall|x: int, y: int|
                0 <= x < self.types().len() && 0 <= y < self.types().len() && x != y implies self.types()[x]
                != self.types()[y] by {
                if x == id.0 {
                    assert(self.types()[y] == old_store.types()[y]);
                } else if y == id.0 {
                    assert(self.types()[x] == old_store.types()[x]);
                }
            }
        }
        id
    }

    /// Intern a list of types, returning the identity of the equal list if
    /// one exists.
    pub fn intern_list(&mut self, ids: &[TyId]) -> (list: TyList)
        requires
            old(self).wf(),
            forall|k: int| 0 <= k < ids@.len() ==> (#[trigger] ids@[k]).0 < old(self).types().len(),
            ids@.len() <= u32::MAX,
            old(self).lists().contains(ids@) || old(self).lists().len() <= u32::MAX,
        ensures
            final(self).wf(),
            final(self).extends(old(self)),
            final(self).types() == old(self).types(),
            list.0 < final(self).lists().len(),
            final(self).lists()[list.0 as int] == ids@,
            old(self).lists().contains(ids@) ==> final(self).lists() == old(self).lists(),
            !old(self).lists().contains(ids@) ==> final(self).lists() == old(self).lists().push(
                ids@,
            ),
    {
        let mut i: usize = 0;
        while i < self.lists.len()
            invariant
                *self == *old(self),
                self.wf(),
                i <= self.lists@.len(),
                forall|j: int| 0 <= j < i ==> self.lists()[j] != ids@,
            decreases self.lists@.len() - i,
        {
            if same_ids(self.lists[i].as_slice(), ids) {
                return TyList(i as u32);
            }
            i += 1;
        }
        let list = TyList(self.lists.len() as u32);
        let ghost old_store = *self;
        let copy = copy_ids(ids);
        self.lists.push(copy);
        proof {
            assert(self.lists() =~= old_store.lists().push(ids@));
            assert(!old_store.lists().contains(ids@));
            assert forall|x: int| 0 <= x < self.types().len() implies refs_below(
                #[trigger] self.types()[x],
                self.lists(),
                x as nat,
            ) by {
                let t = self.types()[x];
                assert(refs_below(t, old_store.lists(), x as nat));
                assert forall|j: int, k: int|
                    0 <= j < ty_lists(t).len() && 0 <= k < self.lists()[ty_lists(t)[j].0 as int].len()
                    implies (#[trigger] self.lists()[(#[trigger] ty_lists(t)[j]).0 as int][k]).0
                    < x by {
                    assert(self.lists()[ty_lists(t)[j].0 as int] == old_store.lists()[ty_lists(
                        t,
                    )[j].0 as int]);
                }
            }
            assert forall|x: int, y: int|
                0 <= x < self.lists().len() && 0 <= y < self.lists().len() && x != y implies self.lists()[x]
                != self.lists()[y] by {
                if x == list.0 {
                    assert(self.lists()[y] == old_store.lists()[y]);
                } else if y == list.0 {
                    assert(self.lists()[x] == old_store.lists()[x]);
                }
            }
        }
        list
    }
}

/// Element-wise equality of identity lists.
fn same_ids(a: &[TyId], b: &[TyId]) -> (same: bool)
    ensures
        same == (a@ == b@),
{
    if a.len() != b.len() {
        return false;
    }
    let mut i: usize = 0;
    while i < a.len()
        invariant
            a@.len() == b@.len(),
            i <= a@.len(),
            forall|j: int| 0 <= j < i ==> a@[j] == b@[j],
        decreases a@.len() - i,
    {
        if a[i] != b[i] {
            return false;
        }
        i += 1;
    }
    proof {
        assert(a@ =~= b@);
    }
    true
}

/// Copy an identity list into a fresh vector.
fn copy_ids(ids: &[TyId]) -> (copy: Vec<TyId>)
    ensures
        copy@ == ids@,
{
    let mut copy: Vec<TyId> = Vec::new();
    let mut i: usize = 0;
    while i < ids.len()
        invariant
            i <= ids@.len(),
            copy@ == ids@.take(i as int),
        decreases ids@.len() - i,
    {
        copy.push(ids[i]);
        proof {
            assert(ids@.take(i + 1) == ids@.take(i as int).push(ids@[i as int]));
        }
        i += 1;
    }
    proof {
        assert(ids@.take(ids@.len() as int) == ids@);
    }
    copy
}

} // verus!
