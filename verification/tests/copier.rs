use sage_ir::copier::IrCopier;
use sage_ir::generic_param::{AlphaEquivParam, GenericParam, GenericParamKind};
use sage_ir::goal::{Atom, GoalStore};
use sage_ir::solve::SubstEntry;
use sage_ir::ty::{Const, IntTy, TraitRef, TraitSymbol, Ty, TyStore};

fn alpha(index: u32) -> GenericParam {
    GenericParam::AlphaEquiv(AlphaEquivParam::new(GenericParamKind::Type, index))
}

#[test]
fn copies_substitute_mapped_parameters_and_keep_the_rest() {
    let mut source = TyStore::new();
    let t = source.intern(Ty::Param(alpha(0)));
    let u = source.intern(Ty::Param(alpha(1)));
    let int = source.intern(Ty::Int(IntTy::I32));
    let elems = source.intern_list(&[t, u, int]);
    let tuple = source.intern(Ty::Tuple(elems));
    let array = source.intern(Ty::Array(tuple, Const::Param(alpha(1))));

    let mut target = TyStore::new();
    let boolean = target.intern(Ty::Bool);
    let copier = IrCopier::new(vec![(alpha(0), boolean)], None);
    assert_eq!(copier.next_fresh_binder(), None);
    let copied = copier.copy_ty(&source, &mut target, array);
    let Ty::Array(inner, constant) = target.get(copied) else {
        panic!("expected an array")
    };
    assert_eq!(constant, Const::Param(alpha(1)));
    let Ty::Tuple(list) = target.get(inner) else {
        panic!("expected a tuple")
    };
    let parts = target.list(list).to_vec();
    assert_eq!(parts.len(), 3);
    assert_eq!(parts[0], boolean);
    assert_eq!(target.get(parts[1]), Ty::Param(alpha(1)));
    assert_eq!(target.get(parts[2]), Ty::Int(IntTy::I32));
}

#[test]
fn substitutions_and_atoms_are_copied_entry_by_entry() {
    let mut source = TyStore::new();
    let t = source.intern(Ty::Param(alpha(0)));
    let slice = source.intern(Ty::Slice(t));
    let mut goals = GoalStore::new();
    let key = AlphaEquivParam::new(GenericParamKind::Type, 9);
    let subst = goals.alloc_subst(&[SubstEntry { key, value: slice }]);

    let mut target = TyStore::new();
    let char_ty = target.intern(Ty::Char);
    let copier = IrCopier::new(vec![(alpha(0), char_ty)], Some(4));
    assert_eq!(copier.next_fresh_binder(), Some(4));
    let copied = copier.copy_substitution(&goals, &source, &mut target, subst);
    assert_eq!(copied.len(), 1);
    assert_eq!(copied[0].0, key);
    assert_eq!(target.get(copied[0].1), Ty::Slice(char_ty));

    let args = source.intern_list(&[t]);
    let atom = Atom::TraitImpl { self_ty: slice, trait_ref: TraitRef { trait_sym: TraitSymbol(2), args } };
    let Atom::TraitImpl { self_ty, trait_ref } = copier.copy_atom(&source, &mut target, atom) else {
        panic!("expected a trait atom")
    };
    assert_eq!(target.get(self_ty), Ty::Slice(char_ty));
    assert_eq!(trait_ref.trait_sym, TraitSymbol(2));
    assert_eq!(target.list(trait_ref.args), [char_ty]);
}
