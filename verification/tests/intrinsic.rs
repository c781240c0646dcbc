use sage_ir::ty::{intrinsic_to_ty, FloatTy, IntTy, Intrinsic, Ty, UintTy};

#[test]
fn intrinsic_symbols_denote_their_primitive_types() {
    assert_eq!(intrinsic_to_ty(Intrinsic::Bool), Ty::Bool);
    assert_eq!(intrinsic_to_ty(Intrinsic::Char), Ty::Char);
    assert_eq!(intrinsic_to_ty(Intrinsic::Str), Ty::Str);
    assert_eq!(intrinsic_to_ty(Intrinsic::Int(IntTy::I64)), Ty::Int(IntTy::I64));
    assert_eq!(intrinsic_to_ty(Intrinsic::Uint(UintTy::U8)), Ty::Uint(UintTy::U8));
    assert_eq!(intrinsic_to_ty(Intrinsic::Float(FloatTy::F32)), Ty::Float(FloatTy::F32));
}
