use sage_ir::boundary::{check_query_response, ApplyResponseError};
use sage_ir::generic_param::{AlphaEquivParam, GenericParam, GenericParamKind};
use sage_ir::solve::{
    CallerCanonicalVar, CanonicalVarInfo, CanonicalVarRole, ResponseVarInfo, SubstEntry,
};
use sage_ir::ty::{InferVarIndex, TyId};

fn param(index: u32) -> AlphaEquivParam {
    AlphaEquivParam::new(GenericParamKind::Type, index)
}

fn var(index: u32, role: CanonicalVarRole) -> CanonicalVarInfo {
    CanonicalVarInfo { param: param(index), kind: GenericParamKind::Type, role, relative_universe: 0 }
}

fn entry(index: u32) -> SubstEntry {
    SubstEntry { key: param(index), value: TyId(0) }
}

fn binder(index: u32, kind: GenericParamKind) -> ResponseVarInfo {
    ResponseVarInfo { param: param(index), kind, relative_universe: 0 }
}

fn setup() -> (Vec<CanonicalVarInfo>, Vec<CallerCanonicalVar>) {
    (
        vec![var(0, CanonicalVarRole::ExistentialInput), var(1, CanonicalVarRole::RigidPlaceholder)],
        vec![
            CallerCanonicalVar::Existential(InferVarIndex(3)),
            CallerCanonicalVar::Rigid(GenericParam::AlphaEquiv(param(9))),
        ],
    )
}

#[test]
fn a_well_formed_response_passes_the_checks() {
    let (vars, inputs) = setup();
    assert_eq!(
        check_query_response(&vars, &inputs, false, &[entry(0)], &[binder(5, GenericParamKind::Type)]),
        Ok(())
    );
    assert_eq!(check_query_response(&vars, &inputs, true, &[entry(1), entry(1)], &[]), Ok(()));
}

#[test]
fn response_errors_come_in_order() {
    let (vars, inputs) = setup();
    assert_eq!(
        check_query_response(&vars, &inputs[..1], true, &[], &[]),
        Err(ApplyResponseError::MappingArity)
    );
    assert_eq!(
        check_query_response(&vars, &inputs, false, &[entry(0), entry(0)], &[]),
        Err(ApplyResponseError::DuplicateResponseKey(param(0)))
    );
    assert_eq!(
        check_query_response(&vars, &inputs, false, &[entry(7)], &[]),
        Err(ApplyResponseError::InvalidResponseKey(param(7)))
    );
    assert_eq!(
        check_query_response(&vars, &inputs, false, &[entry(1)], &[]),
        Err(ApplyResponseError::InvalidResponseKey(param(1)))
    );
    assert_eq!(
        check_query_response(&vars, &inputs, false, &[], &[binder(0, GenericParamKind::Type)]),
        Err(ApplyResponseError::InvalidResponseBinder(param(0)))
    );
    assert_eq!(
        check_query_response(
            &vars,
            &inputs,
            false,
            &[],
            &[binder(5, GenericParamKind::Type), binder(5, GenericParamKind::Type)]
        ),
        Err(ApplyResponseError::InvalidResponseBinder(param(5)))
    );
    let lifetime = ResponseVarInfo {
        param: AlphaEquivParam::new(GenericParamKind::Lifetime, 6),
        kind: GenericParamKind::Lifetime,
        relative_universe: 0,
    };
    assert_eq!(
        check_query_response(&vars, &inputs, false, &[], &[lifetime]),
        Err(ApplyResponseError::InvalidResponseBinder(lifetime.param))
    );
}
