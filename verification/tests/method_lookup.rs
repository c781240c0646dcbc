use sage_ir::method::{
    select_external_inherent_method, select_trait_method, GoalCertainty, InherentCandidate,
    InherentSelection, InherentSignatureShape, TraitMethodFacts, TraitMethodSelection,
    TraitScopeEntry,
};

fn shape(parameters: usize) -> InherentSignatureShape {
    InherentSignatureShape {
        eligible: true,
        has_receiver: true,
        has_owner_self_ty: true,
        owner_generic_count: 1,
        generic_count: 2,
        parameter_count: parameters,
    }
}

fn candidate(visible: bool, parameters: usize) -> InherentCandidate {
    InherentCandidate { externally_visible: visible, signature: Some(shape(parameters)) }
}

#[test]
fn the_one_visible_inherent_method_is_selected() {
    let candidates = [candidate(false, 1), candidate(true, 1), candidate(false, 0)];
    assert_eq!(
        select_external_inherent_method(true, true, &candidates, 1),
        InherentSelection::Selected(1)
    );
    assert_eq!(
        select_external_inherent_method(true, true, &candidates, 2),
        InherentSelection::ArgumentCountMismatch
    );
}

#[test]
fn inherent_lookup_refusals_come_in_order() {
    let candidates = [candidate(true, 0), candidate(true, 0)];
    assert_eq!(
        select_external_inherent_method(false, false, &candidates, 0),
        InherentSelection::NotApplicable
    );
    assert_eq!(
        select_external_inherent_method(true, false, &candidates, 0),
        InherentSelection::Incomplete
    );
    assert_eq!(select_external_inherent_method(true, true, &[], 0), InherentSelection::NotApplicable);
    assert_eq!(
        select_external_inherent_method(true, true, &[candidate(false, 0)], 0),
        InherentSelection::NotVisible
    );
    assert_eq!(
        select_external_inherent_method(true, true, &candidates, 0),
        InherentSelection::Ambiguous
    );
    let unavailable = [InherentCandidate { externally_visible: true, signature: None }];
    assert_eq!(
        select_external_inherent_method(true, true, &unavailable, 0),
        InherentSelection::SignatureUnavailable
    );
    let mut outside = shape(0);
    outside.owner_generic_count = 3;
    let outside = [InherentCandidate { externally_visible: true, signature: Some(outside) }];
    assert_eq!(
        select_external_inherent_method(true, true, &outside, 0),
        InherentSelection::OutsideSubset
    );
}

fn facts(goal: GoalCertainty) -> TraitMethodFacts {
    TraitMethodFacts {
        trait_signature_known: true,
        trait_eligible: true,
        self_is_only_type_generic: true,
        goal,
        definitely_in_scope: true,
        function_signature_known: true,
        function_eligible: true,
        function_type_generic_count: 1,
        has_receiver: true,
    }
}

#[test]
fn the_one_definite_trait_method_is_selected() {
    let entries = vec![
        TraitScopeEntry::Methods(vec![facts(GoalCertainty::No)]),
        TraitScopeEntry::Methods(vec![facts(GoalCertainty::Yes)]),
    ];
    assert_eq!(
        select_trait_method(true, false, false, &entries),
        TraitMethodSelection::Selected { entry: 1, method: 0 }
    );
    assert_eq!(select_trait_method(false, false, false, &entries), TraitMethodSelection::Incomplete);
}

#[test]
fn trait_method_lookup_reports_ambiguity_incompleteness_and_absence() {
    let two = vec![
        TraitScopeEntry::Methods(vec![facts(GoalCertainty::Yes)]),
        TraitScopeEntry::Methods(vec![facts(GoalCertainty::Yes)]),
    ];
    assert_eq!(select_trait_method(true, false, false, &two), TraitMethodSelection::Ambiguous);
    let maybe = vec![TraitScopeEntry::Methods(vec![facts(GoalCertainty::Maybe)])];
    assert_eq!(select_trait_method(true, false, false, &maybe), TraitMethodSelection::Incomplete);
    let unknown_items = vec![TraitScopeEntry::ItemsUnknown];
    assert_eq!(
        select_trait_method(true, false, false, &unknown_items),
        TraitMethodSelection::Incomplete
    );
    let none = vec![TraitScopeEntry::Methods(vec![facts(GoalCertainty::No)])];
    assert_eq!(select_trait_method(true, false, false, &none), TraitMethodSelection::NotFound);
    let mut possible = facts(GoalCertainty::Yes);
    possible.definitely_in_scope = false;
    let possible = vec![TraitScopeEntry::Methods(vec![possible])];
    assert_eq!(select_trait_method(true, false, false, &possible), TraitMethodSelection::Incomplete);
}
