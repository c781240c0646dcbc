//! The decisions of method lookup, over the facts the caller gathered about
//! each candidate: which external inherent method a call selects, and which
//! trait method a call on a receiver selects.
use vstd::prelude::*;

verus! {

/// The shape of an external inherent method's signature, as far as the
/// lookup reads it.
#[derive(Copy, Clone, Debug, PartialEq, Eq, Structural)]
pub struct InherentSignatureShape {
    pub eligible: bool,
    pub has_receiver: bool,
    pub has_owner_self_ty: bool,
    pub owner_generic_count: u32,
    pub generic_count: usize,
    pub parameter_count: usize,
}

/// An inherent method of the receiver's external type with the called name.
#[derive(Copy, Clone, Debug, PartialEq, Eq, Structural)]
pub struct InherentCandidate {
    pub externally_visible: bool,
    pub signature: Option<InherentSignatureShape>,
}

/// What the lookup of an external inherent method decides.
#[derive(Copy, Clone, Debug, PartialEq, Eq, Structural)]
pub enum InherentSelection {
    /// The lookup does not apply: the receiver is not an external type, or
    /// it has no inherent method of that name.
    NotApplicable,
    /// The candidates of the external type could not all be listed.
    Incomplete,
    /// No candidate is visible from this crate.
    NotVisible,
    /// More than one candidate is visible.
    Ambiguous,
    /// The selected method's signature is unavailable.
    SignatureUnavailable,
    /// The selected method's signature is outside the represented subset.
    OutsideSubset,
    /// The call passes another number of arguments than the method takes.
    ArgumentCountMismatch,
    /// The candidate with this index is selected.
    Selected(usize),
}

/// The number of visible candidates.
pub open spec fn visible_count(candidates: Seq<InherentCandidate>) -> nat
    decreases candidates.len(),
{
    if candidates.len() == 0 {
        0
    } else {
        visible_count(candidates.drop_last()) + if candidates.last().externally_visible {
            1nat
        } else {
            0nat
        }
    }
}

/// The index of the last visible candidate, or -1.
pub open spec fn last_visible(candidates: Seq<InherentCandidate>) -> int
    decreases candidates.len(),
{
    if candidates.len() == 0 {
        -1
    } else if candidates.last().externally_visible {
        candidates.len() - 1
    } else {
        last_visible(candidates.drop_last())
    }
}

/// The signature shape the lookup can represent: an eligible method with a
/// receiver and an owner type, whose owner generics are among its generics.
pub open spec fn represented(shape: InherentSignatureShape) -> bool {
    shape.eligible && shape.has_receiver && shape.has_owner_self_ty && shape.owner_generic_count
        <= shape.generic_count
}

/// What the lookup decides, check by check in this order.
pub open spec fn inherent_selection(
    receiver_is_external_type: bool,
    complete: bool,
    candidates: Seq<InherentCandidate>,
    argument_count: usize,
) -> InherentSelection {
    if !receiver_is_external_type {
        InherentSelection::NotApplicable
    } else if !complete {
        InherentSelection::Incomplete
    } else if candidates.len() == 0 {
        InherentSelection::NotApplicable
    } else if visible_count(candidates) == 0 {
        InherentSelection::NotVisible
    } else if visible_count(candidates) > 1 {
        InherentSelection::Ambiguous
    } else {
        let k = last_visible(candidates);
        match candidates[k].signature {
            None => InherentSelection::SignatureUnavailable,
            Some(shape) => if !represented(shape) {
                InherentSelection::OutsideSubset
            } else if shape.parameter_count != argument_count {
                InherentSelection::ArgumentCountMismatch
            } else {
                InherentSelection::Selected(k as usize)
            },
        }
    }
}

proof fn lemma_last_visible_bounds(candidates: Seq<InherentCandidate>)
    ensures
        -1 <= last_visible(candidates) < candidates.len(),
        visible_count(candidates) > 0 ==> 0 <= last_visible(candidates) && candidates[last_visible(
            candidates,
        )].externally_visible,
        visible_count(candidates) <= candidates.len(),
    decreases candidates.len(),
{
    if candidates.len() > 0 {
        lemma_last_visible_bounds(candidates.drop_last());
    }
}

/// Select the external inherent method a call names: the one candidate
/// visible from this crate, provided the candidates could all be listed,
/// its signature is available and represented, and the call passes as many
/// arguments as it takes.
pub fn select_external_inherent_method(
    receiver_is_external_type: bool,
    complete: bool,
    candidates: &[InherentCandidate],
    argument_count: usize,
) -> (selection: InherentSelection)
    ensures
        selection == inherent_selection(receiver_is_external_type, complete, candidates@, argument_count),
{
    if !receiver_is_external_type {
        return InherentSelection::NotApplicable;
    }
    if !complete {
        return InherentSelection::Incomplete;
    }
    if candidates.len() == 0 {
        return InherentSelection::NotApplicable;
    }
    let mut count: usize = 0;
    let mut last: usize = 0;
    let mut i: usize = 0;
    proof {
        assert(candidates@.take(0) =~= Seq::<InherentCandidate>::empty());
    }
    while i < candidates.len()
        invariant
            i <= candidates@.len(),
            count == visible_count(candidates@.take(i as int)),
            count > 0 ==> last == last_visible(candidates@.take(i as int)),
            count <= i,
        decreases candidates@.len() - i,
    {
        proof {
            assert(candidates@.take(i + 1).drop_last() =~= candidates@.take(i as int));
            assert(candidates@.take(i + 1).last() == candidates@[i as int]);
            lemma_last_visible_bounds(candidates@.take(i as int));
        }
        if candidates[i].externally_visible {
            count = count + 1;
            last = i;
        }
        i += 1;
    }
    proof {
        assert(candidates@.take(candidates@.len() as int) =~= candidates@);
        lemma_last_visible_bounds(candidates@);
    }
    if count == 0 {
        return InherentSelection::NotVisible;
    }
    if count > 1 {
        return InherentSelection::Ambiguous;
    }
    match candidates[last].signature {
        None => InherentSelection::SignatureUnavailable,
        Some(shape) => {
            if !(shape.eligible && shape.has_receiver && shape.has_owner_self_ty
                && (shape.owner_generic_count as usize) <= shape.generic_count) {
                InherentSelection::OutsideSubset
            } else if shape.parameter_count != argument_count {
                InherentSelection::ArgumentCountMismatch
            } else {
                InherentSelection::Selected(last)
            }
        },
    }
}

/// How certain it is that the receiver implements a trait.
#[derive(Copy, Clone, Debug, PartialEq, Eq, Structural)]
pub enum GoalCertainty {
    Yes,
    Maybe,
    No,
}

/// What the caller learned about one method of a trait in scope whose name
/// is the called one.
#[derive(Copy, Clone, Debug, PartialEq, Eq, Structural)]
pub struct TraitMethodFacts {
    /// The trait's signature is available.
    pub trait_signature_known: bool,
    /// The trait is eligible for the solver.
    pub trait_eligible: bool,
    /// The trait's only type generic is its `Self`.
    pub self_is_only_type_generic: bool,
    /// Whether the receiver implements the trait.
    pub goal: GoalCertainty,
    /// The trait is in scope in every edition.
    pub definitely_in_scope: bool,
    /// The method's signature is available.
    pub function_signature_known: bool,
    /// The method is eligible as a method candidate.
    pub function_eligible: bool,
    /// The number of type generics of the method's signature.
    pub function_type_generic_count: usize,
    /// The instantiated signature has a receiver.
    pub has_receiver: bool,
}

/// One trait in method scope: its items could not be read, or its methods
/// with the called name.
#[derive(Clone, Debug)]
pub enum TraitScopeEntry {
    ItemsUnknown,
    Methods(Vec<TraitMethodFacts>),
}

/// What one method contributes: nothing, a reason the lookup is
/// incomplete, or a definite candidate.
#[derive(Copy, Clone, Debug, PartialEq, Eq, Structural)]
pub enum CandidateClass {
    Skipped,
    Unknown,
    Definite,
}

/// The class of a method, check by check in this order.
pub open spec fn classify(f: TraitMethodFacts) -> CandidateClass {
    if !f.trait_signature_known || !f.trait_eligible || !f.self_is_only_type_generic {
        CandidateClass::Unknown
    } else {
        match f.goal {
            GoalCertainty::No => CandidateClass::Skipped,
            GoalCertainty::Maybe => CandidateClass::Unknown,
            GoalCertainty::Yes => if !f.definitely_in_scope || !f.function_signature_known
                || !f.function_eligible || f.function_type_generic_count != 1 {
                CandidateClass::Unknown
            } else if !f.has_receiver {
                CandidateClass::Skipped
            } else {
                CandidateClass::Definite
            },
        }
    }
}

/// The definite methods of the entry with index `entry`, as (entry,
/// method) index pairs in order.
pub open spec fn method_definites(entry: usize, methods: Seq<TraitMethodFacts>) -> Seq<(usize, usize)>
    decreases methods.len(),
{
    if methods.len() == 0 {
        Seq::empty()
    } else {
        method_definites(entry, methods.drop_last()) + if classify(methods.last()) == CandidateClass::Definite {
            seq![(entry, (methods.len() - 1) as usize)]
        } else {
            Seq::empty()
        }
    }
}

/// The definite methods of all entries, in order.
pub open spec fn definites(entries: Seq<TraitScopeEntry>) -> Seq<(usize, usize)>
    decreases entries.len(),
{
    if entries.len() == 0 {
        Seq::empty()
    } else {
        definites(entries.drop_last()) + match entries.last() {
            TraitScopeEntry::ItemsUnknown => Seq::empty(),
            TraitScopeEntry::Methods(methods) => method_definites((entries.len() - 1) as usize, methods@),
        }
    }
}

/// An entry makes the lookup incomplete: its items are unknown, or one of
/// its methods is of unknown class.
pub open spec fn entry_unknown(entry: TraitScopeEntry) -> bool {
    match entry {
        TraitScopeEntry::ItemsUnknown => true,
        TraitScopeEntry::Methods(methods) => exists|k: int|
            0 <= k < methods@.len() && classify(#[trigger] methods@[k]) == CandidateClass::Unknown,
    }
}

/// What a trait method lookup decides.
#[derive(Copy, Clone, Debug, PartialEq, Eq, Structural)]
pub enum TraitMethodSelection {
    /// The one definite method, by entry and method index.
    Selected { entry: usize, method: usize },
    /// More than one method is definite.
    Ambiguous,
    /// Some provider could not be classified.
    Incomplete,
    /// No method applies.
    NotFound,
}

/// What the lookup decides: the one definite method when no provider is
/// unknown; else ambiguity when more than one is definite; else an
/// incomplete lookup when some provider is unknown; else no method.
pub open spec fn trait_method_selection(
    scope_complete: bool,
    bound_provider_unknown: bool,
    inherent_provider_unknown: bool,
    entries: Seq<TraitScopeEntry>,
) -> TraitMethodSelection {
    let d = definites(entries);
    let unknown = !scope_complete || bound_provider_unknown || inherent_provider_unknown || exists|k: int|
        0 <= k < entries.len() && entry_unknown(#[trigger] entries[k]);
    if d.len() == 1 && !unknown {
        TraitMethodSelection::Selected { entry: d[0].0, method: d[0].1 }
    } else if d.len() > 1 {
        TraitMethodSelection::Ambiguous
    } else if unknown {
        TraitMethodSelection::Incomplete
    } else {
        TraitMethodSelection::NotFound
    }
}

fn classify_method(f: &TraitMethodFacts) -> (class: CandidateClass)
    ensures
        class == classify(*f),
{
    if !f.trait_signature_known || !f.trait_eligible || !f.self_is_only_type_generic {
        return CandidateClass::Unknown;
    }
    match f.goal {
        GoalCertainty::No => CandidateClass::Skipped,
        GoalCertainty::Maybe => CandidateClass::Unknown,
        GoalCertainty::Yes => {
            if !f.definitely_in_scope || !f.function_signature_known || !f.function_eligible
                || f.function_type_generic_count != 1 {
                CandidateClass::Unknown
            } else if !f.has_receiver {
                CandidateClass::Skipped
            } else {
                CandidateClass::Definite
            }
        },
    }
}

/// Select the trait method a call on a receiver names, among the methods
/// of the traits in method scope with the called name.
pub fn select_trait_method(
    scope_complete: bool,
    bound_provider_unknown: bool,
    inherent_provider_unknown: bool,
    entries: &[TraitScopeEntry],
) -> (selection: TraitMethodSelection)
    ensures
        selection == trait_method_selection(
            scope_complete,
            bound_provider_unknown,
            inherent_provider_unknown,
            entries@,
        ),
{
    let mut definite: Vec<(usize, usize)> = Vec::new();
    let mut unknown = !scope_complete || bound_provider_unknown || inherent_provider_unknown;
    let ghost base = unknown;
    let mut i: usize = 0;
    proof {
        assert(entries@.take(0) =~= Seq::<TraitScopeEntry>::empty());
    }
    while i < entries.len()
        invariant
            i <= entries@.len(),
            base == (!scope_complete || bound_provider_unknown || inherent_provider_unknown),
            definite@ == definites(entries@.take(i as int)),
            unknown == (base || exists|k: int| 0 <= k < i && entry_unknown(#[trigger] entries@[k])),
        decreases entries@.len() - i,
    {
        let ghost before = definite@;
        proof {
            assert(entries@.take(i + 1).drop_last() =~= entries@.take(i as int));
            assert(entries@.take(i + 1).last() == entries@[i as int]);
        }
        match &entries[i] {
            TraitScopeEntry::ItemsUnknown => {
                unknown = true;
                proof {
                    assert(entry_unknown(entries@[i as int]));
                    assert(definites(entries@.take(i + 1)) =~= before);
                }
            },
            TraitScopeEntry::Methods(methods) => {
                let ghost ms = methods@;
                let ghost unknown_before = unknown;
                let mut j: usize = 0;
                proof {
                    assert(ms.take(0) =~= Seq::<TraitMethodFacts>::empty());
                    assert(before + method_definites(i, ms.take(0)) =~= before);
                }
                while j < methods.len()
                    invariant
                        j <= ms.len(),
                        ms == methods@,
                        definite@ == before + method_definites(i, ms.take(j as int)),
                        unknown == (unknown_before || exists|q: int|
                            0 <= q < j && classify(#[trigger] ms[q]) == CandidateClass::Unknown),
                    decreases ms.len() - j,
                {
                    proof {
                        assert(ms.take(j + 1).drop_last() =~= ms.take(j as int));
                        assert(ms.take(j + 1).last() == ms[j as int]);
                    }
                    match classify_method(&methods[j]) {
                        CandidateClass::Unknown => {
                            unknown = true;
                            proof {
                                assert(definite@ =~= before + method_definites(i, ms.take(j + 1)));
                            }
                        },
                        CandidateClass::Skipped => {
                            proof {
                                assert(definite@ =~= before + method_definites(i, ms.take(j + 1)));
                            }
                        },
                        CandidateClass::Definite => {
                            definite.push((i, j));
                            proof {
                                assert(definite@ =~= before + method_definites(i, ms.take(j + 1)));
                            }
                        },
                    }
                    j += 1;
                }
                proof {
                    assert(ms.take(ms.len() as int) =~= ms);
                    assert(definites(entries@.take(i + 1)) =~= before + method_definites(i, ms));
                    if unknown && !unknown_before {
                        let q = choose|q: int| 0 <= q < ms.len() && classify(#[trigger] ms[q]) == CandidateClass::Unknown;
                        assert(entry_unknown(entries@[i as int]));
                    }
                    if entry_unknown(entries@[i as int]) {
                        let q = choose|q: int| 0 <= q < ms.len() && classify(#[trigger] ms[q]) == CandidateClass::Unknown;
                        assert(unknown);
                    }
                }
            },
        }
        proof {
            assert(unknown == (base || exists|k: int| 0 <= k < i + 1 && entry_unknown(#[trigger] entries@[k]))) by {
                if entry_unknown(entries@[i as int]) {
                    assert(unknown);
                }
            }
        }
        i += 1;
    }
    proof {
        assert(entries@.take(entries@.len() as int) =~= entries@);
    }
    if definite.len() == 1 && !unknown {
        let chosen = definite[0];
        return TraitMethodSelection::Selected { entry: chosen.0, method: chosen.1 };
    }
    if definite.len() > 1 {
        TraitMethodSelection::Ambiguous
    } else if unknown {
        TraitMethodSelection::Incomplete
    } else {
        TraitMethodSelection::NotFound
    }
}


/// Only the last visible candidate is visible when exactly one is.
proof fn lemma_single_visible(candidates: Seq<InherentCandidate>)
    ensures
        visible_count(candidates) == 1 ==> forall|j: int|
            0 <= j < candidates.len() && (#[trigger] candidates[j]).externally_visible ==> j == last_visible(
                candidates,
            ),
    decreases candidates.len(),
{
    if candidates.len() > 0 {
        let init = candidates.drop_last();
        lemma_single_visible(init);
        lemma_last_visible_bounds(init);
        lemma_last_visible_bounds(candidates);
        if visible_count(candidates) == 1 {
            assert forall|j: int|
                0 <= j < candidates.len() && (#[trigger] candidates[j]).externally_visible implies j
                == last_visible(candidates) by {
                if j < candidates.len() - 1 {
                    assert(init[j] == candidates[j]);
                    if candidates.last().externally_visible {
                        lemma_visible_positive(init, j);
                    }
                }
            }
        }
    }
}

/// A visible candidate is counted.
proof fn lemma_visible_positive(candidates: Seq<InherentCandidate>, j: int)
    requires
        0 <= j < candidates.len(),
        candidates[j].externally_visible,
    ensures
        visible_count(candidates) >= 1,
    decreases candidates.len(),
{
    if j < candidates.len() - 1 {
        assert(candidates.drop_last()[j] == candidates[j]);
        lemma_visible_positive(candidates.drop_last(), j);
    }
}

/// The only visible candidate is the last visible one, counted once.
proof fn lemma_only_visible(candidates: Seq<InherentCandidate>, k: int)
    requires
        0 <= k < candidates.len(),
        candidates[k].externally_visible,
        forall|j: int| 0 <= j < candidates.len() && j != k ==> !(#[trigger] candidates[j]).externally_visible,
    ensures
        visible_count(candidates) == 1,
        last_visible(candidates) == k,
    decreases candidates.len(),
{
    let init = candidates.drop_last();
    if k < candidates.len() - 1 {
        assert(init[k] == candidates[k]);
        assert forall|j: int| 0 <= j < init.len() && j != k implies !(#[trigger] init[j]).externally_visible by {
            assert(init[j] == candidates[j]);
        }
        lemma_only_visible(init, k);
    } else {
        assert forall|j: int| 0 <= j < init.len() implies !(#[trigger] init[j]).externally_visible by {
            assert(init[j] == candidates[j]);
        }
        lemma_none_visible(init);
    }
}

proof fn lemma_none_visible(candidates: Seq<InherentCandidate>)
    requires
        forall|j: int| 0 <= j < candidates.len() ==> !(#[trigger] candidates[j]).externally_visible,
    ensures
        visible_count(candidates) == 0,
    decreases candidates.len(),
{
    if candidates.len() > 0 {
        let init = candidates.drop_last();
        assert forall|j: int| 0 <= j < init.len() implies !(#[trigger] init[j]).externally_visible by {
            assert(init[j] == candidates[j]);
        }
        lemma_none_visible(init);
    }
}

/// An external inherent method is selected only for an external receiver
/// whose candidates were all listed, and only when it is the one visible
/// candidate and its signature is available, eligible, has a receiver and
/// an owner type whose generics are among its own, and takes as many
/// arguments as the call passes.
pub proof fn law_selected_inherent_method_is_callable(
    receiver_is_external_type: bool,
    complete: bool,
    candidates: Seq<InherentCandidate>,
    argument_count: usize,
    k: usize,
)
    requires
        candidates.len() <= usize::MAX,
        inherent_selection(receiver_is_external_type, complete, candidates, argument_count)
            == InherentSelection::Selected(k),
    ensures
        receiver_is_external_type,
        complete,
        k < candidates.len(),
        candidates[k as int].externally_visible,
        forall|j: int| 0 <= j < candidates.len() && j != k ==> !(#[trigger] candidates[j]).externally_visible,
        candidates[k as int].signature matches Some(s) && s.eligible && s.has_receiver && s.has_owner_self_ty
            && s.owner_generic_count <= s.generic_count && s.parameter_count == argument_count,
{
    lemma_last_visible_bounds(candidates);
    lemma_single_visible(candidates);
    assert(k as int == last_visible(candidates));
}

/// Conversely, the one visible candidate of an external receiver whose
/// candidates were all listed is selected when its signature is available,
/// eligible, has a receiver and an owner type whose generics are among its
/// own, and takes as many arguments as the call passes.
pub proof fn law_callable_inherent_method_is_selected(
    complete: bool,
    candidates: Seq<InherentCandidate>,
    argument_count: usize,
    k: usize,
    s: InherentSignatureShape,
)
    requires
        complete,
        k < candidates.len(),
        candidates[k as int].externally_visible,
        forall|j: int| 0 <= j < candidates.len() && j != k ==> !(#[trigger] candidates[j]).externally_visible,
        candidates[k as int].signature == Some(s),
        s.eligible && s.has_receiver && s.has_owner_self_ty && s.owner_generic_count <= s.generic_count,
        s.parameter_count == argument_count,
    ensures
        inherent_selection(true, complete, candidates, argument_count) == InherentSelection::Selected(k),
{
    lemma_only_visible(candidates, k as int);
}

/// A method without a receiver is never the selected inherent method, and
/// a call to it is outside the represented subset when it is the one
/// visible candidate of a complete lookup.
pub proof fn law_receiverless_inherent_method_is_outside(
    complete: bool,
    candidates: Seq<InherentCandidate>,
    argument_count: usize,
    k: usize,
    s: InherentSignatureShape,
)
    requires
        complete,
        k < candidates.len(),
        candidates[k as int].externally_visible,
        forall|j: int| 0 <= j < candidates.len() && j != k ==> !(#[trigger] candidates[j]).externally_visible,
        candidates[k as int].signature == Some(s),
        !s.has_receiver,
    ensures
        inherent_selection(true, complete, candidates, argument_count) == InherentSelection::OutsideSubset,
{
    lemma_only_visible(candidates, k as int);
}

/// The methods of an entry can be numbered by `usize`.
pub open spec fn methods_fit(entry: TraitScopeEntry) -> bool {
    match entry {
        TraitScopeEntry::ItemsUnknown => true,
        TraitScopeEntry::Methods(ms) => ms@.len() <= usize::MAX,
    }
}

/// The entries and their methods can be numbered by `usize`, as those of
/// a slice of vectors are.
pub open spec fn entries_fit(entries: Seq<TraitScopeEntry>) -> bool {
    &&& entries.len() <= usize::MAX
    &&& forall|e: int| 0 <= e < entries.len() ==> methods_fit(#[trigger] entries[e])
}

/// Every definite method lies at a real position and is of a trait method
/// whose facts all allow the call: known and eligible trait and method,
/// the receiver surely implementing the trait, the trait surely in scope,
/// one type generic, and a receiver.
proof fn lemma_definites_applicable(entries: Seq<TraitScopeEntry>, q: int)
    requires
        entries_fit(entries),
        0 <= q < definites(entries).len(),
    ensures
        ({
            let (e, m) = definites(entries)[q];
            &&& e < entries.len()
            &&& entries[e as int] matches TraitScopeEntry::Methods(ms) && m < ms@.len() && classify(ms@[m as int])
                == CandidateClass::Definite
        }),
    decreases entries.len(),
{
    let init = entries.drop_last();
    assert forall|e: int| 0 <= e < init.len() implies methods_fit(#[trigger] init[e]) by {
        assert(init[e] == entries[e]);
    }
    let head = definites(init);
    if q < head.len() {
        lemma_definites_applicable(init, q);
        assert(definites(entries)[q] == head[q]);
        assert(init[head[q].0 as int] == entries[head[q].0 as int]);
    } else {
        match entries.last() {
            TraitScopeEntry::ItemsUnknown => {},
            TraitScopeEntry::Methods(ms) => {
                assert(entries[entries.len() - 1] == entries.last());
                lemma_method_definites(((entries.len() - 1) as usize), ms@, q - head.len());
                assert(definites(entries)[q] == method_definites((entries.len() - 1) as usize, ms@)[q - head.len()]);
            },
        }
    }
}

proof fn lemma_method_definites(entry: usize, methods: Seq<TraitMethodFacts>, q: int)
    requires
        methods.len() <= usize::MAX,
        0 <= q < method_definites(entry, methods).len(),
    ensures
        method_definites(entry, methods)[q].0 == entry,
        method_definites(entry, methods)[q].1 < methods.len(),
        classify(methods[method_definites(entry, methods)[q].1 as int]) == CandidateClass::Definite,
    decreases methods.len(),
{
    let init = methods.drop_last();
    let head = method_definites(entry, init);
    if q < head.len() {
        lemma_method_definites(entry, init, q);
        assert(method_definites(entry, methods)[q] == head[q]);
        assert(init[head[q].1 as int] == methods[head[q].1 as int]);
    } else {
        assert(method_definites(entry, methods)[q] == (entry, (methods.len() - 1) as usize));
    }
}

/// A trait method is selected only when every provider is known, and only
/// if it lies at a real position and all its facts allow the call: the
/// trait and the method are known and eligible, the receiver surely
/// implements the trait, the trait is surely in scope, the method has one
/// type generic, and it takes a receiver.
pub proof fn law_selected_trait_method_is_callable(
    scope_complete: bool,
    bound_provider_unknown: bool,
    inherent_provider_unknown: bool,
    entries: Seq<TraitScopeEntry>,
    entry: usize,
    method: usize,
)
    requires
        entries_fit(entries),
        trait_method_selection(scope_complete, bound_provider_unknown, inherent_provider_unknown, entries)
            == (TraitMethodSelection::Selected { entry, method }),
    ensures
        scope_complete,
        !bound_provider_unknown,
        !inherent_provider_unknown,
        entry < entries.len(),
        entries[entry as int] matches TraitScopeEntry::Methods(ms) && method < ms@.len() && {
            let f = ms@[method as int];
            &&& f.trait_signature_known
            &&& f.trait_eligible
            &&& f.self_is_only_type_generic
            &&& f.goal == GoalCertainty::Yes
            &&& f.definitely_in_scope
            &&& f.function_signature_known
            &&& f.function_eligible
            &&& f.function_type_generic_count == 1
            &&& f.has_receiver
        },
{
    lemma_definites_applicable(entries, 0);
}


proof fn lemma_method_definites_contain(entry: usize, methods: Seq<TraitMethodFacts>, m: int)
    requires
        methods.len() <= usize::MAX,
        0 <= m < methods.len(),
        classify(methods[m]) == CandidateClass::Definite,
    ensures
        method_definites(entry, methods).contains((entry, m as usize)),
    decreases methods.len(),
{
    let init = methods.drop_last();
    let head = method_definites(entry, init);
    if m < methods.len() - 1 {
        assert(init[m] == methods[m]);
        lemma_method_definites_contain(entry, init, m);
        let q = head.index_of((entry, m as usize));
        assert(method_definites(entry, methods)[q] == head[q]);
    } else {
        assert(method_definites(entry, methods)[head.len() as int] == (entry, m as usize));
    }
}

proof fn lemma_definites_contain(entries: Seq<TraitScopeEntry>, e: int, m: int)
    requires
        entries_fit(entries),
        0 <= e < entries.len(),
        entries[e] matches TraitScopeEntry::Methods(ms) && 0 <= m < ms@.len() && classify(ms@[m])
            == CandidateClass::Definite,
    ensures
        definites(entries).contains((e as usize, m as usize)),
    decreases entries.len(),
{
    let init = entries.drop_last();
    let head = definites(init);
    assert forall|x: int| 0 <= x < init.len() implies methods_fit(#[trigger] init[x]) by {
        assert(init[x] == entries[x]);
    }
    if e < entries.len() - 1 {
        assert(init[e] == entries[e]);
        lemma_definites_contain(init, e, m);
        let q = head.index_of((e as usize, m as usize));
        assert(definites(entries)[q] == head[q]);
    } else {
        assert(entries.last() == entries[e]);
        assert(methods_fit(entries[e]));
        match entries[e] {
            TraitScopeEntry::Methods(ms) => {
                lemma_method_definites_contain(e as usize, ms@, m);
                let tail = method_definites(e as usize, ms@);
                let q = tail.index_of((e as usize, m as usize));
                assert(definites(entries)[head.len() + q] == tail[q]);
            },
            TraitScopeEntry::ItemsUnknown => {},
        }
    }
}

/// Two different methods whose facts all allow the call make the lookup
/// ambiguous.
pub proof fn law_two_callable_trait_methods_are_ambiguous(
    scope_complete: bool,
    bound_provider_unknown: bool,
    inherent_provider_unknown: bool,
    entries: Seq<TraitScopeEntry>,
    e1: int,
    m1: int,
    e2: int,
    m2: int,
)
    requires
        entries_fit(entries),
        0 <= e1 < entries.len(),
        0 <= e2 < entries.len(),
        e1 != e2 || m1 != m2,
        entries[e1] matches TraitScopeEntry::Methods(ms) && 0 <= m1 < ms@.len() && {
            let f = ms@[m1];
            f.trait_signature_known && f.trait_eligible && f.self_is_only_type_generic && f.goal
                == GoalCertainty::Yes && f.definitely_in_scope && f.function_signature_known
                && f.function_eligible && f.function_type_generic_count == 1 && f.has_receiver
        },
        entries[e2] matches TraitScopeEntry::Methods(ms) && 0 <= m2 < ms@.len() && {
            let f = ms@[m2];
            f.trait_signature_known && f.trait_eligible && f.self_is_only_type_generic && f.goal
                == GoalCertainty::Yes && f.definitely_in_scope && f.function_signature_known
                && f.function_eligible && f.function_type_generic_count == 1 && f.has_receiver
        },
    ensures
        trait_method_selection(scope_complete, bound_provider_unknown, inherent_provider_unknown, entries)
            == TraitMethodSelection::Ambiguous,
{
    assert(methods_fit(entries[e1]));
    assert(methods_fit(entries[e2]));
    lemma_definites_contain(entries, e1, m1);
    lemma_definites_contain(entries, e2, m2);
    let d = definites(entries);
    let q1 = d.index_of((e1 as usize, m1 as usize));
    let q2 = d.index_of((e2 as usize, m2 as usize));
    assert(d[q1] != d[q2]);
}

/// A provider that could not be settled keeps any method from being
/// selected: an incomplete scope, an unknown bound or inherent provider,
/// a trait whose items are unknown, or a method whose trait or signature
/// is unknown or ineligible, whose receiver only maybe implements the
/// trait, whose trait is not surely in scope, or that has another number
/// of type generics than one.
pub proof fn law_unsettled_provider_blocks_selection(
    scope_complete: bool,
    bound_provider_unknown: bool,
    inherent_provider_unknown: bool,
    entries: Seq<TraitScopeEntry>,
    e: int,
    m: int,
)
    requires
        0 <= e < entries.len(),
        !scope_complete || bound_provider_unknown || inherent_provider_unknown
            || entries[e] is ItemsUnknown || (entries[e] matches TraitScopeEntry::Methods(ms) && 0 <= m
            < ms@.len() && {
            let f = ms@[m];
            ||| !f.trait_signature_known || !f.trait_eligible || !f.self_is_only_type_generic
            ||| f.goal == GoalCertainty::Maybe
            ||| f.goal == GoalCertainty::Yes && (!f.definitely_in_scope || !f.function_signature_known
                || !f.function_eligible || f.function_type_generic_count != 1)
        }),
    ensures
        !(trait_method_selection(scope_complete, bound_provider_unknown, inherent_provider_unknown, entries)
            is Selected),
{
    if entries[e] is ItemsUnknown {
        assert(entry_unknown(entries[e]));
    } else if let TraitScopeEntry::Methods(ms) = entries[e] {
        if 0 <= m < ms@.len() {
            assert(classify(ms@[m]) == CandidateClass::Unknown ==> entry_unknown(entries[e]));
        }
    }
}


/// With no candidate visible from this crate the lookup of a complete,
/// non-empty list for an external receiver reports that; with two visible
/// candidates it is ambiguous.
pub proof fn law_inherent_visibility_decides(
    complete: bool,
    candidates: Seq<InherentCandidate>,
    argument_count: usize,
    j1: int,
    j2: int,
)
    requires
        complete,
        candidates.len() > 0,
    ensures
        (forall|j: int| 0 <= j < candidates.len() ==> !(#[trigger] candidates[j]).externally_visible)
            ==> inherent_selection(true, complete, candidates, argument_count) == InherentSelection::NotVisible,
        0 <= j1 < candidates.len() && 0 <= j2 < candidates.len() && j1 != j2 && candidates[j1].externally_visible
            && candidates[j2].externally_visible ==> inherent_selection(true, complete, candidates, argument_count)
            == InherentSelection::Ambiguous,
{
    if forall|j: int| 0 <= j < candidates.len() ==> !(#[trigger] candidates[j]).externally_visible {
        lemma_none_visible(candidates);
    }
    if 0 <= j1 < candidates.len() && 0 <= j2 < candidates.len() && j1 != j2 && candidates[j1].externally_visible
        && candidates[j2].externally_visible {
        lemma_visible_positive(candidates, j1);
        lemma_single_visible(candidates);
    }
}


/// The entry's items are known, and each of its methods is of a known,
/// eligible trait whose only type generic is `Self`, and is either surely
/// not implemented for the receiver or a callable function without a
/// receiver.
pub open spec fn settled_without_call(entry: TraitScopeEntry) -> bool {
    match entry {
        TraitScopeEntry::ItemsUnknown => false,
        TraitScopeEntry::Methods(ms) => forall|m: int|
            0 <= m < ms@.len() ==> {
                let f = #[trigger] ms@[m];
                &&& f.trait_signature_known && f.trait_eligible && f.self_is_only_type_generic
                &&& f.goal == GoalCertainty::No || (f.goal == GoalCertainty::Yes && f.definitely_in_scope
                    && f.function_signature_known && f.function_eligible && f.function_type_generic_count == 1
                    && !f.has_receiver)
            },
    }
}

/// When every provider is known, every trait's items are known, and each
/// method is either surely not implemented for the receiver or takes no
/// receiver, no method is found.
pub proof fn law_no_callable_trait_method_is_not_found(entries: Seq<TraitScopeEntry>)
    requires
        entries_fit(entries),
        forall|e: int| 0 <= e < entries.len() ==> settled_without_call(#[trigger] entries[e]),
    ensures
        trait_method_selection(true, false, false, entries) == TraitMethodSelection::NotFound,
{
    if definites(entries).len() > 0 {
        lemma_definites_applicable(entries, 0);
        let (e, m) = definites(entries)[0];
        assert(settled_without_call(entries[e as int]));
    }
    assert forall|k: int| 0 <= k < entries.len() implies !entry_unknown(#[trigger] entries[k]) by {
        assert(settled_without_call(entries[k]));
    }
}

} // verus!
