//! Caller-side proof obligations retained by body checking, and the batches
//! of obligations staged by an inference transaction.
use vstd::prelude::*;

use crate::ty::{InferVarIndex, RelativeSpan};

verus! {

/// Why a body-checking obligation was introduced.
#[derive(Copy, Clone, Debug, PartialEq, Eq, Structural, Hash)]
pub enum ObligationReason {
    Explicit,
    FunctionCall,
    AdtWellFormedness,
}

impl ObligationReason {
    /// The text shown for an obligation with this reason.
    pub open spec fn spec_description(self) -> Seq<char> {
        match self {
            ObligationReason::Explicit => "required trait bound"@,
            ObligationReason::FunctionCall => "bound required by this function use"@,
            ObligationReason::AdtWellFormedness => "bound required by this type use"@,
        }
    }

    pub fn description(self) -> (text: &'static str)
        ensures
            text@ == self.spec_description(),
    {
        match self {
            ObligationReason::Explicit => "required trait bound",
            ObligationReason::FunctionCall => "bound required by this function use",
            ObligationReason::AdtWellFormedness => "bound required by this type use",
        }
    }
}

/// Where and why an obligation arose.
#[derive(Copy, Clone, Debug, PartialEq, Eq, Structural, Hash)]
pub struct ObligationProvenance {
    pub span: RelativeSpan,
    pub reason: ObligationReason,
}

/// The scheduling state of an obligation.
#[derive(Copy, Clone, Debug, PartialEq, Eq, Structural)]
pub enum ObligationState {
    Ready,
    Stalled,
    Terminal,
}

/// One retained caller-side proof request. `payload` holds the goal and
/// the solver's data about it; the manager only reads the scheduling
/// fields.
pub struct Obligation<P> {
    pub payload: P,
    pub provenance: Vec<ObligationProvenance>,
    pub state: ObligationState,
    pub stalled_on: Vec<InferVarIndex>,
    pub last_attempted_revision: Option<u64>,
}

/// The scheduling view of an obligation: its state and the variables it
/// waits on.
pub struct ObligationView {
    pub state: ObligationState,
    pub stalled_on: Seq<InferVarIndex>,
}

/// Some variable of `stalled_on` is among `variables`.
pub open spec fn waits_on_any(stalled_on: Seq<InferVarIndex>, variables: Seq<InferVarIndex>) -> bool {
    exists|i: int| 0 <= i < stalled_on.len() && #[trigger] variables.contains(stalled_on[i])
}

/// The indices in `0..n` whose entry satisfies `pick`, in increasing order.
pub open spec fn indices_where(n: nat, pick: spec_fn(int) -> bool) -> Seq<usize>
    decreases n,
{
    if n == 0 {
        Seq::empty()
    } else if pick(n - 1) {
        indices_where((n - 1) as nat, pick).push((n - 1) as usize)
    } else {
        indices_where((n - 1) as nat, pick)
    }
}

/// The obligations of a body, in registration order.
pub struct ObligationManager<P> {
    pub obligations: Vec<Obligation<P>>,
}

impl<P> ObligationManager<P> {
    /// The scheduling views of the obligations.
    pub open spec fn views(&self) -> Seq<ObligationView> {
        self.obligations@.map_values(
            |o: Obligation<P>| ObligationView { state: o.state, stalled_on: o.stalled_on@ },
        )
    }

    /// Index `i` holds an obligation that is not yet terminal.
    pub open spec fn is_pending(&self, i: int) -> bool {
        !(self.obligations@[i].state is Terminal)
    }

    /// Index `i` holds an obligation ready to be attempted.
    pub open spec fn is_ready(&self, i: int) -> bool {
        self.obligations@[i].state is Ready
    }

    pub fn new() -> (manager: Self)
        ensures
            manager.obligations@ == Seq::<Obligation<P>>::empty(),
    {
        ObligationManager { obligations: Vec::new() }
    }

    /// Some obligation is not yet terminal.
    pub fn has_pending(&self) -> (pending: bool)
        ensures
            pending == exists|i: int| 0 <= i < self.obligations@.len() && #[trigger] self.is_pending(i),
    {
        let mut i: usize = 0;
        while i < self.obligations.len()
            invariant
                i <= self.obligations@.len(),
                forall|j: int| 0 <= j < i ==> !#[trigger] self.is_pending(j),
            decreases self.obligations@.len() - i,
        {
            match self.obligations[i].state {
                ObligationState::Terminal => {},
                _ => {
                    proof {
                        assert(self.is_pending(i as int));
                    }
                    return true;
                },
            }
            i += 1;
        }
        false
    }

    /// The indices of the ready obligations, in increasing order.
    pub fn ready_indices(&self) -> (indices: Vec<usize>)
        ensures
            indices@ == indices_where(self.obligations@.len(), |i: int| self.is_ready(i)),
    {
        let ghost pick = |i: int| self.is_ready(i);
        let mut indices: Vec<usize> = Vec::new();
        let mut i: usize = 0;
        while i < self.obligations.len()
            invariant
                i <= self.obligations@.len(),
                pick == (|i: int| self.is_ready(i)),
                indices@ == indices_where(i as nat, pick),
            decreases self.obligations@.len() - i,
        {
            let ready = match self.obligations[i].state {
                ObligationState::Ready => true,
                _ => false,
            };
            if ready {
                indices.push(i);
            }
            proof {
                assert(indices_where((i + 1) as nat, pick) == if pick(i as int) {
                    indices_where(i as nat, pick).push(i)
                } else {
                    indices_where(i as nat, pick)
                });
            }
            i += 1;
        }
        indices
    }

    /// The indices of the obligations that are not yet terminal, in
    /// increasing order.
    pub fn pending_indices(&self) -> (indices: Vec<usize>)
        ensures
            indices@ == indices_where(self.obligations@.len(), |i: int| self.is_pending(i)),
    {
        let ghost pick = |i: int| self.is_pending(i);
        let mut indices: Vec<usize> = Vec::new();
        let mut i: usize = 0;
        while i < self.obligations.len()
            invariant
                i <= self.obligations@.len(),
                pick == (|i: int| self.is_pending(i)),
                indices@ == indices_where(i as nat, pick),
            decreases self.obligations@.len() - i,
        {
            let pending = match self.obligations[i].state {
                ObligationState::Terminal => false,
                _ => true,
            };
            if pending {
                indices.push(i);
            }
            proof {
                assert(indices_where((i + 1) as nat, pick) == if pick(i as int) {
                    indices_where(i as nat, pick).push(i)
                } else {
                    indices_where(i as nat, pick)
                });
            }
            i += 1;
        }
        indices
    }

    /// Make ready every stalled obligation that waits on one of
    /// `variables`; nothing else changes.
    pub fn wake(&mut self, variables: &[InferVarIndex])
        ensures
            final(self).obligations@.len() == old(self).obligations@.len(),
            forall|i: int|
                0 <= i < old(self).obligations@.len() ==> {
                    let before = #[trigger] old(self).obligations@[i];
                    let after = final(self).obligations@[i];
                    &&& after.payload == before.payload
                    &&& after.provenance@ == before.provenance@
                    &&& after.stalled_on@ == before.stalled_on@
                    &&& after.last_attempted_revision == before.last_attempted_revision
                    &&& after.state == if before.state is Stalled && waits_on_any(
                        before.stalled_on@,
                        variables@,
                    ) {
                        ObligationState::Ready
                    } else {
                        before.state
                    }
                },
    {
        if variables.len() == 0 {
            proof {
                assert forall|i: int| 0 <= i < self.obligations@.len() implies !waits_on_any(
                    #[trigger] self.obligations@[i].stalled_on@,
                    variables@,
                ) by {}
            }
            return;
        }
        let mut i: usize = 0;
        while i < self.obligations.len()
            invariant
                i <= self.obligations@.len(),
                self.obligations@.len() == old(self).obligations@.len(),
                forall|j: int|
                    i <= j < self.obligations@.len() ==> #[trigger] self.obligations@[j] == old(
                        self,
                    ).obligations@[j],
                forall|j: int|
                    0 <= j < i ==> {
                        let before = #[trigger] old(self).obligations@[j];
                        let after = self.obligations@[j];
                        &&& after.payload == before.payload
                        &&& after.provenance@ == before.provenance@
                        &&& after.stalled_on@ == before.stalled_on@
                        &&& after.last_attempted_revision == before.last_attempted_revision
                        &&& after.state == if before.state is Stalled && waits_on_any(
                            before.stalled_on@,
                            variables@,
                        ) {
                            ObligationState::Ready
                        } else {
                            before.state
                        }
                    },
            decreases self.obligations@.len() - i,
        {
            let stalled = match self.obligations[i].state {
                ObligationState::Stalled => true,
                _ => false,
            };
            if stalled && any_listed(&self.obligations[i].stalled_on, variables) {
                let ghost before = self.obligations@;
                self.obligations[i].state = ObligationState::Ready;
                proof {
                    assert forall|j: int| 0 <= j < self.obligations@.len() && j != i implies #[trigger] self.obligations@[j]
                        == before[j] by {}
                }
            }
            i += 1;
        }
    }
}

/// Some member of `stalled_on` is among `variables`.
fn any_listed(stalled_on: &Vec<InferVarIndex>, variables: &[InferVarIndex]) -> (found: bool)
    ensures
        found == waits_on_any(stalled_on@, variables@),
{
    let mut i: usize = 0;
    while i < stalled_on.len()
        invariant
            i <= stalled_on@.len(),
            forall|j: int| 0 <= j < i ==> !variables@.contains(#[trigger] stalled_on@[j]),
        decreases stalled_on@.len() - i,
    {
        let x = stalled_on[i];
        let mut k: usize = 0;
        while k < variables.len()
            invariant
                k <= variables@.len(),
                i < stalled_on@.len(),
                x == stalled_on@[i as int],
                forall|j: int| 0 <= j < i ==> !variables@.contains(#[trigger] stalled_on@[j]),
                forall|q: int| 0 <= q < k ==> variables@[q] != x,
            decreases variables@.len() - k,
        {
            if variables[k] == x {
                proof {
                    assert(variables@[k as int] == stalled_on@[i as int]);
                    assert(variables@.contains(stalled_on@[i as int]));
                }
                return true;
            }
            k += 1;
        }
        proof {
            assert(!variables@.contains(x)) by {
                if variables@.contains(x) {
                    let q = variables@.index_of(x);
                    assert(variables@[q] != x);
                }
            }
        }
        i += 1;
    }
    false
}

/// Obligations staged by an inference transaction. Dropping the batch is a
/// rollback; the caller publishes it only after committing the transaction.
/// `E` is the checked parameter environment each entry carries.
pub struct StagedObligationBatch<E> {
    pub environments: Vec<(E, ObligationProvenance)>,
}

impl<E> StagedObligationBatch<E> {
    pub fn new() -> (batch: Self)
        ensures
            batch.environments@ == Seq::<(E, ObligationProvenance)>::empty(),
    {
        StagedObligationBatch { environments: Vec::new() }
    }

    /// Stage one parameter environment with its provenance.
    pub fn push_parameter_env(&mut self, environment: E, span: RelativeSpan, reason: ObligationReason)
        ensures
            final(self).environments@ == old(self).environments@.push(
                (environment, ObligationProvenance { span, reason }),
            ),
    {
        self.environments.push((environment, ObligationProvenance { span, reason }));
    }

    pub fn is_empty(&self) -> (empty: bool)
        ensures
            empty == (self.environments@.len() == 0),
    {
        self.environments.len() == 0
    }
}

} // verus!
