//! The execution trace: what a round records of each operation it meets.

use vstd::prelude::*;

verus! {

/// Where in a run an operation stands: the instruction it belongs to and,
/// for every fold that encloses it, the index of the iteration it ran in.
#[derive(Debug, PartialEq, Eq)]
pub struct Position {
    pub node: u32,
    pub scope: Vec<u32>,
}

/// A position in terms of what its list stands for.
pub struct PositionView {
    pub node: u32,
    pub scope: Seq<u32>,
}

impl View for Position {
    type V = PositionView;

    open spec fn view(&self) -> PositionView {
        PositionView { node: self.node, scope: self.scope@ }
    }
}

impl Position {
    /// The position of instruction `node` in the iterations `scope`.
    pub fn new(node: u32, scope: Vec<u32>) -> (position: Position)
        ensures
            position@ == (PositionView { node, scope: scope@ }),
    {
        Position { node, scope }
    }

    /// A copy of the position.
    pub fn duplicate(&self) -> (copy: Position)
        ensures
            copy@ == self@,
    {
        Position { node: self.node, scope: self.scope.clone() }
    }

    /// Whether two positions are the same place of the same iteration.
    pub fn same_as(&self, other: &Position) -> (same: bool)
        ensures
            same == (self@ == other@),
    {
        if self.node != other.node || self.scope.len() != other.scope.len() {
            return false;
        }
        let mut i: usize = 0;
        while i < self.scope.len()
            invariant
                i <= self.scope@.len(),
                self.scope@.len() == other.scope@.len(),
                forall|j: int| 0 <= j < i ==> self.scope@[j] == other.scope@[j],
            decreases self.scope@.len() - i,
        {
            if self.scope[i] != other.scope[i] {
                return false;
            }
            i += 1;
        }
        assert(self.scope@ =~= other.scope@);
        true
    }
}

/// How far a call has come.
#[derive(Debug, PartialEq, Eq)]
pub enum CallState {
    /// The request was handed to the host, which has not answered yet.
    Requested,
    /// The host answered with a value, held in the value table under `value`.
    Succeeded { value: Vec<u8> },
    /// The host answered with an error; its message is held in the value
    /// table under `message`.
    Failed { code: i32, message: Vec<u8> },
}

/// The state of a call in terms of what its bytes stand for.
pub enum CallStateView {
    Requested,
    Succeeded { value: Seq<u8> },
    Failed { code: i32, message: Seq<u8> },
}

impl View for CallState {
    type V = CallStateView;

    open spec fn view(&self) -> CallStateView {
        match *self {
            CallState::Requested => CallStateView::Requested,
            CallState::Succeeded { value } => CallStateView::Succeeded { value: value@ },
            CallState::Failed { code, message } => CallStateView::Failed { code, message: message@ },
        }
    }
}

impl CallState {
    /// A copy of the state.
    pub fn duplicate(&self) -> (copy: CallState)
        ensures
            copy@ == self@,
    {
        match self {
            CallState::Requested => CallState::Requested,
            CallState::Succeeded { value } => CallState::Succeeded { value: value.clone() },
            CallState::Failed { code, message } => CallState::Failed {
                code: *code,
                message: message.clone(),
            },
        }
    }
}

/// One element of a trace.
#[derive(Debug, PartialEq, Eq)]
pub enum ExecutedState {
    /// A call: the request it was given, the peer that ran it, and how far
    /// it has come.
    Call { position: Position, request_id: u32, peer: Vec<u8>, state: CallState },
    /// A fold: how many of its iterations are complete, and how many states
    /// after this one those iterations recorded.
    Fold { position: Position, iterations: u32, span: u64 },
    /// A branch that was not taken.
    Skip { position: Position },
}

/// A state in terms of what its parts stand for.
pub enum ExecutedStateView {
    Call { position: PositionView, request_id: u32, peer: Seq<u8>, state: CallStateView },
    Fold { position: PositionView, iterations: u32, span: u64 },
    Skip { position: PositionView },
}

impl ExecutedStateView {
    /// The position that the state stands for.
    pub open spec fn position(self) -> PositionView {
        match self {
            ExecutedStateView::Call { position, .. } => position,
            ExecutedStateView::Fold { position, .. } => position,
            ExecutedStateView::Skip { position } => position,
        }
    }

    /// A call that the host has answered.
    pub open spec fn is_completed_call(self) -> bool {
        self matches ExecutedStateView::Call { state, .. } && !(state is Requested)
    }
}

impl View for ExecutedState {
    type V = ExecutedStateView;

    open spec fn view(&self) -> ExecutedStateView {
        match *self {
            ExecutedState::Call { position, request_id, peer, state } => ExecutedStateView::Call {
                position: position@,
                request_id,
                peer: peer@,
                state: state@,
            },
            ExecutedState::Fold { position, iterations, span } => ExecutedStateView::Fold {
                position: position@,
                iterations,
                span,
            },
            ExecutedState::Skip { position } => ExecutedStateView::Skip { position: position@ },
        }
    }
}

impl ExecutedState {
    /// A copy of the state.
    pub fn duplicate(&self) -> (copy: ExecutedState)
        ensures
            copy@ == self@,
    {
        match self {
            ExecutedState::Call { position, request_id, peer, state } => ExecutedState::Call {
                position: position.duplicate(),
                request_id: *request_id,
                peer: peer.clone(),
                state: state.duplicate(),
            },
            ExecutedState::Fold { position, iterations, span } => ExecutedState::Fold {
                position: position.duplicate(),
                iterations: *iterations,
                span: *span,
            },
            ExecutedState::Skip { position } => ExecutedState::Skip { position: position.duplicate() },
        }
    }

    /// The position that the state stands for.
    pub fn position(&self) -> (position: &Position)
        ensures
            position@ == self@.position(),
    {
        match self {
            ExecutedState::Call { position, .. } => position,
            ExecutedState::Fold { position, .. } => position,
            ExecutedState::Skip { position } => position,
        }
    }
}

/// A trace as the sequence of what its states stand for.
pub open spec fn trace_view(trace: Seq<ExecutedState>) -> Seq<ExecutedStateView> {
    trace.map_values(|state: ExecutedState| state@)
}

} // verus!
