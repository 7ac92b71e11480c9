//! The trace handler: it reads the trace of the previous round and builds
//! the trace of the current one, deciding for each operation whether its
//! recorded outcome is replayed or the operation is executed afresh.

use vstd::prelude::*;
use crate::trace::ExecutedState;
use crate::trace::ExecutedStateView;
use crate::trace::Position;
use crate::trace::PositionView;
use crate::trace::CallState;
use crate::trace::trace_view;

verus! {

/// The kind of operation that the walk is about to perform.
#[derive(Clone, Copy, Debug, PartialEq, Eq, Structural)]
pub enum Prospect {
    /// A call to the host.
    Call,
    /// A fold that will run `bound` iterations.
    Fold { bound: u32 },
    /// A branch that will not be taken.
    Skip,
}

/// What the handler decided for an operation.
#[derive(Clone, Copy, Debug, PartialEq, Eq, Structural)]
pub enum Decision {
    /// Nothing is recorded for the operation: perform it and record the
    /// result.
    Execute,
    /// The call is recorded with its answer and was carried over; `failed`
    /// tells an error from a value.
    ReplayedCall { failed: bool },
    /// The skipped branch is recorded and was carried over.
    ReplayedSkip,
    /// The call is recorded as requested under `request_id`; the host may
    /// have answered since.
    Await { request_id: u32 },
    /// The fold is recorded with `completed` iterations, which were carried
    /// over behind its marker; the marker stands where the current trace
    /// ended before.
    Resume { completed: u32 },
}

/// The state recorded at `cursor` stands for the same place as the
/// operation that met it, and for something else.
#[derive(Clone, Copy, Debug, PartialEq, Eq, Structural)]
pub struct TraceMismatch {
    pub cursor: usize,
}

/// The round ended with `left` recorded states unread.
#[derive(Clone, Copy, Debug, PartialEq, Eq, Structural)]
pub struct UnconsumedSuffix {
    pub left: usize,
}

/// The state at `index` of the current trace is no fold.
#[derive(Clone, Copy, Debug, PartialEq, Eq, Structural)]
pub struct NotAFold {
    pub index: usize,
}

/// The handler in terms of what its traces stand for.
pub struct HandlerView {
    pub previous: Seq<ExecutedStateView>,
    pub cursor: nat,
    pub current: Seq<ExecutedStateView>,
}

impl HandlerView {
    /// The cursor stands inside the recorded trace, or at its end.
    pub open spec fn wf(self) -> bool {
        self.cursor <= self.previous.len()
    }

    /// The recorded state that the operation at `position` has to answer
    /// to, if there is one: the next unread state, where it stands for the
    /// same place.
    pub open spec fn counterpart(self, position: PositionView) -> Option<ExecutedStateView> {
        if self.cursor < self.previous.len() && self.previous[self.cursor as int].position()
            == position {
            Some(self.previous[self.cursor as int])
        } else {
            None
        }
    }

    /// The handler after `count` recorded states, from the cursor on, were
    /// carried over unchanged.
    pub open spec fn carried(self, count: nat) -> HandlerView {
        HandlerView {
            previous: self.previous,
            cursor: self.cursor + count,
            current: self.current + self.previous.subrange(
                self.cursor as int,
                (self.cursor + count) as int,
            ),
        }
    }

    /// The handler after one recorded state was read and not carried over.
    pub open spec fn advanced(self) -> HandlerView {
        HandlerView { previous: self.previous, cursor: self.cursor + 1, current: self.current }
    }

    /// The handler after `state` was recorded.
    pub open spec fn recorded(self, state: ExecutedStateView) -> HandlerView {
        HandlerView {
            previous: self.previous,
            cursor: self.cursor,
            current: self.current.push(state),
        }
    }

    /// What `meet` decides, or `None` where it refuses.
    pub open spec fn decision(self, position: PositionView, prospect: Prospect) -> Option<Decision> {
        match self.counterpart(position) {
            None => Some(Decision::Execute),
            Some(ExecutedStateView::Call { request_id, state, .. }) => if prospect is Call {
                match state {
                    crate::trace::CallStateView::Requested => Some(Decision::Await { request_id }),
                    crate::trace::CallStateView::Succeeded { .. } => Some(
                        Decision::ReplayedCall { failed: false },
                    ),
                    crate::trace::CallStateView::Failed { .. } => Some(
                        Decision::ReplayedCall { failed: true },
                    ),
                }
            } else {
                None
            },
            Some(ExecutedStateView::Skip { .. }) => if prospect is Skip {
                Some(Decision::ReplayedSkip)
            } else {
                None
            },
            Some(ExecutedStateView::Fold { iterations, span, .. }) => match prospect {
                Prospect::Fold { bound } => if iterations <= bound && self.cursor + 1 + span
                    <= self.previous.len() {
                    Some(Decision::Resume { completed: iterations })
                } else {
                    None
                },
                _ => None,
            },
        }
    }

    /// The handler after `meet` decided.
    pub open spec fn met(self, position: PositionView, prospect: Prospect) -> HandlerView {
        match self.decision(position, prospect) {
            Some(Decision::ReplayedCall { .. }) => self.carried(1),
            Some(Decision::ReplayedSkip) => self.carried(1),
            Some(Decision::Await { .. }) => self.advanced(),
            Some(Decision::Resume { .. }) => self.carried(
                1 + self.previous[self.cursor as int]->Fold_span as nat,
            ),
            _ => self,
        }
    }

    /// The handler after the fold marker at `marker` was brought up to
    /// `completed` iterations, or `None` where no fold marker stands there.
    pub open spec fn committed(self, marker: nat, completed: u32) -> Option<HandlerView> {
        if marker < self.current.len() && self.current[marker as int] is Fold {
            Some(
                HandlerView {
                    previous: self.previous,
                    cursor: self.cursor,
                    current: self.current.update(
                        marker as int,
                        ExecutedStateView::Fold {
                            position: self.current[marker as int].position(),
                            iterations: completed,
                            span: (self.current.len() - marker - 1) as u64,
                        },
                    ),
                },
            )
        } else {
            None
        }
    }
}

/// The handler of the two traces of a round: the recorded one, which it
/// reads from a cursor on, and the current one, which it writes.
pub struct TraceHandler {
    previous: Vec<ExecutedState>,
    cursor: usize,
    current: Vec<ExecutedState>,
}

impl View for TraceHandler {
    type V = HandlerView;

    closed spec fn view(&self) -> HandlerView {
        HandlerView {
            previous: trace_view(self.previous@),
            cursor: self.cursor as nat,
            current: trace_view(self.current@),
        }
    }
}

impl TraceHandler {
    /// A handler that reads `previous` from its start and goes on writing
    /// after `current`.
    pub fn from_trace(previous: Vec<ExecutedState>, current: Vec<ExecutedState>) -> (handler:
        TraceHandler)
        ensures
            handler@.wf(),
            handler@.previous == trace_view(previous@),
            handler@.cursor == 0,
            handler@.current == trace_view(current@),
    {
        TraceHandler { previous, cursor: 0, current }
    }

    /// The number of recorded states read so far.
    pub fn next_unconsumed_index(&self) -> (cursor: usize)
        ensures
            cursor == self@.cursor,
    {
        self.cursor
    }

    /// The number of states in the trace of the previous round.
    pub fn previous_len(&self) -> (len: usize)
        ensures
            len == self@.previous.len(),
    {
        self.previous.len()
    }

    /// The number of states written so far.
    pub fn current_len(&self) -> (len: usize)
        ensures
            len == self@.current.len(),
    {
        self.current.len()
    }

    /// Decides for the operation at `position` whether it is executed or
    /// its recorded outcome is taken, and carries over what is taken.
    pub fn meet(&mut self, position: &Position, prospect: Prospect) -> (decided: Result<
        Decision,
        TraceMismatch,
    >)
        requires
            old(self)@.wf(),
        ensures
            final(self)@.wf(),
            match decided {
                Ok(decision) => {
                    &&& old(self)@.decision(position@, prospect) == Some(decision)
                    &&& final(self)@ == old(self)@.met(position@, prospect)
                },
                Err(mismatch) => {
                    &&& old(self)@.decision(position@, prospect) is None
                    &&& mismatch.cursor == old(self)@.cursor
                    &&& final(self)@ == old(self)@
                },
            },
    {
        if self.cursor >= self.previous.len() {
            return Ok(Decision::Execute);
        }
        let cursor = self.cursor;
        if !self.previous[cursor].position().same_as(position) {
            return Ok(Decision::Execute);
        }
        proof {
            assert(trace_view(self.previous@)[cursor as int] == self.previous@[cursor as int]@);
        }
        match &self.previous[cursor] {
            ExecutedState::Call { request_id, state, .. } => {
                if !matches!(prospect, Prospect::Call) {
                    return Err(TraceMismatch { cursor });
                }
                match state {
                    CallState::Requested => {
                        let request_id = *request_id;
                        self.cursor = cursor + 1;
                        Ok(Decision::Await { request_id })
                    },
                    CallState::Succeeded { .. } => {
                        self.carry(1);
                        Ok(Decision::ReplayedCall { failed: false })
                    },
                    CallState::Failed { .. } => {
                        self.carry(1);
                        Ok(Decision::ReplayedCall { failed: true })
                    },
                }
            },
            ExecutedState::Skip { .. } => {
                if !matches!(prospect, Prospect::Skip) {
                    return Err(TraceMismatch { cursor });
                }
                self.carry(1);
                Ok(Decision::ReplayedSkip)
            },
            ExecutedState::Fold { iterations, span, .. } => {
                let iterations = *iterations;
                let span = *span;
                match prospect {
                    Prospect::Fold { bound } => {
                        let left = self.previous.len() - cursor - 1;
                        if iterations <= bound && span <= left as u64 {
                            self.carry(1 + span as usize);
                            Ok(Decision::Resume { completed: iterations })
                        } else {
                            Err(TraceMismatch { cursor })
                        }
                    },
                    _ => Err(TraceMismatch { cursor }),
                }
            },
        }
    }

    /// Carries `count` recorded states over to the current trace.
    fn carry(&mut self, count: usize)
        requires
            old(self).cursor + count <= old(self).previous@.len(),
        ensures
            final(self)@ == old(self)@.carried(count as nat),
            final(self)@.wf(),
    {
        let mut i: usize = 0;
        let held = self.previous.len();
        while i < count
            invariant
                i <= count,
                held == old(self).previous@.len(),
                old(self).cursor + count <= old(self).previous@.len(),
                self.previous == old(self).previous,
                self.cursor == old(self).cursor + i,
                trace_view(self.current@) == trace_view(old(self).current@) + trace_view(
                    self.previous@,
                ).subrange(old(self).cursor as int, old(self).cursor + i),
            decreases count - i,
        {
            let state = self.previous[self.cursor].duplicate();
            let ghost before = trace_view(self.current@);
            self.current.push(state);
            assert(trace_view(self.current@) =~= before.push(state@));
            self.cursor = self.cursor + 1;
            i += 1;
            assert(trace_view(self.current@) =~= trace_view(old(self).current@) + trace_view(
                self.previous@,
            ).subrange(old(self).cursor as int, old(self).cursor + i));
        }
    }

    /// Appends the state of an operation that was executed in this round.
    pub fn record(&mut self, state: ExecutedState)
        ensures
            final(self)@ == old(self)@.recorded(state@),
    {
        let ghost before = trace_view(self.current@);
        self.current.push(state);
        assert(trace_view(self.current@) =~= before.push(state@));
    }

    /// Brings the fold marker at `marker` of the current trace up to date:
    /// `completed` iterations are complete, and every state after the marker
    /// belongs to them.
    pub fn commit_iteration(&mut self, marker: usize, completed: u32) -> (done: Result<
        (),
        NotAFold,
    >)
        ensures
            match done {
                Ok(()) => old(self)@.committed(marker as nat, completed) == Some(final(self)@),
                Err(refused) => {
                    &&& old(self)@.committed(marker as nat, completed) is None
                    &&& refused.index == marker
                    &&& final(self)@ == old(self)@
                },
            },
    {
        if marker >= self.current.len() {
            return Err(NotAFold { index: marker });
        }
        proof {
            assert(trace_view(self.current@)[marker as int] == self.current@[marker as int]@);
        }
        let span = (self.current.len() - marker - 1) as u64;
        let updated = match &self.current[marker] {
            ExecutedState::Fold { position, .. } => ExecutedState::Fold {
                position: position.duplicate(),
                iterations: completed,
                span,
            },
            _ => {
                return Err(NotAFold { index: marker });
            },
        };
        let ghost before = trace_view(self.current@);
        self.current.set(marker, updated);
        assert(trace_view(self.current@) =~= before.update(marker as int, updated@));
        Ok(())
    }

    /// Ends the round and hands out the trace that was built. Recorded
    /// states that were never read are dropped, unless `strict` asks for
    /// them to be reported.
    pub fn finish(self, strict: bool) -> (done: Result<Vec<ExecutedState>, UnconsumedSuffix>)
        requires
            self@.wf(),
        ensures
            match done {
                Ok(trace) => trace_view(trace@) == self@.current && (strict ==> self@.cursor
                    == self@.previous.len()),
                Err(unread) => strict && unread.left > 0 && unread.left == self@.previous.len()
                    - self@.cursor,
            },
    {
        let left = self.previous.len() - self.cursor;
        if strict && left > 0 {
            Err(UnconsumedSuffix { left })
        } else {
            Ok(self.current)
        }
    }
}

} // verus!
