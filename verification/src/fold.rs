//! The fold state machine: one frame for every fold that is being walked.

use vstd::prelude::*;

verus! {

/// Where a fold stands.
#[derive(Clone, Copy, Debug, PartialEq, Eq, Structural)]
pub enum FoldPhase {
    /// The fold has not been entered yet.
    NotStarted,
    /// The iteration at `index` is being walked.
    Iterating,
    /// Every iteration is complete.
    Finished,
    /// An iteration did not complete; the fold was left.
    Aborted,
}

/// The state of one fold: the instruction it belongs to, the iteration it
/// is in, the number of iterations it has, and where its marker stands in
/// the current trace.
#[derive(Clone, Copy, Debug, PartialEq, Eq, Structural)]
pub struct FoldState {
    pub node: u32,
    pub index: u32,
    pub bound: u32,
    pub marker: usize,
    pub phase: FoldPhase,
}

impl FoldState {
    /// While a fold iterates its index is below its bound; once finished it
    /// has reached it.
    pub open spec fn wf(self) -> bool {
        &&& self.index <= self.bound
        &&& self.phase is NotStarted ==> self.index == 0
        &&& self.phase is Iterating ==> self.index < self.bound
        &&& self.phase is Finished ==> self.index == self.bound
    }

    /// A fold of `bound` iterations before it is entered.
    pub open spec fn fresh(node: u32, bound: u32, marker: usize) -> FoldState {
        FoldState { node, index: 0, bound, marker, phase: FoldPhase::NotStarted }
    }

    /// The state after a fold that was not started is started behind
    /// `completed` iterations that are on record. A fold cannot start behind
    /// more iterations than it has; it then stays as it is.
    pub open spec fn started(self, completed: u32) -> FoldState {
        if self.phase is NotStarted && completed <= self.bound {
            FoldState {
                index: completed,
                phase: if completed < self.bound {
                    FoldPhase::Iterating
                } else {
                    FoldPhase::Finished
                },
                ..self
            }
        } else {
            self
        }
    }

    /// The state in which a fold of `bound` iterations is entered when
    /// `completed` of them are already recorded.
    pub open spec fn entered(node: u32, bound: u32, completed: u32, marker: usize) -> FoldState {
        FoldState::fresh(node, bound, marker).started(completed)
    }

    /// The state after the current iteration completed.
    pub open spec fn advanced(self) -> FoldState {
        FoldState {
            index: (self.index + 1) as u32,
            phase: if self.index + 1 < self.bound {
                FoldPhase::Iterating
            } else {
                FoldPhase::Finished
            },
            ..self
        }
    }

    /// The state after the fold was left in the middle of an iteration.
    pub open spec fn aborted(self) -> FoldState {
        FoldState { phase: FoldPhase::Aborted, ..self }
    }

    /// A fold of `bound` iterations that has not been entered yet.
    pub fn new(node: u32, bound: u32, marker: usize) -> (state: FoldState)
        ensures
            state == FoldState::fresh(node, bound, marker),
            state.wf(),
    {
        FoldState { node, index: 0, bound, marker, phase: FoldPhase::NotStarted }
    }

    /// Starts a fold at the first iteration that is not recorded as
    /// complete, or finishes it at once where every iteration is.
    pub fn start(&mut self, completed: u32)
        requires
            old(self).wf(),
        ensures
            final(self).wf(),
            *final(self) == old(self).started(completed),
    {
        if matches!(self.phase, FoldPhase::NotStarted) && completed <= self.bound {
            self.index = completed;
            self.phase = if completed < self.bound {
                FoldPhase::Iterating
            } else {
                FoldPhase::Finished
            };
        }
    }

    /// Enters a fold of `bound` iterations, at the first iteration that is
    /// not recorded as complete.
    pub fn enter(node: u32, bound: u32, completed: u32, marker: usize) -> (state: FoldState)
        ensures
            state == FoldState::entered(node, bound, completed, marker),
            state.wf(),
    {
        let mut state = FoldState::new(node, bound, marker);
        state.start(completed);
        state
    }

    /// Whether an iteration is being walked.
    pub fn is_iterating(&self) -> (iterating: bool)
        ensures
            iterating == (self.phase is Iterating),
    {
        matches!(self.phase, FoldPhase::Iterating)
    }

    /// Moves on to the next iteration, or finishes where there is none. A
    /// fold that does not iterate stays as it is.
    pub fn advance(&mut self)
        requires
            old(self).wf(),
        ensures
            final(self).wf(),
            old(self).phase is Iterating ==> *final(self) == old(self).advanced(),
            !(old(self).phase is Iterating) ==> *final(self) == *old(self),
    {
        if matches!(self.phase, FoldPhase::Iterating) {
            self.index = self.index + 1;
            if self.index >= self.bound {
                self.phase = FoldPhase::Finished;
            }
        }
    }

    /// Leaves the fold in the middle of an iteration. A fold that does not
    /// iterate stays as it is.
    pub fn abort(&mut self)
        requires
            old(self).wf(),
        ensures
            final(self).wf(),
            old(self).phase is Iterating ==> *final(self) == old(self).aborted(),
            !(old(self).phase is Iterating) ==> *final(self) == *old(self),
    {
        if matches!(self.phase, FoldPhase::Iterating) {
            self.phase = FoldPhase::Aborted;
        }
    }
}

/// The iteration indexes of a stack of folds, outermost first.
pub open spec fn scope_of(frames: Seq<FoldState>) -> Seq<u32> {
    frames.map_values(|frame: FoldState| frame.index)
}

/// The folds that are being walked, outermost first.
#[derive(Debug)]
pub struct FoldStack {
    frames: Vec<FoldState>,
}

impl View for FoldStack {
    type V = Seq<FoldState>;

    closed spec fn view(&self) -> Seq<FoldState> {
        self.frames@
    }
}

impl FoldStack {
    /// No fold is open.
    pub fn new() -> (stack: FoldStack)
        ensures
            stack@ == Seq::<FoldState>::empty(),
    {
        FoldStack { frames: Vec::new() }
    }

    /// The number of folds that are open.
    pub fn depth(&self) -> (depth: usize)
        ensures
            depth == self@.len(),
    {
        self.frames.len()
    }

    /// Opens a fold inside those that are open.
    pub fn push(&mut self, frame: FoldState)
        ensures
            final(self)@ == old(self)@.push(frame),
    {
        self.frames.push(frame);
    }

    /// Takes the innermost fold off the stack.
    pub fn pop(&mut self) -> (frame: Option<FoldState>)
        ensures
            match frame {
                Some(top) => old(self)@.len() > 0 && top == old(self)@.last() && final(self)@
                    == old(self)@.drop_last(),
                None => old(self)@.len() == 0 && final(self)@ == old(self)@,
            },
    {
        self.frames.pop()
    }

    /// The innermost fold.
    pub fn top(&self) -> (frame: Option<FoldState>)
        ensures
            match frame {
                Some(top) => self@.len() > 0 && top == self@.last(),
                None => self@.len() == 0,
            },
    {
        if self.frames.len() == 0 {
            None
        } else {
            Some(self.frames[self.frames.len() - 1])
        }
    }

    /// Puts `frame` in the place of the innermost fold; without an open fold
    /// nothing changes.
    pub fn replace_top(&mut self, frame: FoldState)
        ensures
            old(self)@.len() > 0 ==> final(self)@ == old(self)@.drop_last().push(frame),
            old(self)@.len() == 0 ==> final(self)@ == old(self)@,
    {
        let depth = self.frames.len();
        if depth > 0 {
            self.frames.set(depth - 1, frame);
            assert(self.frames@ =~= old(self).frames@.drop_last().push(frame));
        }
    }

    /// The iteration indexes of the open folds, outermost first: the
    /// namespace in which an operation met now is recorded.
    pub fn scope(&self) -> (scope: Vec<u32>)
        ensures
            scope@ == scope_of(self@),
    {
        let mut scope: Vec<u32> = Vec::new();
        let mut i: usize = 0;
        while i < self.frames.len()
            invariant
                i <= self.frames@.len(),
                scope@.len() == i,
                forall|j: int| 0 <= j < i ==> scope@[j] == self.frames@[j].index,
            decreases self.frames@.len() - i,
        {
            scope.push(self.frames[i].index);
            i += 1;
        }
        assert(scope@ =~= scope_of(self@));
        scope
    }
}

} // verus!
