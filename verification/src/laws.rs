//! What holds of every walk: the trace only grows, the request counter
//! never goes back, and a fold's marker counts its complete iterations.

use vstd::prelude::*;
use crate::exec_ctx::ExecutionFault;
use crate::instruction::Instruction;
use crate::interpreter::answered;
use crate::interpreter::called;
use crate::interpreter::fold_entered;
use crate::interpreter::iterated;
use crate::interpreter::skipped;
use crate::interpreter::walked;
use crate::interpreter::Flow;
use crate::interpreter::WalkEnv;
use crate::interpreter::WalkView;
use crate::trace::ExecutedStateView;
use crate::trace::PositionView;
use crate::trace_handler::Decision;
use crate::trace_handler::HandlerView;
use crate::trace_handler::Prospect;

verus! {

/// `after` holds everything that `before` held, in the same places.
pub open spec fn extends(before: Seq<ExecutedStateView>, after: Seq<ExecutedStateView>) -> bool {
    before.len() <= after.len() && after.take(before.len() as int) == before
}

/// `after` holds everything that `before` held, in the same places, but for
/// the fold marker at `marker`, which may count other iterations.
pub open spec fn extends_but(
    before: Seq<ExecutedStateView>,
    after: Seq<ExecutedStateView>,
    marker: nat,
) -> bool {
    &&& before.len() <= after.len()
    &&& forall|i: int| 0 <= i < before.len() && i != marker ==> after[i] == before[i]
    &&& marker < before.len() ==> after[marker as int] is Fold && after[marker as int].position()
        == before[marker as int].position()
}

/// A walk goes on from where another one stood: it reads the same recorded
/// trace, further on; it has given out no fewer request identifiers; every
/// value that the value table held is still there; and what was noted
/// before is still noted.
pub open spec fn goes_on(before: WalkView, after: WalkView) -> bool {
    &&& after.handler.previous == before.handler.previous
    &&& before.cids.submap_of(after.cids)
    &&& before.handler.cursor <= after.handler.cursor
    &&& after.handler.wf()
    &&& before.last_call_request_id <= after.last_call_request_id
    &&& before.requests.len() <= after.requests.len()
    &&& after.requests.take(before.requests.len() as int) == before.requests
}

/// What the handler takes over it appends, and its cursor only moves on.
proof fn lemma_met_goes_on(handler: HandlerView, position: PositionView, prospect: Prospect)
    requires
        handler.wf(),
    ensures
        handler.met(position, prospect).previous == handler.previous,
        handler.cursor <= handler.met(position, prospect).cursor,
        handler.met(position, prospect).wf(),
        extends(handler.current, handler.met(position, prospect).current),
{
    let met = handler.met(position, prospect);
    assert(met.current.take(handler.current.len() as int) =~= handler.current);
}

/// Looking for an answer goes on from the state it started in.
proof fn lemma_answered_goes_on(env: WalkEnv, state: WalkView, position: PositionView, id: u32)
    requires
        state.handler.wf(),
    ensures
        goes_on(state, answered(env, state, position, id).state),
        extends(state.handler.current, answered(env, state, position, id).state.handler.current),
{
    let done = answered(env, state, position, id);
    assert(done.state.handler.current.take(state.handler.current.len() as int)
        =~= state.handler.current);
    assert(done.state.requests.take(state.requests.len() as int) =~= state.requests);
}

/// A call goes on from the state it started in.
proof fn lemma_called_goes_on(env: WalkEnv, state: WalkView, position: PositionView)
    requires
        state.handler.wf(),
    ensures
        goes_on(state, called(env, state, position).state),
        extends(state.handler.current, called(env, state, position).state.handler.current),
{
    lemma_met_goes_on(state.handler, position, Prospect::Call);
    let met = WalkView { handler: state.handler.met(position, Prospect::Call), ..state };
    match state.handler.decision(position, Prospect::Call) {
        None => {
            assert(state.handler.current.take(state.handler.current.len() as int)
                =~= state.handler.current);
            assert(state.requests.take(state.requests.len() as int) =~= state.requests);
        },
        Some(Decision::Await { request_id }) => {
            lemma_answered_goes_on(env, met, position, request_id);
            lemma_extends_twice(
                state.handler.current,
                met.handler.current,
                answered(env, met, position, request_id).state.handler.current,
            );
        },
        Some(Decision::ReplayedCall { failed }) => {
            assert(state.requests.take(state.requests.len() as int) =~= state.requests);
        },
        Some(_) => {
            if state.last_call_request_id == u32::MAX {
                assert(state.handler.current.take(state.handler.current.len() as int)
                    =~= state.handler.current);
                assert(state.requests.take(state.requests.len() as int) =~= state.requests);
            } else {
                let id = (state.last_call_request_id + 1) as u32;
                lemma_answered_goes_on(
                    env,
                    WalkView { last_call_request_id: id, ..state },
                    position,
                    id,
                );
            }
        },
    }
}

/// A skipped branch goes on from the state it started in.
proof fn lemma_skipped_goes_on(state: WalkView, position: PositionView)
    requires
        state.handler.wf(),
    ensures
        goes_on(state, skipped(state, position).state),
        extends(state.handler.current, skipped(state, position).state.handler.current),
{
    lemma_met_goes_on(state.handler, position, Prospect::Skip);
    let done = skipped(state, position);
    assert(done.state.handler.current.take(state.handler.current.len() as int)
        =~= state.handler.current);
    assert(state.requests.take(state.requests.len() as int) =~= state.requests);
}

/// Holding everything that was held before carries over from trace to trace.
pub proof fn lemma_extends_twice(
    a: Seq<ExecutedStateView>,
    b: Seq<ExecutedStateView>,
    c: Seq<ExecutedStateView>,
)
    requires
        extends(a, b),
        extends(b, c),
    ensures
        extends(a, c),
{
    assert forall|i: int| 0 <= i < a.len() implies c[i] == a[i] by {
        assert(b.take(a.len() as int)[i] == b[i]);
        assert(c.take(b.len() as int)[i] == c[i]);
    }
    assert(c.take(a.len() as int) =~= a);
}

/// Going on carries over from walk to walk.
proof fn lemma_goes_on_twice(a: WalkView, b: WalkView, c: WalkView)
    requires
        goes_on(a, b),
        goes_on(b, c),
    ensures
        goes_on(a, c),
{
    assert forall|i: int| 0 <= i < a.requests.len() implies c.requests[i] == a.requests[i] by {
        assert(b.requests.take(a.requests.len() as int)[i] == b.requests[i]);
        assert(c.requests.take(b.requests.len() as int)[i] == c.requests[i]);
    }
    assert(c.requests.take(a.requests.len() as int) =~= a.requests);
    assert(a.cids.submap_of(c.cids)) by {
        assert forall|cid: Seq<u8>| #[trigger] a.cids.dom().contains(cid) implies c.cids.dom().contains(
            cid,
        ) && a.cids[cid] == c.cids[cid] by {
            assert(b.cids.dom().contains(cid));
        }
    }
}

/// Every walk goes on from the state it started in, and leaves what the
/// trace held before as it was: the current trace only grows.
pub proof fn law_walk_goes_on(instr: Instruction, scope: Seq<u32>, env: WalkEnv, state: WalkView)
    requires
        state.handler.wf(),
    ensures
        goes_on(state, walked(instr, scope, env, state).state),
        extends(state.handler.current, walked(instr, scope, env, state).state.handler.current),
    decreases instr, 1nat, 0nat,
{
    let current = state.handler.current;
    let done = walked(instr, scope, env, state);
    match instr {
        Instruction::Null => {
            assert(current.take(current.len() as int) =~= current);
            assert(state.requests.take(state.requests.len() as int) =~= state.requests);
        },
        Instruction::Call { node } => {
            lemma_called_goes_on(env, state, PositionView { node, scope });
        },
        Instruction::Sequence(first, second) => {
            law_walk_goes_on(*first, scope, env, state);
            let mid = walked(*first, scope, env, state);
            if mid.flow == Ok::<Flow, ExecutionFault>(Flow::Completed) {
                law_walk_goes_on(*second, scope, env, mid.state);
                lemma_goes_on_twice(state, mid.state, done.state);
                lemma_extends_twice(current, mid.state.handler.current, done.state.handler.current);
            }
        },
        Instruction::Xor { node, first, second } => {
            law_walk_goes_on(*first, scope, env, state);
            let mid = walked(*first, scope, env, state);
            if mid.flow == Ok::<Flow, ExecutionFault>(Flow::Completed) {
                lemma_skipped_goes_on(mid.state, PositionView { node, scope });
                lemma_goes_on_twice(state, mid.state, done.state);
                lemma_extends_twice(current, mid.state.handler.current, done.state.handler.current);
            } else if mid.flow == Ok::<Flow, ExecutionFault>(Flow::Failed) {
                law_walk_goes_on(*second, scope, env, mid.state);
                lemma_goes_on_twice(state, mid.state, done.state);
                lemma_extends_twice(current, mid.state.handler.current, done.state.handler.current);
            }
        },
        Instruction::Fold { node, iterations, body } => {
            let position = PositionView { node, scope };
            match fold_entered(state, position, iterations) {
                None => {
                    assert(current.take(current.len() as int) =~= current);
                    assert(state.requests.take(state.requests.len() as int) =~= state.requests);
                },
                Some((entered, start)) => {
                    lemma_fold_entered(state, position, iterations);
                    law_fold_counts(instr, scope, env, entered, start, current.len());
                    lemma_goes_on_twice(state, entered, done.state);
                    assert forall|i: int| 0 <= i < current.len() implies done.state.handler.current[i]
                        == current[i] by {
                        assert(entered.handler.current.take(current.len() as int)[i]
                            == entered.handler.current[i]);
                    }
                    assert(done.state.handler.current.take(current.len() as int) =~= current);
                },
            }
        },
    }
}

/// A fold is entered with its marker where the current trace ended, and the
/// marker counts as many iterations as the fold starts behind.
pub proof fn lemma_fold_entered(state: WalkView, position: PositionView, bound: u32)
    requires
        state.handler.wf(),
        fold_entered(state, position, bound) is Some,
    ensures
        ({
            let (entered, start) = fold_entered(state, position, bound).unwrap();
            let marker = state.handler.current.len() as int;
            &&& goes_on(state, entered)
            &&& extends(state.handler.current, entered.handler.current)
            &&& marker < entered.handler.current.len()
            &&& entered.handler.current[marker] matches ExecutedStateView::Fold {
                position: at,
                iterations,
                ..
            }
            &&& at == position
            &&& iterations == start
            &&& start <= bound
        }),
{
    lemma_met_goes_on(state.handler, position, Prospect::Fold { bound });
    let (entered, start) = fold_entered(state, position, bound).unwrap();
    assert(entered.handler.current.take(state.handler.current.len() as int)
        =~= state.handler.current);
    assert(state.requests.take(state.requests.len() as int) =~= state.requests);
}

/// The number of iterations of the fold `instr` that are complete once it
/// has iterated from `index` on.
pub open spec fn iterations_done(
    instr: Instruction,
    scope: Seq<u32>,
    env: WalkEnv,
    state: WalkView,
    index: u32,
    marker: nat,
) -> u32
    decreases instr, 0nat, (instr->iterations - index) as nat,
{
    match instr {
        Instruction::Fold { node, iterations, body } => {
            if index >= iterations {
                index
            } else {
                let done = walked(*body, scope.push(index), env, state);
                if done.flow == Ok::<Flow, ExecutionFault>(Flow::Completed) {
                    match done.state.handler.committed(marker, (index + 1) as u32) {
                        None => index,
                        Some(handler) => iterations_done(
                            instr,
                            scope,
                            env,
                            WalkView { handler, ..done.state },
                            (index + 1) as u32,
                            marker,
                        ),
                    }
                } else {
                    index
                }
            }
        },
        _ => index,
    }
}

/// The marker of a fold counts its complete iterations: however the
/// iterations end, the marker holds as many as ran to their end, no more
/// than the fold has; it holds all of them exactly where the fold
/// completed; and where the fold was left in the middle of an iteration it
/// holds the index of that iteration.
pub proof fn law_fold_counts(
    instr: Instruction,
    scope: Seq<u32>,
    env: WalkEnv,
    state: WalkView,
    index: u32,
    marker: nat,
)
    requires
        instr is Fold,
        state.handler.wf(),
        index <= instr->iterations,
        marker < state.handler.current.len(),
        state.handler.current[marker as int] matches ExecutedStateView::Fold { iterations, .. }
            && iterations == index,
    ensures
        ({
            let done = iterated(instr, scope, env, state, index, marker);
            let count = iterations_done(instr, scope, env, state, index, marker);
            &&& goes_on(state, done.state)
            &&& extends_but(state.handler.current, done.state.handler.current, marker)
            &&& done.state.handler.current[marker as int] matches ExecutedStateView::Fold {
                iterations,
                ..
            }
            &&& iterations == count
            &&& index <= count <= instr->iterations
            &&& done.flow == Ok::<Flow, ExecutionFault>(Flow::Completed) <==> count
                == instr->iterations
            &&& done.flow is Ok && done.flow != Ok::<Flow, ExecutionFault>(Flow::Completed) ==> count
                < instr->iterations
        }),
    decreases instr, 0nat, (instr->iterations - index) as nat,
{
    let current = state.handler.current;
    match instr {
        Instruction::Fold { node, iterations, body } => {
            if index >= iterations {
                assert(state.requests.take(state.requests.len() as int) =~= state.requests);
            } else {
                law_walk_goes_on(*body, scope.push(index), env, state);
                let mid = walked(*body, scope.push(index), env, state);
                let grown = mid.state.handler.current;
                assert(grown.take(current.len() as int)[marker as int] == grown[marker as int]);
                assert forall|i: int| 0 <= i < current.len() implies grown[i] == current[i] by {
                    assert(grown.take(current.len() as int)[i] == grown[i]);
                }
                if mid.flow == Ok::<Flow, ExecutionFault>(Flow::Completed) {
                    let handler = mid.state.handler.committed(marker, (index + 1) as u32).unwrap();
                    let next = WalkView { handler, ..mid.state };
                    assert(goes_on(mid.state, next)) by {
                        assert(next.requests.take(mid.state.requests.len() as int)
                            =~= mid.state.requests);
                    }
                    law_fold_counts(instr, scope, env, next, (index + 1) as u32, marker);
                    let done = iterated(instr, scope, env, next, (index + 1) as u32, marker);
                    lemma_goes_on_twice(state, mid.state, next);
                    lemma_goes_on_twice(state, next, done.state);
                }
            }
        },
        _ => {},
    }
}

/// A fold that the previous round left with `completed` iterations on
/// record is entered at iteration `completed`, not at the first: the state
/// it starts in carries the recorded iterations over, and the fold's frame
/// is entered with that index.
pub proof fn law_fold_resumes_where_it_stopped(
    state: WalkView,
    position: PositionView,
    bound: u32,
    completed: u32,
    span: u64,
)
    requires
        state.handler.wf(),
        state.handler.counterpart(position) == Some(
            ExecutedStateView::Fold { position, iterations: completed, span },
        ),
        completed <= bound,
        state.handler.cursor + 1 + span <= state.handler.previous.len(),
    ensures
        fold_entered(state, position, bound) == Some(
            (
                WalkView { handler: state.handler.carried(1 + span as nat), ..state },
                completed,
            ),
        ),
        crate::fold::FoldState::entered(
            position.node,
            bound,
            completed,
            state.handler.current.len() as usize,
        ).index == completed,
{
}

/// The request counter never goes back in a walk, and a call that is
/// executed afresh is given the identifier after the last one: the
/// identifiers given out in one round rise by one from call to call.
pub proof fn law_request_ids_rise(
    instr: Instruction,
    scope: Seq<u32>,
    env: WalkEnv,
    state: WalkView,
    position: PositionView,
)
    requires
        state.handler.wf(),
    ensures
        state.last_call_request_id <= walked(instr, scope, env, state).state.last_call_request_id,
        state.handler.decision(position, Prospect::Call) == Some(Decision::Execute)
            && state.last_call_request_id < u32::MAX ==> {
            let done = called(env, state, position);
            &&& done == answered(
                env,
                WalkView {
                    last_call_request_id: (state.last_call_request_id + 1) as u32,
                    ..state
                },
                position,
                (state.last_call_request_id + 1) as u32,
            )
            &&& done.state.last_call_request_id == state.last_call_request_id + 1
            &&& done.flow is Ok ==> (done.state.handler.current.last() matches ExecutedStateView::Call {
                request_id,
                ..
            } && request_id == state.last_call_request_id + 1)
        },
{
    law_walk_goes_on(instr, scope, env, state);
}

/// Request identifiers never repeat from round to round. Let a round end
/// with its counter at some value, and let the next round start from that
/// value, as it does when it starts from the data that the first one
/// produced. Then whatever the next round has walked before, a call that it
/// executes afresh is given an identifier above every identifier that the
/// first round gave out.
pub proof fn law_request_ids_never_repeat(
    first: Instruction,
    first_env: WalkEnv,
    first_state: WalkView,
    walked_before: Instruction,
    scope: Seq<u32>,
    env: WalkEnv,
    state: WalkView,
    position: PositionView,
)
    requires
        first_state.handler.wf(),
        state.handler.wf(),
        state.last_call_request_id == walked(
            first,
            Seq::empty(),
            first_env,
            first_state,
        ).state.last_call_request_id,
    ensures
        ({
            let reached = walked(walked_before, scope, env, state).state;
            reached.handler.decision(position, Prospect::Call) == Some(Decision::Execute)
                && reached.last_call_request_id < u32::MAX ==> called(
                env,
                reached,
                position,
            ).state.last_call_request_id > walked(
                first,
                Seq::empty(),
                first_env,
                first_state,
            ).state.last_call_request_id
        }),
{
    law_walk_goes_on(walked_before, scope, env, state);
    let reached = walked(walked_before, scope, env, state).state;
    law_request_ids_rise(Instruction::Null, scope, env, reached, position);
}

/// A call that was answered in an earlier round is not made again: where
/// the recorded trace holds the call with its answer, the walk carries that
/// state over as it is, gives out no request identifier, notes no request
/// and puts nothing into the value table, whatever the host answers now.
pub proof fn law_answered_call_is_not_made_again(
    env: WalkEnv,
    state: WalkView,
    position: PositionView,
    recorded: ExecutedStateView,
)
    requires
        state.handler.wf(),
        state.handler.counterpart(position) == Some(recorded),
        recorded.is_completed_call(),
    ensures
        ({
            let done = called(env, state, position);
            &&& done.flow is Ok
            &&& done.state.handler.current == state.handler.current.push(recorded)
            &&& done.state.handler.cursor == state.handler.cursor + 1
            &&& done.state.last_call_request_id == state.last_call_request_id
            &&& done.state.requests == state.requests
            &&& done.state.cids == state.cids
        }),
{
    let done = called(env, state, position);
    assert(state.handler.previous.subrange(
        state.handler.cursor as int,
        state.handler.cursor + 1 as int,
    ) =~= seq![recorded]);
    assert(done.state.handler.current =~= state.handler.current.push(recorded));
}

} // verus!
