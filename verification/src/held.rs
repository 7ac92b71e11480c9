//! The trace and the value table belong together: the table holds every
//! value that a recorded call names, and it holds nothing but what it
//! started with and what the trace of the round names.

use vstd::prelude::*;
use crate::call_results::CALL_SERVICE_SUCCESS;
use crate::exec_ctx::ExecutionFault;
use crate::instruction::Instruction;
use crate::interpreter::answered;
use crate::interpreter::called;
use crate::interpreter::fold_entered;
use crate::interpreter::iterated;
use crate::interpreter::skipped;
use crate::interpreter::walked;
use crate::interpreter::Flow;
use crate::interpreter::WalkEnv;
use crate::interpreter::WalkView;
use crate::trace::CallStateView;
use crate::trace::ExecutedStateView;
use crate::trace::PositionView;
use crate::trace_handler::Decision;
use crate::trace_handler::HandlerView;
use crate::trace_handler::Prospect;

verus! {

/// The identifier of the value that a recorded state names: the result of a
/// call that succeeded, the message of one that failed.
pub open spec fn named(state: ExecutedStateView) -> Option<Seq<u8>> {
    match state {
        ExecutedStateView::Call { state: CallStateView::Succeeded { value }, .. } => Some(value),
        ExecutedStateView::Call { state: CallStateView::Failed { message, .. }, .. } => Some(
            message,
        ),
        _ => None,
    }
}

/// Every identifier that the trace names is one of `held`.
pub open spec fn names_held(trace: Seq<ExecutedStateView>, held: Set<Seq<u8>>) -> bool {
    forall|i: int|
        0 <= i < trace.len() && named(#[trigger] trace[i]) is Some ==> held.contains(
            named(trace[i]).unwrap(),
        )
}

/// A state of the trace names `cid`.
pub open spec fn names(trace: Seq<ExecutedStateView>, cid: Seq<u8>) -> bool {
    exists|i: int| 0 <= i < trace.len() && named(#[trigger] trace[i]) == Some(cid)
}

/// The value table accounts for the traces, and the current trace for the
/// table: the table holds what the recorded and the current trace name, it
/// holds the identifiers of `base`, and what it holds beyond them the
/// current trace names.
pub open spec fn accounted(
    handler: HandlerView,
    cids: Map<Seq<u8>, Seq<u8>>,
    base: Set<Seq<u8>>,
) -> bool {
    &&& handler.wf()
    &&& names_held(handler.previous, cids.dom())
    &&& names_held(handler.current, cids.dom())
    &&& forall|cid: Seq<u8>| #[trigger] base.contains(cid) ==> cids.dom().contains(cid)
    &&& forall|cid: Seq<u8>| #[trigger]
        cids.dom().contains(cid) ==> base.contains(cid) || names(handler.current, cid)
}

/// Recording a state that names no value changes nothing.
proof fn lemma_recorded_plain(
    handler: HandlerView,
    cids: Map<Seq<u8>, Seq<u8>>,
    base: Set<Seq<u8>>,
    state: ExecutedStateView,
)
    requires
        accounted(handler, cids, base),
        named(state) is None,
    ensures
        accounted(handler.recorded(state), cids, base),
{
    let after = handler.recorded(state).current;
    assert forall|cid: Seq<u8>| #[trigger] cids.dom().contains(cid) implies base.contains(cid)
        || names(after, cid) by {
        if !base.contains(cid) {
            let i = choose|i: int|
                0 <= i < handler.current.len() && named(#[trigger] handler.current[i]) == Some(cid);
            assert(after[i] == handler.current[i]);
        }
    }
}

/// Recording a state together with the value that it names keeps the
/// account.
proof fn lemma_recorded_named(
    handler: HandlerView,
    cids: Map<Seq<u8>, Seq<u8>>,
    base: Set<Seq<u8>>,
    state: ExecutedStateView,
    value: Seq<u8>,
)
    requires
        accounted(handler, cids, base),
        named(state) is Some,
    ensures
        accounted(handler.recorded(state), cids.insert(named(state).unwrap(), value), base),
{
    let after = handler.recorded(state).current;
    let held = cids.insert(named(state).unwrap(), value);
    assert forall|cid: Seq<u8>| #[trigger] held.dom().contains(cid) implies base.contains(cid)
        || names(after, cid) by {
        if cid == named(state).unwrap() {
            assert(after[handler.current.len() as int] == state);
        } else if !base.contains(cid) {
            assert(cids.dom().contains(cid));
            let i = choose|i: int|
                0 <= i < handler.current.len() && named(#[trigger] handler.current[i]) == Some(cid);
            assert(after[i] == handler.current[i]);
        }
    }
    assert forall|i: int| 0 <= i < after.len() && named(#[trigger] after[i]) is Some implies held.dom().contains(
        named(after[i]).unwrap(),
    ) by {
        if i < handler.current.len() {
            assert(after[i] == handler.current[i]);
        }
    }
    assert forall|i: int|
        0 <= i < handler.previous.len() && named(
            #[trigger] handler.previous[i],
        ) is Some implies held.dom().contains(named(handler.previous[i]).unwrap()) by {
        assert(cids.dom().contains(named(handler.previous[i]).unwrap()));
    }
}

/// Carrying recorded states over keeps the account.
proof fn lemma_carried(
    handler: HandlerView,
    cids: Map<Seq<u8>, Seq<u8>>,
    base: Set<Seq<u8>>,
    count: nat,
)
    requires
        accounted(handler, cids, base),
        handler.cursor + count <= handler.previous.len(),
    ensures
        accounted(handler.carried(count), cids, base),
{
    let after = handler.carried(count).current;
    assert forall|i: int| 0 <= i < after.len() && named(#[trigger] after[i]) is Some implies cids.dom().contains(
        named(after[i]).unwrap(),
    ) by {
        if i < handler.current.len() {
            assert(after[i] == handler.current[i]);
        } else {
            assert(after[i] == handler.previous[handler.cursor + i - handler.current.len()]);
        }
    }
    assert forall|cid: Seq<u8>| #[trigger] cids.dom().contains(cid) implies base.contains(cid)
        || names(after, cid) by {
        if !base.contains(cid) {
            let i = choose|i: int|
                0 <= i < handler.current.len() && named(#[trigger] handler.current[i]) == Some(cid);
            assert(after[i] == handler.current[i]);
        }
    }
}

/// What the handler does when it meets a recorded state keeps the account.
proof fn lemma_met(
    handler: HandlerView,
    cids: Map<Seq<u8>, Seq<u8>>,
    base: Set<Seq<u8>>,
    position: PositionView,
    prospect: Prospect,
)
    requires
        accounted(handler, cids, base),
    ensures
        accounted(handler.met(position, prospect), cids, base),
{
    match handler.decision(position, prospect) {
        Some(Decision::ReplayedCall { .. }) => {
            lemma_carried(handler, cids, base, 1);
        },
        Some(Decision::ReplayedSkip) => {
            lemma_carried(handler, cids, base, 1);
        },
        Some(Decision::Resume { .. }) => {
            lemma_carried(
                handler,
                cids,
                base,
                1 + handler.previous[handler.cursor as int]->Fold_span as nat,
            );
        },
        _ => {},
    }
}

/// Bringing a fold marker up to date keeps the account.
proof fn lemma_committed(
    handler: HandlerView,
    cids: Map<Seq<u8>, Seq<u8>>,
    base: Set<Seq<u8>>,
    marker: nat,
    completed: u32,
)
    requires
        accounted(handler, cids, base),
        handler.committed(marker, completed) is Some,
    ensures
        accounted(handler.committed(marker, completed).unwrap(), cids, base),
{
    let after = handler.committed(marker, completed).unwrap().current;
    assert forall|i: int| 0 <= i < after.len() && named(#[trigger] after[i]) is Some implies cids.dom().contains(
        named(after[i]).unwrap(),
    ) by {
        if i != marker {
            assert(after[i] == handler.current[i]);
        }
    }
    assert forall|cid: Seq<u8>| #[trigger] cids.dom().contains(cid) implies base.contains(cid)
        || names(after, cid) by {
        if !base.contains(cid) {
            let i = choose|i: int|
                0 <= i < handler.current.len() && named(#[trigger] handler.current[i]) == Some(cid);
            assert(i != marker);
            assert(after[i] == handler.current[i]);
        }
    }
}

/// A call that looks for its answer keeps the account.
proof fn lemma_answered(
    env: WalkEnv,
    state: WalkView,
    position: PositionView,
    request_id: u32,
    base: Set<Seq<u8>>,
)
    requires
        accounted(state.handler, state.cids, base),
    ensures
        accounted(
            answered(env, state, position, request_id).state.handler,
            answered(env, state, position, request_id).state.cids,
            base,
        ),
{
    if !env.answers.dom().contains(request_id) {
        lemma_recorded_plain(
            state.handler,
            state.cids,
            base,
            ExecutedStateView::Call {
                position,
                request_id,
                peer: env.peer,
                state: CallStateView::Requested,
            },
        );
    } else {
        let answer = env.answers[request_id];
        let cid = crate::cid::content_hash(answer.result);
        if !crate::exec_ctx::cids_collide(state.cids, answer.result) {
            let outcome = if answer.ret_code == CALL_SERVICE_SUCCESS {
                CallStateView::Succeeded { value: cid }
            } else {
                CallStateView::Failed { code: answer.ret_code, message: cid }
            };
            lemma_recorded_named(
                state.handler,
                state.cids,
                base,
                ExecutedStateView::Call { position, request_id, peer: env.peer, state: outcome },
                answer.result,
            );
        }
    }
}

/// A call keeps the account.
proof fn lemma_called(env: WalkEnv, state: WalkView, position: PositionView, base: Set<Seq<u8>>)
    requires
        accounted(state.handler, state.cids, base),
    ensures
        accounted(
            called(env, state, position).state.handler,
            called(env, state, position).state.cids,
            base,
        ),
{
    lemma_met(state.handler, state.cids, base, position, Prospect::Call);
    match state.handler.decision(position, Prospect::Call) {
        None => {},
        Some(Decision::Await { request_id }) => {
            lemma_answered(
                env,
                WalkView { handler: state.handler.met(position, Prospect::Call), ..state },
                position,
                request_id,
                base,
            );
        },
        Some(Decision::ReplayedCall { .. }) => {},
        Some(_) => {
            if state.last_call_request_id != u32::MAX {
                let request_id = (state.last_call_request_id + 1) as u32;
                lemma_answered(
                    env,
                    WalkView { last_call_request_id: request_id, ..state },
                    position,
                    request_id,
                    base,
                );
            }
        },
    }
}

/// The walk past a branch that is not taken keeps the account.
proof fn lemma_skipped(state: WalkView, position: PositionView, base: Set<Seq<u8>>)
    requires
        accounted(state.handler, state.cids, base),
    ensures
        accounted(
            skipped(state, position).state.handler,
            skipped(state, position).state.cids,
            base,
        ),
{
    lemma_met(state.handler, state.cids, base, position, Prospect::Skip);
    lemma_recorded_plain(state.handler, state.cids, base, ExecutedStateView::Skip { position });
}

/// Every walk keeps the account: where the value table held what the traces
/// name before, it does so afterwards, and whatever the walk added to the
/// table the current trace names.
pub proof fn lemma_walk_accounts(
    instr: Instruction,
    scope: Seq<u32>,
    env: WalkEnv,
    state: WalkView,
    base: Set<Seq<u8>>,
)
    requires
        accounted(state.handler, state.cids, base),
    ensures
        accounted(
            walked(instr, scope, env, state).state.handler,
            walked(instr, scope, env, state).state.cids,
            base,
        ),
    decreases instr, 1nat, 0nat,
{
    match instr {
        Instruction::Null => {},
        Instruction::Call { node } => {
            lemma_called(env, state, PositionView { node, scope }, base);
        },
        Instruction::Sequence(first, second) => {
            lemma_walk_accounts(*first, scope, env, state, base);
            let done = walked(*first, scope, env, state);
            if done.flow == Ok::<Flow, ExecutionFault>(Flow::Completed) {
                lemma_walk_accounts(*second, scope, env, done.state, base);
            }
        },
        Instruction::Xor { node, first, second } => {
            lemma_walk_accounts(*first, scope, env, state, base);
            let done = walked(*first, scope, env, state);
            if done.flow == Ok::<Flow, ExecutionFault>(Flow::Completed) {
                lemma_skipped(done.state, PositionView { node, scope }, base);
            } else if done.flow == Ok::<Flow, ExecutionFault>(Flow::Failed) {
                lemma_walk_accounts(*second, scope, env, done.state, base);
            }
        },
        Instruction::Fold { node, iterations, body } => {
            let position = PositionView { node, scope };
            let prospect = Prospect::Fold { bound: iterations };
            match fold_entered(state, position, iterations) {
                None => {},
                Some((entered, start)) => {
                    lemma_met(state.handler, state.cids, base, position, prospect);
                    lemma_recorded_plain(
                        state.handler,
                        state.cids,
                        base,
                        ExecutedStateView::Fold { position, iterations: 0, span: 0 },
                    );
                    lemma_iterations_account(
                        instr,
                        scope,
                        env,
                        entered,
                        start,
                        state.handler.current.len(),
                        base,
                    );
                },
            }
        },
    }
}

/// The iterations of a fold keep the account.
pub proof fn lemma_iterations_account(
    instr: Instruction,
    scope: Seq<u32>,
    env: WalkEnv,
    state: WalkView,
    index: u32,
    marker: nat,
    base: Set<Seq<u8>>,
)
    requires
        instr is Fold,
        accounted(state.handler, state.cids, base),
    ensures
        accounted(
            iterated(instr, scope, env, state, index, marker).state.handler,
            iterated(instr, scope, env, state, index, marker).state.cids,
            base,
        ),
    decreases instr, 0nat, (instr->iterations - index) as nat,
{
    match instr {
        Instruction::Fold { node, iterations, body } => {
            if index < iterations {
                lemma_walk_accounts(*body, scope.push(index), env, state, base);
                let done = walked(*body, scope.push(index), env, state);
                if done.flow == Ok::<Flow, ExecutionFault>(Flow::Completed) {
                    match done.state.handler.committed(marker, (index + 1) as u32) {
                        None => {},
                        Some(handler) => {
                            lemma_committed(
                                done.state.handler,
                                done.state.cids,
                                base,
                                marker,
                                (index + 1) as u32,
                            );
                            lemma_iterations_account(
                                instr,
                                scope,
                                env,
                                WalkView { handler, ..done.state },
                                (index + 1) as u32,
                                marker,
                                base,
                            );
                        },
                    }
                }
            }
        },
        _ => {},
    }
}

} // verus!
