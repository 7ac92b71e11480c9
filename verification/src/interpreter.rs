//! The walk of one round over the instruction tree.

use vstd::prelude::*;
use crate::call_results::CallServiceResultView;
use crate::call_results::CALL_SERVICE_SUCCESS;
use crate::cid::content_hash;
use crate::exec_ctx::cids_collide;
use crate::exec_ctx::CallRequest;
use crate::exec_ctx::CtxView;
use crate::exec_ctx::ExecutionCtx;
use crate::exec_ctx::ExecutionError;
use crate::exec_ctx::ExecutionFault;
use crate::fold::scope_of;
use crate::fold::FoldState;
use crate::instruction::Instruction;
use crate::trace::CallState;
use crate::trace::CallStateView;
use crate::trace::ExecutedState;
use crate::trace::ExecutedStateView;
use crate::trace::Position;
use crate::trace::PositionView;
use crate::trace_handler::Decision;
use crate::trace_handler::HandlerView;
use crate::trace_handler::Prospect;
use crate::trace_handler::TraceHandler;

verus! {

/// How the walk of an instruction ended.
#[derive(Clone, Copy, Debug, PartialEq, Eq, Structural)]
pub enum Flow {
    /// The instruction ran to its end.
    Completed,
    /// A call in it was answered with an error that nothing caught.
    Failed,
    /// A call in it waits for the host's answer.
    Pending,
}

/// What a walk changes: the handler, the request counter, the value table
/// and the requests that wait for an answer.
pub struct WalkView {
    pub handler: HandlerView,
    pub last_call_request_id: u32,
    pub cids: Map<Seq<u8>, Seq<u8>>,
    pub requests: Seq<CallRequest>,
}

/// What a walk reads and leaves alone: the peer that runs the round and the
/// answers of the host.
pub struct WalkEnv {
    pub peer: Seq<u8>,
    pub answers: Map<u32, CallServiceResultView>,
}

/// A walk's end and what it left behind.
pub struct Walked {
    pub flow: Result<Flow, ExecutionFault>,
    pub state: WalkView,
}

/// What a walk changes, taken from a handler and a context.
pub open spec fn walk_state(handler: HandlerView, ctx: CtxView) -> WalkView {
    WalkView {
        handler,
        last_call_request_id: ctx.last_call_request_id,
        cids: ctx.cids,
        requests: ctx.requests,
    }
}

/// What a walk reads and leaves alone, taken from a context.
pub open spec fn walk_env(ctx: CtxView) -> WalkEnv {
    WalkEnv { peer: ctx.peer, answers: ctx.answers }
}

/// The context that a walk leaves behind.
pub open spec fn ctx_after(ctx: CtxView, state: WalkView) -> CtxView {
    CtxView {
        last_call_request_id: state.last_call_request_id,
        cids: state.cids,
        requests: state.requests,
        ..ctx
    }
}

/// A call under request `request_id` looks for its answer. Without one it is
/// recorded as requested and the request is noted; with one the answer goes
/// into the value table and the call is recorded with it.
pub open spec fn answered(
    env: WalkEnv,
    state: WalkView,
    position: PositionView,
    request_id: u32,
) -> Walked {
    if !env.answers.dom().contains(request_id) {
        Walked {
            flow: Ok(Flow::Pending),
            state: WalkView {
                handler: state.handler.recorded(
                    ExecutedStateView::Call {
                        position,
                        request_id,
                        peer: env.peer,
                        state: CallStateView::Requested,
                    },
                ),
                requests: state.requests.push(CallRequest { request_id, node: position.node }),
                ..state
            },
        }
    } else {
        let answer = env.answers[request_id];
        let cid = content_hash(answer.result);
        if cids_collide(state.cids, answer.result) {
            Walked { flow: Err(ExecutionFault::CidCollision { cid }), state }
        } else {
            let outcome = if answer.ret_code == CALL_SERVICE_SUCCESS {
                CallStateView::Succeeded { value: cid }
            } else {
                CallStateView::Failed { code: answer.ret_code, message: cid }
            };
            Walked {
                flow: Ok(
                    if answer.ret_code == CALL_SERVICE_SUCCESS {
                        Flow::Completed
                    } else {
                        Flow::Failed
                    },
                ),
                state: WalkView {
                    handler: state.handler.recorded(
                        ExecutedStateView::Call {
                            position,
                            request_id,
                            peer: env.peer,
                            state: outcome,
                        },
                    ),
                    cids: state.cids.insert(cid, answer.result),
                    ..state
                },
            }
        }
    }
}

/// The walk of a call.
pub open spec fn called(env: WalkEnv, state: WalkView, position: PositionView) -> Walked {
    match state.handler.decision(position, Prospect::Call) {
        None => Walked {
            flow: Err(ExecutionFault::TraceMismatch { cursor: state.handler.cursor as usize }),
            state,
        },
        Some(Decision::Await { request_id }) => answered(
            env,
            WalkView { handler: state.handler.met(position, Prospect::Call), ..state },
            position,
            request_id,
        ),
        Some(Decision::ReplayedCall { failed }) => Walked {
            flow: Ok(
                if failed {
                    Flow::Failed
                } else {
                    Flow::Completed
                },
            ),
            state: WalkView { handler: state.handler.met(position, Prospect::Call), ..state },
        },
        Some(_) => if state.last_call_request_id == u32::MAX {
            Walked { flow: Err(ExecutionFault::RequestIdsExhausted), state }
        } else {
            let request_id = (state.last_call_request_id + 1) as u32;
            answered(
                env,
                WalkView { last_call_request_id: request_id, ..state },
                position,
                request_id,
            )
        },
    }
}

/// The walk past a branch that is not taken.
pub open spec fn skipped(state: WalkView, position: PositionView) -> Walked {
    match state.handler.decision(position, Prospect::Skip) {
        None => Walked {
            flow: Err(ExecutionFault::TraceMismatch { cursor: state.handler.cursor as usize }),
            state,
        },
        Some(Decision::ReplayedSkip) => Walked {
            flow: Ok(Flow::Completed),
            state: WalkView { handler: state.handler.met(position, Prospect::Skip), ..state },
        },
        Some(_) => Walked {
            flow: Ok(Flow::Completed),
            state: WalkView {
                handler: state.handler.recorded(ExecutedStateView::Skip { position }),
                ..state
            },
        },
    }
}

/// The state in which a fold starts to iterate, and the iteration it starts
/// with; `None` where the recorded trace does not fit the fold.
pub open spec fn fold_entered(state: WalkView, position: PositionView, bound: u32) -> Option<
    (WalkView, u32),
> {
    match state.handler.decision(position, Prospect::Fold { bound }) {
        None => None,
        Some(Decision::Resume { completed }) => Some(
            (
                WalkView { handler: state.handler.met(position, Prospect::Fold { bound }), ..state },
                completed,
            ),
        ),
        Some(_) => Some(
            (
                WalkView {
                    handler: state.handler.recorded(
                        ExecutedStateView::Fold { position, iterations: 0, span: 0 },
                    ),
                    ..state
                },
                0u32,
            ),
        ),
    }
}

/// The walk of an instruction that stands in the iterations `scope` of the
/// folds around it.
pub open spec fn walked(instr: Instruction, scope: Seq<u32>, env: WalkEnv, state: WalkView) -> Walked
    decreases instr, 1nat, 0nat,
{
    match instr {
        Instruction::Null => Walked { flow: Ok(Flow::Completed), state },
        Instruction::Call { node } => called(env, state, PositionView { node, scope }),
        Instruction::Sequence(first, second) => {
            let done = walked(*first, scope, env, state);
            if done.flow == Ok::<Flow, ExecutionFault>(Flow::Completed) {
                walked(*second, scope, env, done.state)
            } else {
                done
            }
        },
        Instruction::Xor { node, first, second } => {
            let done = walked(*first, scope, env, state);
            if done.flow == Ok::<Flow, ExecutionFault>(Flow::Completed) {
                skipped(done.state, PositionView { node, scope })
            } else if done.flow == Ok::<Flow, ExecutionFault>(Flow::Failed) {
                walked(*second, scope, env, done.state)
            } else {
                done
            }
        },
        Instruction::Fold { node, iterations, body } => {
            match fold_entered(state, PositionView { node, scope }, iterations) {
                None => Walked {
                    flow: Err(
                        ExecutionFault::TraceMismatch { cursor: state.handler.cursor as usize },
                    ),
                    state,
                },
                Some((entered, start)) => iterated(
                    instr,
                    scope,
                    env,
                    entered,
                    start,
                    state.handler.current.len(),
                ),
            }
        },
    }
}

/// The iterations of the fold `instr` from the one at `index` on; the
/// fold's marker stands at `marker` of the current trace.
pub open spec fn iterated(
    instr: Instruction,
    scope: Seq<u32>,
    env: WalkEnv,
    state: WalkView,
    index: u32,
    marker: nat,
) -> Walked
    decreases instr, 0nat, (instr->iterations - index) as nat,
{
    match instr {
        Instruction::Fold { node, iterations, body } => {
            if index >= iterations {
                Walked { flow: Ok(Flow::Completed), state }
            } else {
                let done = walked(*body, scope.push(index), env, state);
                if done.flow == Ok::<Flow, ExecutionFault>(Flow::Completed) {
                    match done.state.handler.committed(marker, (index + 1) as u32) {
                        None => Walked {
                            flow: Err(ExecutionFault::NotAFold { index: marker as usize }),
                            state: done.state,
                        },
                        Some(handler) => iterated(
                            instr,
                            scope,
                            env,
                            WalkView { handler, ..done.state },
                            (index + 1) as u32,
                            marker,
                        ),
                    }
                } else {
                    done
                }
            }
        },
        _ => Walked { flow: Ok(Flow::Completed), state },
    }
}

/// What `walk` and its parts promise: they end as `expected` says and leave
/// the handler and the context as it says, the stack of folds as it was.
pub open spec fn walk_meets(
    expected: Walked,
    ended: Result<Flow, ExecutionError>,
    before: CtxView,
    handler: HandlerView,
    ctx: CtxView,
) -> bool {
    &&& handler == expected.state.handler
    &&& ctx == ctx_after(before, expected.state)
    &&& match ended {
        Ok(flow) => expected.flow == Ok::<Flow, ExecutionFault>(flow),
        Err(e) => expected.flow == Err::<Flow, ExecutionFault>(e@),
    }
}

/// Looks for the host's answer to a call and records the call with it,
/// or as requested where the host has not answered.
fn answer_call(
    position: Position,
    request_id: u32,
    handler: &mut TraceHandler,
    ctx: &mut ExecutionCtx,
) -> (ended: Result<Flow, ExecutionError>)
    requires
        old(handler)@.wf(),
        old(ctx).wf(),
    ensures
        final(handler)@.wf(),
        final(ctx).wf(),
        walk_meets(
            answered(
                walk_env(old(ctx)@),
                walk_state(old(handler)@, old(ctx)@),
                position@,
                request_id,
            ),
            ended,
            old(ctx)@,
            final(handler)@,
            final(ctx)@,
        ),
{
    let peer = ctx.current_peer_id();
    let answer = match ctx.lookup_call_result(request_id) {
        None => None,
        Some(answer) => Some((answer.ret_code, answer.result.clone())),
    };
    match answer {
        None => {
            let node = position.node;
            handler.record(
                ExecutedState::Call { position, request_id, peer, state: CallState::Requested },
            );
            ctx.push_call_request(CallRequest { request_id, node });
            Ok(Flow::Pending)
        },
        Some((ret_code, result)) => {
            let cid = match ctx.intern_value(result.as_slice()) {
                Ok(cid) => cid,
                Err(e) => {
                    return Err(e);
                },
            };
            if ret_code == CALL_SERVICE_SUCCESS {
                handler.record(
                    ExecutedState::Call {
                        position,
                        request_id,
                        peer,
                        state: CallState::Succeeded { value: cid },
                    },
                );
                Ok(Flow::Completed)
            } else {
                handler.record(
                    ExecutedState::Call {
                        position,
                        request_id,
                        peer,
                        state: CallState::Failed { code: ret_code, message: cid },
                    },
                );
                Ok(Flow::Failed)
            }
        },
    }
}

/// Walks a call: takes its recorded outcome where there is one, and
/// makes the request where there is none.
fn walk_call(node: u32, handler: &mut TraceHandler, ctx: &mut ExecutionCtx) -> (ended: Result<
    Flow,
    ExecutionError,
>)
    requires
        old(handler)@.wf(),
        old(ctx).wf(),
    ensures
        final(handler)@.wf(),
        final(ctx).wf(),
        walk_meets(
            called(
                walk_env(old(ctx)@),
                walk_state(old(handler)@, old(ctx)@),
                PositionView { node, scope: scope_of(old(ctx)@.folds) },
            ),
            ended,
            old(ctx)@,
            final(handler)@,
            final(ctx)@,
        ),
{
    let position = Position::new(node, ctx.scope());
    match handler.meet(&position, Prospect::Call) {
        Err(mismatch) => Err(ExecutionError::TraceMismatch { cursor: mismatch.cursor }),
        Ok(Decision::Await { request_id }) => answer_call(position, request_id, handler, ctx),
        Ok(Decision::ReplayedCall { failed }) => Ok(
            if failed {
                Flow::Failed
            } else {
                Flow::Completed
            },
        ),
        Ok(_) => {
            match ctx.next_request_id() {
                Ok(request_id) => answer_call(position, request_id, handler, ctx),
                Err(e) => Err(e),
            }
        },
    }
}

/// Walks past a branch that is not taken, and leaves its marker.
fn walk_skip(node: u32, handler: &mut TraceHandler, ctx: &ExecutionCtx) -> (ended: Result<
    Flow,
    ExecutionError,
>)
    requires
        old(handler)@.wf(),
    ensures
        final(handler)@.wf(),
        walk_meets(
            skipped(
                walk_state(old(handler)@, ctx@),
                PositionView { node, scope: scope_of(ctx@.folds) },
            ),
            ended,
            ctx@,
            final(handler)@,
            ctx@,
        ),
{
    let position = Position::new(node, ctx.scope());
    match handler.meet(&position, Prospect::Skip) {
        Err(mismatch) => Err(ExecutionError::TraceMismatch { cursor: mismatch.cursor }),
        Ok(Decision::ReplayedSkip) => Ok(Flow::Completed),
        Ok(_) => {
            handler.record(ExecutedState::Skip { position });
            Ok(Flow::Completed)
        },
    }
}

/// Walks `instr` in the scope of the folds that are open, taking from the
/// handler what the previous round recorded and asking the context for
/// what it did not.
pub fn walk(instr: &Instruction, handler: &mut TraceHandler, ctx: &mut ExecutionCtx) -> (ended:
    Result<Flow, ExecutionError>)
    requires
        old(handler)@.wf(),
        old(ctx).wf(),
    ensures
        final(handler)@.wf(),
        final(ctx).wf(),
        walk_meets(
            walked(
                *instr,
                scope_of(old(ctx)@.folds),
                walk_env(old(ctx)@),
                walk_state(old(handler)@, old(ctx)@),
            ),
            ended,
            old(ctx)@,
            final(handler)@,
            final(ctx)@,
        ),
    decreases *instr,
{
    match instr {
        Instruction::Null => Ok(Flow::Completed),
        Instruction::Call { node } => walk_call(*node, handler, ctx),
        Instruction::Sequence(first, second) => {
            match walk(first, handler, ctx) {
                Ok(Flow::Completed) => walk(second, handler, ctx),
                other => other,
            }
        },
        Instruction::Xor { node, first, second } => {
            match walk(first, handler, ctx) {
                Ok(Flow::Completed) => walk_skip(*node, handler, ctx),
                Ok(Flow::Failed) => walk(second, handler, ctx),
                other => other,
            }
        },
        Instruction::Fold { node, iterations, body } => {
            let ghost scope = scope_of(ctx@.folds);
            let ghost env = walk_env(ctx@);
            let position = Position::new(*node, ctx.scope());
            let marker = handler.current_len();
            let start = match handler.meet(&position, Prospect::Fold { bound: *iterations }) {
                Err(mismatch) => {
                    return Err(ExecutionError::TraceMismatch { cursor: mismatch.cursor });
                },
                Ok(Decision::Resume { completed }) => completed,
                Ok(_) => {
                    handler.record(ExecutedState::Fold { position, iterations: 0, span: 0 });
                    0
                },
            };
            let mut frame = FoldState::new(*node, *iterations, marker);
            frame.start(start);
            ctx.push_fold(frame);
            let ghost target = iterated(
                *instr,
                scope,
                env,
                walk_state(handler@, ctx@),
                start,
                marker as nat,
            );
            while frame.is_iterating()
                invariant
                    handler@.wf(),
                    ctx.wf(),
                    frame.wf(),
                    frame.bound == *iterations,
                    frame.phase is Iterating || frame.phase is Finished,
                    *instr matches Instruction::Fold { node: n, iterations: i, body: b } && b
                        == *body && i == *iterations,
                    scope == scope_of(old(ctx)@.folds),
                    env == walk_env(old(ctx)@),
                    target == walked(
                        *instr,
                        scope,
                        env,
                        walk_state(old(handler)@, old(ctx)@),
                    ),
                    ctx@ == (CtxView {
                        folds: old(ctx)@.folds.push(frame),
                        ..ctx_after(old(ctx)@, walk_state(handler@, ctx@))
                    }),
                    target == iterated(
                        *instr,
                        scope,
                        env,
                        walk_state(handler@, ctx@),
                        frame.index,
                        marker as nat,
                    ),
                decreases frame.bound - frame.index,
            {
                proof {
                    assert(scope_of(ctx@.folds) =~= scope.push(frame.index));
                }
                match walk(body, handler, ctx) {
                    Ok(Flow::Completed) => {
                        match handler.commit_iteration(marker, frame.index + 1) {
                            Ok(()) => {},
                            Err(refused) => {
                                ctx.pop_fold();
                                proof {
                                    assert(ctx@.folds =~= old(ctx)@.folds);
                                }
                                return Err(ExecutionError::NotAFold { index: refused.index });
                            },
                        }
                        frame.advance();
                        ctx.replace_fold(frame);
                        proof {
                            assert(ctx@.folds =~= old(ctx)@.folds.push(frame));
                        }
                    },
                    other => {
                        frame.abort();
                        ctx.pop_fold();
                        proof {
                            assert(ctx@.folds =~= old(ctx)@.folds);
                        }
                        return other;
                    },
                }
            }
            ctx.pop_fold();
            proof {
                assert(ctx@.folds =~= old(ctx)@.folds);
            }
            Ok(Flow::Completed)
        },
    }
}

} // verus!
