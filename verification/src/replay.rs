//! Replay equivalence: the answers of the host may come in one round or
//! spread over two, the trace that is produced in the end is the same, and
//! so are the bytes that are stored and signed.

use vstd::prelude::*;
use crate::call_results::CallResults;
use crate::call_results::CallResultsError;
use crate::codec_laws::law_data_decides_encoding;
use crate::codec_laws::law_stored_data_reads_back;
use crate::data::decoded;
use crate::data::encoding;
use crate::data::InterpreterData;
use crate::exec_ctx::RunParameters;
use crate::held::accounted;
use crate::held::lemma_walk_accounts;
use crate::held::named;
use crate::interpreter::walk_env;
use crate::interpreter::walk_state;
use crate::preparation::data_of;
use crate::preparation::initial_ctx;
use crate::runner::produced;
use crate::runner::stands_for;
use crate::runner::round_ended;
use crate::runner::RoundError;
use crate::runner::RoundOutcome;
use crate::signature::KeyPair;
use crate::exec_ctx::ExecutionFault;
use crate::instruction::Instruction;
use crate::interpreter::fold_entered;
use crate::interpreter::iterated;
use crate::interpreter::skipped;
use crate::interpreter::walked;
use crate::interpreter::Flow;
use crate::interpreter::WalkEnv;
use crate::interpreter::WalkView;
use crate::laws::extends;
use crate::laws::law_walk_goes_on;
use crate::trace::ExecutedStateView;
use crate::trace::PositionView;
use crate::trace_handler::Decision;
use crate::trace_handler::HandlerView;
use crate::trace_handler::Prospect;

verus! {

/// Nothing is left to read of the recorded trace.
pub open spec fn exhausted(handler: HandlerView) -> bool {
    handler.cursor == handler.previous.len()
}

/// What a walk wrote: the states of `after` behind those of `before`.
pub open spec fn written(before: WalkView, after: WalkView) -> Seq<ExecutedStateView> {
    after.handler.current.skip(before.handler.current.len() as int)
}

/// What a trace holds from place `base` on.
pub open spec fn since(base: nat, state: WalkView) -> Seq<ExecutedStateView> {
    state.handler.current.skip(base as int)
}

/// `part` holds no answer that `whole` does not hold.
pub open spec fn answers_within(part: WalkEnv, whole: WalkEnv) -> bool {
    &&& part.peer == whole.peer
    &&& forall|id: u32| #[trigger]
        part.answers.dom().contains(id) ==> whole.answers.dom().contains(id) && whole.answers[id]
            == part.answers[id]
}

/// Two hosts answer the requests from `low` to `high` alike.
pub open spec fn answers_agree_between(one: WalkEnv, other: WalkEnv, low: int, high: int) -> bool {
    &&& one.peer == other.peer
    &&& forall|id: u32|
        low <= id <= high ==> (#[trigger] one.answers.dom().contains(id)
            == other.answers.dom().contains(id)) && (one.answers.dom().contains(id)
            ==> one.answers[id] == other.answers[id])
}

/// What two walks wrote one after the other is what the first wrote,
/// then what the second wrote.
proof fn lemma_written_chain(start: WalkView, mid: WalkView, end: WalkView)
    requires
        extends(start.handler.current, mid.handler.current),
        extends(mid.handler.current, end.handler.current),
    ensures
        written(start, end) == written(start, mid) + written(mid, end),
{
    assert(written(start, end) =~= written(start, mid) + written(mid, end));
}

/// A walk that stays where it is has written nothing.
proof fn lemma_written_nothing(state: WalkView)
    ensures
        written(state, state) == Seq::<ExecutedStateView>::empty(),
{
    assert(written(state, state) =~= Seq::<ExecutedStateView>::empty());
}

/// A walk that finds nothing left to read leaves nothing left to read.
proof fn lemma_stays_exhausted(instr: Instruction, scope: Seq<u32>, env: WalkEnv, state: WalkView)
    requires
        state.handler.wf(),
        exhausted(state.handler),
    ensures
        exhausted(walked(instr, scope, env, state).state.handler),
        walked(instr, scope, env, state).state.handler.wf(),
        extends(state.handler.current, walked(instr, scope, env, state).state.handler.current),
        state.last_call_request_id <= walked(instr, scope, env, state).state.last_call_request_id,
        state.cids.submap_of(walked(instr, scope, env, state).state.cids),
{
    law_walk_goes_on(instr, scope, env, state);
}

/// Holding every value carries over from table to table.
proof fn lemma_values_kept(
    few: Map<Seq<u8>, Seq<u8>>,
    more: Map<Seq<u8>, Seq<u8>>,
    most: Map<Seq<u8>, Seq<u8>>,
)
    requires
        few.submap_of(more),
        more.submap_of(most),
    ensures
        few.submap_of(most),
{
    assert forall|cid: Seq<u8>| #[trigger] few.dom().contains(cid) implies most.dom().contains(
        cid,
    ) && few[cid] == most[cid] by {
        assert(more.dom().contains(cid));
    }
}

/// The iterations of a fold lose no value of the value table.
proof fn lemma_iterations_keep_values(
    instr: Instruction,
    scope: Seq<u32>,
    env: WalkEnv,
    state: WalkView,
    index: u32,
    marker: nat,
)
    requires
        instr is Fold,
        state.handler.wf(),
    ensures
        state.cids.submap_of(iterated(instr, scope, env, state, index, marker).state.cids),
        state.last_call_request_id <= iterated(
            instr,
            scope,
            env,
            state,
            index,
            marker,
        ).state.last_call_request_id,
    decreases instr->iterations - index,
{
    match instr {
        Instruction::Fold { node, iterations, body } => {
            if index < iterations {
                let done = walked(*body, scope.push(index), env, state);
                law_walk_goes_on(*body, scope.push(index), env, state);
                if done.flow == Ok::<Flow, ExecutionFault>(Flow::Completed) {
                    match done.state.handler.committed(marker, (index + 1) as u32) {
                        None => {},
                        Some(handler) => {
                            let next = WalkView { handler, ..done.state };
                            lemma_iterations_keep_values(
                                instr,
                                scope,
                                env,
                                next,
                                (index + 1) as u32,
                                marker,
                            );
                            lemma_values_kept(
                                state.cids,
                                done.state.cids,
                                iterated(instr, scope, env, next, (index + 1) as u32, marker).state.cids,
                            );
                        },
                    }
                }
            }
        },
        _ => {},
    }
}

/// A walk that comes to its end without a fault when the host holds all
/// the answers does so when the host holds fewer, and ends with no value
/// in the value table that the other walk does not end with.
pub proof fn lemma_fewer_answers_do_not_fault(
    instr: Instruction,
    scope: Seq<u32>,
    part: WalkEnv,
    whole: WalkEnv,
    state: WalkView,
)
    requires
        state.handler.wf(),
        answers_within(part, whole),
        walked(instr, scope, whole, state).flow is Ok,
    ensures
        walked(instr, scope, part, state).flow is Ok,
        walked(instr, scope, part, state).state.cids.submap_of(
            walked(instr, scope, whole, state).state.cids,
        ),
    decreases instr, 1nat, 0nat,
{
    let few = walked(instr, scope, part, state);
    let all = walked(instr, scope, whole, state);
    match instr {
        Instruction::Null => {},
        Instruction::Call { node } => {
            let position = PositionView { node, scope };
            match state.handler.decision(position, Prospect::Call) {
                Some(Decision::Await { request_id }) => {
                    assert(part.answers.dom().contains(request_id)
                        || !part.answers.dom().contains(request_id));
                },
                Some(Decision::ReplayedCall { .. }) => {},
                None => {},
                Some(_) => {
                    let id = (state.last_call_request_id + 1) as u32;
                    assert(part.answers.dom().contains(id) || !part.answers.dom().contains(id));
                },
            }
        },
        Instruction::Sequence(first, second) => {
            let few_mid = walked(*first, scope, part, state);
            let all_mid = walked(*first, scope, whole, state);
            lemma_fewer_answers_do_not_fault(*first, scope, part, whole, state);
            law_walk_goes_on(*first, scope, whole, state);
            law_walk_goes_on(*first, scope, part, state);
            if few_mid.flow == Ok::<Flow, ExecutionFault>(Flow::Completed) {
                lemma_more_answers_change_nothing(*first, scope, part, whole, state);
                lemma_fewer_answers_do_not_fault(*second, scope, part, whole, few_mid.state);
            } else if all_mid.flow == Ok::<Flow, ExecutionFault>(Flow::Completed) {
                law_walk_goes_on(*second, scope, whole, all_mid.state);
                lemma_values_kept(few_mid.state.cids, all_mid.state.cids, all.state.cids);
            }
        },
        Instruction::Xor { node, first, second } => {
            let few_mid = walked(*first, scope, part, state);
            let all_mid = walked(*first, scope, whole, state);
            lemma_fewer_answers_do_not_fault(*first, scope, part, whole, state);
            law_walk_goes_on(*first, scope, whole, state);
            law_walk_goes_on(*first, scope, part, state);
            if few_mid.flow != Ok::<Flow, ExecutionFault>(Flow::Pending) {
                lemma_more_answers_change_nothing(*first, scope, part, whole, state);
                if few_mid.flow == Ok::<Flow, ExecutionFault>(Flow::Failed) {
                    lemma_fewer_answers_do_not_fault(*second, scope, part, whole, few_mid.state);
                }
            } else if all_mid.flow == Ok::<Flow, ExecutionFault>(Flow::Failed) {
                law_walk_goes_on(*second, scope, whole, all_mid.state);
                lemma_values_kept(few_mid.state.cids, all_mid.state.cids, all.state.cids);
            }
        },
        Instruction::Fold { node, iterations, body } => {
            let position = PositionView { node, scope };
            match fold_entered(state, position, iterations) {
                None => {},
                Some((entered, start)) => {
                    crate::laws::lemma_fold_entered(state, position, iterations);
                    lemma_fewer_answers_fault_no_iteration(
                        instr,
                        scope,
                        part,
                        whole,
                        entered,
                        start,
                        state.handler.current.len(),
                    );
                },
            }
        },
    }
}

/// The iterations of a fold that come to their end without a fault when
/// the host holds all the answers do so when the host holds fewer.
pub proof fn lemma_fewer_answers_fault_no_iteration(
    instr: Instruction,
    scope: Seq<u32>,
    part: WalkEnv,
    whole: WalkEnv,
    state: WalkView,
    index: u32,
    marker: nat,
)
    requires
        instr is Fold,
        state.handler.wf(),
        answers_within(part, whole),
        iterated(instr, scope, whole, state, index, marker).flow is Ok,
    ensures
        iterated(instr, scope, part, state, index, marker).flow is Ok,
        iterated(instr, scope, part, state, index, marker).state.cids.submap_of(
            iterated(instr, scope, whole, state, index, marker).state.cids,
        ),
    decreases instr, 0nat, (instr->iterations - index) as nat,
{
    match instr {
        Instruction::Fold { node, iterations, body } => {
            if index < iterations {
                let inner = scope.push(index);
                let few = walked(*body, inner, part, state);
                let all = walked(*body, inner, whole, state);
                lemma_fewer_answers_do_not_fault(*body, inner, part, whole, state);
                law_walk_goes_on(*body, inner, whole, state);
                law_walk_goes_on(*body, inner, part, state);
                if few.flow == Ok::<Flow, ExecutionFault>(Flow::Completed) {
                    lemma_more_answers_change_nothing(*body, inner, part, whole, state);
                    match few.state.handler.committed(marker, (index + 1) as u32) {
                        None => {},
                        Some(handler) => {
                            lemma_fewer_answers_fault_no_iteration(
                                instr,
                                scope,
                                part,
                                whole,
                                WalkView { handler, ..few.state },
                                (index + 1) as u32,
                                marker,
                            );
                        },
                    }
                } else if all.flow == Ok::<Flow, ExecutionFault>(Flow::Completed) {
                    match all.state.handler.committed(marker, (index + 1) as u32) {
                        None => {},
                        Some(handler) => {
                            let next = WalkView { handler, ..all.state };
                            lemma_iterations_keep_values(
                                instr,
                                scope,
                                whole,
                                next,
                                (index + 1) as u32,
                                marker,
                            );
                            lemma_values_kept(
                                few.state.cids,
                                all.state.cids,
                                iterated(instr, scope, whole, next, (index + 1) as u32, marker).state.cids,
                            );
                        },
                    }
                }
            }
        },
        _ => {},
    }
}

/// A walk that does not wait for an answer ends the same way with a host
/// that holds more answers.
pub proof fn lemma_more_answers_change_nothing(
    instr: Instruction,
    scope: Seq<u32>,
    part: WalkEnv,
    whole: WalkEnv,
    state: WalkView,
)
    requires
        answers_within(part, whole),
        walked(instr, scope, part, state).flow != Ok::<Flow, ExecutionFault>(Flow::Pending),
    ensures
        walked(instr, scope, whole, state) == walked(instr, scope, part, state),
    decreases instr, 1nat, 0nat,
{
    match instr {
        Instruction::Null => {},
        Instruction::Call { node } => {
            let position = PositionView { node, scope };
            match state.handler.decision(position, Prospect::Call) {
                Some(Decision::Await { request_id }) => {
                    assert(part.answers.dom().contains(request_id));
                },
                Some(Decision::ReplayedCall { .. }) => {},
                None => {},
                Some(_) => {
                    if state.last_call_request_id < u32::MAX {
                        let id = (state.last_call_request_id + 1) as u32;
                        assert(part.answers.dom().contains(id));
                    }
                },
            }
        },
        Instruction::Sequence(first, second) => {
            let mid = walked(*first, scope, part, state);
            lemma_more_answers_change_nothing(*first, scope, part, whole, state);
            if mid.flow == Ok::<Flow, ExecutionFault>(Flow::Completed) {
                lemma_more_answers_change_nothing(*second, scope, part, whole, mid.state);
            }
        },
        Instruction::Xor { node, first, second } => {
            let mid = walked(*first, scope, part, state);
            lemma_more_answers_change_nothing(*first, scope, part, whole, state);
            if mid.flow == Ok::<Flow, ExecutionFault>(Flow::Failed) {
                lemma_more_answers_change_nothing(*second, scope, part, whole, mid.state);
            }
        },
        Instruction::Fold { node, iterations, body } => {
            match fold_entered(state, PositionView { node, scope }, iterations) {
                None => {},
                Some((entered, start)) => {
                    lemma_more_answers_change_no_iteration(
                        instr,
                        scope,
                        part,
                        whole,
                        entered,
                        start,
                        state.handler.current.len(),
                    );
                },
            }
        },
    }
}

/// The iterations of a fold that do not wait for an answer end the same
/// way with a host that holds more answers.
pub proof fn lemma_more_answers_change_no_iteration(
    instr: Instruction,
    scope: Seq<u32>,
    part: WalkEnv,
    whole: WalkEnv,
    state: WalkView,
    index: u32,
    marker: nat,
)
    requires
        instr is Fold,
        answers_within(part, whole),
        iterated(instr, scope, part, state, index, marker).flow != Ok::<Flow, ExecutionFault>(
            Flow::Pending,
        ),
    ensures
        iterated(instr, scope, whole, state, index, marker) == iterated(
            instr,
            scope,
            part,
            state,
            index,
            marker,
        ),
    decreases instr, 0nat, (instr->iterations - index) as nat,
{
    match instr {
        Instruction::Fold { node, iterations, body } => {
            if index < iterations {
                let done = walked(*body, scope.push(index), part, state);
                lemma_more_answers_change_nothing(*body, scope.push(index), part, whole, state);
                if done.flow == Ok::<Flow, ExecutionFault>(Flow::Completed) {
                    match done.state.handler.committed(marker, (index + 1) as u32) {
                        None => {},
                        Some(handler) => {
                            lemma_more_answers_change_no_iteration(
                                instr,
                                scope,
                                part,
                                whole,
                                WalkView { handler, ..done.state },
                                (index + 1) as u32,
                                marker,
                            );
                        },
                    }
                }
            }
        },
        _ => {},
    }
}

/// Two walks with nothing left to read, from the same request counter and
/// with hosts that answer alike from there on, write the same states and
/// end the same way, where the first ends without a fault and neither
/// holds a value that `values` does not hold.
pub proof fn lemma_fresh_walks_agree(
    instr: Instruction,
    scope: Seq<u32>,
    one_env: WalkEnv,
    other_env: WalkEnv,
    one: WalkView,
    other: WalkView,
    values: Map<Seq<u8>, Seq<u8>>,
    high: u32,
)
    requires
        one.handler.wf(),
        other.handler.wf(),
        exhausted(one.handler),
        exhausted(other.handler),
        one.last_call_request_id == other.last_call_request_id,
        answers_agree_between(one_env, other_env, one.last_call_request_id + 1, high as int),
        walked(instr, scope, one_env, one).state.last_call_request_id <= high,
        walked(instr, scope, one_env, one).flow is Ok,
        walked(instr, scope, one_env, one).state.cids.submap_of(values),
        other.cids.submap_of(values),
    ensures
        ({
            let a = walked(instr, scope, one_env, one);
            let b = walked(instr, scope, other_env, other);
            &&& written(one, a.state) == written(other, b.state)
            &&& a.flow == b.flow
            &&& a.state.last_call_request_id == b.state.last_call_request_id
            &&& b.state.cids.submap_of(values)
        }),
    decreases instr, 1nat, 0nat,
{
    let a = walked(instr, scope, one_env, one);
    let b = walked(instr, scope, other_env, other);
    match instr {
        Instruction::Null => {
            assert(a.state == one);
            assert(b.state == other);
            lemma_written_nothing(one);
            lemma_written_nothing(other);
        },
        Instruction::Call { node } => {
            let id = (one.last_call_request_id + 1) as u32;
            if one_env.answers.dom().contains(id) {
                let digest = crate::cid::content_hash(one_env.answers[id].result);
                assert(a.state.cids.dom().contains(digest));
                assert(values.dom().contains(digest));
            }
            assert(written(one, a.state) =~= written(other, b.state));
        },
        Instruction::Sequence(first, second) => {
            let a_mid = walked(*first, scope, one_env, one);
            let b_mid = walked(*first, scope, other_env, other);
            lemma_stays_exhausted(*first, scope, one_env, one);
            lemma_stays_exhausted(*first, scope, other_env, other);
            lemma_walk_values_within(instr, scope, one_env, one, values, high);
            lemma_fresh_walks_agree(*first, scope, one_env, other_env, one, other, values, high);
            if a_mid.flow == Ok::<Flow, ExecutionFault>(Flow::Completed) {
                lemma_fresh_walks_agree(
                    *second,
                    scope,
                    one_env,
                    other_env,
                    a_mid.state,
                    b_mid.state,
                    values,
                    high,
                );
                lemma_stays_exhausted(*second, scope, one_env, a_mid.state);
                lemma_stays_exhausted(*second, scope, other_env, b_mid.state);
                lemma_written_chain(one, a_mid.state, a.state);
                lemma_written_chain(other, b_mid.state, b.state);
            }
        },
        Instruction::Xor { node, first, second } => {
            let a_mid = walked(*first, scope, one_env, one);
            let b_mid = walked(*first, scope, other_env, other);
            lemma_stays_exhausted(*first, scope, one_env, one);
            lemma_stays_exhausted(*first, scope, other_env, other);
            lemma_walk_values_within(instr, scope, one_env, one, values, high);
            lemma_fresh_walks_agree(*first, scope, one_env, other_env, one, other, values, high);
            if a_mid.flow == Ok::<Flow, ExecutionFault>(Flow::Completed) {
                assert(written(a_mid.state, a.state) =~= written(b_mid.state, b.state));
                assert(extends(a_mid.state.handler.current, a.state.handler.current)) by {
                    assert(a.state.handler.current.take(a_mid.state.handler.current.len() as int)
                        =~= a_mid.state.handler.current);
                }
                assert(extends(b_mid.state.handler.current, b.state.handler.current)) by {
                    assert(b.state.handler.current.take(b_mid.state.handler.current.len() as int)
                        =~= b_mid.state.handler.current);
                }
                lemma_written_chain(one, a_mid.state, a.state);
                lemma_written_chain(other, b_mid.state, b.state);
            } else if a_mid.flow == Ok::<Flow, ExecutionFault>(Flow::Failed) {
                lemma_fresh_walks_agree(
                    *second,
                    scope,
                    one_env,
                    other_env,
                    a_mid.state,
                    b_mid.state,
                    values,
                    high,
                );
                lemma_stays_exhausted(*second, scope, one_env, a_mid.state);
                lemma_stays_exhausted(*second, scope, other_env, b_mid.state);
                lemma_written_chain(one, a_mid.state, a.state);
                lemma_written_chain(other, b_mid.state, b.state);
            }
        },
        Instruction::Fold { node, iterations, body } => {
            let position = PositionView { node, scope };
            let marker = ExecutedStateView::Fold { position, iterations: 0, span: 0 };
            let a_in = fold_entered(one, position, iterations).unwrap().0;
            let b_in = fold_entered(other, position, iterations).unwrap().0;
            let a_at = one.handler.current.len();
            let b_at = other.handler.current.len();
            assert(since(a_at, a_in) =~= seq![marker]);
            assert(since(b_at, b_in) =~= seq![marker]);
            lemma_fresh_iterations_agree(
                instr,
                scope,
                one_env,
                other_env,
                a_in,
                b_in,
                0,
                a_at,
                b_at,
                values,
                high,
            );
        },
    }
}

/// The iterations of a fold in two walks with nothing left to read, from
/// the same request counter and with hosts that answer alike from there on:
/// where the two walks have written the same states since the fold's
/// marker, they have done so after the iterations.
pub proof fn lemma_fresh_iterations_agree(
    instr: Instruction,
    scope: Seq<u32>,
    one_env: WalkEnv,
    other_env: WalkEnv,
    one: WalkView,
    other: WalkView,
    index: u32,
    one_marker: nat,
    other_marker: nat,
    values: Map<Seq<u8>, Seq<u8>>,
    high: u32,
)
    requires
        instr is Fold,
        index <= instr->iterations,
        one.handler.wf(),
        other.handler.wf(),
        exhausted(one.handler),
        exhausted(other.handler),
        one.last_call_request_id == other.last_call_request_id,
        answers_agree_between(one_env, other_env, one.last_call_request_id + 1, high as int),
        iterated(instr, scope, one_env, one, index, one_marker).state.last_call_request_id <= high,
        one_marker < one.handler.current.len(),
        other_marker < other.handler.current.len(),
        since(one_marker, one) == since(other_marker, other),
        one.handler.current[one_marker as int] matches ExecutedStateView::Fold { iterations, .. }
            && iterations == index,
        iterated(instr, scope, one_env, one, index, one_marker).flow is Ok,
        iterated(instr, scope, one_env, one, index, one_marker).state.cids.submap_of(values),
        other.cids.submap_of(values),
    ensures
        ({
            let a = iterated(instr, scope, one_env, one, index, one_marker);
            let b = iterated(instr, scope, other_env, other, index, other_marker);
            &&& since(one_marker, a.state) == since(other_marker, b.state)
            &&& a.flow == b.flow
            &&& a.state.last_call_request_id == b.state.last_call_request_id
            &&& exhausted(a.state.handler)
            &&& exhausted(b.state.handler)
            &&& a.state.handler.wf()
            &&& b.state.handler.wf()
            &&& one.last_call_request_id <= a.state.last_call_request_id
            &&& b.state.cids.submap_of(values)
        }),
    decreases instr, 0nat, (instr->iterations - index) as nat,
{
    assert(since(one_marker, one)[0] == one.handler.current[one_marker as int]);
    assert(since(other_marker, other)[0] == other.handler.current[other_marker as int]);
    match instr {
        Instruction::Fold { node, iterations, body } => {
            if index < iterations {
                let a_mid = walked(*body, scope.push(index), one_env, one);
                let b_mid = walked(*body, scope.push(index), other_env, other);
                lemma_stays_exhausted(*body, scope.push(index), one_env, one);
                lemma_stays_exhausted(*body, scope.push(index), other_env, other);
                lemma_iteration_values_within(instr, scope, one_env, one, index, one_marker, values, high);
                lemma_fresh_walks_agree(
                    *body,
                    scope.push(index),
                    one_env,
                    other_env,
                    one,
                    other,
                    values,
                    high,
                );
                lemma_since_grows(one_marker, one, a_mid.state);
                lemma_since_grows(other_marker, other, b_mid.state);
                if a_mid.flow == Ok::<Flow, ExecutionFault>(Flow::Completed) {
                    let a_next = WalkView {
                        handler: a_mid.state.handler.committed(one_marker, (index + 1) as u32).unwrap(),
                        ..a_mid.state
                    };
                    let b_next = WalkView {
                        handler: b_mid.state.handler.committed(
                            other_marker,
                            (index + 1) as u32,
                        ).unwrap(),
                        ..b_mid.state
                    };
                    lemma_since_committed(one_marker, a_mid.state, (index + 1) as u32);
                    lemma_since_committed(other_marker, b_mid.state, (index + 1) as u32);
                    assert(since(one_marker, a_next) =~= since(other_marker, b_next));
                    lemma_fresh_iterations_agree(
                        instr,
                        scope,
                        one_env,
                        other_env,
                        a_next,
                        b_next,
                        (index + 1) as u32,
                        one_marker,
                        other_marker,
                        values,
                        high,
                    );
                }
            }
        },
        _ => {},
    }
}

/// Where a walk ends with its values within `values`, its first part does.
proof fn lemma_walk_values_within(
    instr: Instruction,
    scope: Seq<u32>,
    env: WalkEnv,
    state: WalkView,
    values: Map<Seq<u8>, Seq<u8>>,
    high: u32,
)
    requires
        state.handler.wf(),
        walked(instr, scope, env, state).state.cids.submap_of(values),
        walked(instr, scope, env, state).state.last_call_request_id <= high,
    ensures
        instr matches Instruction::Sequence(first, _) ==> walked(
            *first,
            scope,
            env,
            state,
        ).state.cids.submap_of(values) && walked(
            *first,
            scope,
            env,
            state,
        ).state.last_call_request_id <= high,
        instr matches Instruction::Xor { first, .. } ==> walked(
            *first,
            scope,
            env,
            state,
        ).state.cids.submap_of(values) && walked(
            *first,
            scope,
            env,
            state,
        ).state.last_call_request_id <= high,
{
    let end = walked(instr, scope, env, state);
    match instr {
        Instruction::Sequence(first, second) => {
            let mid = walked(*first, scope, env, state);
            law_walk_goes_on(*first, scope, env, state);
            if mid.flow == Ok::<Flow, ExecutionFault>(Flow::Completed) {
                law_walk_goes_on(*second, scope, env, mid.state);
                lemma_values_kept(mid.state.cids, end.state.cids, values);
            }
        },
        Instruction::Xor { node, first, second } => {
            let mid = walked(*first, scope, env, state);
            law_walk_goes_on(*first, scope, env, state);
            if mid.flow == Ok::<Flow, ExecutionFault>(Flow::Completed) {
                lemma_values_kept(mid.state.cids, end.state.cids, values);
            } else if mid.flow == Ok::<Flow, ExecutionFault>(Flow::Failed) {
                law_walk_goes_on(*second, scope, env, mid.state);
                lemma_values_kept(mid.state.cids, end.state.cids, values);
            }
        },
        _ => {},
    }
}

/// Where the iterations of a fold end with their values within `values`,
/// the next iteration does.
proof fn lemma_iteration_values_within(
    instr: Instruction,
    scope: Seq<u32>,
    env: WalkEnv,
    state: WalkView,
    index: u32,
    marker: nat,
    values: Map<Seq<u8>, Seq<u8>>,
    high: u32,
)
    requires
        instr is Fold,
        index < instr->iterations,
        state.handler.wf(),
        iterated(instr, scope, env, state, index, marker).state.cids.submap_of(values),
        iterated(instr, scope, env, state, index, marker).state.last_call_request_id <= high,
    ensures
        walked(*instr->body, scope.push(index), env, state).state.cids.submap_of(values),
        walked(*instr->body, scope.push(index), env, state).state.last_call_request_id <= high,
{
    match instr {
        Instruction::Fold { node, iterations, body } => {
            let done = walked(*body, scope.push(index), env, state);
            law_walk_goes_on(*body, scope.push(index), env, state);
            if done.flow == Ok::<Flow, ExecutionFault>(Flow::Completed) {
                match done.state.handler.committed(marker, (index + 1) as u32) {
                    None => {},
                    Some(handler) => {
                        let next = WalkView { handler, ..done.state };
                        lemma_iterations_keep_values(
                            instr,
                            scope,
                            env,
                            next,
                            (index + 1) as u32,
                            marker,
                        );
                        lemma_values_kept(
                            done.state.cids,
                            iterated(instr, scope, env, next, (index + 1) as u32, marker).state.cids,
                            values,
                        );
                    },
                }
            }
        },
        _ => {},
    }
}

/// What a trace holds from a place on, after a walk has written more.
proof fn lemma_since_grows(base: nat, before: WalkView, after: WalkView)
    requires
        base <= before.handler.current.len(),
        extends(before.handler.current, after.handler.current),
    ensures
        since(base, after) == since(base, before) + written(before, after),
        base < before.handler.current.len() ==> after.handler.current[base as int]
            == before.handler.current[base as int],
{
    assert(since(base, after) =~= since(base, before) + written(before, after)) by {
        assert forall|i: int| 0 <= i < before.handler.current.len() implies after.handler.current[i]
            == before.handler.current[i] by {
            assert(after.handler.current.take(before.handler.current.len() as int)[i]
                == after.handler.current[i]);
        }
    }
    if base < before.handler.current.len() {
        assert(after.handler.current.take(before.handler.current.len() as int)[base as int]
            == after.handler.current[base as int]);
    }
}

/// Bringing a fold's marker up to date changes the marker and nothing
/// else.
proof fn lemma_since_committed(marker: nat, state: WalkView, completed: u32)
    requires
        marker < state.handler.current.len(),
        state.handler.current[marker as int] is Fold,
    ensures
        state.handler.committed(marker, completed) is Some,
        ({
            let handler = state.handler.committed(marker, completed).unwrap();
            let next = WalkView { handler, ..state };
            &&& since(marker, next) == since(marker, state).update(
                0,
                ExecutedStateView::Fold {
                    position: state.handler.current[marker as int].position(),
                    iterations: completed,
                    span: (since(marker, state).len() - 1) as u64,
                },
            )
            &&& handler.previous == state.handler.previous
            &&& handler.cursor == state.handler.cursor
            &&& handler.current.len() == state.handler.current.len()
            &&& handler.current.take(marker as int) == state.handler.current.take(marker as int)
        }),
{
    let handler = state.handler.committed(marker, completed).unwrap();
    let next = WalkView { handler, ..state };
    assert(since(marker, next) =~= since(marker, state).update(
        0,
        ExecutedStateView::Fold {
            position: state.handler.current[marker as int].position(),
            iterations: completed,
            span: (since(marker, state).len() - 1) as u64,
        },
    ));
    assert(handler.current.take(marker as int) =~= state.handler.current.take(marker as int));
}

/// What a second round finds when it comes to an instruction: the first
/// round walked the instruction with nothing left to read and with the
/// early answers, and what it wrote then lies before the second round in
/// the recorded trace. Where the first round ended in the instruction,
/// waiting, the recorded trace ends with what it wrote, and the second
/// round has its request counter. A single round with all the answers
/// walks the instruction without a fault, and neither it nor the second
/// round holds a value that `values` does not hold.
pub open spec fn resumes(
    instr: Instruction,
    scope: Seq<u32>,
    early: WalkEnv,
    late: WalkEnv,
    all: WalkEnv,
    high: u32,
    fresh: WalkView,
    resumed: WalkView,
    values: Map<Seq<u8>, Seq<u8>>,
) -> bool {
    let first = walked(instr, scope, early, fresh);
    let recorded = written(fresh, first.state);
    let cursor = resumed.handler.cursor as int;
    &&& fresh.handler.wf()
    &&& exhausted(fresh.handler)
    &&& resumed.handler.wf()
    &&& answers_within(early, all)
    &&& late.peer == all.peer
    &&& walked(instr, scope, all, fresh).state.last_call_request_id <= high
    &&& recorded.len() <= u64::MAX
    &&& cursor + recorded.len() <= resumed.handler.previous.len()
    &&& resumed.handler.previous.subrange(cursor, cursor + recorded.len()) == recorded
    &&& walked(instr, scope, all, fresh).flow is Ok
    &&& walked(instr, scope, all, fresh).state.cids.submap_of(values)
    &&& resumed.cids.submap_of(values)
    &&& first.flow == Ok::<Flow, ExecutionFault>(Flow::Pending) ==> {
        &&& cursor + recorded.len() == resumed.handler.previous.len()
        &&& resumed.last_call_request_id == first.state.last_call_request_id
        &&& answers_agree_between(
            all,
            late,
            first.state.last_call_request_id as int,
            high as int,
        )
    }
}

/// What follows for the second round: it writes what a single round with
/// all the answers writes, ends as that round ends, and still holds no
/// value that `values` does not hold.
pub open spec fn resumed_as_single(
    instr: Instruction,
    scope: Seq<u32>,
    early: WalkEnv,
    late: WalkEnv,
    all: WalkEnv,
    high: u32,
    fresh: WalkView,
    resumed: WalkView,
    values: Map<Seq<u8>, Seq<u8>>,
) -> bool {
    let first = walked(instr, scope, early, fresh);
    let single = walked(instr, scope, all, fresh);
    let second = walked(instr, scope, late, resumed);
    &&& written(resumed, second.state) == written(fresh, single.state)
    &&& second.flow == single.flow
    &&& first.flow is Ok
    &&& second.state.cids.submap_of(values)
    &&& first.flow != Ok::<Flow, ExecutionFault>(Flow::Pending) ==> {
        &&& single == first
        &&& second.state.handler.cursor == resumed.handler.cursor + written(
            fresh,
            first.state,
        ).len()
        &&& second.state.last_call_request_id == resumed.last_call_request_id
    }
    &&& first.flow == Ok::<Flow, ExecutionFault>(Flow::Pending) ==> {
        &&& exhausted(second.state.handler)
        &&& second.state.last_call_request_id == single.state.last_call_request_id
    }
}

/// The second round takes up a call as a single round makes it.
proof fn lemma_call_resumed(
    node: u32,
    scope: Seq<u32>,
    early: WalkEnv,
    late: WalkEnv,
    all: WalkEnv,
    high: u32,
    fresh: WalkView,
    resumed: WalkView,
    values: Map<Seq<u8>, Seq<u8>>,
)
    requires
        resumes(Instruction::Call { node }, scope, early, late, all, high, fresh, resumed, values),
    ensures
        resumed_as_single(
            Instruction::Call { node },
            scope,
            early,
            late,
            all,
            high,
            fresh,
            resumed,
            values,
        ),
{
    let instr = Instruction::Call { node };
    let position = PositionView { node, scope };
    let first = walked(instr, scope, early, fresh);
    let single = walked(instr, scope, all, fresh);
    let second = walked(instr, scope, late, resumed);
    let id = (fresh.last_call_request_id + 1) as u32;
    lemma_fewer_answers_do_not_fault(instr, scope, early, all, fresh);
    assert(early.answers.dom().contains(id) || !early.answers.dom().contains(id));
    if first.flow == Ok::<Flow, ExecutionFault>(Flow::Pending) {
        assert(first.state.last_call_request_id == id);
        assert(single.state.last_call_request_id == id);
        assert(all.answers.dom().contains(id) == late.answers.dom().contains(id));
    }
    if all.answers.dom().contains(id) {
        let digest = crate::cid::content_hash(all.answers[id].result);
        assert(single.state.cids.dom().contains(digest));
        assert(values.dom().contains(digest));
    }
    let recorded = written(fresh, first.state);
    let cursor = resumed.handler.cursor as int;
    assert(fresh.handler.decision(position, Prospect::Call) == Some(Decision::Execute));
    assert(all.answers.dom().contains(id) || !all.answers.dom().contains(id));
    assert(recorded.len() == 1);
    assert(recorded[0] == first.state.handler.current.last());
    assert(resumed.handler.previous.subrange(cursor, cursor + 1)[0]
        == resumed.handler.previous[cursor]);
    assert(resumed.handler.previous[cursor] == recorded[0]);
    assert(resumed.handler.counterpart(position) == Some(recorded[0]));
    assert(written(resumed, second.state) =~= written(fresh, single.state));
}

/// The second of two rounds goes on as a single round would: see `resumes`
/// and `resumed_as_single`.
pub proof fn lemma_resumed_as_single(
    instr: Instruction,
    scope: Seq<u32>,
    early: WalkEnv,
    late: WalkEnv,
    all: WalkEnv,
    high: u32,
    fresh: WalkView,
    resumed: WalkView,
    values: Map<Seq<u8>, Seq<u8>>,
)
    requires
        resumes(instr, scope, early, late, all, high, fresh, resumed, values),
    ensures
        resumed_as_single(instr, scope, early, late, all, high, fresh, resumed, values),
    decreases instr, 1nat, 0nat,
{
    let first = walked(instr, scope, early, fresh);
    let single = walked(instr, scope, all, fresh);
    let second = walked(instr, scope, late, resumed);
    lemma_fewer_answers_do_not_fault(instr, scope, early, all, fresh);
    lemma_walk_values_within(instr, scope, all, fresh, values, high);
    match instr {
        Instruction::Null => {
            lemma_written_nothing(fresh);
            lemma_written_nothing(resumed);
        },
        Instruction::Call { node } => {
            lemma_call_resumed(node, scope, early, late, all, high, fresh, resumed, values);
        },
        Instruction::Sequence(head, tail) => {
            lemma_part_resumed(instr, *head, scope, early, late, all, high, fresh, resumed, values);
            lemma_resumed_as_single(*head, scope, early, late, all, high, fresh, resumed, values);
            let first_mid = walked(*head, scope, early, fresh);
            let single_mid = walked(*head, scope, all, fresh);
            let second_mid = walked(*head, scope, late, resumed);
            lemma_stays_exhausted(*head, scope, early, fresh);
            lemma_stays_exhausted(*head, scope, all, fresh);
            law_walk_goes_on(*head, scope, late, resumed);
            if first_mid.flow == Ok::<Flow, ExecutionFault>(Flow::Completed) {
                lemma_stays_exhausted(*tail, scope, early, first_mid.state);
                lemma_written_chain(fresh, first_mid.state, first.state);
                lemma_rest_resumed(fresh, first_mid.state, first.state, resumed, second_mid.state);
                lemma_resumed_as_single(
                    *tail,
                    scope,
                    early,
                    late,
                    all,
                    high,
                    first_mid.state,
                    second_mid.state,
                    values,
                );
                lemma_stays_exhausted(*tail, scope, all, single_mid.state);
                law_walk_goes_on(*tail, scope, late, second_mid.state);
                lemma_written_chain(fresh, single_mid.state, single.state);
                lemma_written_chain(resumed, second_mid.state, second.state);
            } else if first_mid.flow == Ok::<Flow, ExecutionFault>(Flow::Pending) {
                if single_mid.flow == Ok::<Flow, ExecutionFault>(Flow::Completed) {
                    lemma_fresh_walks_agree(
                        *tail,
                        scope,
                        all,
                        late,
                        single_mid.state,
                        second_mid.state,
                        values,
                        high,
                    );
                    lemma_stays_exhausted(*tail, scope, all, single_mid.state);
                    lemma_stays_exhausted(*tail, scope, late, second_mid.state);
                    lemma_written_chain(fresh, single_mid.state, single.state);
                    lemma_written_chain(resumed, second_mid.state, second.state);
                }
            }
        },
        Instruction::Xor { node, first: head, second: tail } => {
            let position = PositionView { node, scope };
            lemma_part_resumed(instr, *head, scope, early, late, all, high, fresh, resumed, values);
            lemma_resumed_as_single(*head, scope, early, late, all, high, fresh, resumed, values);
            let first_mid = walked(*head, scope, early, fresh);
            let single_mid = walked(*head, scope, all, fresh);
            let second_mid = walked(*head, scope, late, resumed);
            lemma_stays_exhausted(*head, scope, early, fresh);
            lemma_stays_exhausted(*head, scope, all, fresh);
            law_walk_goes_on(*head, scope, late, resumed);
            if first_mid.flow == Ok::<Flow, ExecutionFault>(Flow::Failed) {
                lemma_stays_exhausted(*tail, scope, early, first_mid.state);
                lemma_written_chain(fresh, first_mid.state, first.state);
                lemma_rest_resumed(fresh, first_mid.state, first.state, resumed, second_mid.state);
                lemma_resumed_as_single(
                    *tail,
                    scope,
                    early,
                    late,
                    all,
                    high,
                    first_mid.state,
                    second_mid.state,
                    values,
                );
                lemma_stays_exhausted(*tail, scope, all, single_mid.state);
                law_walk_goes_on(*tail, scope, late, second_mid.state);
                lemma_written_chain(fresh, single_mid.state, single.state);
                lemma_written_chain(resumed, second_mid.state, second.state);
            } else if first_mid.flow == Ok::<Flow, ExecutionFault>(Flow::Completed) {
                lemma_skip_written(first_mid.state, position);
                lemma_written_chain(fresh, first_mid.state, first.state);
                lemma_rest_resumed(fresh, first_mid.state, first.state, resumed, second_mid.state);
                let cursor = second_mid.state.handler.cursor as int;
                assert(second_mid.state.handler.previous.subrange(cursor, cursor + 1)[0]
                    == second_mid.state.handler.previous[cursor]);
                assert(second_mid.state.handler.counterpart(position) == Some(
                    ExecutedStateView::Skip { position },
                ));
                lemma_skip_written(second_mid.state, position);
                lemma_written_chain(resumed, second_mid.state, second.state);
            } else {
                if single_mid.flow == Ok::<Flow, ExecutionFault>(Flow::Completed) {
                    lemma_skip_written(single_mid.state, position);
                    lemma_skip_written(second_mid.state, position);
                    lemma_written_chain(fresh, single_mid.state, single.state);
                    lemma_written_chain(resumed, second_mid.state, second.state);
                } else if single_mid.flow == Ok::<Flow, ExecutionFault>(Flow::Failed) {
                    lemma_fresh_walks_agree(
                        *tail,
                        scope,
                        all,
                        late,
                        single_mid.state,
                        second_mid.state,
                        values,
                        high,
                    );
                    lemma_stays_exhausted(*tail, scope, all, single_mid.state);
                    lemma_stays_exhausted(*tail, scope, late, second_mid.state);
                    lemma_written_chain(fresh, single_mid.state, single.state);
                    lemma_written_chain(resumed, second_mid.state, second.state);
                }
            }
        },
        Instruction::Fold { node, iterations, body } => {
            let position = PositionView { node, scope };
            let entered = fold_entered(fresh, position, iterations).unwrap().0;
            lemma_fold_resumed(
                instr,
                scope,
                early,
                late,
                all,
                high,
                fresh,
                resumed,
                entered,
                0,
                values,
            );
        },
    }
}

/// The state in which the first round and a single round stand before the
/// iteration at `index` of the fold `instr`, which both entered in `fresh`:
/// nothing is left to read, the fold's marker stands where `fresh` ended
/// and counts `index` iterations and every state behind it, and what is
/// still to come of the fold in either round is what came of the whole.
pub open spec fn fold_reached(
    instr: Instruction,
    scope: Seq<u32>,
    early: WalkEnv,
    all: WalkEnv,
    fresh: WalkView,
    reached: WalkView,
    index: u32,
) -> bool {
    let base = fresh.handler.current.len();
    &&& instr is Fold
    &&& reached.handler.wf()
    &&& exhausted(reached.handler)
    &&& index <= instr->iterations
    &&& base < reached.handler.current.len()
    &&& reached.handler.current[base as int] == (ExecutedStateView::Fold {
        position: PositionView { node: instr->Fold_node, scope },
        iterations: index,
        span: (reached.handler.current.len() - base - 1) as u64,
    })
    &&& iterated(instr, scope, early, reached, index, base) == walked(instr, scope, early, fresh)
    &&& iterated(instr, scope, all, reached, index, base) == walked(instr, scope, all, fresh)
}

/// The second round resumes a fold as a single round goes through it.
proof fn lemma_fold_resumed(
    instr: Instruction,
    scope: Seq<u32>,
    early: WalkEnv,
    late: WalkEnv,
    all: WalkEnv,
    high: u32,
    fresh: WalkView,
    resumed: WalkView,
    reached: WalkView,
    index: u32,
    values: Map<Seq<u8>, Seq<u8>>,
)
    requires
        resumes(instr, scope, early, late, all, high, fresh, resumed, values),
        fold_reached(instr, scope, early, all, fresh, reached, index),
    ensures
        resumed_as_single(instr, scope, early, late, all, high, fresh, resumed, values),
    decreases instr, 0nat, (instr->iterations - index + 1) as nat,
{
    let base = fresh.handler.current.len();
    lemma_fewer_answers_do_not_fault(instr, scope, early, all, fresh);
    match instr {
        Instruction::Fold { node, iterations, body } => {
            let inner = scope.push(index);
            if index < iterations && walked(*body, inner, early, reached).flow == Ok::<
                Flow,
                ExecutionFault,
            >(Flow::Completed) {
                let done = walked(*body, inner, early, reached);
                lemma_stays_exhausted(*body, inner, early, reached);
                lemma_since_grows(base, reached, done.state);
                lemma_more_answers_change_nothing(*body, inner, early, all, reached);
                lemma_since_committed(base, done.state, (index + 1) as u32);
                let next = WalkView {
                    handler: done.state.handler.committed(base, (index + 1) as u32).unwrap(),
                    ..done.state
                };
                lemma_fold_resumed(
                    instr,
                    scope,
                    early,
                    late,
                    all,
                    high,
                    fresh,
                    resumed,
                    next,
                    (index + 1) as u32,
                    values,
                );
            } else {
                lemma_fold_stopped(
                    instr,
                    scope,
                    early,
                    late,
                    all,
                    high,
                    fresh,
                    resumed,
                    reached,
                    index,
                    values,
                );
            }
        },
        _ => {},
    }
}

/// The second round resumes a fold that the first round left at the
/// iteration at `index`, or completed, as a single round goes through it.
proof fn lemma_fold_stopped(
    instr: Instruction,
    scope: Seq<u32>,
    early: WalkEnv,
    late: WalkEnv,
    all: WalkEnv,
    high: u32,
    fresh: WalkView,
    resumed: WalkView,
    reached: WalkView,
    index: u32,
    values: Map<Seq<u8>, Seq<u8>>,
)
    requires
        resumes(instr, scope, early, late, all, high, fresh, resumed, values),
        fold_reached(instr, scope, early, all, fresh, reached, index),
        index >= instr->iterations || walked(
            *instr->body,
            scope.push(index),
            early,
            reached,
        ).flow != Ok::<Flow, ExecutionFault>(Flow::Completed),
    ensures
        resumed_as_single(instr, scope, early, late, all, high, fresh, resumed, values),
    decreases instr, 0nat, 0nat,
{
    let base = fresh.handler.current.len();
    let first = walked(instr, scope, early, fresh);
    let single = walked(instr, scope, all, fresh);
    let second = walked(instr, scope, late, resumed);
    let recorded = written(fresh, first.state);
    let cursor = resumed.handler.cursor as int;
    let previous = resumed.handler.previous;
    let head = since(base, reached);
    lemma_fewer_answers_do_not_fault(instr, scope, early, all, fresh);
    match instr {
        Instruction::Fold { node, iterations, body } => {
            let position = PositionView { node, scope };
            let inner = scope.push(index);
            let span = (head.len() - 1) as u64;
            let marker = ExecutedStateView::Fold { position, iterations: index, span };
            let at = resumed.handler.current.len();
            assert(head[0] == reached.handler.current[base as int]);
            // what the first round wrote starts with what it had written
            // before the iteration it stopped in
            if index < iterations {
                lemma_stays_exhausted(*body, inner, early, reached);
                lemma_since_grows(base, reached, first.state);
            }
            assert(recorded.take(head.len() as int) =~= head);
            assert(recorded[0] == marker);
            assert(previous.subrange(cursor, cursor + recorded.len())[0] == previous[cursor]);
            assert(resumed.handler.counterpart(position) == Some(marker));
            assert(resumed.handler.decision(position, Prospect::Fold { bound: iterations }) == Some(
                Decision::Resume { completed: index },
            ));
            let carried = WalkView {
                handler: resumed.handler.carried(head.len() as nat),
                ..resumed
            };
            assert(fold_entered(resumed, position, iterations) == Some((carried, index)));
            assert(second == iterated(instr, scope, late, carried, index, at));
            assert(since(at, carried) =~= head) by {
                assert forall|i: int| 0 <= i < head.len() implies previous[cursor + i] == head[i] by {
                    assert(previous.subrange(cursor, cursor + recorded.len())[i] == previous[cursor
                        + i]);
                    assert(recorded.take(head.len() as int)[i] == recorded[i]);
                }
            }
            assert(carried.handler.current.take(at as int) =~= resumed.handler.current);
            if index >= iterations {
                lemma_more_answers_change_no_iteration(instr, scope, early, all, reached, index, base);
                assert(recorded =~= head);
            } else {
                let done = walked(*body, inner, early, reached);
                let rest = written(reached, done.state);
                assert(recorded =~= head + rest);
                assert(previous.subrange(
                    carried.handler.cursor as int,
                    (carried.handler.cursor + rest.len()) as int,
                ) =~= rest) by {
                    assert forall|i: int| 0 <= i < rest.len() implies previous[cursor + head.len()
                        + i] == rest[i] by {
                        assert(previous.subrange(cursor, cursor + recorded.len())[head.len() + i]
                            == previous[cursor + head.len() + i]);
                    }
                }
                lemma_iteration_values_within(instr, scope, all, reached, index, base, values, high);
                lemma_fewer_answers_fault_no_iteration(instr, scope, early, all, reached, index, base);
                assert(resumes(*body, inner, early, late, all, high, reached, carried, values));
                lemma_resumed_as_single(*body, inner, early, late, all, high, reached, carried, values);
                let single_done = walked(*body, inner, all, reached);
                let second_done = walked(*body, inner, late, carried);
                lemma_stays_exhausted(*body, inner, all, reached);
                law_walk_goes_on(*body, inner, late, carried);
                lemma_since_grows(base, reached, single_done.state);
                lemma_since_grows(at, carried, second_done.state);
                assert(since(at, second_done.state) == since(base, single_done.state));
                if single_done.flow == Ok::<Flow, ExecutionFault>(Flow::Completed) {
                    lemma_since_committed(base, single_done.state, (index + 1) as u32);
                    lemma_since_committed(at, second_done.state, (index + 1) as u32);
                    let single_next = WalkView {
                        handler: single_done.state.handler.committed(
                            base,
                            (index + 1) as u32,
                        ).unwrap(),
                        ..single_done.state
                    };
                    let second_next = WalkView {
                        handler: second_done.state.handler.committed(at, (index + 1) as u32).unwrap(),
                        ..second_done.state
                    };
                    assert(since(base, single_next) =~= since(at, second_next));
                    assert(since(base, single_next)[0] == single_next.handler.current[base as int]);
                    lemma_fresh_iterations_agree(
                        instr,
                        scope,
                        all,
                        late,
                        single_next,
                        second_next,
                        (index + 1) as u32,
                        base,
                        at,
                        values,
                        high,
                    );
                }
            }
        },
        _ => {},
    }
}

/// A skip that is written or carried over is one state, the marker of the
/// branch.
proof fn lemma_skip_written(state: WalkView, position: PositionView)
    requires
        state.handler.wf(),
        state.handler.counterpart(position) is None || state.handler.counterpart(position) == Some(
            ExecutedStateView::Skip { position },
        ),
    ensures
        written(state, skipped(state, position).state) == seq![
            ExecutedStateView::Skip { position },
        ],
        extends(state.handler.current, skipped(state, position).state.handler.current),
        skipped(state, position).flow == Ok::<Flow, ExecutionFault>(Flow::Completed),
        skipped(state, position).state.last_call_request_id == state.last_call_request_id,
        skipped(state, position).state.handler.wf(),
        state.handler.counterpart(position) is None ==> skipped(state, position).state.handler.cursor
            == state.handler.cursor,
        state.handler.counterpart(position) is Some ==> skipped(state, position).state.handler.cursor
            == state.handler.cursor + 1,
{
    let done = skipped(state, position);
    assert(written(state, done.state) =~= seq![ExecutedStateView::Skip { position }]);
    assert(done.state.handler.current.take(state.handler.current.len() as int)
        =~= state.handler.current);
}

/// The first part of an instruction finds what the first round wrote for
/// it where the whole instruction finds what was written for the whole.
proof fn lemma_part_resumed(
    whole: Instruction,
    part: Instruction,
    scope: Seq<u32>,
    early: WalkEnv,
    late: WalkEnv,
    all: WalkEnv,
    high: u32,
    fresh: WalkView,
    resumed: WalkView,
    values: Map<Seq<u8>, Seq<u8>>,
)
    requires
        resumes(whole, scope, early, late, all, high, fresh, resumed, values),
        (whole matches Instruction::Sequence(head, _) && *head == part) || (
        whole matches Instruction::Xor { first: head, .. } && *head == part),
    ensures
        resumes(part, scope, early, late, all, high, fresh, resumed, values),
{
    let first = walked(whole, scope, early, fresh);
    let first_mid = walked(part, scope, early, fresh);
    lemma_fewer_answers_do_not_fault(whole, scope, early, all, fresh);
    lemma_walk_values_within(whole, scope, all, fresh, values, high);
    lemma_stays_exhausted(part, scope, early, fresh);
    let recorded = written(fresh, first.state);
    let head_recorded = written(fresh, first_mid.state);
    let cursor = resumed.handler.cursor as int;
    match whole {
        Instruction::Sequence(head, tail) => {
            if first_mid.flow == Ok::<Flow, ExecutionFault>(Flow::Completed) {
                lemma_stays_exhausted(*tail, scope, early, first_mid.state);
                lemma_written_chain(fresh, first_mid.state, first.state);
            }
        },
        Instruction::Xor { node, first: head, second: tail } => {
            if first_mid.flow == Ok::<Flow, ExecutionFault>(Flow::Failed) {
                lemma_stays_exhausted(*tail, scope, early, first_mid.state);
                lemma_written_chain(fresh, first_mid.state, first.state);
            } else if first_mid.flow == Ok::<Flow, ExecutionFault>(Flow::Completed) {
                lemma_skip_written(first_mid.state, PositionView { node, scope });
                lemma_written_chain(fresh, first_mid.state, first.state);
            }
        },
        _ => {},
    }
    assert(resumed.handler.previous.subrange(cursor, cursor + head_recorded.len())
        =~= head_recorded) by {
        assert(recorded.take(head_recorded.len() as int) =~= head_recorded);
        assert forall|i: int| 0 <= i < head_recorded.len() implies resumed.handler.previous[cursor
            + i] == head_recorded[i] by {
            assert(resumed.handler.previous.subrange(cursor, cursor + recorded.len())[i]
                == resumed.handler.previous[cursor + i]);
        }
    }
}

/// After the first part of an instruction was replayed, the rest finds
/// what the first round wrote for the rest.
proof fn lemma_rest_resumed(
    fresh: WalkView,
    first_mid: WalkView,
    first_end: WalkView,
    resumed: WalkView,
    second_mid: WalkView,
)
    requires
        extends(fresh.handler.current, first_mid.handler.current),
        extends(first_mid.handler.current, first_end.handler.current),
        resumed.handler.cursor + written(fresh, first_end).len() <= resumed.handler.previous.len(),
        resumed.handler.previous.subrange(
            resumed.handler.cursor as int,
            (resumed.handler.cursor + written(fresh, first_end).len()) as int,
        ) == written(fresh, first_end),
        second_mid.handler.previous == resumed.handler.previous,
        second_mid.handler.cursor == resumed.handler.cursor + written(fresh, first_mid).len(),
    ensures
        second_mid.handler.cursor + written(first_mid, first_end).len()
            <= second_mid.handler.previous.len(),
        second_mid.handler.previous.subrange(
            second_mid.handler.cursor as int,
            (second_mid.handler.cursor + written(first_mid, first_end).len()) as int,
        ) == written(first_mid, first_end),
        resumed.handler.cursor + written(fresh, first_end).len() == second_mid.handler.cursor
            + written(first_mid, first_end).len(),
{
    lemma_written_chain(fresh, first_mid, first_end);
    let whole = written(fresh, first_end);
    let head = written(fresh, first_mid);
    let rest = written(first_mid, first_end);
    let cursor = resumed.handler.cursor as int;
    let from = second_mid.handler.cursor as int;
    assert forall|i: int| 0 <= i < rest.len() implies second_mid.handler.previous[from + i]
        == rest[i] by {
        assert(resumed.handler.previous.subrange(cursor, cursor + whole.len())[head.len() + i]
            == resumed.handler.previous[cursor + head.len() + i]);
        assert(whole[head.len() + i] == rest[i]);
    }
    assert(second_mid.handler.previous.subrange(from, from + rest.len()) =~= rest);
}

/// The state in which the next round starts: it reads what the round
/// before wrote, and goes on from its request counter and its value table.
pub open spec fn next_round(ended: WalkView) -> WalkView {
    WalkView {
        handler: HandlerView {
            previous: ended.handler.current,
            cursor: 0,
            current: Seq::empty(),
        },
        last_call_request_id: ended.last_call_request_id,
        cids: ended.cids,
        requests: Seq::empty(),
    }
}

/// Replay equivalence. Take a script and a round that starts it without
/// history. The first round is given some of the answers of the host; the
/// second round starts from what the first one left. Where the first round
/// ended waiting for an answer, the second round is given every answer
/// that is still needed: it answers the requests from the one that the
/// first round waits for up to the last one that a single round with all
/// the answers makes as the host with all the answers does. Then, where
/// that single round comes to its end without a fault, so do the two
/// rounds, and the second one ends with the very trace, the very flow, the
/// very request counter and the very value table of the single round. The trace of the first
/// round must be short enough for its length to be written into a fold
/// marker.
pub proof fn law_replay_equivalence(
    script: Instruction,
    early: WalkEnv,
    late: WalkEnv,
    all: WalkEnv,
    start: WalkView,
)
    requires
        answers_within(early, all),
        late.peer == all.peer,
        walked(script, Seq::empty(), early, start).flow == Ok::<Flow, ExecutionFault>(
            Flow::Pending,
        ) ==> answers_agree_between(
            all,
            late,
            walked(script, Seq::empty(), early, start).state.last_call_request_id as int,
            walked(script, Seq::empty(), all, start).state.last_call_request_id as int,
        ),
        start.handler.previous.len() == 0,
        start.handler.cursor == 0,
        start.handler.current.len() == 0,
        walked(script, Seq::empty(), early, start).state.handler.current.len() <= u64::MAX,
        walked(script, Seq::empty(), all, start).flow is Ok,
    ensures
        ({
            let first = walked(script, Seq::empty(), early, start);
            let second = walked(script, Seq::empty(), late, next_round(first.state));
            let single = walked(script, Seq::empty(), all, start);
            &&& first.flow is Ok
            &&& second.state.handler.current == single.state.handler.current
            &&& second.flow == single.flow
            &&& second.state.last_call_request_id == single.state.last_call_request_id
            &&& second.state.cids == single.state.cids
        }),
{
    let scope = Seq::<u32>::empty();
    let first = walked(script, scope, early, start);
    let resumed = next_round(first.state);
    let second = walked(script, scope, late, resumed);
    let single = walked(script, scope, all, start);
    let recorded = written(start, first.state);
    assert(recorded =~= first.state.handler.current);
    assert(resumed.handler.previous.subrange(0, recorded.len() as int) =~= recorded);
    let values = single.state.cids;
    let high = single.state.last_call_request_id;
    lemma_fewer_answers_do_not_fault(script, scope, early, all, start);
    lemma_resumed_as_single(script, scope, early, late, all, high, start, resumed, values);
    assert(written(resumed, second.state) =~= second.state.handler.current);
    assert(written(start, single.state) =~= single.state.handler.current);
    if first.flow != Ok::<Flow, ExecutionFault>(Flow::Pending) {
        lemma_stays_exhausted(script, scope, early, start);
    }
    let base = start.cids.dom();
    assert(accounted(start.handler, start.cids, base));
    lemma_walk_accounts(script, scope, early, start, base);
    lemma_walk_accounts(script, scope, all, start, base);
    let kept = first.state.cids.dom();
    assert(accounted(resumed.handler, resumed.cids, kept));
    lemma_walk_accounts(script, scope, late, resumed, kept);
    assert forall|cid: Seq<u8>| #[trigger] single.state.cids.dom().contains(cid) implies second.state.cids.dom().contains(
        cid,
    ) by {
        if base.contains(cid) {
            assert(kept.contains(cid));
        } else {
            let i = choose|i: int|
                0 <= i < single.state.handler.current.len() && named(
                    #[trigger] single.state.handler.current[i],
                ) == Some(cid);
            assert(named(second.state.handler.current[i]) == Some(cid));
        }
    }
    assert(second.state.cids =~= single.state.cids);
}

/// The answers that a round is given, with the peer that runs it.
pub open spec fn answers_of(run_parameters: RunParameters, answers: CallResults) -> WalkEnv {
    WalkEnv { peer: run_parameters.current_peer_id@, answers: answers@ }
}

/// Replay equivalence of rounds. A script is started from stored bytes
/// that stand for data with an empty trace, and nothing comes in as
/// current data. The first round is given some of the answers of the host
/// and produces data; the second round reads that data as its previous
/// data. Where the first round ended waiting for an answer, the second
/// round is given every answer that is still needed: it answers the
/// requests from the last one that the first round made up to the last one
/// that a single round with all the answers makes as the host with all the
/// answers does. Where both rounds and the single round produce data, the
/// data of the second round and the data of the single round hold the same
/// trace, the walks end the same way, and the same request identifier was
/// the last to be given out. More than that: the two pieces of data are the
/// same bytes, and carry the same signature.
pub proof fn law_rounds_replay(
    prev_data: Seq<u8>,
    script: Instruction,
    early: CallResults,
    late: CallResults,
    all: CallResults,
    run_parameters: RunParameters,
    signatures: Map<Seq<u8>, Seq<u8>>,
    signatures_then: Map<Seq<u8>, Seq<u8>>,
    strict: bool,
    first: RoundOutcome,
    second: RoundOutcome,
    single: RoundOutcome,
)
    requires
        data_of(prev_data) matches Some(data) && data.trace.len() == 0,
        answers_within(answers_of(run_parameters, early), answers_of(run_parameters, all)),
        round_ended(
            prev_data,
            Seq::empty(),
            Ok::<Instruction, String>(script),
            Ok::<CallResults, CallResultsError>(early),
            run_parameters,
            signatures,
            strict,
            Ok::<RoundOutcome, RoundError>(first),
        ),
        round_ended(
            first.data@,
            Seq::empty(),
            Ok::<Instruction, String>(script),
            Ok::<CallResults, CallResultsError>(late),
            run_parameters,
            signatures_then,
            strict,
            Ok::<RoundOutcome, RoundError>(second),
        ),
        round_ended(
            prev_data,
            Seq::empty(),
            Ok::<Instruction, String>(script),
            Ok::<CallResults, CallResultsError>(all),
            run_parameters,
            signatures,
            strict,
            Ok::<RoundOutcome, RoundError>(single),
        ),
        first.flow is Pending ==> decoded(first.data@) is Some && decoded(single.data@) is Some
            && answers_agree_between(
            answers_of(run_parameters, all),
            answers_of(run_parameters, late),
            decoded(first.data@).unwrap().last_call_request_id as int,
            decoded(single.data@).unwrap().last_call_request_id as int,
        ),
    ensures
        decoded(second.data@) matches Some(resumed) && decoded(single.data@) matches Some(at_once)
            && resumed.trace == at_once.trace && resumed.last_call_request_id
            == at_once.last_call_request_id,
        second.flow == single.flow,
        second.data@ == single.data@,
        second.signature@ == single.signature@,
{
    let scope = Seq::<u32>::empty();
    let nothing = data_of(Seq::<u8>::empty()).unwrap();
    let before = data_of(prev_data).unwrap();
    let early_env = answers_of(run_parameters, early);
    let late_env = answers_of(run_parameters, late);
    let all_env = answers_of(run_parameters, all);
    let handler = HandlerView { previous: before.trace, cursor: 0, current: nothing.trace };
    let early_ctx = initial_ctx(before, nothing, early@, signatures, run_parameters);
    let all_ctx = initial_ctx(before, nothing, all@, signatures, run_parameters);
    let start = walk_state(handler, early_ctx);
    assert(start == walk_state(handler, all_ctx));
    assert(crate::fold::scope_of(early_ctx.folds) =~= scope);
    assert(crate::fold::scope_of(all_ctx.folds) =~= scope);
    let first_walk = walked(script, scope, early_env, start);
    let single_walk = walked(script, scope, all_env, start);
    assert(walk_env(early_ctx) == early_env);
    assert(walk_env(all_ctx) == all_env);

    let first_key = choose|keypair: KeyPair|
        {
            &&& keypair.wf()
            &&& crate::signature::KeyFormat::of_byte(run_parameters.key_format) == Some(
                keypair.format(),
            )
            &&& keypair.secret() == run_parameters.secret_key_bytes@
            &&& #[trigger] produced(
                script,
                handler,
                early_ctx,
                keypair,
                strict,
                Ok::<RoundOutcome, RoundError>(first),
            )
        };
    assert(produced(
        script,
        handler,
        early_ctx,
        first_key,
        strict,
        Ok::<RoundOutcome, RoundError>(first),
    ));
    let first_data = choose|data: InterpreterData|
        stands_for(data, first_walk.state) && first.data@ == encoding(data);
    law_stored_data_reads_back(first_data);
    assert(first_data.trace.len() == first_data.trace@.len());
    assert(data_of(first.data@) == Some(first_data@));

    let single_key = choose|keypair: KeyPair|
        {
            &&& keypair.wf()
            &&& crate::signature::KeyFormat::of_byte(run_parameters.key_format) == Some(
                keypair.format(),
            )
            &&& keypair.secret() == run_parameters.secret_key_bytes@
            &&& #[trigger] produced(
                script,
                handler,
                all_ctx,
                keypair,
                strict,
                Ok::<RoundOutcome, RoundError>(single),
            )
        };
    assert(produced(
        script,
        handler,
        all_ctx,
        single_key,
        strict,
        Ok::<RoundOutcome, RoundError>(single),
    ));
    let single_data = choose|data: InterpreterData|
        stands_for(data, single_walk.state) && single.data@ == encoding(data);
    law_stored_data_reads_back(single_data);

    let then_handler = HandlerView {
        previous: first_data@.trace,
        cursor: 0,
        current: nothing.trace,
    };
    let late_ctx = initial_ctx(first_data@, nothing, late@, signatures_then, run_parameters);
    assert(late_ctx.cids =~= first_walk.state.cids);
    assert(crate::fold::scope_of(late_ctx.folds) =~= scope);
    assert(walk_state(then_handler, late_ctx) == next_round(first_walk.state));
    assert(walk_env(late_ctx) == late_env);
    let second_walk = walked(script, scope, late_env, next_round(first_walk.state));
    let second_key = choose|keypair: KeyPair|
        {
            &&& keypair.wf()
            &&& crate::signature::KeyFormat::of_byte(run_parameters.key_format) == Some(
                keypair.format(),
            )
            &&& keypair.secret() == run_parameters.secret_key_bytes@
            &&& #[trigger] produced(
                script,
                then_handler,
                late_ctx,
                keypair,
                strict,
                Ok::<RoundOutcome, RoundError>(second),
            )
        };
    assert(produced(
        script,
        then_handler,
        late_ctx,
        second_key,
        strict,
        Ok::<RoundOutcome, RoundError>(second),
    ));
    let second_data = choose|data: InterpreterData|
        stands_for(data, second_walk.state) && second.data@ == encoding(data);
    law_stored_data_reads_back(second_data);

    law_replay_equivalence(script, early_env, late_env, all_env, start);
    assert(second_data@ == single_data@);
    law_data_decides_encoding(second_data, single_data);
    assert(second_key.format() == single_key.format());
    assert(second_key.public() == single_key.public());
}

/// A round is a function of what it is given: two rounds over the same
/// bytes, the same script, the same answers and the same key that both
/// produce data produce the same bytes, which read back as data, sign them
/// with the same signature, end the same way, leave the same requests to
/// answer and hold the same signatures afterwards.
pub proof fn law_rounds_are_repeatable(
    prev_data: Seq<u8>,
    current_data: Seq<u8>,
    script: Instruction,
    answers: CallResults,
    run_parameters: RunParameters,
    signatures: Map<Seq<u8>, Seq<u8>>,
    strict: bool,
    one: RoundOutcome,
    other: RoundOutcome,
)
    requires
        round_ended(
            prev_data,
            current_data,
            Ok::<Instruction, String>(script),
            Ok::<CallResults, CallResultsError>(answers),
            run_parameters,
            signatures,
            strict,
            Ok::<RoundOutcome, RoundError>(one),
        ),
        round_ended(
            prev_data,
            current_data,
            Ok::<Instruction, String>(script),
            Ok::<CallResults, CallResultsError>(answers),
            run_parameters,
            signatures,
            strict,
            Ok::<RoundOutcome, RoundError>(other),
        ),
    ensures
        decoded(one.data@) is Some,
        one.data@ == other.data@,
        one.signature@ == other.signature@,
        one.flow == other.flow,
        one.call_requests@ == other.call_requests@,
        one.stored == other.stored,
        one.signature_store@ == other.signature_store@,
{
    let handler = HandlerView {
        previous: data_of(prev_data).unwrap().trace,
        cursor: 0,
        current: data_of(current_data).unwrap().trace,
    };
    let ctx = initial_ctx(
        data_of(prev_data).unwrap(),
        data_of(current_data).unwrap(),
        answers@,
        signatures,
        run_parameters,
    );
    let done = walked(script, crate::fold::scope_of(ctx.folds), walk_env(ctx), walk_state(handler, ctx));
    let one_key = choose|keypair: KeyPair|
        {
            &&& keypair.wf()
            &&& crate::signature::KeyFormat::of_byte(run_parameters.key_format) == Some(
                keypair.format(),
            )
            &&& keypair.secret() == run_parameters.secret_key_bytes@
            &&& #[trigger] produced(
                script,
                handler,
                ctx,
                keypair,
                strict,
                Ok::<RoundOutcome, RoundError>(one),
            )
        };
    assert(produced(script, handler, ctx, one_key, strict, Ok::<RoundOutcome, RoundError>(one)));
    let one_data = choose|data: InterpreterData|
        stands_for(data, done.state) && one.data@ == encoding(data);
    law_stored_data_reads_back(one_data);
    let other_key = choose|keypair: KeyPair|
        {
            &&& keypair.wf()
            &&& crate::signature::KeyFormat::of_byte(run_parameters.key_format) == Some(
                keypair.format(),
            )
            &&& keypair.secret() == run_parameters.secret_key_bytes@
            &&& #[trigger] produced(
                script,
                handler,
                ctx,
                keypair,
                strict,
                Ok::<RoundOutcome, RoundError>(other),
            )
        };
    assert(produced(script, handler, ctx, other_key, strict, Ok::<RoundOutcome, RoundError>(other)));
    let other_data = choose|data: InterpreterData|
        stands_for(data, done.state) && other.data@ == encoding(data);
    law_data_decides_encoding(one_data, other_data);
    assert(one_key.format() == other_key.format());
    assert(one_key.public() == other_key.public());
}

} // verus!
