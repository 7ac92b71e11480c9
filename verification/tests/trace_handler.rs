use air_core::trace::CallState;
use air_core::trace::ExecutedState;
use air_core::trace::Position;
use air_core::trace_handler::Decision;
use air_core::trace_handler::Prospect;
use air_core::trace_handler::NotAFold;
use air_core::trace_handler::TraceMismatch;
use air_core::trace_handler::UnconsumedSuffix;
use air_core::trace_handler::TraceHandler;

fn at(node: u32, scope: &[u32]) -> Position {
    Position::new(node, scope.to_vec())
}

fn done_call(node: u32, scope: &[u32], request_id: u32) -> ExecutedState {
    ExecutedState::Call {
        position: at(node, scope),
        request_id,
        peer: b"peer".to_vec(),
        state: CallState::Succeeded { value: vec![request_id as u8] },
    }
}

fn failed_call(node: u32, request_id: u32) -> ExecutedState {
    ExecutedState::Call {
        position: at(node, &[]),
        request_id,
        peer: b"peer".to_vec(),
        state: CallState::Failed { code: 7, message: vec![1, 2] },
    }
}

fn requested_call(node: u32, scope: &[u32], request_id: u32) -> ExecutedState {
    ExecutedState::Call {
        position: at(node, scope),
        request_id,
        peer: b"peer".to_vec(),
        state: CallState::Requested,
    }
}

#[test]
fn exhausted_trace_means_execute() {
    let mut handler = TraceHandler::from_trace(vec![], vec![]);
    assert_eq!(handler.meet(&at(1, &[]), Prospect::Call), Ok(Decision::Execute));
    assert_eq!(handler.next_unconsumed_index(), 0);
    assert_eq!(handler.current_len(), 0);
    assert_eq!(handler.finish(true), Ok(vec![]));
}

#[test]
fn another_position_means_execute_and_nothing_is_consumed() {
    let mut handler = TraceHandler::from_trace(vec![done_call(1, &[], 1)], vec![]);
    assert_eq!(handler.meet(&at(2, &[]), Prospect::Call), Ok(Decision::Execute));
    assert_eq!(handler.meet(&at(1, &[0]), Prospect::Call), Ok(Decision::Execute));
    assert_eq!(handler.next_unconsumed_index(), 0);
    assert_eq!(handler.current_len(), 0);
}

#[test]
fn completed_call_is_replayed_unchanged() {
    let mut handler =
        TraceHandler::from_trace(vec![done_call(1, &[], 1), failed_call(2, 2)], vec![]);
    assert_eq!(
        handler.meet(&at(1, &[]), Prospect::Call),
        Ok(Decision::ReplayedCall { failed: false })
    );
    assert_eq!(handler.next_unconsumed_index(), 1);
    assert_eq!(
        handler.meet(&at(2, &[]), Prospect::Call),
        Ok(Decision::ReplayedCall { failed: true })
    );
    assert_eq!(handler.next_unconsumed_index(), 2);
    assert_eq!(handler.previous_len(), 2);
    assert_eq!(
        handler.finish(true),
        Ok(vec![done_call(1, &[], 1), failed_call(2, 2)])
    );
}

#[test]
fn requested_call_is_awaited_under_its_identifier() {
    let mut handler = TraceHandler::from_trace(vec![requested_call(1, &[], 41)], vec![]);
    assert_eq!(
        handler.meet(&at(1, &[]), Prospect::Call),
        Ok(Decision::Await { request_id: 41 })
    );
    assert_eq!(handler.next_unconsumed_index(), 1);
    assert_eq!(handler.current_len(), 0);
    handler.record(done_call(1, &[], 41));
    assert_eq!(handler.finish(true), Ok(vec![done_call(1, &[], 41)]));
}

#[test]
fn same_position_of_another_kind_is_a_mismatch() {
    let marker = ExecutedState::Fold { position: at(1, &[]), iterations: 0, span: 0 };
    let mut handler = TraceHandler::from_trace(vec![marker], vec![]);
    assert_eq!(
        handler.meet(&at(1, &[]), Prospect::Call),
        Err(TraceMismatch { cursor: 0 })
    );
    assert_eq!(
        handler.meet(&at(1, &[]), Prospect::Skip),
        Err(TraceMismatch { cursor: 0 })
    );
    assert_eq!(handler.next_unconsumed_index(), 0);
    let mut handler = TraceHandler::from_trace(vec![done_call(1, &[], 1)], vec![]);
    assert_eq!(
        handler.meet(&at(1, &[]), Prospect::Fold { bound: 3 }),
        Err(TraceMismatch { cursor: 0 })
    );
}

#[test]
fn skip_marker_is_replayed() {
    let skip = ExecutedState::Skip { position: at(5, &[2]) };
    let mut handler = TraceHandler::from_trace(vec![skip], vec![]);
    assert_eq!(handler.meet(&at(5, &[2]), Prospect::Skip), Ok(Decision::ReplayedSkip));
    assert_eq!(
        handler.finish(true),
        Ok(vec![ExecutedState::Skip { position: at(5, &[2]) }])
    );
}

#[test]
fn fold_resumes_from_the_recorded_count() {
    let previous = vec![
        ExecutedState::Fold { position: at(1, &[]), iterations: 2, span: 2 },
        done_call(2, &[0], 1),
        done_call(2, &[1], 2),
        requested_call(2, &[2], 3),
    ];
    let mut handler = TraceHandler::from_trace(previous, vec![]);
    assert_eq!(
        handler.meet(&at(1, &[]), Prospect::Fold { bound: 5 }),
        Ok(Decision::Resume { completed: 2 })
    );
    assert_eq!(handler.next_unconsumed_index(), 3);
    assert_eq!(handler.current_len(), 3);
    assert_eq!(
        handler.meet(&at(2, &[2]), Prospect::Call),
        Ok(Decision::Await { request_id: 3 })
    );
    handler.record(done_call(2, &[2], 3));
    assert_eq!(handler.commit_iteration(0, 3), Ok(()));
    assert_eq!(
        handler.finish(true),
        Ok(vec![
            ExecutedState::Fold { position: at(1, &[]), iterations: 3, span: 3 },
            done_call(2, &[0], 1),
            done_call(2, &[1], 2),
            done_call(2, &[2], 3),
        ])
    );
}

#[test]
fn fold_with_more_iterations_on_record_than_it_has_is_a_mismatch() {
    let previous = vec![ExecutedState::Fold { position: at(1, &[]), iterations: 4, span: 0 }];
    let mut handler = TraceHandler::from_trace(previous, vec![]);
    assert_eq!(
        handler.meet(&at(1, &[]), Prospect::Fold { bound: 3 }),
        Err(TraceMismatch { cursor: 0 })
    );
    assert_eq!(
        handler.meet(&at(1, &[]), Prospect::Fold { bound: 4 }),
        Ok(Decision::Resume { completed: 4 })
    );
}

#[test]
fn fold_marker_that_spans_more_than_is_recorded_is_a_mismatch() {
    let previous = vec![
        ExecutedState::Fold { position: at(1, &[]), iterations: 1, span: 2 },
        done_call(2, &[0], 1),
    ];
    let mut handler = TraceHandler::from_trace(previous, vec![]);
    assert_eq!(
        handler.meet(&at(1, &[]), Prospect::Fold { bound: 3 }),
        Err(TraceMismatch { cursor: 0 })
    );
}

#[test]
fn commit_iteration_needs_a_fold_marker() {
    let mut handler = TraceHandler::from_trace(vec![], vec![]);
    assert_eq!(handler.commit_iteration(0, 1), Err(NotAFold { index: 0 }));
    handler.record(done_call(1, &[], 1));
    assert_eq!(handler.commit_iteration(0, 1), Err(NotAFold { index: 0 }));
    handler.record(ExecutedState::Fold { position: at(3, &[]), iterations: 0, span: 0 });
    handler.record(done_call(4, &[0], 2));
    assert_eq!(handler.commit_iteration(1, 1), Ok(()));
    assert_eq!(
        handler.finish(false),
        Ok(vec![
            done_call(1, &[], 1),
            ExecutedState::Fold { position: at(3, &[]), iterations: 1, span: 1 },
            done_call(4, &[0], 2),
        ])
    );
}

#[test]
fn unconsumed_suffix_is_dropped_or_reported() {
    let previous = vec![done_call(1, &[], 1), done_call(2, &[], 2)];
    let mut handler = TraceHandler::from_trace(previous, vec![]);
    handler.meet(&at(1, &[]), Prospect::Call).unwrap();
    assert_eq!(handler.finish(false), Ok(vec![done_call(1, &[], 1)]));

    let previous = vec![done_call(1, &[], 1), done_call(2, &[], 2)];
    let mut handler = TraceHandler::from_trace(previous, vec![]);
    handler.meet(&at(1, &[]), Prospect::Call).unwrap();
    assert_eq!(handler.finish(true), Err(UnconsumedSuffix { left: 1 }));
}

#[test]
fn positions_compare_by_node_and_scope() {
    assert!(at(1, &[0, 1]).same_as(&at(1, &[0, 1])));
    assert!(!at(1, &[0, 1]).same_as(&at(1, &[0, 2])));
    assert!(!at(1, &[0, 1]).same_as(&at(1, &[0])));
    assert!(!at(1, &[]).same_as(&at(2, &[])));
    assert_eq!(at(1, &[3]).duplicate(), at(1, &[3]));
}
