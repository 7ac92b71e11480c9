use air_core::call_results::CallResults;
use air_core::call_results::CallServiceResult;
use air_core::data::InterpreterData;
use air_core::exec_ctx::CallRequest;
use air_core::exec_ctx::ExecutionError;
use air_core::exec_ctx::RunParameters;
use air_core::instruction::Instruction;
use air_core::interpreter::Flow;
use air_core::preparation::PreparationError;
use air_core::runner::execute_round_with;
use air_core::runner::interpreter_version;
use air_core::runner::RoundError;
use air_core::runner::RoundOutcome;
use air_core::signature::SignatureStore;
use air_core::signature::Stored;
use air_core::trace::CallState;
use air_core::trace::ExecutedState;
use air_core::trace::Position;
use air_core::version::data_format_version;
use air_core::version::min_supported_version;
use air_core::version::Version;

fn secp_secret() -> Vec<u8> {
    let mut secret = vec![0u8; 32];
    secret[31] = 1;
    secret
}

fn parameters() -> RunParameters {
    RunParameters {
        init_peer_id: b"init".to_vec(),
        current_peer_id: b"peer".to_vec(),
        timestamp: 0,
        ttl: 0,
        key_format: 2,
        secret_key_bytes: secp_secret(),
    }
}

fn answers(given: &[(u32, i32, &str)]) -> CallResults {
    let mut results = CallResults::new();
    for (id, ret_code, result) in given {
        results.insert(
            *id,
            CallServiceResult { ret_code: *ret_code, result: result.as_bytes().to_vec() },
        );
    }
    results
}

fn call(node: u32) -> Instruction {
    Instruction::Call { node }
}

fn seq(first: Instruction, second: Instruction) -> Instruction {
    Instruction::Sequence(Box::new(first), Box::new(second))
}

fn xor(node: u32, first: Instruction, second: Instruction) -> Instruction {
    Instruction::Xor { node, first: Box::new(first), second: Box::new(second) }
}

fn fold(node: u32, iterations: u32, body: Instruction) -> Instruction {
    Instruction::Fold { node, iterations, body: Box::new(body) }
}

fn round(
    prev_data: &[u8],
    script: Instruction,
    given: &[(u32, i32, &str)],
) -> Result<RoundOutcome, RoundError> {
    execute_round_with(
        prev_data,
        &[],
        Ok(script),
        Ok(answers(given)),
        parameters(),
        SignatureStore::new(),
        true,
    )
}

fn trace_of(outcome: &RoundOutcome) -> Vec<ExecutedState> {
    InterpreterData::try_from_slice(&outcome.data).unwrap().trace
}

fn three_calls() -> Instruction {
    seq(call(1), seq(call(2), call(3)))
}

fn all_answers() -> Vec<(u32, i32, &'static str)> {
    vec![(1, 0, "a"), (2, 0, "b"), (3, 0, "c")]
}

#[test]
fn single_round_with_every_answer_completes() {
    let outcome = round(&[], three_calls(), &all_answers()).unwrap();
    assert_eq!(outcome.flow, Flow::Completed);
    assert!(outcome.call_requests.is_empty());
    assert_eq!(outcome.stored, Stored::Added);
    let data = InterpreterData::try_from_slice(&outcome.data).unwrap();
    assert_eq!(data.last_call_request_id, 3);
    assert_eq!(data.versions.interpreter_version, interpreter_version());
    assert_eq!(data.versions.data_version, data_format_version());
    assert_eq!(data.cid_info.len(), 3);
    assert_eq!(data.trace.len(), 3);
    let mut ids = Vec::new();
    for state in &data.trace {
        match state {
            ExecutedState::Call { request_id, peer, state: CallState::Succeeded { value }, .. } => {
                assert_eq!(peer, &b"peer".to_vec());
                assert!(data.cid_info.contains(value));
                ids.push(*request_id);
            },
            other => panic!("unexpected state {:?}", other),
        }
    }
    assert_eq!(ids, vec![1, 2, 3]);
    let mut values = Vec::new();
    for i in 0..data.cid_info.len() {
        if i > 0 {
            assert!(data.cid_info.cid_at(i - 1) < data.cid_info.cid_at(i));
        }
        values.push(data.cid_info.value_at(i).clone());
    }
    values.sort();
    assert_eq!(values, vec![b"a".to_vec(), b"b".to_vec(), b"c".to_vec()]);
}

#[test]
fn round_without_an_answer_ends_pending() {
    let outcome = round(&[], three_calls(), &[(1, 0, "a")]).unwrap();
    assert_eq!(outcome.flow, Flow::Pending);
    assert_eq!(outcome.call_requests, vec![CallRequest { request_id: 2, node: 2 }]);
    let trace = trace_of(&outcome);
    assert_eq!(trace.len(), 2);
    assert_eq!(
        trace[1],
        ExecutedState::Call {
            position: Position::new(2, vec![]),
            request_id: 2,
            peer: b"peer".to_vec(),
            state: CallState::Requested,
        }
    );
}

#[test]
fn answers_split_across_two_rounds_give_the_trace_of_one_round() {
    let single = round(&[], three_calls(), &all_answers()).unwrap();
    for threshold in 0..=3u32 {
        let early: Vec<_> = all_answers().into_iter().filter(|a| a.0 <= threshold).collect();
        let late: Vec<_> = all_answers().into_iter().filter(|a| a.0 > threshold).collect();
        let first = round(&[], three_calls(), &early).unwrap();
        let second = round(&first.data, three_calls(), &late).unwrap();
        assert_eq!(second.flow, Flow::Completed);
        assert_eq!(trace_of(&second), trace_of(&single));
        assert_eq!(second.data, single.data);
        assert_eq!(second.signature, single.signature);
    }
}

#[test]
fn answers_split_across_three_rounds_give_the_trace_of_one_round() {
    let single = round(&[], three_calls(), &all_answers()).unwrap();
    let first = round(&[], three_calls(), &[(1, 0, "a")]).unwrap();
    let second = round(&first.data, three_calls(), &[(2, 0, "b")]).unwrap();
    assert_eq!(second.flow, Flow::Pending);
    let third = round(&second.data, three_calls(), &[(3, 0, "c")]).unwrap();
    assert_eq!(third.data, single.data);
}

#[test]
fn round_over_the_same_input_gives_the_same_bytes_and_signature() {
    let script = || seq(call(1), fold(2, 2, seq(call(3), call(4))));
    let given = [(1, 0, "a"), (2, 0, "b"), (3, 7, "c")];
    let one = round(&[], script(), &given).unwrap();
    let other = round(&[], script(), &given).unwrap();
    assert_eq!(one.data, other.data);
    assert_eq!(one.signature, other.signature);
    assert_eq!(one.flow, other.flow);
    assert_eq!(one.call_requests, other.call_requests);
    assert_eq!(one.stored, other.stored);
    let next = round(&one.data, script(), &[(4, 0, "d")]).unwrap();
    let again = round(&other.data, script(), &[(4, 0, "d")]).unwrap();
    assert_eq!(next.data, again.data);
    assert_eq!(next.signature, again.signature);
}

#[test]
fn answer_for_a_request_not_yet_made_is_lost() {
    let first = round(&[], seq(call(1), call(2)), &[(2, 0, "b")]).unwrap();
    assert_eq!(first.flow, Flow::Pending);
    let second = round(&first.data, seq(call(1), call(2)), &[(1, 0, "a")]).unwrap();
    assert_eq!(second.flow, Flow::Pending);
    assert_eq!(second.call_requests, vec![CallRequest { request_id: 2, node: 2 }]);
}

#[test]
fn replayed_call_is_not_requested_again() {
    let first = round(&[], three_calls(), &all_answers()).unwrap();
    let again = round(&first.data, three_calls(), &[]).unwrap();
    assert_eq!(again.flow, Flow::Completed);
    assert!(again.call_requests.is_empty());
    assert_eq!(again.data, first.data);
}

#[test]
fn request_ids_rise_within_a_round_and_across_rounds() {
    let first = round(&[], three_calls(), &[(1, 0, "a"), (2, 0, "b")]).unwrap();
    assert_eq!(first.call_requests, vec![CallRequest { request_id: 3, node: 3 }]);
    let longer = seq(three_calls(), call(4));
    let second = round(&first.data, longer, &[(3, 0, "c")]).unwrap();
    assert_eq!(second.call_requests, vec![CallRequest { request_id: 4, node: 4 }]);
    let mut ids = Vec::new();
    for state in trace_of(&second) {
        if let ExecutedState::Call { request_id, .. } = state {
            ids.push(request_id);
        }
    }
    assert_eq!(ids, vec![1, 2, 3, 4]);
}

#[test]
fn failed_call_is_recorded_and_ends_the_sequence() {
    let outcome = round(&[], three_calls(), &[(1, 0, "a"), (2, 5, "boom")]).unwrap();
    assert_eq!(outcome.flow, Flow::Failed);
    let data = InterpreterData::try_from_slice(&outcome.data).unwrap();
    assert_eq!(data.trace.len(), 2);
    match &data.trace[1] {
        ExecutedState::Call { request_id: 2, state: CallState::Failed { code, message }, .. } => {
            assert_eq!(*code, 5);
            assert_eq!(data.cid_info.resolve(message).unwrap(), b"boom".to_vec());
        },
        other => panic!("unexpected state {:?}", other),
    }
    let again = round(&outcome.data, three_calls(), &[(3, 0, "c")]).unwrap();
    assert_eq!(again.flow, Flow::Failed);
    assert_eq!(again.data, outcome.data);
}

#[test]
fn xor_takes_the_second_branch_only_after_a_failure() {
    let script = seq(xor(9, call(1), call(2)), call(3));
    let caught = round(&[], script, &[(1, 3, "no"), (2, 0, "b"), (3, 0, "c")]).unwrap();
    assert_eq!(caught.flow, Flow::Completed);
    let trace = trace_of(&caught);
    assert_eq!(trace.len(), 3);
    assert!(matches!(trace[0], ExecutedState::Call { state: CallState::Failed { .. }, .. }));

    let script = seq(xor(9, call(1), call(2)), call(3));
    let smooth = round(&[], script, &[(1, 0, "a"), (2, 0, "c")]).unwrap();
    assert_eq!(smooth.flow, Flow::Completed);
    let trace = trace_of(&smooth);
    assert_eq!(trace.len(), 3);
    assert_eq!(trace[1], ExecutedState::Skip { position: Position::new(9, vec![]) });
    assert!(matches!(trace[2], ExecutedState::Call { request_id: 2, .. }));

    let script = seq(xor(9, call(1), call(2)), call(3));
    let again = round(&smooth.data, script, &[]).unwrap();
    assert_eq!(again.data, smooth.data);
}

#[test]
fn fold_interrupted_at_an_iteration_resumes_there() {
    let script = || fold(10, 3, call(11));
    let single = round(&[], script(), &all_answers()).unwrap();
    assert_eq!(single.flow, Flow::Completed);
    let whole = trace_of(&single);
    assert_eq!(
        whole[0],
        ExecutedState::Fold { position: Position::new(10, vec![]), iterations: 3, span: 3 }
    );
    assert_eq!(whole.len(), 4);

    let first = round(&[], script(), &[(1, 0, "a")]).unwrap();
    assert_eq!(first.flow, Flow::Pending);
    let part = trace_of(&first);
    assert_eq!(
        part[0],
        ExecutedState::Fold { position: Position::new(10, vec![]), iterations: 1, span: 1 }
    );
    assert_eq!(
        part[2],
        ExecutedState::Call {
            position: Position::new(11, vec![1]),
            request_id: 2,
            peer: b"peer".to_vec(),
            state: CallState::Requested,
        }
    );

    let second = round(&first.data, script(), &[(2, 0, "b"), (3, 0, "c")]).unwrap();
    assert_eq!(second.flow, Flow::Completed);
    assert_eq!(trace_of(&second), whole);
    assert_eq!(second.data, single.data);
}

#[test]
fn nested_folds_resume_in_the_right_iteration() {
    let script = || fold(1, 2, seq(call(2), fold(3, 2, call(4))));
    let every: Vec<(u32, i32, &str)> =
        vec![(1, 0, "a"), (2, 0, "b"), (3, 0, "c"), (4, 0, "d"), (5, 0, "e"), (6, 0, "f")];
    let single = round(&[], script(), &every).unwrap();
    assert_eq!(single.flow, Flow::Completed);
    for threshold in 0..=6u32 {
        let early: Vec<_> = every.iter().cloned().filter(|a| a.0 <= threshold).collect();
        let late: Vec<_> = every.iter().cloned().filter(|a| a.0 > threshold).collect();
        let first = round(&[], script(), &early).unwrap();
        let second = round(&first.data, script(), &late).unwrap();
        assert_eq!(second.data, single.data);
    }
    let whole = trace_of(&single);
    assert_eq!(
        whole[0],
        ExecutedState::Fold { position: Position::new(1, vec![]), iterations: 2, span: 8 }
    );
    assert_eq!(
        whole[6],
        ExecutedState::Fold { position: Position::new(3, vec![1]), iterations: 2, span: 2 }
    );
}

#[test]
fn fold_without_iterations_records_its_marker() {
    let outcome = round(&[], fold(1, 0, call(2)), &[]).unwrap();
    assert_eq!(outcome.flow, Flow::Completed);
    assert_eq!(
        trace_of(&outcome),
        vec![ExecutedState::Fold { position: Position::new(1, vec![]), iterations: 0, span: 0 }]
    );
}

#[test]
fn script_that_changed_its_shape_is_a_trace_mismatch() {
    let first = round(&[], fold(1, 1, call(2)), &[(1, 0, "a")]).unwrap();
    let ended = round(&first.data, call(1), &[]);
    assert_eq!(
        ended.err(),
        Some(RoundError::Execution(ExecutionError::TraceMismatch { cursor: 0 }))
    );
}

#[test]
fn unread_suffix_is_reported_only_when_asked() {
    let first = round(&[], three_calls(), &all_answers()).unwrap();
    let strict = round(&first.data, call(1), &[]);
    assert_eq!(strict.err(), Some(RoundError::UnconsumedTrace { left: 2 }));
    let lenient = execute_round_with(
        &first.data,
        &[],
        Ok(call(1)),
        Ok(answers(&[])),
        parameters(),
        SignatureStore::new(),
        false,
    )
    .unwrap();
    assert_eq!(lenient.flow, Flow::Completed);
    assert_eq!(trace_of(&lenient).len(), 1);
}

#[test]
fn empty_previous_data_is_a_first_round() {
    let fresh = InterpreterData::new(min_supported_version());
    assert_eq!(fresh.trace.len(), 0);
    assert_eq!(fresh.cid_info.len(), 0);
    assert_eq!(fresh.last_call_request_id, 0);
    assert_eq!(fresh.versions.interpreter_version, Version::new(0, 54, 0));
    let from_nothing = round(&[], three_calls(), &all_answers()).unwrap();
    let from_fresh = round(&fresh.to_bytes(), three_calls(), &all_answers()).unwrap();
    assert_eq!(from_nothing.data, from_fresh.data);
    assert_eq!(from_nothing.flow, from_fresh.flow);
}

#[test]
fn data_of_an_older_interpreter_is_refused() {
    let old = InterpreterData::new(Version::new(0, 53, 9));
    let ended = round(&old.to_bytes(), three_calls(), &all_answers());
    assert_eq!(
        ended.err(),
        Some(RoundError::Preparation(PreparationError::UnsupportedInterpreterVersion {
            actual_version: Version::new(0, 53, 9),
            required_version: Version::new(0, 54, 0),
        }))
    );
    let current = execute_round_with(
        &[],
        &old.to_bytes(),
        Ok(three_calls()),
        Ok(answers(&[])),
        parameters(),
        SignatureStore::new(),
        true,
    );
    assert!(matches!(
        current,
        Err(RoundError::Preparation(PreparationError::UnsupportedInterpreterVersion { .. }))
    ));
}

#[test]
fn unparsed_script_is_reported() {
    let ended = execute_round_with(
        &[],
        &[],
        Err(String::from("unexpected token")),
        Ok(answers(&[])),
        parameters(),
        SignatureStore::new(),
        true,
    );
    assert_eq!(
        ended.err(),
        Some(RoundError::Preparation(PreparationError::AIRParseError {
            message: String::from("unexpected token")
        }))
    );
}

#[test]
fn malformed_data_is_reported_with_its_versions() {
    let mut bytes = InterpreterData::new(Version::new(1, 2, 3)).to_bytes();
    bytes.push(0);
    let ended = round(&bytes, three_calls(), &[]);
    match ended {
        Err(RoundError::Preparation(PreparationError::DataDeFailed { data, versions })) => {
            assert_eq!(data, bytes);
            assert_eq!(versions.unwrap().interpreter_version, Version::new(1, 2, 3));
        },
        _ => panic!("the round must fail"),
    }
    let ended = round(&[1, 2, 3], three_calls(), &[]);
    match ended {
        Err(RoundError::Preparation(PreparationError::DataDeFailed { data, versions })) => {
            assert_eq!(data, vec![1, 2, 3]);
            assert!(versions.is_none());
        },
        _ => panic!("the round must fail"),
    }
}

#[test]
fn bad_key_material_is_reported() {
    let mut bad_format = parameters();
    bad_format.key_format = 9;
    let ended = execute_round_with(
        &[],
        &[],
        Ok(call(1)),
        Ok(answers(&[])),
        bad_format,
        SignatureStore::new(),
        true,
    );
    assert_eq!(
        ended.err(),
        Some(RoundError::Preparation(PreparationError::KeyError {
            error: air_core::signature::KeyError::InvalidKeyFormat { byte: 9 }
        }))
    );
    let mut bad_key = parameters();
    bad_key.secret_key_bytes = vec![1, 2, 3];
    let ended = execute_round_with(
        &[],
        &[],
        Ok(call(1)),
        Ok(answers(&[])),
        bad_key,
        SignatureStore::new(),
        true,
    );
    assert_eq!(
        ended.err(),
        Some(RoundError::Preparation(PreparationError::KeyError {
            error: air_core::signature::KeyError::InvalidSecretKey
        }))
    );
}

#[test]
fn null_script_produces_an_empty_trace() {
    let outcome = round(&[], Instruction::Null, &[]).unwrap();
    assert_eq!(outcome.flow, Flow::Completed);
    assert!(trace_of(&outcome).is_empty());
}

#[test]
fn answer_that_collides_with_a_recorded_value_breaks_the_round_off() {
    let mut probe = air_core::cid::CidTable::new();
    let digest = probe.intern(b"a").unwrap();
    let mut forged = InterpreterData::new(min_supported_version());
    forged.cid_info.insert(&digest, b"something else").unwrap();
    let ended = round(&forged.to_bytes(), three_calls(), &all_answers());
    assert_eq!(
        ended.err(),
        Some(RoundError::Execution(ExecutionError::CidCollision { cid: digest }))
    );
}

#[test]
fn early_answer_that_no_round_needs_does_not_matter() {
    let script = || seq(call(1), call(2));
    let single = round(&[], script(), &[(1, 0, "a"), (2, 0, "b"), (3, 0, "c")]).unwrap();
    let first = round(&[], script(), &[(1, 0, "a"), (3, 0, "c")]).unwrap();
    assert_eq!(first.flow, Flow::Pending);
    let second = round(&first.data, script(), &[(2, 0, "b")]).unwrap();
    assert_eq!(second.flow, Flow::Completed);
    assert_eq!(second.data, single.data);
}
