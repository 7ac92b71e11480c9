use air_core::call_results::CallResults;
use air_core::call_results::CallResultsError;
use air_core::call_results::CallServiceResult;
use air_core::cid::CidTable;
use air_core::data::InterpreterData;
use air_core::exec_ctx::CallRequest;
use air_core::exec_ctx::ExecCtxIngredients;
use air_core::exec_ctx::ExecutionCtx;
use air_core::exec_ctx::ExecutionError;
use air_core::exec_ctx::RunParameters;
use air_core::instruction::Instruction;
use air_core::interpreter::walk;
use air_core::interpreter::Flow;
use air_core::preparation::check_version_compatibility;
use air_core::preparation::make_exec_ctx;
use air_core::preparation::parse_data;
use air_core::preparation::prepare;
use air_core::preparation::to_data_de_error;
use air_core::preparation::try_to_data;
use air_core::preparation::PreparationError;
use air_core::runner::run_prepared;
use air_core::signature::SignatureStore;
use air_core::trace_handler::TraceHandler;
use air_core::version::min_supported_version;
use air_core::version::Version;
use air_interpreter_sede::ToSerialized;

fn run_parameters() -> RunParameters {
    let mut secret = vec![0u8; 32];
    secret[31] = 7;
    RunParameters {
        init_peer_id: b"init".to_vec(),
        current_peer_id: b"here".to_vec(),
        timestamp: 1,
        ttl: 2,
        key_format: 2,
        secret_key_bytes: secret,
    }
}

fn ingredients(last_call_request_id: u32, entries: &[(&[u8], &[u8])]) -> ExecCtxIngredients {
    let mut cid_info = CidTable::new();
    for (cid, value) in entries {
        cid_info.insert(cid, value).unwrap();
    }
    ExecCtxIngredients { last_call_request_id, cid_info }
}

fn encoded_answers(given: &[(&str, i32, &str)]) -> Vec<u8> {
    let mut map = air_interpreter_interface::CallResults::new();
    for (key, ret_code, result) in given {
        map.insert(
            key.to_string(),
            air_interpreter_interface::CallServiceResult {
                ret_code: *ret_code,
                result: result.to_string(),
            },
        );
    }
    air_interpreter_interface::CallResultsRepr.serialize(&map).unwrap().to_vec()
}

#[test]
fn empty_bytes_are_the_data_of_a_script_without_history() {
    let data = try_to_data(&[]).unwrap();
    assert_eq!(data.trace.len(), 0);
    assert_eq!(data.cid_info.len(), 0);
    assert_eq!(data.last_call_request_id, 0);
    assert_eq!(data.versions.interpreter_version, min_supported_version());
}

#[test]
fn stored_bytes_are_read_as_data() {
    let mut stored = InterpreterData::new(Version::new(0, 60, 0));
    stored.last_call_request_id = 4;
    let data = try_to_data(&stored.to_bytes()).unwrap();
    assert_eq!(data.last_call_request_id, 4);
    assert_eq!(data.versions.interpreter_version, Version::new(0, 60, 0));
}

#[test]
fn unreadable_bytes_are_handed_back_in_the_error() {
    assert_eq!(
        try_to_data(&[1, 2, 3]).err(),
        Some(PreparationError::DataDeFailed { data: vec![1, 2, 3], versions: None })
    );
    assert_eq!(
        to_data_de_error(vec![4, 5]),
        PreparationError::DataDeFailed { data: vec![4, 5], versions: None }
    );
}

#[test]
fn version_check_compares_with_the_oldest_supported_version() {
    assert_eq!(check_version_compatibility(&InterpreterData::new(Version::new(0, 54, 0))), Ok(()));
    assert_eq!(check_version_compatibility(&InterpreterData::new(Version::new(3, 0, 0))), Ok(()));
    assert_eq!(
        check_version_compatibility(&InterpreterData::new(Version::new(0, 53, 200))),
        Err(PreparationError::UnsupportedInterpreterVersion {
            actual_version: Version::new(0, 53, 200),
            required_version: Version::new(0, 54, 0),
        })
    );
}

#[test]
fn parse_data_reads_both_pieces_and_checks_both_versions() {
    let fresh = InterpreterData::new(Version::new(0, 54, 0)).to_bytes();
    let old = InterpreterData::new(Version::new(0, 1, 0)).to_bytes();
    let pair = parse_data(&fresh, &[]).unwrap();
    assert_eq!(pair.prev_data.versions.interpreter_version, Version::new(0, 54, 0));
    assert_eq!(pair.current_data.trace.len(), 0);
    assert!(matches!(
        parse_data(&old, &fresh),
        Err(PreparationError::UnsupportedInterpreterVersion { .. })
    ));
    assert!(matches!(
        parse_data(&fresh, &old),
        Err(PreparationError::UnsupportedInterpreterVersion { .. })
    ));
    assert_eq!(
        parse_data(&old, &[9]).err(),
        Some(PreparationError::DataDeFailed { data: vec![9], versions: None })
    );
    assert_eq!(
        parse_data(&[8], &[9]).err(),
        Some(PreparationError::DataDeFailed { data: vec![8], versions: None })
    );
}

#[test]
fn context_counts_on_from_the_previous_round() {
    let mut answers = CallResults::new();
    answers.insert(8, CallServiceResult { ret_code: 0, result: b"eight".to_vec() });
    let mut ctx = ExecutionCtx::new(
        ingredients(7, &[(b"a", b"1")]),
        ingredients(100, &[(b"b", b"2")]),
        answers,
        SignatureStore::new(),
        &run_parameters(),
    )
    .unwrap();
    assert_eq!(ctx.last_call_request_id(), 7);
    assert_eq!(ctx.current_peer_id(), b"here".to_vec());
    assert_eq!(ctx.next_request_id(), Ok(8));
    assert_eq!(ctx.next_request_id(), Ok(9));
    assert_eq!(ctx.last_call_request_id(), 9);
    assert_eq!(
        ctx.lookup_call_result(8),
        Some(&CallServiceResult { ret_code: 0, result: b"eight".to_vec() })
    );
    assert_eq!(ctx.lookup_call_result(9), None);
    let cid = ctx.intern_value(b"eight").unwrap();
    ctx.push_call_request(CallRequest { request_id: 9, node: 1 });
    let (table, last, store, requests) = ctx.into_parts();
    assert_eq!(table.len(), 3);
    assert_eq!(table.resolve(b"a").unwrap(), b"1".to_vec());
    assert_eq!(table.resolve(b"b").unwrap(), b"2".to_vec());
    assert_eq!(table.resolve(&cid).unwrap(), b"eight".to_vec());
    assert_eq!(last, 9);
    assert_eq!(store.len(), 0);
    assert_eq!(requests, vec![CallRequest { request_id: 9, node: 1 }]);
}

#[test]
fn request_counter_stops_at_its_end() {
    let mut ctx = ExecutionCtx::new(
        ingredients(u32::MAX - 1, &[]),
        ingredients(0, &[]),
        CallResults::new(),
        SignatureStore::new(),
        &run_parameters(),
    )
    .unwrap();
    assert_eq!(ctx.next_request_id(), Ok(u32::MAX));
    assert_eq!(ctx.next_request_id(), Err(ExecutionError::RequestIdsExhausted));
    assert_eq!(ctx.last_call_request_id(), u32::MAX);
}

#[test]
fn context_is_refused_where_the_value_tables_disagree() {
    let made = ExecutionCtx::new(
        ingredients(0, &[(b"a", b"1")]),
        ingredients(0, &[(b"a", b"2")]),
        CallResults::new(),
        SignatureStore::new(),
        &run_parameters(),
    );
    assert!(made.is_err());
    let made = make_exec_ctx(
        ingredients(0, &[(b"a", b"1")]),
        ingredients(0, &[(b"a", b"2")]),
        &encoded_answers(&[]),
        SignatureStore::new(),
        &run_parameters(),
    );
    assert_eq!(made.err(), Some(PreparationError::CidCollision { cid: b"a".to_vec() }));
}

#[test]
fn context_is_made_from_the_hosts_encoding_of_its_answers() {
    let ctx = make_exec_ctx(
        ingredients(3, &[]),
        ingredients(0, &[]),
        &encoded_answers(&[("4", 0, "four")]),
        SignatureStore::new(),
        &run_parameters(),
    )
    .unwrap();
    assert_eq!(ctx.last_call_request_id(), 3);
    assert_eq!(
        ctx.lookup_call_result(4),
        Some(&CallServiceResult { ret_code: 0, result: b"four".to_vec() })
    );
    let refused = make_exec_ctx(
        ingredients(3, &[]),
        ingredients(0, &[]),
        &encoded_answers(&[("four", 0, "four")]),
        SignatureStore::new(),
        &run_parameters(),
    );
    assert_eq!(
        refused.err(),
        Some(PreparationError::CallResultsDeFailed {
            reason: CallResultsError::MalformedRequestId { key: b"four".to_vec() }
        })
    );
}

#[test]
fn prepared_round_walks_from_the_previous_trace() {
    let descriptor = prepare(
        InterpreterData::new(min_supported_version()),
        InterpreterData::new(min_supported_version()),
        Ok(Instruction::Call { node: 1 }),
        &encoded_answers(&[("1", 0, "one")]),
        run_parameters(),
        SignatureStore::new(),
    )
    .unwrap();
    assert_eq!(descriptor.air, Instruction::Call { node: 1 });
    assert_eq!(descriptor.exec_ctx.last_call_request_id(), 0);
    assert_eq!(descriptor.trace_handler.previous_len(), 0);
    let outcome = run_prepared(descriptor, true).unwrap();
    assert_eq!(outcome.flow, Flow::Completed);
    assert!(outcome.call_requests.is_empty());
}

#[test]
fn prepare_reports_the_first_fault() {
    let made = prepare(
        InterpreterData::new(min_supported_version()),
        InterpreterData::new(min_supported_version()),
        Err(String::from("no script")),
        &[0xff],
        run_parameters(),
        SignatureStore::new(),
    );
    assert_eq!(
        made.err(),
        Some(PreparationError::AIRParseError { message: String::from("no script") })
    );
    let made = prepare(
        InterpreterData::new(min_supported_version()),
        InterpreterData::new(min_supported_version()),
        Ok(Instruction::Null),
        &[0xff],
        run_parameters(),
        SignatureStore::new(),
    );
    assert_eq!(
        made.err(),
        Some(PreparationError::CallResultsDeFailed {
            reason: CallResultsError::Undecodable { call_results: vec![0xff] }
        })
    );
}

#[test]
fn walk_leaves_the_fold_stack_as_it_was() {
    let mut answers = CallResults::new();
    answers.insert(1, CallServiceResult { ret_code: 0, result: b"x".to_vec() });
    let mut ctx = ExecutionCtx::new(
        ingredients(0, &[]),
        ingredients(0, &[]),
        answers,
        SignatureStore::new(),
        &run_parameters(),
    )
    .unwrap();
    let mut handler = TraceHandler::from_trace(vec![], vec![]);
    let script = Instruction::Fold {
        node: 1,
        iterations: 2,
        body: Box::new(Instruction::Call { node: 2 }),
    };
    assert_eq!(walk(&script, &mut handler, &mut ctx), Ok(Flow::Pending));
    assert_eq!(ctx.open_folds(), 0);
    assert_eq!(ctx.scope(), Vec::<u32>::new());
    assert_eq!(ctx.last_call_request_id(), 2);
    assert_eq!(handler.current_len(), 3);
}
