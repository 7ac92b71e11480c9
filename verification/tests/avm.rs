use air_core::avm::AVMConfig;
use air_core::avm::AVMError;
use air_core::avm::AVMOutcome;
use air_core::avm::AVMRunner;
use air_core::avm::DataStore;
use air_core::avm::RawOutcome;
use air_core::avm::RunnerError;
use air_core::avm::AVM;
use air_core::call_results::CallResults;
use air_core::call_results::CallServiceResult;
use air_core::data::InterpreterData;
use air_core::exec_ctx::CallRequest;
use air_core::instruction::Instruction;
use air_core::interpreter::Flow;
use air_core::preparation::PreparationError;
use air_core::runner::RoundError;
use air_core::signature::KeyError;
use std::collections::HashMap;

struct MemoryStore {
    ready: bool,
    fail_on_read: bool,
    held: HashMap<String, Vec<u8>>,
}

impl MemoryStore {
    fn new() -> Self {
        MemoryStore { ready: false, fail_on_read: false, held: HashMap::new() }
    }
}

impl DataStore for MemoryStore {
    type Error = String;

    fn initialize(&mut self) -> Result<(), String> {
        self.ready = true;
        Ok(())
    }

    fn store_data(&mut self, data: &[u8], particle_id: &str) -> Result<(), String> {
        self.held.insert(particle_id.to_string(), data.to_vec());
        Ok(())
    }

    fn read_data(&mut self, particle_id: &str) -> Result<Vec<u8>, String> {
        if self.fail_on_read {
            return Err(String::from("disk on fire"));
        }
        Ok(self.held.get(particle_id).cloned().unwrap_or_default())
    }

    fn cleanup_data(&mut self, particle_id: &str) -> Result<(), String> {
        match self.held.remove(particle_id) {
            Some(_) => Ok(()),
            None => Err(format!("nothing stored under {}", particle_id)),
        }
    }
}

fn secret() -> Vec<u8> {
    let mut secret = vec![0u8; 32];
    secret[0] = 3;
    secret
}

fn config(store: MemoryStore) -> AVMConfig<MemoryStore> {
    AVMConfig {
        current_peer_id: b"peer".to_vec(),
        key_format: 2,
        secret_key_bytes: secret(),
        strict: true,
        data_store: store,
    }
}

fn two_calls() -> Instruction {
    Instruction::Sequence(
        Box::new(Instruction::Call { node: 1 }),
        Box::new(Instruction::Call { node: 2 }),
    )
}

fn answer(id: u32, result: &str) -> CallResults {
    let mut results = CallResults::new();
    results.insert(id, CallServiceResult { ret_code: 0, result: result.as_bytes().to_vec() });
    results
}

#[test]
fn machine_keeps_the_data_of_a_script_between_calls() {
    let mut avm = AVM::new(config(MemoryStore::new())).unwrap();
    let first = avm
        .call(Ok(two_calls()), vec![], b"user".to_vec(), "particle", CallResults::new())
        .unwrap();
    assert_eq!(first.flow, Flow::Pending);
    assert_eq!(first.call_requests, vec![CallRequest { request_id: 1, node: 1 }]);
    let second =
        avm.call(Ok(two_calls()), vec![], b"user".to_vec(), "particle", answer(1, "a")).unwrap();
    assert_eq!(second.flow, Flow::Pending);
    assert_eq!(second.call_requests, vec![CallRequest { request_id: 2, node: 2 }]);
    let third =
        avm.call(Ok(two_calls()), vec![], b"user".to_vec(), "particle", answer(2, "b")).unwrap();
    assert_eq!(third.flow, Flow::Completed);
    let data = InterpreterData::try_from_slice(&third.data).unwrap();
    assert_eq!(data.trace.len(), 2);
    assert_eq!(data.last_call_request_id, 2);

    let other =
        avm.call(Ok(two_calls()), vec![], b"user".to_vec(), "another", answer(2, "b")).unwrap();
    assert_eq!(other.call_requests, vec![CallRequest { request_id: 1, node: 1 }]);
}

#[test]
fn machine_cleans_up_and_starts_over() {
    let mut avm = AVM::new(config(MemoryStore::new())).unwrap();
    avm.call(Ok(two_calls()), vec![], b"user".to_vec(), "particle", answer(1, "a")).unwrap();
    assert_eq!(avm.cleanup_data("particle").ok(), Some(()));
    assert!(matches!(avm.cleanup_data("particle"), Err(AVMError::DataStoreFault(_))));
    let again =
        avm.call(Ok(two_calls()), vec![], b"user".to_vec(), "particle", CallResults::new()).unwrap();
    assert_eq!(again.call_requests, vec![CallRequest { request_id: 1, node: 1 }]);
}

#[test]
fn machine_hands_on_the_faults_of_its_store() {
    let mut store = MemoryStore::new();
    store.fail_on_read = true;
    let mut avm = AVM::new(config(store)).unwrap();
    let called =
        avm.call(Ok(two_calls()), vec![], b"user".to_vec(), "particle", CallResults::new());
    match called {
        Err(AVMError::DataStoreFault(fault)) => assert_eq!(fault, "disk on fire"),
        _ => panic!("the store's fault must come through"),
    }
}

#[test]
fn machine_is_not_made_without_a_key() {
    let mut bad = config(MemoryStore::new());
    bad.key_format = 7;
    assert!(matches!(
        AVM::new(bad),
        Err(AVMError::RunnerError(RunnerError::Key(KeyError::InvalidKeyFormat { byte: 7 })))
    ));
    let mut bad = config(MemoryStore::new());
    bad.secret_key_bytes = vec![];
    assert!(matches!(
        AVM::new(bad),
        Err(AVMError::RunnerError(RunnerError::Key(KeyError::InvalidSecretKey)))
    ));
}

#[test]
fn failed_round_stores_the_previous_data_again() {
    let mut avm = AVM::new(config(MemoryStore::new())).unwrap();
    let first =
        avm.call(Ok(two_calls()), vec![], b"user".to_vec(), "particle", answer(1, "a")).unwrap();
    let failed = avm.call(
        Err(String::from("broken script")),
        vec![],
        b"user".to_vec(),
        "particle",
        CallResults::new(),
    );
    match failed {
        Err(AVMError::InterpreterFailed(RoundError::Preparation(
            PreparationError::AIRParseError { message },
        ))) => assert_eq!(message, "broken script"),
        _ => panic!("the round must fail"),
    }
    let after =
        avm.call(Ok(two_calls()), vec![], b"user".to_vec(), "particle", CallResults::new()).unwrap();
    assert_eq!(after.data, first.data);
}

#[test]
fn runner_returns_the_previous_data_with_a_fault() {
    let mut runner = AVMRunner::new(b"peer".to_vec(), 2, secret(), true).unwrap();
    let raw = runner.call(
        Ok(Instruction::Null),
        vec![1, 2, 3],
        vec![],
        b"user".to_vec(),
        CallResults::new(),
    );
    assert!(matches!(
        raw.error,
        Some(RoundError::Preparation(PreparationError::DataDeFailed { .. }))
    ));
    assert_eq!(raw.data, vec![1, 2, 3]);
    assert!(raw.call_requests.is_empty());
    let outcome: Result<AVMOutcome, AVMError<String>> = AVMOutcome::from_raw_outcome(raw);
    assert!(matches!(outcome, Err(AVMError::InterpreterFailed(_))));
}

#[test]
fn raw_outcome_without_a_fault_is_the_outcome() {
    let raw = RawOutcome {
        error: None,
        data: vec![5],
        flow: Flow::Pending,
        call_requests: vec![CallRequest { request_id: 1, node: 2 }],
    };
    let outcome: AVMOutcome = AVMOutcome::from_raw_outcome::<String>(raw).unwrap();
    assert_eq!(outcome.data, vec![5]);
    assert_eq!(outcome.flow, Flow::Pending);
    assert_eq!(outcome.call_requests, vec![CallRequest { request_id: 1, node: 2 }]);
}
