//! The virtual machine around the interpreter: it keeps the data of every
//! script between rounds in a store that its user supplies.

use vstd::prelude::*;
use crate::call_results::CallResults;
use crate::call_results::CallResultsError;
use crate::exec_ctx::CallRequest;
use crate::exec_ctx::RunParameters;
use crate::instruction::Instruction;
use crate::interpreter::Flow;
use crate::runner::execute_round_with;
use crate::runner::round_ended;
use crate::runner::RoundError;
use crate::runner::RoundOutcome;
use crate::signature::KeyError;
use crate::signature::KeyFormat;
use crate::signature::KeyPair;
use crate::signature::SignatureStore;

verus! {

/// The store in which the data of every script rests between rounds. The
/// machine asks nothing of a store. What a store may make of each request
/// it says for itself, as a relation between the store before, the store
/// after and what is reported; a store that says nothing may do anything.
/// The machine's own contracts speak of a store through these relations.
pub trait DataStore: Sized {
    type Error;

    /// What this store may make of being made ready: the store that it may
    /// be afterwards, with the fault that it may report, if any.
    open spec fn starts(&self, after: Self, fault: Option<Self::Error>) -> bool {
        true
    }

    /// Makes the store ready for use.
    fn initialize(&mut self) -> (done: Result<(), Self::Error>)
        ensures
            old(self).starts(*final(self), fault_of(done)),
    ;

    /// What this store may make of a request to keep `data` under
    /// `particle_id`.
    open spec fn stores(
        &self,
        data: Seq<u8>,
        particle_id: Seq<char>,
        after: Self,
        fault: Option<Self::Error>,
    ) -> bool {
        true
    }

    /// Keeps `data` as the data of the script stored under `particle_id`.
    fn store_data(&mut self, data: &[u8], particle_id: &str) -> (done: Result<(), Self::Error>)
        ensures
            old(self).stores(data@, particle_id@, *final(self), fault_of(done)),
    ;

    /// What this store may make of a request for the data stored under
    /// `particle_id`: the bytes that it may hand out, or the fault that it
    /// may report.
    open spec fn reads(
        &self,
        particle_id: Seq<char>,
        after: Self,
        found: Result<Seq<u8>, Self::Error>,
    ) -> bool {
        true
    }

    /// Hands out the data of the script stored under `particle_id`: no
    /// bytes at all for a script that the store does not know.
    fn read_data(&mut self, particle_id: &str) -> (found: Result<Vec<u8>, Self::Error>)
        ensures
            old(self).reads(particle_id@, *final(self), bytes_of(found)),
    ;

    /// What this store may make of a request to forget the script stored
    /// under `particle_id`.
    open spec fn forgets(
        &self,
        particle_id: Seq<char>,
        after: Self,
        fault: Option<Self::Error>,
    ) -> bool {
        true
    }

    /// Forgets the script stored under `particle_id`.
    fn cleanup_data(&mut self, particle_id: &str) -> (done: Result<(), Self::Error>)
        ensures
            old(self).forgets(particle_id@, *final(self), fault_of(done)),
    ;
}

/// The store `before` may be `after` once it was made ready, and report
/// `fault` then.
pub open spec fn started<S: DataStore>(before: S, after: S, fault: Option<S::Error>) -> bool {
    before.starts(after, fault)
}

/// The store `before` may report `fault` once it was made ready.
pub open spec fn may_start<S: DataStore>(before: S, fault: Option<S::Error>) -> bool {
    exists|after: S| #[trigger] started(before, after, fault)
}

/// The store `before` may hand out `found` for `particle_id`, and be
/// `after` then.
pub open spec fn read_from<S: DataStore>(
    before: S,
    particle_id: Seq<char>,
    after: S,
    found: Result<Seq<u8>, S::Error>,
) -> bool {
    before.reads(particle_id, after, found)
}

/// The store `before` may be `after` once it was asked to keep `data` under
/// `particle_id`, and report `fault` then.
pub open spec fn stored_in<S: DataStore>(
    before: S,
    data: Seq<u8>,
    particle_id: Seq<char>,
    after: S,
    fault: Option<S::Error>,
) -> bool {
    before.stores(data, particle_id, after, fault)
}

/// The fault that a store reported, if it reported one.
pub open spec fn fault_of<E>(done: Result<(), E>) -> Option<E> {
    match done {
        Ok(_) => None,
        Err(fault) => Some(fault),
    }
}

/// What a store handed out, in terms of the bytes.
pub open spec fn bytes_of<E>(found: Result<Vec<u8>, E>) -> Result<Seq<u8>, E> {
    match found {
        Ok(data) => Ok(data@),
        Err(fault) => Err(fault),
    }
}

/// What a machine is made from.
pub struct AVMConfig<S: DataStore> {
    /// The peer that the machine runs on.
    pub current_peer_id: Vec<u8>,
    /// The byte that selects the format of the peer's secret key.
    pub key_format: u8,
    /// The secret key of the peer.
    pub secret_key_bytes: Vec<u8>,
    /// Whether recorded states that a script never comes to are reported.
    pub strict: bool,
    pub data_store: S,
}

/// Why the runner refused.
#[derive(Clone, Copy, Debug, PartialEq, Eq, Structural)]
pub enum RunnerError {
    /// The key material of the peer is no key.
    Key(KeyError),
}

/// Why the machine refused.
#[derive(Debug)]
pub enum AVMError<E> {
    /// The store reported a fault.
    DataStoreFault(E),
    /// The runner could not be made.
    RunnerError(RunnerError),
    /// The round produced nothing.
    InterpreterFailed(RoundError),
}

/// A round as the runner hands it back: the data to store in either case,
/// and the fault where there was one.
pub struct RawOutcome {
    pub error: Option<RoundError>,
    pub data: Vec<u8>,
    pub flow: Flow,
    pub call_requests: Vec<CallRequest>,
}

/// What a call of the machine hands back.
#[derive(Debug)]
pub struct AVMOutcome {
    /// The interpreter data that the round produced.
    pub data: Vec<u8>,
    /// How the walk of the script ended.
    pub flow: Flow,
    /// The requests that the host has to answer before the next round.
    pub call_requests: Vec<CallRequest>,
}

impl AVMOutcome {
    /// The outcome of a round that produced something; the fault of one that
    /// did not.
    pub fn from_raw_outcome<E>(raw: RawOutcome) -> (outcome: Result<AVMOutcome, AVMError<E>>)
        ensures
            match outcome {
                Ok(outcome) => raw.error is None && outcome.data == raw.data && outcome.flow
                    == raw.flow && outcome.call_requests == raw.call_requests,
                Err(AVMError::InterpreterFailed(e)) => raw.error == Some(e),
                Err(_) => false,
            },
    {
        match raw.error {
            Some(e) => Err(AVMError::InterpreterFailed(e)),
            None => Ok(
                AVMOutcome { data: raw.data, flow: raw.flow, call_requests: raw.call_requests },
            ),
        }
    }
}

/// The runner: the peer, its key, and the signatures it has gathered.
pub struct AVMRunner {
    current_peer_id: Vec<u8>,
    key_format: u8,
    secret_key_bytes: Vec<u8>,
    strict: bool,
    signature_store: SignatureStore,
}

impl AVMRunner {
    /// The peer that the runner runs for.
    pub closed spec fn current_peer_id(&self) -> Seq<u8> {
        self.current_peer_id@
    }

    /// The byte that selects the format of the peer's key.
    pub closed spec fn key_format(&self) -> u8 {
        self.key_format
    }

    /// The secret key of the peer.
    pub closed spec fn secret_key_bytes(&self) -> Seq<u8> {
        self.secret_key_bytes@
    }

    /// Whether recorded states that a script never comes to are reported.
    pub closed spec fn strict(&self) -> bool {
        self.strict
    }

    /// The signatures gathered so far.
    pub closed spec fn signatures(&self) -> SignatureStore {
        self.signature_store
    }

    /// The store of signatures holds no peer twice.
    pub closed spec fn wf(&self) -> bool {
        self.signature_store.wf()
    }

    /// The parameters of a round that `init_peer_id` started.
    pub open spec fn run_parameters(&self, init_peer_id: Seq<u8>, made: RunParameters) -> bool {
        &&& made.init_peer_id@ == init_peer_id
        &&& made.current_peer_id@ == self.current_peer_id()
        &&& made.timestamp == 0
        &&& made.ttl == 0
        &&& made.key_format == self.key_format()
        &&& made.secret_key_bytes@ == self.secret_key_bytes()
    }

    /// A runner for the peer `current_peer_id`, which signs with the given
    /// key. The key material must be a key.
    pub fn new(current_peer_id: Vec<u8>, key_format: u8, secret_key_bytes: Vec<u8>, strict: bool) -> (made:
        Result<AVMRunner, RunnerError>)
        ensures
            match made {
                Ok(runner) => {
                    &&& runner.wf()
                    &&& runner.current_peer_id() == current_peer_id@
                    &&& runner.key_format() == key_format
                    &&& runner.secret_key_bytes() == secret_key_bytes@
                    &&& runner.strict() == strict
                    &&& runner.signatures()@ == Map::<Seq<u8>, Seq<u8>>::empty()
                    &&& key_material_is_key(key_format, secret_key_bytes@)
                },
                Err(RunnerError::Key(e)) => !key_material_is_key(key_format, secret_key_bytes@) && e
                    == (if KeyFormat::of_byte(key_format) is None {
                    KeyError::InvalidKeyFormat { byte: key_format }
                } else {
                    KeyError::InvalidSecretKey
                }),
            },
    {
        let format = match KeyFormat::try_from_byte(key_format) {
            Ok(format) => format,
            Err(e) => {
                return Err(RunnerError::Key(e));
            },
        };
        match KeyPair::from_secret_key(secret_key_bytes.clone(), format) {
            Ok(_) => {},
            Err(e) => {
                return Err(RunnerError::Key(e));
            },
        }
        Ok(
            AVMRunner {
                current_peer_id,
                key_format,
                secret_key_bytes,
                strict,
                signature_store: SignatureStore::new(),
            },
        )
    }

    /// Runs one round of the script `air` over the data of the previous
    /// round and the data that came in. A round that produces nothing
    /// leaves the previous data as the data to store, and the gathered
    /// signatures as they were.
    pub fn call(
        &mut self,
        air: Result<Instruction, String>,
        prev_data: Vec<u8>,
        data: Vec<u8>,
        init_user_id: Vec<u8>,
        call_results: CallResults,
    ) -> (raw: RawOutcome)
        requires
            old(self).wf(),
        ensures
            final(self).wf(),
            final(self).current_peer_id() == old(self).current_peer_id(),
            final(self).key_format() == old(self).key_format(),
            final(self).secret_key_bytes() == old(self).secret_key_bytes(),
            final(self).strict() == old(self).strict(),
            exists|parameters: RunParameters, ended: Result<RoundOutcome, RoundError>|
                {
                    &&& old(self).run_parameters(init_user_id@, parameters)
                    &&& #[trigger] round_ended(
                        prev_data@,
                        data@,
                        air,
                        Ok::<CallResults, CallResultsError>(call_results),
                        parameters,
                        old(self).signatures()@,
                        old(self).strict(),
                        ended,
                    )
                    &&& raw_of(ended, prev_data@, old(self).signatures(), raw, final(self).signatures())
                },
    {
        let parameters = RunParameters {
            init_peer_id: init_user_id,
            current_peer_id: self.current_peer_id.clone(),
            timestamp: 0,
            ttl: 0,
            key_format: self.key_format,
            secret_key_bytes: self.secret_key_bytes.clone(),
        };
        let signatures = self.signature_store.duplicate();
        let ghost handed = parameters;
        let ended = execute_round_with(
            prev_data.as_slice(),
            data.as_slice(),
            air,
            Ok(call_results),
            parameters,
            signatures,
            self.strict,
        );
        let ghost ended_as = ended;
        let raw = match ended {
            Ok(outcome) => {
                self.signature_store = outcome.signature_store;
                RawOutcome {
                    error: None,
                    data: outcome.data,
                    flow: outcome.flow,
                    call_requests: outcome.call_requests,
                }
            },
            Err(e) => RawOutcome {
                error: Some(e),
                data: prev_data,
                flow: Flow::Failed,
                call_requests: Vec::new(),
            },
        };
        proof {
            assert(old(self).run_parameters(init_user_id@, handed));
            assert(round_ended(
                prev_data@,
                data@,
                air,
                Ok::<CallResults, CallResultsError>(call_results),
                handed,
                old(self).signatures()@,
                old(self).strict(),
                ended_as,
            ));
            assert(raw_of(ended_as, prev_data@, old(self).signatures(), raw, self.signatures()));
        }
        raw
    }
}

/// What is wrong with key material that is no key: the byte selects no
/// format, or the bytes are no key of the format.
pub open spec fn key_fault(key_format: u8) -> KeyError {
    if KeyFormat::of_byte(key_format) is None {
        KeyError::InvalidKeyFormat { byte: key_format }
    } else {
        KeyError::InvalidSecretKey
    }
}

/// The runner after a round: the peer and its key are the same; the
/// signatures are those that the round handed out, or, where it produced
/// nothing, those that were there.
pub open spec fn runner_after(
    before: AVMRunner,
    ended: Result<RoundOutcome, RoundError>,
    after: AVMRunner,
) -> bool {
    &&& after.wf()
    &&& after.current_peer_id() == before.current_peer_id()
    &&& after.key_format() == before.key_format()
    &&& after.secret_key_bytes() == before.secret_key_bytes()
    &&& after.strict() == before.strict()
    &&& after.signatures() == (match ended {
        Ok(outcome) => outcome.signature_store,
        Err(_) => before.signatures(),
    })
}

/// The bytes that are handed to the store after a round: what the round
/// produced, or, where it produced nothing, the previous data again.
pub open spec fn data_to_store(
    ended: Result<RoundOutcome, RoundError>,
    prev_data: Seq<u8>,
) -> Seq<u8> {
    match ended {
        Ok(outcome) => outcome.data@,
        Err(_) => prev_data,
    }
}

/// What the machine hands back for a round: its data, its flow and its
/// requests, or the fault with which it produced nothing.
pub open spec fn handed_back<E>(
    ended: Result<RoundOutcome, RoundError>,
    called: Result<AVMOutcome, AVMError<E>>,
) -> bool {
    match ended {
        Ok(produced) => {
            &&& called matches Ok(outcome)
            &&& outcome.data == produced.data
            &&& outcome.flow == produced.flow
            &&& outcome.call_requests == produced.call_requests
        },
        Err(fault) => called matches Err(AVMError::InterpreterFailed(e)) && e == fault,
    }
}

/// The key material is a key of the format that the byte selects, and one
/// that can be used.
pub open spec fn key_material_is_key(key_format: u8, secret_key_bytes: Seq<u8>) -> bool {
    match KeyFormat::of_byte(key_format) {
        Some(format) => crate::signature::usable_key(format.byte(), secret_key_bytes) is Some,
        None => false,
    }
}

/// What the runner makes of the end of a round.
pub open spec fn raw_of(
    ended: Result<RoundOutcome, RoundError>,
    prev_data: Seq<u8>,
    signatures_before: SignatureStore,
    raw: RawOutcome,
    signatures_after: SignatureStore,
) -> bool {
    match ended {
        Ok(outcome) => {
            &&& raw.error is None
            &&& raw.data == outcome.data
            &&& raw.flow == outcome.flow
            &&& raw.call_requests == outcome.call_requests
            &&& signatures_after == outcome.signature_store
        },
        Err(e) => {
            &&& raw.error == Some(e)
            &&& raw.data@ == prev_data
            &&& raw.flow == Flow::Failed
            &&& raw.call_requests@ == Seq::<CallRequest>::empty()
            &&& signatures_after == signatures_before
        },
    }
}

/// The machine: a runner and the store of its user.
pub struct AVM<S: DataStore> {
    runner: AVMRunner,
    data_store: S,
}

impl<S: DataStore> AVM<S> {
    /// The runner of the machine.
    pub closed spec fn runner(&self) -> AVMRunner {
        self.runner
    }

    /// The store of the machine.
    pub closed spec fn data_store(&self) -> S {
        self.data_store
    }

    /// The runner is well formed.
    pub open spec fn wf(&self) -> bool {
        self.runner().wf()
    }

    /// Makes a machine: the store is made ready first, then the runner is
    /// made. A fault of the store is handed on as it comes and no runner is
    /// made then; key material that is no key is reported with what is wrong
    /// with it. The machine holds the store that was given, as making it
    /// ready left it.
    pub fn new(config: AVMConfig<S>) -> (made: Result<AVM<S>, AVMError<S::Error>>)
        ensures
            match made {
                Ok(avm) => {
                    &&& config.data_store.starts(avm.data_store(), None)
                    &&& key_material_is_key(config.key_format, config.secret_key_bytes@)
                    &&& avm.wf()
                    &&& avm.runner().current_peer_id() == config.current_peer_id@
                    &&& avm.runner().key_format() == config.key_format
                    &&& avm.runner().secret_key_bytes() == config.secret_key_bytes@
                    &&& avm.runner().strict() == config.strict
                    &&& avm.runner().signatures()@ == Map::<Seq<u8>, Seq<u8>>::empty()
                },
                Err(AVMError::DataStoreFault(fault)) => may_start(config.data_store, Some(fault)),
                Err(AVMError::RunnerError(error)) => {
                    &&& may_start(config.data_store, None)
                    &&& !key_material_is_key(config.key_format, config.secret_key_bytes@)
                    &&& error == RunnerError::Key(key_fault(config.key_format))
                },
                Err(AVMError::InterpreterFailed(_)) => false,
            },
    {
        let ghost given = config.data_store;
        let AVMConfig { current_peer_id, key_format, secret_key_bytes, strict, data_store } = config;
        let mut data_store = data_store;
        let done = data_store.initialize();
        let ghost started_as = data_store;
        let ghost fault = fault_of(done);
        assert(started(given, started_as, fault));
        assert(may_start(given, fault));
        match done {
            Err(e) => Err(AVMError::DataStoreFault(e)),
            Ok(_) => match AVMRunner::new(current_peer_id, key_format, secret_key_bytes, strict) {
                Ok(runner) => Ok(AVM { runner, data_store }),
                Err(e) => Err(AVMError::RunnerError(e)),
            },
        }
    }

    /// What a call of the machine does, step by step. The store is asked
    /// for the data stored under `particle_id`. Where it reports a fault,
    /// that fault is handed back, no round is run and nothing is stored.
    /// Otherwise one round is run over the bytes that the store handed out,
    /// as previous data, and `data`, as current data. What is to be stored
    /// after it, see `data_to_store`, is handed to the store under the same
    /// `particle_id`, also where the round produced nothing. A fault of the
    /// store is handed back; otherwise what the round came to, see
    /// `handed_back`.
    pub open spec fn called(
        self,
        air: Result<Instruction, String>,
        data: Seq<u8>,
        init_user_id: Seq<u8>,
        particle_id: Seq<char>,
        call_results: CallResults,
        after: AVM<S>,
        called: Result<AVMOutcome, AVMError<S::Error>>,
    ) -> bool {
        exists|read_store: S, found: Result<Seq<u8>, S::Error>|
            {
                &&& #[trigger] read_from(self.data_store(), particle_id, read_store, found)
                &&& match found {
                    Err(fault) => {
                        &&& called matches Err(AVMError::DataStoreFault(e)) && e == fault
                        &&& after.data_store() == read_store
                        &&& after.runner() == self.runner()
                    },
                    Ok(prev_data) => self.ran(
                        air,
                        prev_data,
                        data,
                        init_user_id,
                        particle_id,
                        call_results,
                        read_store,
                        after,
                        called,
                    ),
                }
            }
    }

    /// The part of a call behind the reading: the round over `prev_data`,
    /// and the storing of what is to be stored, from the store as the
    /// reading left it.
    pub open spec fn ran(
        self,
        air: Result<Instruction, String>,
        prev_data: Seq<u8>,
        data: Seq<u8>,
        init_user_id: Seq<u8>,
        particle_id: Seq<char>,
        call_results: CallResults,
        read_store: S,
        after: AVM<S>,
        called: Result<AVMOutcome, AVMError<S::Error>>,
    ) -> bool {
        exists|parameters: RunParameters, ended: Result<RoundOutcome, RoundError>|
            {
                &&& self.runner().run_parameters(init_user_id, parameters)
                &&& #[trigger] round_ended(
                    prev_data,
                    data,
                    air,
                    Ok::<CallResults, CallResultsError>(call_results),
                    parameters,
                    self.runner().signatures()@,
                    self.runner().strict(),
                    ended,
                )
                &&& runner_after(self.runner(), ended, after.runner())
                &&& exists|fault: Option<S::Error>|
                    {
                        &&& #[trigger] stored_in(
                            read_store,
                            data_to_store(ended, prev_data),
                            particle_id,
                            after.data_store(),
                            fault,
                        )
                        &&& match fault {
                            Some(fault) => called matches Err(AVMError::DataStoreFault(e)) && e
                                == fault,
                            None => handed_back(ended, called),
                        }
                    }
            }
    }

    /// Runs one round of the script `air` for the script stored under
    /// `particle_id`: reads what the store holds of it, runs the round, and
    /// stores what is to be stored, also where the round produced nothing.
    pub fn call(
        &mut self,
        air: Result<Instruction, String>,
        data: Vec<u8>,
        init_user_id: Vec<u8>,
        particle_id: &str,
        call_results: CallResults,
    ) -> (called: Result<AVMOutcome, AVMError<S::Error>>)
        requires
            old(self).wf(),
        ensures
            final(self).wf(),
            old(self).called(
                air,
                data@,
                init_user_id@,
                particle_id@,
                call_results,
                *final(self),
                called,
            ),
    {
        let found = self.data_store.read_data(particle_id);
        let ghost read_store = self.data_store;
        let ghost found_bytes = bytes_of(found);
        let prev_data = match found {
            Ok(prev_data) => prev_data,
            Err(e) => {
                proof {
                    assert(read_from(old(self).data_store(), particle_id@, read_store, found_bytes));
                }
                return Err(AVMError::DataStoreFault(e));
            },
        };
        let ghost prev_bytes = prev_data@;
        let ghost runner_before = self.runner;
        let raw = self.runner.call(air, prev_data, data, init_user_id, call_results);
        let ghost (parameters, ended) = choose|
            parameters: RunParameters,
            ended: Result<RoundOutcome, RoundError>,
        |
            {
                &&& runner_before.run_parameters(init_user_id@, parameters)
                &&& #[trigger] round_ended(
                    prev_bytes,
                    data@,
                    air,
                    Ok::<CallResults, CallResultsError>(call_results),
                    parameters,
                    runner_before.signatures()@,
                    runner_before.strict(),
                    ended,
                )
                &&& raw_of(ended, prev_bytes, runner_before.signatures(), raw, self.runner.signatures())
            };
        let stored = self.data_store.store_data(raw.data.as_slice(), particle_id);
        let ghost fault = fault_of(stored);
        let called = match stored {
            Ok(_) => AVMOutcome::from_raw_outcome(raw),
            Err(e) => Err(AVMError::DataStoreFault(e)),
        };
        proof {
            let kept = self.data_store;
            assert(runner_after(runner_before, ended, self.runner));
            assert(raw.data@ == data_to_store(ended, prev_bytes));
            assert(stored_in(
                read_store,
                data_to_store(ended, prev_bytes),
                particle_id@,
                kept,
                fault,
            ));
            assert(fault is None ==> handed_back(ended, called));
            assert(fault matches Some(f) ==> called matches Err(AVMError::DataStoreFault(e)) && e
                == f);
            assert(exists|fault: Option<S::Error>|
                {
                    &&& #[trigger] stored_in(
                        read_store,
                        data_to_store(ended, prev_bytes),
                        particle_id@,
                        kept,
                        fault,
                    )
                    &&& match fault {
                        Some(fault) => called matches Err(AVMError::DataStoreFault(e)) && e
                            == fault,
                        None => handed_back(ended, called),
                    }
                });
            assert(round_ended(
                prev_bytes,
                data@,
                air,
                Ok::<CallResults, CallResultsError>(call_results),
                parameters,
                old(self).runner().signatures()@,
                old(self).runner().strict(),
                ended,
            ));
            assert(old(self).runner().run_parameters(init_user_id@, parameters));
            assert(runner_after(old(self).runner(), ended, self.runner()));
            assert(kept == self.data_store());
            assert(old(self).ran(
                air,
                prev_bytes,
                data@,
                init_user_id@,
                particle_id@,
                call_results,
                read_store,
                *self,
                called,
            ));
            assert(read_from(old(self).data_store(), particle_id@, read_store, found_bytes));
        }
        called
    }

    /// Removes what the store holds of the script stored under
    /// `particle_id`: the store is asked to forget that script, and what it
    /// reports is handed on, a fault as the store's fault. The runner stays
    /// as it is.
    pub fn cleanup_data(&mut self, particle_id: &str) -> (cleaned: Result<(), AVMError<S::Error>>)
        ensures
            final(self).runner() == old(self).runner(),
            match cleaned {
                Ok(_) => old(self).data_store().forgets(
                    particle_id@,
                    final(self).data_store(),
                    None,
                ),
                Err(AVMError::DataStoreFault(fault)) => old(self).data_store().forgets(
                    particle_id@,
                    final(self).data_store(),
                    Some(fault),
                ),
                Err(_) => false,
            },
    {
        match self.data_store.cleanup_data(particle_id) {
            Ok(nothing) => Ok(nothing),
            Err(e) => Err(AVMError::DataStoreFault(e)),
        }
    }
}

} // verus!
