//! One round from end to end: prepare, walk, and sign what was produced.

use vstd::prelude::*;
use crate::call_results::CallResults;
use crate::call_results::CallResultsError;
use crate::call_results::answers_of_read;
use crate::call_results::read_as;
use crate::call_results::read_call_results;
use crate::codec_laws::law_data_decides_encoding;
use crate::codec_laws::law_stored_data_reads_back;
use crate::data::decoded;
use crate::data::encoding;
use crate::data::DataView;
use crate::data::InterpreterData;
use crate::exec_ctx::CallRequest;
use crate::exec_ctx::CtxView;
use crate::exec_ctx::ExecutionError;
use crate::exec_ctx::ExecutionFault;
use crate::exec_ctx::RunParameters;
use crate::fold::scope_of;
use crate::instruction::Instruction;
use crate::interpreter::walk;
use crate::interpreter::walk_env;
use crate::interpreter::walk_state;
use crate::interpreter::walked;
use crate::interpreter::Flow;
use crate::interpreter::WalkView;
use crate::preparation::data_of;
use crate::preparation::initial_ctx;
use crate::preparation::parse_refused;
use crate::preparation::parses;
use crate::preparation::prepare_refused;
use crate::preparation::prepares;
use crate::preparation::parse_data;
use crate::preparation::prepare_with;
use crate::preparation::too_old;
use crate::preparation::PreparationDescriptor;
use crate::preparation::PreparationError;
use crate::signature::stored_as;
use crate::signature::KeyError;
use crate::signature::KeyPair;
use crate::signature::SignatureStore;
use crate::signature::Stored;
use crate::trace_handler::HandlerView;
use crate::version::data_format;
use crate::version::data_format_version;
use crate::version::Version;
use crate::version::Versions;

verus! {

/// The version of this interpreter.
pub open spec fn interpreter() -> Version {
    Version { major: 0, minor: 59, patch: 0 }
}

/// The version that this interpreter writes into the data it produces.
pub fn interpreter_version() -> (version: Version)
    ensures
        version == interpreter(),
{
    Version { major: 0, minor: 59, patch: 0 }
}

/// What a round hands back.
pub struct RoundOutcome {
    /// The interpreter data that the round produced, as bytes.
    pub data: Vec<u8>,
    /// How the walk of the script ended.
    pub flow: Flow,
    /// The requests that the host has to answer before the next round.
    pub call_requests: Vec<CallRequest>,
    /// The signature that this peer put under `data`.
    pub signature: Vec<u8>,
    /// Whether an earlier signature of this peer gave way to it.
    pub stored: Stored,
    /// The signature store with the signature in it.
    pub signature_store: SignatureStore,
}

/// Why a round produced nothing.
#[derive(Debug, PartialEq, Eq)]
pub enum RoundError {
    Preparation(PreparationError),
    Execution(ExecutionError),
    /// The script ended before the recorded trace did, and the caller asked
    /// for that to be reported.
    UnconsumedTrace { left: usize },
    Signing(KeyError),
}

/// Why a piece of data does not pass for signed.
#[derive(Clone, Copy, Debug, PartialEq, Eq, Structural)]
pub enum SignatureError {
    /// The peer has no signature in the store.
    NoSignature,
    /// The peer's key does not accept the stored signature for the data.
    Rejected,
}

/// The peer's key is one that signatures are checked against, and it takes
/// the signature that the store holds for the peer for good for the bytes
/// that `data` is stored as.
pub open spec fn passes_for_signed(
    data: InterpreterData,
    peer: Seq<u8>,
    signatures: Map<Seq<u8>, Seq<u8>>,
) -> bool {
    crate::signature::checks(peer) && crate::signature::signature_accepted(
        peer,
        encoding(data),
        signatures[peer],
    )
}

/// Checks that `peer`, named by its encoded public key, has signed `data`:
/// the data is encoded again, and the signature that the store holds for
/// the peer must be one that the peer's key accepts for those bytes. A key
/// that signatures are not checked against, see `checks`, accepts nothing.
pub fn verify_data(data: &InterpreterData, peer: &[u8], signature_store: &SignatureStore) -> (checked:
    Result<(), SignatureError>)
    requires
        signature_store.wf(),
    ensures
        match checked {
            Ok(_) => signature_store@.dom().contains(peer@) && passes_for_signed(
                *data,
                peer@,
                signature_store@,
            ),
            Err(SignatureError::NoSignature) => !signature_store@.dom().contains(peer@),
            Err(SignatureError::Rejected) => signature_store@.dom().contains(peer@)
                && !passes_for_signed(*data, peer@, signature_store@),
        },
{
    let signature = match signature_store.get(peer) {
        Some(signature) => signature,
        None => {
            return Err(SignatureError::NoSignature);
        },
    };
    let bytes = data.to_bytes();
    if crate::signature::verify(peer, bytes.as_slice(), signature.as_slice()) {
        Ok(())
    } else {
        Err(SignatureError::Rejected)
    }
}

/// `data` is the data that a walk produced: it holds the trace, the value
/// table and the request counter that the walk ended with, under the
/// versions of this interpreter.
pub open spec fn stands_for(data: InterpreterData, state: WalkView) -> bool {
    &&& data.wf()
    &&& data@ == (DataView {
        versions: Versions { interpreter_version: interpreter(), data_version: data_format() },
        trace: state.handler.current,
        cids: state.cids,
        last_call_request_id: state.last_call_request_id,
    })
}

/// How a round that was prepared must end. A fault of the walk is handed
/// on. Where the walk ended without one, recorded states that were never
/// read are reported if `strict` asks for it. Otherwise the data that the
/// walk produced is encoded and signed with the key of this peer: where the
/// key gives no signature that it takes for good itself the round ends with
/// `SigningFailed`, and where it does the round hands out the bytes, the
/// signature, and the signature store with the signature in it. The bytes
/// are those of the data and of nothing else, see
/// `law_data_decides_encoding`.
pub open spec fn produced(
    air: Instruction,
    handler: HandlerView,
    ctx: CtxView,
    keypair: KeyPair,
    strict: bool,
    ended: Result<RoundOutcome, RoundError>,
) -> bool {
    let done = walked(air, scope_of(ctx.folds), walk_env(ctx), walk_state(handler, ctx));
    let left = done.state.handler.previous.len() - done.state.handler.cursor;
    match ended {
        Err(RoundError::Execution(e)) => done.flow == Err::<Flow, ExecutionFault>(e@),
        Err(RoundError::UnconsumedTrace { left: unread }) => done.flow is Ok && strict && left > 0
            && unread == left,
        Err(RoundError::Signing(e)) => {
            &&& done.flow is Ok
            &&& !(strict && left > 0)
            &&& e == KeyError::SigningFailed
            &&& exists|data: InterpreterData| #[trigger]
                stands_for(data, done.state) && keypair.signs(encoding(data)) is None
        },
        Err(RoundError::Preparation(_)) => false,
        Ok(outcome) => {
            &&& done.flow == Ok::<Flow, ExecutionFault>(outcome.flow)
            &&& !(strict && left > 0)
            &&& exists|data: InterpreterData| #[trigger]
                stands_for(data, done.state) && outcome.data@ == encoding(data)
            &&& outcome.call_requests@ == done.state.requests
            &&& keypair.signs(outcome.data@) == Some(outcome.signature@)
            &&& outcome.stored == stored_as(ctx.signatures, keypair.public(), outcome.signature@)
            &&& outcome.signature_store@ == ctx.signatures.insert(
                keypair.public(),
                outcome.signature@,
            )
            &&& outcome.signature_store.wf()
        },
    }
}

/// Runs a round that was prepared. With `strict`, recorded states that the
/// script never came to are reported; without, they are dropped.
pub fn run_prepared(descriptor: PreparationDescriptor, strict: bool) -> (ended: Result<
    RoundOutcome,
    RoundError,
>)
    requires
        descriptor.exec_ctx.wf(),
        descriptor.trace_handler@.wf(),
    ensures
        produced(
            descriptor.air,
            descriptor.trace_handler@,
            descriptor.exec_ctx@,
            descriptor.keypair,
            strict,
            ended,
        ),
{
    let PreparationDescriptor { exec_ctx, trace_handler, air, keypair } = descriptor;
    let mut ctx = exec_ctx;
    let mut handler = trace_handler;
    let ghost done = walked(air, scope_of(ctx@.folds), walk_env(ctx@), walk_state(handler@, ctx@));
    let flow = match walk(&air, &mut handler, &mut ctx) {
        Ok(flow) => flow,
        Err(e) => {
            return Err(RoundError::Execution(e));
        },
    };
    let trace = match handler.finish(strict) {
        Ok(trace) => trace,
        Err(unread) => {
            return Err(RoundError::UnconsumedTrace { left: unread.left });
        },
    };
    let (cid_info, last_call_request_id, signature_store, call_requests) = ctx.into_parts();
    let data = InterpreterData {
        versions: Versions {
            interpreter_version: interpreter_version(),
            data_version: data_format_version(),
        },
        trace,
        cid_info,
        last_call_request_id,
    };
    let bytes = data.to_bytes();
    assert(stands_for(data, done.state));
    let signature = match keypair.sign(bytes.as_slice()) {
        Ok(signature) => signature,
        Err(e) => {
            return Err(RoundError::Signing(e));
        },
    };
    let mut signature_store = signature_store;
    let public_key = keypair.public_key();
    let stored = signature_store.put(public_key.as_slice(), signature.as_slice());
    Ok(RoundOutcome { data: bytes, flow, call_requests, signature, stored, signature_store })
}

/// How a round must end, given the script as it was parsed and the answers
/// as they were read. Data that does not read or is too old is reported
/// first, then whatever else stands in the way of the round, each with what
/// `parse_refused` and `prepare_refused` say of it, an error of the reading
/// as it came. Where nothing stands in the way, the round ends as
/// `produced` says of the walk from the previous trace.
pub open spec fn round_ended(
    prev_data: Seq<u8>,
    current_data: Seq<u8>,
    parsed_air: Result<Instruction, String>,
    call_results: Result<CallResults, CallResultsError>,
    run_parameters: RunParameters,
    signatures: Map<Seq<u8>, Seq<u8>>,
    strict: bool,
    ended: Result<RoundOutcome, RoundError>,
) -> bool {
    let answers = answers_of_read(call_results);
    if !parses(prev_data, current_data) {
        ended matches Err(RoundError::Preparation(error)) && parse_refused(
            prev_data,
            current_data,
            error,
        )
    } else if !prepares(
        data_of(prev_data).unwrap().cids,
        data_of(current_data).unwrap().cids,
        parsed_air,
        answers,
        run_parameters,
    ) {
        &&& ended matches Err(RoundError::Preparation(error))
        &&& prepare_refused(
            data_of(prev_data).unwrap().cids,
            data_of(current_data).unwrap().cids,
            parsed_air,
            answers,
            run_parameters,
            error,
        )
        &&& parsed_air is Ok ==> (error matches PreparationError::CallResultsDeFailed { reason }
            ==> call_results == Err::<CallResults, CallResultsError>(reason))
    } else {
        exists|keypair: KeyPair|
            {
                &&& keypair.wf()
                &&& crate::signature::KeyFormat::of_byte(run_parameters.key_format) == Some(
                    keypair.format(),
                )
                &&& keypair.secret() == run_parameters.secret_key_bytes@
                &&& #[trigger] produced(
                    parsed_air.unwrap(),
                    HandlerView {
                        previous: data_of(prev_data).unwrap().trace,
                        cursor: 0,
                        current: data_of(current_data).unwrap().trace,
                    },
                    initial_ctx(
                        data_of(prev_data).unwrap(),
                        data_of(current_data).unwrap(),
                        answers.unwrap(),
                        signatures,
                        run_parameters,
                    ),
                    keypair,
                    strict,
                    ended,
                )
            }
    }
}

/// One round over the script as it was parsed and the answers as they were
/// read: nothing is executed unless both pieces of data read, are recent
/// enough and agree, and the key is a key.
pub fn execute_round_with(
    prev_data: &[u8],
    current_data: &[u8],
    parsed_air: Result<Instruction, String>,
    call_results: Result<CallResults, CallResultsError>,
    run_parameters: RunParameters,
    signature_store: SignatureStore,
    strict: bool,
) -> (ended: Result<RoundOutcome, RoundError>)
    requires
        signature_store.wf(),
    ensures
        round_ended(
            prev_data@,
            current_data@,
            parsed_air,
            call_results,
            run_parameters,
            signature_store@,
            strict,
            ended,
        ),
{
    let pair = match parse_data(prev_data, current_data) {
        Ok(pair) => pair,
        Err(error) => {
            return Err(RoundError::Preparation(error));
        },
    };
    let descriptor = match prepare_with(
        pair.prev_data,
        pair.current_data,
        parsed_air,
        call_results,
        run_parameters,
        signature_store,
    ) {
        Ok(descriptor) => descriptor,
        Err(error) => {
            return Err(RoundError::Preparation(error));
        },
    };
    let ghost keypair = descriptor.keypair;
    let ended = run_prepared(descriptor, strict);
    proof {
        assert(produced(
            parsed_air.unwrap(),
            HandlerView {
                previous: data_of(prev_data@).unwrap().trace,
                cursor: 0,
                current: data_of(current_data@).unwrap().trace,
            },
            initial_ctx(
                data_of(prev_data@).unwrap(),
                data_of(current_data@).unwrap(),
                answers_of_read(call_results).unwrap(),
                signature_store@,
                run_parameters,
            ),
            keypair,
            strict,
            ended,
        ));
    }
    ended
}

/// One round, from the bytes that the host hands over. The answers of the
/// host are read from their bytes, and the round ends as `round_ended` says
/// for what the bytes hold.
pub fn execute_round(
    prev_data: &[u8],
    current_data: &[u8],
    parsed_air: Result<Instruction, String>,
    call_results: &[u8],
    run_parameters: RunParameters,
    signature_store: SignatureStore,
    strict: bool,
) -> (ended: Result<RoundOutcome, RoundError>)
    requires
        signature_store.wf(),
    ensures
        exists|read: Result<CallResults, CallResultsError>|
            read_as(call_results@, read) && #[trigger] round_ended(
                prev_data@,
                current_data@,
                parsed_air,
                read,
                run_parameters,
                signature_store@,
                strict,
                ended,
            ),
{
    let read = read_call_results(call_results);
    execute_round_with(
        prev_data,
        current_data,
        parsed_air,
        read,
        run_parameters,
        signature_store,
        strict,
    )
}

/// Signing, then checking. A round produced data and signed it; whoever
/// reads the produced bytes back as data finds that the data passes for
/// signed by the peer that ran the round, under the signature store that
/// the round handed out, wherever signatures are checked against the
/// peer's key.
pub proof fn law_signed_data_passes(
    air: Instruction,
    handler: HandlerView,
    ctx: CtxView,
    keypair: KeyPair,
    strict: bool,
    outcome: RoundOutcome,
    read: InterpreterData,
)
    requires
        produced(air, handler, ctx, keypair, strict, Ok::<RoundOutcome, RoundError>(outcome)),
        read.wf(),
        decoded(outcome.data@) == Some(read@),
        crate::signature::checks(keypair.public()),
    ensures
        outcome.signature_store@.dom().contains(keypair.public()),
        passes_for_signed(read, keypair.public(), outcome.signature_store@),
{
    let done = walked(air, scope_of(ctx.folds), walk_env(ctx), walk_state(handler, ctx));
    let written = choose|data: InterpreterData|
        stands_for(data, done.state) && outcome.data@ == encoding(data);
    law_stored_data_reads_back(written);
    law_data_decides_encoding(read, written);
}

/// The version gate: where the previous round's data was written by an
/// interpreter older than the oldest supported one, the round ends with
/// `UnsupportedInterpreterVersion` and with nothing else: no data, no
/// requests, no signature.
pub proof fn law_version_gate(
    prev_data: Seq<u8>,
    current_data: Seq<u8>,
    parsed_air: Result<Instruction, String>,
    call_results: Result<CallResults, CallResultsError>,
    run_parameters: RunParameters,
    signatures: Map<Seq<u8>, Seq<u8>>,
    strict: bool,
    ended: Result<RoundOutcome, RoundError>,
)
    requires
        too_old(prev_data),
        data_of(current_data) is Some,
        round_ended(
            prev_data,
            current_data,
            parsed_air,
            call_results,
            run_parameters,
            signatures,
            strict,
            ended,
        ),
    ensures
        ended matches Err(
            RoundError::Preparation(PreparationError::UnsupportedInterpreterVersion { .. }),
        ),
{
}

/// The start without history: no bytes at all stand for data with an empty
/// trace, an empty value table and no request given out, written by the
/// oldest supported interpreter; and a round over no bytes ends as a round
/// over any bytes that stand for the same data.
pub proof fn law_empty_history(
    first_ever: Seq<u8>,
    current_data: Seq<u8>,
    parsed_air: Result<Instruction, String>,
    call_results: Result<CallResults, CallResultsError>,
    run_parameters: RunParameters,
    signatures: Map<Seq<u8>, Seq<u8>>,
    strict: bool,
    ended: Result<RoundOutcome, RoundError>,
)
    requires
        data_of(first_ever) == data_of(Seq::<u8>::empty()),
    ensures
        data_of(Seq::<u8>::empty()) matches Some(data) && data.trace.len() == 0
            && data.versions.interpreter_version == crate::version::min_supported() && data.cids
            == Map::<Seq<u8>, Seq<u8>>::empty() && data.last_call_request_id == 0,
        round_ended(
            Seq::<u8>::empty(),
            current_data,
            parsed_air,
            call_results,
            run_parameters,
            signatures,
            strict,
            ended,
        ) == round_ended(
            first_ever,
            current_data,
            parsed_air,
            call_results,
            run_parameters,
            signatures,
            strict,
            ended,
        ),
{
}

} // verus!
