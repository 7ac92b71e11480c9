//! The preparation of a round: reading the data of the previous round and
//! of the current one, checking their versions, and building what the walk
//! needs.

use vstd::prelude::*;
use crate::bytes::copy_bytes;
use crate::call_results::answers_of_read;
use crate::call_results::answers_read;
use crate::call_results::read_call_results;
use crate::call_results::law_one_reason;
use crate::call_results::unreadable_as;
use crate::call_results::CallServiceResultView;
use crate::call_results::CallResults;
use crate::call_results::CallResultsError;
use crate::cid::first_clash;
use crate::cid::law_one_first_clash;
use crate::cid::tables_agree;
use crate::data::decoded;
use crate::data::empty_data;
use crate::data::recorded_versions;
use crate::data::DataView;
use crate::data::InterpreterData;
use crate::exec_ctx::CtxView;
use crate::exec_ctx::ExecCtxIngredients;
use crate::exec_ctx::ExecutionCtx;
use crate::exec_ctx::RunParameters;
use crate::instruction::Instruction;
use crate::signature::usable_key;
use crate::signature::KeyError;
use crate::signature::KeyFormat;
use crate::signature::KeyPair;
use crate::signature::SignatureStore;
use crate::trace_handler::HandlerView;
use crate::trace_handler::TraceHandler;
use crate::version::min_supported;
use crate::version::min_supported_version;
use crate::version::Version;
use crate::version::Versions;

verus! {

/// Why a round could not be prepared.
#[derive(Debug, PartialEq, Eq)]
pub enum PreparationError {
    /// The script did not parse.
    AIRParseError { message: String },
    /// The bytes are no interpreter data; `versions` are those that the
    /// bytes start with, where they are long enough to tell.
    DataDeFailed { data: Vec<u8>, versions: Option<Versions> },
    /// The data was written by an interpreter older than the oldest one
    /// that is still supported.
    UnsupportedInterpreterVersion { actual_version: Version, required_version: Version },
    /// The answers of the host could not be read.
    CallResultsDeFailed { reason: CallResultsError },
    /// The value tables of the previous and the current data give different
    /// values to one identifier.
    CidCollision { cid: Vec<u8> },
    /// The key material is no key.
    KeyError { error: KeyError },
}

/// What the walk of a round needs.
pub struct PreparationDescriptor {
    pub exec_ctx: ExecutionCtx,
    pub trace_handler: TraceHandler,
    pub air: Instruction,
    pub keypair: KeyPair,
}

/// The data of the previous round and of the current one.
#[derive(Debug)]
pub struct ParsedDataPair {
    pub prev_data: InterpreterData,
    pub current_data: InterpreterData,
}

/// The data that stored bytes stand for: no bytes at all stand for the data
/// of a script without history, written by the oldest supported
/// interpreter.
pub open spec fn data_of(raw: Seq<u8>) -> Option<DataView> {
    if raw.len() == 0 {
        Some(empty_data(min_supported()))
    } else {
        decoded(raw)
    }
}

/// The error that reports `raw_data` as unreadable, with the versions that
/// can still be made out.
pub fn to_data_de_error(raw_data: Vec<u8>) -> (error: PreparationError)
    ensures
        error matches PreparationError::DataDeFailed { data, versions } && data@ == raw_data@
            && versions == recorded_versions(raw_data@),
{
    let versions = InterpreterData::try_get_versions(raw_data.as_slice());
    PreparationError::DataDeFailed { data: raw_data, versions }
}

/// Reads stored bytes as interpreter data.
pub fn try_to_data(raw_data: &[u8]) -> (read: Result<InterpreterData, PreparationError>)
    ensures
        match read {
            Ok(data) => data_of(raw_data@) == Some(data@) && data.wf(),
            Err(PreparationError::DataDeFailed { data, versions }) => data_of(raw_data@) is None
                && data@ == raw_data@ && versions == recorded_versions(raw_data@),
            Err(_) => false,
        },
{
    if raw_data.len() == 0 {
        return Ok(InterpreterData::new(min_supported_version()));
    }
    match InterpreterData::try_from_slice(raw_data) {
        Some(data) => Ok(data),
        None => Err(to_data_de_error(copy_bytes(raw_data))),
    }
}

/// Refuses data that an interpreter older than the oldest supported one
/// wrote.
pub fn check_version_compatibility(data: &InterpreterData) -> (checked: Result<
    (),
    PreparationError,
>)
    ensures
        match checked {
            Ok(()) => !data.versions.interpreter_version.precedes(min_supported()),
            Err(
                PreparationError::UnsupportedInterpreterVersion { actual_version, required_version },
            ) => data.versions.interpreter_version.precedes(min_supported()) && actual_version
                == data.versions.interpreter_version && required_version == min_supported(),
            Err(_) => false,
        },
{
    let required = min_supported_version();
    if data.versions.interpreter_version.is_older_than(&required) {
        return Err(
            PreparationError::UnsupportedInterpreterVersion {
                actual_version: data.versions.interpreter_version,
                required_version: required,
            },
        );
    }
    Ok(())
}

/// Whether the data that `raw` stands for is too old to be read.
pub open spec fn too_old(raw: Seq<u8>) -> bool {
    data_of(raw) matches Some(data) && data.versions.interpreter_version.precedes(min_supported())
}

/// Both pieces of data read, and neither is too old.
pub open spec fn parses(prev_data: Seq<u8>, current_data: Seq<u8>) -> bool {
    &&& data_of(prev_data) is Some
    &&& data_of(current_data) is Some
    &&& !too_old(prev_data)
    &&& !too_old(current_data)
}

/// `error` says why the two pieces of data are refused: the first of them
/// that does not read, with its bytes and the versions that can still be
/// made out; or, where both read, the first that is too old, with its
/// version and the oldest supported one.
pub open spec fn parse_refused(
    prev_data: Seq<u8>,
    current_data: Seq<u8>,
    error: PreparationError,
) -> bool {
    if data_of(prev_data) is None || data_of(current_data) is None {
        let unread = if data_of(prev_data) is None {
            prev_data
        } else {
            current_data
        };
        &&& error matches PreparationError::DataDeFailed { data, versions }
        &&& data@ == unread
        &&& versions == recorded_versions(unread)
    } else if too_old(prev_data) || too_old(current_data) {
        let old = if too_old(prev_data) {
            prev_data
        } else {
            current_data
        };
        &&& error matches PreparationError::UnsupportedInterpreterVersion {
            actual_version,
            required_version,
        }
        &&& actual_version == data_of(old).unwrap().versions.interpreter_version
        &&& required_version == min_supported()
    } else {
        false
    }
}

/// Reads the data of the previous round and of the current one, and checks
/// the versions of both. Of two faults the one in the previous data is
/// reported, and an unreadable piece before a version that is too old.
pub fn parse_data(prev_data: &[u8], current_data: &[u8]) -> (parsed: Result<
    ParsedDataPair,
    PreparationError,
>)
    ensures
        match parsed {
            Ok(pair) => {
                &&& parses(prev_data@, current_data@)
                &&& data_of(prev_data@) == Some(pair.prev_data@)
                &&& data_of(current_data@) == Some(pair.current_data@)
                &&& pair.prev_data.wf()
                &&& pair.current_data.wf()
            },
            Err(error) => parse_refused(prev_data@, current_data@, error),
        },
{
    let prev_data = match try_to_data(prev_data) {
        Ok(data) => data,
        Err(error) => {
            return Err(error);
        },
    };
    let current_data = match try_to_data(current_data) {
        Ok(data) => data,
        Err(error) => {
            return Err(error);
        },
    };
    match check_version_compatibility(&prev_data) {
        Ok(()) => {},
        Err(error) => {
            return Err(error);
        },
    }
    match check_version_compatibility(&current_data) {
        Ok(()) => {},
        Err(error) => {
            return Err(error);
        },
    }
    Ok(ParsedDataPair { prev_data, current_data })
}

/// The context that a round starts with.
pub open spec fn initial_ctx(
    prev_data: DataView,
    current_data: DataView,
    answers: Map<u32, CallServiceResultView>,
    signatures: Map<Seq<u8>, Seq<u8>>,
    run_parameters: RunParameters,
) -> CtxView {
    CtxView {
        peer: run_parameters.current_peer_id@,
        last_call_request_id: prev_data.last_call_request_id,
        answers,
        cids: prev_data.cids.union_prefer_right(current_data.cids),
        signatures,
        folds: Seq::empty(),
        requests: Seq::empty(),
    }
}

/// The public key of the key that the run parameters name, or `None` where
/// they name no key that can be used.
pub open spec fn key_of(run_parameters: RunParameters) -> Option<Seq<u8>> {
    match KeyFormat::of_byte(run_parameters.key_format) {
        Some(format) => usable_key(format.byte(), run_parameters.secret_key_bytes@),
        None => None,
    }
}

/// Nothing stands in the way of a round: the script parsed, the answers
/// were read, the value tables agree, and the key is a key.
pub open spec fn prepares(
    prev_cids: Map<Seq<u8>, Seq<u8>>,
    current_cids: Map<Seq<u8>, Seq<u8>>,
    parsed_air: Result<Instruction, String>,
    answers: Option<Map<u32, CallServiceResultView>>,
    run_parameters: RunParameters,
) -> bool {
    &&& parsed_air is Ok
    &&& answers is Some
    &&& tables_agree(prev_cids, current_cids)
    &&& key_of(run_parameters) is Some
}

/// `error` says why a round cannot be prepared. The faults are looked for
/// in this order: the script, the answers, the value tables, the key; the
/// first that is found is reported, the script's with the parser's message,
/// the tables' with the first identifier that they give two values to, the
/// key's with what is wrong with it.
pub open spec fn prepare_refused(
    prev_cids: Map<Seq<u8>, Seq<u8>>,
    current_cids: Map<Seq<u8>, Seq<u8>>,
    parsed_air: Result<Instruction, String>,
    answers: Option<Map<u32, CallServiceResultView>>,
    run_parameters: RunParameters,
    error: PreparationError,
) -> bool {
    if parsed_air is Err {
        error matches PreparationError::AIRParseError { message } && parsed_air == Err::<
            Instruction,
            String,
        >(message)
    } else if answers is None {
        error is CallResultsDeFailed
    } else if !tables_agree(prev_cids, current_cids) {
        error matches PreparationError::CidCollision { cid } && first_clash(
            prev_cids,
            current_cids,
            cid@,
        )
    } else if key_of(run_parameters) is None {
        error == (PreparationError::KeyError {
            error: if KeyFormat::of_byte(run_parameters.key_format) is None {
                KeyError::InvalidKeyFormat { byte: run_parameters.key_format }
            } else {
                KeyError::InvalidSecretKey
            },
        })
    } else {
        false
    }
}

/// The context that is made from ingredients: that of a round that starts
/// from data with these request counters and value tables.
pub open spec fn ctx_made(
    prev_ingredients: ExecCtxIngredients,
    current_ingredients: ExecCtxIngredients,
    answers: Map<u32, CallServiceResultView>,
    signatures: Map<Seq<u8>, Seq<u8>>,
    run_parameters: RunParameters,
) -> CtxView {
    CtxView {
        peer: run_parameters.current_peer_id@,
        last_call_request_id: prev_ingredients.last_call_request_id,
        answers,
        cids: prev_ingredients.cid_info@.union_prefer_right(current_ingredients.cid_info@),
        signatures,
        folds: Seq::empty(),
        requests: Seq::empty(),
    }
}

/// `error` says why no context is made: the answers were not read, or,
/// where they were, the value tables give two values to an identifier, the
/// first of which is reported.
pub open spec fn ctx_refused(
    prev_ingredients: ExecCtxIngredients,
    current_ingredients: ExecCtxIngredients,
    answers: Option<Map<u32, CallServiceResultView>>,
    error: PreparationError,
) -> bool {
    if answers is None {
        error is CallResultsDeFailed
    } else {
        error matches PreparationError::CidCollision { cid } && first_clash(
            prev_ingredients.cid_info@,
            current_ingredients.cid_info@,
            cid@,
        )
    }
}

/// Builds the execution context from the answers as they were read: where
/// they were not read, the error of the reading is handed on as it is.
pub fn exec_ctx_from(
    prev_ingredients: ExecCtxIngredients,
    current_ingredients: ExecCtxIngredients,
    call_results: Result<CallResults, CallResultsError>,
    signature_store: SignatureStore,
    run_parameters: &RunParameters,
) -> (made: Result<ExecutionCtx, PreparationError>)
    requires
        prev_ingredients.cid_info.wf(),
        current_ingredients.cid_info.wf(),
        signature_store.wf(),
    ensures
        match made {
            Ok(ctx) => {
                &&& call_results matches Ok(answers)
                &&& tables_agree(prev_ingredients.cid_info@, current_ingredients.cid_info@)
                &&& ctx.wf()
                &&& ctx@ == ctx_made(
                    prev_ingredients,
                    current_ingredients,
                    answers@,
                    signature_store@,
                    *run_parameters,
                )
            },
            Err(error) => {
                &&& ctx_refused(
                    prev_ingredients,
                    current_ingredients,
                    answers_of_read(call_results),
                    error,
                )
                &&& error matches PreparationError::CallResultsDeFailed { reason } ==> call_results
                    == Err::<CallResults, CallResultsError>(reason)
            },
        },
{
    let answers = match call_results {
        Ok(answers) => answers,
        Err(error) => {
            return Err(PreparationError::CallResultsDeFailed { reason: error });
        },
    };
    match ExecutionCtx::new(
        prev_ingredients,
        current_ingredients,
        answers,
        signature_store,
        run_parameters,
    ) {
        Ok(ctx) => Ok(ctx),
        Err(clash) => Err(PreparationError::CidCollision { cid: clash.cid }),
    }
}

/// Reads the answers of the host and builds the execution context. The
/// context holds the answers that the bytes hold, each under the request
/// identifier that its key writes. Bytes that hold no answers are reported
/// before value tables that disagree.
pub fn make_exec_ctx(
    prev_ingredients: ExecCtxIngredients,
    current_ingredients: ExecCtxIngredients,
    call_results: &[u8],
    signature_store: SignatureStore,
    run_parameters: &RunParameters,
) -> (made: Result<ExecutionCtx, PreparationError>)
    requires
        prev_ingredients.cid_info.wf(),
        current_ingredients.cid_info.wf(),
        signature_store.wf(),
    ensures
        match made {
            Ok(ctx) => {
                &&& answers_read(call_results@) matches Some(answers)
                &&& tables_agree(prev_ingredients.cid_info@, current_ingredients.cid_info@)
                &&& ctx.wf()
                &&& ctx@ == ctx_made(
                    prev_ingredients,
                    current_ingredients,
                    answers,
                    signature_store@,
                    *run_parameters,
                )
            },
            Err(error) => {
                &&& ctx_refused(
                    prev_ingredients,
                    current_ingredients,
                    answers_read(call_results@),
                    error,
                )
                &&& error matches PreparationError::CallResultsDeFailed { reason } ==> unreadable_as(
                    call_results@,
                    reason,
                )
            },
        },
{
    let read = read_call_results(call_results);
    exec_ctx_from(prev_ingredients, current_ingredients, read, signature_store, run_parameters)
}

/// What is handed to the walk of a round that is given the answers
/// `answers`.
pub open spec fn prepared(
    descriptor: PreparationDescriptor,
    prev_data: InterpreterData,
    current_data: InterpreterData,
    air: Instruction,
    answers: Map<u32, CallServiceResultView>,
    run_parameters: RunParameters,
    signature_store: SignatureStore,
) -> bool {
    &&& descriptor.exec_ctx.wf()
    &&& descriptor.exec_ctx@ == initial_ctx(
        prev_data@,
        current_data@,
        answers,
        signature_store@,
        run_parameters,
    )
    &&& descriptor.trace_handler@ == (HandlerView {
        previous: prev_data@.trace,
        cursor: 0,
        current: current_data@.trace,
    })
    &&& descriptor.air == air
    &&& descriptor.keypair.wf()
    &&& KeyFormat::of_byte(run_parameters.key_format) == Some(descriptor.keypair.format())
    &&& descriptor.keypair.secret() == run_parameters.secret_key_bytes@
}

/// Prepares a round from the script as it was parsed and the answers as
/// they were read. The faults are looked for in this order: the script, the
/// answers, the value tables, the key. Where the answers were not read, the
/// error of the reading is handed on as it is.
pub fn prepare_with(
    prev_data: InterpreterData,
    current_data: InterpreterData,
    parsed_air: Result<Instruction, String>,
    call_results: Result<CallResults, CallResultsError>,
    run_parameters: RunParameters,
    signature_store: SignatureStore,
) -> (made: Result<PreparationDescriptor, PreparationError>)
    requires
        prev_data.wf(),
        current_data.wf(),
        signature_store.wf(),
    ensures
        match made {
            Ok(descriptor) => {
                &&& prepares(
                    prev_data@.cids,
                    current_data@.cids,
                    parsed_air,
                    answers_of_read(call_results),
                    run_parameters,
                )
                &&& prepared(
                    descriptor,
                    prev_data,
                    current_data,
                    parsed_air.unwrap(),
                    answers_of_read(call_results).unwrap(),
                    run_parameters,
                    signature_store,
                )
            },
            Err(error) => {
                &&& prepare_refused(
                    prev_data@.cids,
                    current_data@.cids,
                    parsed_air,
                    answers_of_read(call_results),
                    run_parameters,
                    error,
                )
                &&& parsed_air is Ok ==> (error matches PreparationError::CallResultsDeFailed {
                    reason,
                } ==> call_results == Err::<CallResults, CallResultsError>(reason))
            },
        },
{
    let air = match parsed_air {
        Ok(air) => air,
        Err(message) => {
            return Err(PreparationError::AIRParseError { message });
        },
    };
    let prev_ingredients = ExecCtxIngredients {
        last_call_request_id: prev_data.last_call_request_id,
        cid_info: prev_data.cid_info,
    };
    let current_ingredients = ExecCtxIngredients {
        last_call_request_id: current_data.last_call_request_id,
        cid_info: current_data.cid_info,
    };
    let exec_ctx = match exec_ctx_from(
        prev_ingredients,
        current_ingredients,
        call_results,
        signature_store,
        &run_parameters,
    ) {
        Ok(ctx) => ctx,
        Err(error) => {
            return Err(error);
        },
    };
    let trace_handler = TraceHandler::from_trace(prev_data.trace, current_data.trace);
    let key_format = match KeyFormat::try_from_byte(run_parameters.key_format) {
        Ok(format) => format,
        Err(error) => {
            return Err(PreparationError::KeyError { error });
        },
    };
    let keypair = match KeyPair::from_secret_key(run_parameters.secret_key_bytes, key_format) {
        Ok(pair) => pair,
        Err(error) => {
            return Err(PreparationError::KeyError { error });
        },
    };
    Ok(PreparationDescriptor { exec_ctx, trace_handler, air, keypair })
}

/// How a preparation must end: with what `prepared` says is handed to the
/// walk where nothing stands in the way, and else with the error that
/// `prepare_refused` and, for answers that were not read, `unreadable_as`
/// say.
pub open spec fn prepare_ended(
    prev_data: InterpreterData,
    current_data: InterpreterData,
    parsed_air: Result<Instruction, String>,
    call_results: Seq<u8>,
    run_parameters: RunParameters,
    signature_store: SignatureStore,
    made: Result<PreparationDescriptor, PreparationError>,
) -> bool {
    match made {
        Ok(descriptor) => {
            &&& prepares(
                prev_data@.cids,
                current_data@.cids,
                parsed_air,
                answers_read(call_results),
                run_parameters,
            )
            &&& prepared(
                descriptor,
                prev_data,
                current_data,
                parsed_air.unwrap(),
                answers_read(call_results).unwrap(),
                run_parameters,
                signature_store,
            )
        },
        Err(error) => {
            &&& prepare_refused(
                prev_data@.cids,
                current_data@.cids,
                parsed_air,
                answers_read(call_results),
                run_parameters,
                error,
            )
            &&& parsed_air is Ok ==> (error matches PreparationError::CallResultsDeFailed {
                reason,
            } ==> unreadable_as(call_results, reason))
        },
    }
}

/// Prepares a round: reads the answers of the host and prepares the round
/// with them. The answers are those that the bytes hold, each under the
/// request identifier that its key writes; bytes that hold no answers are
/// reported behind a script that did not parse and before everything else.
pub fn prepare(
    prev_data: InterpreterData,
    current_data: InterpreterData,
    parsed_air: Result<Instruction, String>,
    call_results: &[u8],
    run_parameters: RunParameters,
    signature_store: SignatureStore,
) -> (made: Result<PreparationDescriptor, PreparationError>)
    requires
        prev_data.wf(),
        current_data.wf(),
        signature_store.wf(),
    ensures
        prepare_ended(
            prev_data,
            current_data,
            parsed_air,
            call_results@,
            run_parameters,
            signature_store,
            made,
        ),
{
    let read = read_call_results(call_results);
    prepare_with(prev_data, current_data, parsed_air, read, run_parameters, signature_store)
}

/// Two errors of a preparation say the same: they are of one kind and
/// carry the same message, the same bytes or the same identifier.
pub open spec fn same_refusal(one: PreparationError, other: PreparationError) -> bool {
    match (one, other) {
        (
            PreparationError::AIRParseError { message: first },
            PreparationError::AIRParseError { message: second },
        ) => first == second,
        (
            PreparationError::CallResultsDeFailed {
                reason: CallResultsError::Undecodable { call_results: first },
            },
            PreparationError::CallResultsDeFailed {
                reason: CallResultsError::Undecodable { call_results: second },
            },
        ) => first@ == second@,
        (
            PreparationError::CallResultsDeFailed {
                reason: CallResultsError::MalformedRequestId { key: first },
            },
            PreparationError::CallResultsDeFailed {
                reason: CallResultsError::MalformedRequestId { key: second },
            },
        ) => first@ == second@,
        (
            PreparationError::CidCollision { cid: first },
            PreparationError::CidCollision { cid: second },
        ) => first@ == second@,
        (
            PreparationError::KeyError { error: first },
            PreparationError::KeyError { error: second },
        ) => first == second,
        _ => false,
    }
}

/// A preparation is a function of what it is given. Two preparations of
/// the same data, the same script, the same bytes of answers, the same run
/// parameters and the same signatures that both succeed hand the same
/// context, the same traces, the same script and the same key to the walk;
/// two that both fail report the same error.
pub proof fn law_preparation_is_repeatable(
    prev_data: InterpreterData,
    current_data: InterpreterData,
    parsed_air: Result<Instruction, String>,
    call_results: Seq<u8>,
    run_parameters: RunParameters,
    signature_store: SignatureStore,
    one: Result<PreparationDescriptor, PreparationError>,
    other: Result<PreparationDescriptor, PreparationError>,
)
    requires
        prepare_ended(
            prev_data,
            current_data,
            parsed_air,
            call_results,
            run_parameters,
            signature_store,
            one,
        ),
        prepare_ended(
            prev_data,
            current_data,
            parsed_air,
            call_results,
            run_parameters,
            signature_store,
            other,
        ),
    ensures
        one is Ok <==> other is Ok,
        one matches Ok(first) ==> other matches Ok(second) && {
            &&& first.exec_ctx@ == second.exec_ctx@
            &&& first.trace_handler@ == second.trace_handler@
            &&& first.air == second.air
            &&& first.keypair.format() == second.keypair.format()
            &&& first.keypair.secret() == second.keypair.secret()
            &&& first.keypair.public() == second.keypair.public()
        },
        one matches Err(first) ==> other matches Err(second) && same_refusal(first, second),
{
    match (one, other) {
        (Err(first), Err(second)) => {
            if parsed_air is Ok {
                if answers_read(call_results) is None {
                    law_one_reason(
                        call_results,
                        first->CallResultsDeFailed_reason,
                        second->CallResultsDeFailed_reason,
                    );
                } else if !tables_agree(prev_data@.cids, current_data@.cids) {
                    law_one_first_clash(
                        prev_data@.cids,
                        current_data@.cids,
                        first->CidCollision_cid@,
                        second->CidCollision_cid@,
                    );
                }
            }
        },
        _ => {},
    }
}

} // verus!
