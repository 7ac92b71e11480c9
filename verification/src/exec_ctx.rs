//! The execution context: what one round carries through its walk.

use vstd::prelude::*;
use crate::call_results::CallResults;
use crate::call_results::CallServiceResult;
use crate::call_results::CallServiceResultView;
use crate::cid::CidCollision;
use crate::cid::CidTable;
use crate::cid::content_hash;
use crate::cid::first_clash;
use crate::cid::tables_agree;
use crate::fold::FoldStack;
use crate::fold::FoldState;
use crate::signature::SignatureStore;

verus! {

/// What the host hands over with every round.
#[derive(Debug, PartialEq, Eq)]
pub struct RunParameters {
    /// The peer that started the script.
    pub init_peer_id: Vec<u8>,
    /// The peer that runs this round.
    pub current_peer_id: Vec<u8>,
    /// When the script was started, in milliseconds.
    pub timestamp: u64,
    /// How long the script may live, in milliseconds.
    pub ttl: u32,
    /// The byte that selects the format of the secret key.
    pub key_format: u8,
    /// The secret key of the peer that runs this round.
    pub secret_key_bytes: Vec<u8>,
}

/// What a piece of interpreter data contributes to the context.
#[derive(Debug)]
pub struct ExecCtxIngredients {
    pub last_call_request_id: u32,
    pub cid_info: CidTable,
}

/// A request that the host has to answer before the script can go on.
#[derive(Clone, Copy, Debug, PartialEq, Eq, Structural)]
pub struct CallRequest {
    pub request_id: u32,
    pub node: u32,
}

/// Why a round was broken off.
#[derive(Debug, PartialEq, Eq)]
pub enum ExecutionError {
    /// Every request identifier has been given out.
    RequestIdsExhausted,
    /// Another value already holds the identifier `cid`.
    CidCollision { cid: Vec<u8> },
    /// The state recorded at `cursor` stands for the same place as the
    /// operation that met it, and for something else.
    TraceMismatch { cursor: usize },
    /// The state at `index` of the current trace is no fold.
    NotAFold { index: usize },
}

/// A fault in terms of what its bytes stand for.
pub enum ExecutionFault {
    RequestIdsExhausted,
    CidCollision { cid: Seq<u8> },
    TraceMismatch { cursor: usize },
    NotAFold { index: usize },
}

impl View for ExecutionError {
    type V = ExecutionFault;

    open spec fn view(&self) -> ExecutionFault {
        match *self {
            ExecutionError::RequestIdsExhausted => ExecutionFault::RequestIdsExhausted,
            ExecutionError::CidCollision { cid } => ExecutionFault::CidCollision { cid: cid@ },
            ExecutionError::TraceMismatch { cursor } => ExecutionFault::TraceMismatch { cursor },
            ExecutionError::NotAFold { index } => ExecutionFault::NotAFold { index },
        }
    }
}

/// The context in terms of what its parts stand for.
pub struct CtxView {
    pub peer: Seq<u8>,
    pub last_call_request_id: u32,
    pub answers: Map<u32, CallServiceResultView>,
    pub cids: Map<Seq<u8>, Seq<u8>>,
    pub signatures: Map<Seq<u8>, Seq<u8>>,
    pub folds: Seq<FoldState>,
    pub requests: Seq<CallRequest>,
}

/// What one round carries through its walk: the peer, the request counter,
/// the answers of the host, the value table, the signatures, the folds that
/// are open, and the requests that wait for an answer.
pub struct ExecutionCtx {
    current_peer_id: Vec<u8>,
    last_call_request_id: u32,
    call_results: CallResults,
    cid_table: CidTable,
    signature_store: SignatureStore,
    folds: FoldStack,
    call_requests: Vec<CallRequest>,
}

impl View for ExecutionCtx {
    type V = CtxView;

    closed spec fn view(&self) -> CtxView {
        CtxView {
            peer: self.current_peer_id@,
            last_call_request_id: self.last_call_request_id,
            answers: self.call_results@,
            cids: self.cid_table@,
            signatures: self.signature_store@,
            folds: self.folds@,
            requests: self.call_requests@,
        }
    }
}

impl ExecutionCtx {
    /// The tables inside hold no key twice.
    pub closed spec fn wf(&self) -> bool {
        self.cid_table.wf() && self.signature_store.wf()
    }

    /// Builds the context of a round. The request counter goes on from the
    /// one of the previous round; the value tables of the previous and the
    /// current data are joined, and must agree where both hold an
    /// identifier.
    pub fn new(
        prev_ingredients: ExecCtxIngredients,
        current_ingredients: ExecCtxIngredients,
        call_results: CallResults,
        signature_store: SignatureStore,
        run_parameters: &RunParameters,
    ) -> (ctx: Result<ExecutionCtx, CidCollision>)
        requires
            prev_ingredients.cid_info.wf(),
            current_ingredients.cid_info.wf(),
            signature_store.wf(),
        ensures
            match ctx {
                Ok(ctx) => {
                    &&& tables_agree(prev_ingredients.cid_info@, current_ingredients.cid_info@)
                    &&& ctx.wf()
                    &&& ctx@ == (CtxView {
                        peer: run_parameters.current_peer_id@,
                        last_call_request_id: prev_ingredients.last_call_request_id,
                        answers: call_results@,
                        cids: prev_ingredients.cid_info@.union_prefer_right(
                            current_ingredients.cid_info@,
                        ),
                        signatures: signature_store@,
                        folds: Seq::empty(),
                        requests: Seq::empty(),
                    })
                },
                Err(clash) => first_clash(
                    prev_ingredients.cid_info@,
                    current_ingredients.cid_info@,
                    clash.cid@,
                ),
            },
    {
        let cid_table = match CidTable::merge(prev_ingredients.cid_info, &current_ingredients.cid_info) {
            Ok(table) => table,
            Err(e) => {
                return Err(e);
            },
        };
        Ok(
            ExecutionCtx {
                current_peer_id: run_parameters.current_peer_id.clone(),
                last_call_request_id: prev_ingredients.last_call_request_id,
                call_results,
                cid_table,
                signature_store,
                folds: FoldStack::new(),
                call_requests: Vec::new(),
            },
        )
    }

    /// Gives out the next request identifier: one more than the last.
    pub fn next_request_id(&mut self) -> (id: Result<u32, ExecutionError>)
        ensures
            match id {
                Ok(id) => {
                    &&& old(self)@.last_call_request_id < u32::MAX
                    &&& id == old(self)@.last_call_request_id + 1
                    &&& final(self)@ == (CtxView { last_call_request_id: id, ..old(self)@ })
                },
                Err(e) => e@ == ExecutionFault::RequestIdsExhausted && old(self)@.last_call_request_id == u32::MAX && final(self)@ == old(self)@,
            },
            final(self).wf() == old(self).wf(),
    {
        if self.last_call_request_id == u32::MAX {
            Err(ExecutionError::RequestIdsExhausted)
        } else {
            self.last_call_request_id = self.last_call_request_id + 1;
            Ok(self.last_call_request_id)
        }
    }

    /// The last request identifier that was given out.
    pub fn last_call_request_id(&self) -> (id: u32)
        ensures
            id == self@.last_call_request_id,
    {
        self.last_call_request_id
    }

    /// What the host answered to request `id`. `None` says that the host
    /// has not answered yet, which is no error: an answer that is an error
    /// comes as an answer, with its return code.
    pub fn lookup_call_result(&self, id: u32) -> (answer: Option<&CallServiceResult>)
        ensures
            match answer {
                Some(answer) => self@.answers.dom().contains(id) && answer@ == self@.answers[id],
                None => !self@.answers.dom().contains(id),
            },
    {
        self.call_results.get(id)
    }

    /// Records a value in the value table and returns its identifier.
    pub fn intern_value(&mut self, value: &[u8]) -> (cid: Result<Vec<u8>, ExecutionError>)
        requires
            old(self).wf(),
        ensures
            final(self).wf(),
            match cid {
                Ok(cid) => !cids_collide(old(self)@.cids, value@) && cid@ == content_hash(value@)
                    && final(self)@ == (CtxView {
                    cids: old(self)@.cids.insert(cid@, value@),
                    ..old(self)@
                }),
                Err(e) => cids_collide(old(self)@.cids, value@) && e@
                    == (ExecutionFault::CidCollision { cid: content_hash(value@) }) && final(self)@
                    == old(self)@,
            },
    {
        match self.cid_table.intern(value) {
            Ok(cid) => Ok(cid),
            Err(clash) => Err(ExecutionError::CidCollision { cid: clash.cid }),
        }
    }

    /// The peer that runs this round.
    pub fn current_peer_id(&self) -> (peer: Vec<u8>)
        ensures
            peer@ == self@.peer,
    {
        self.current_peer_id.clone()
    }

    /// Notes a request that the host has to answer.
    pub fn push_call_request(&mut self, request: CallRequest)
        ensures
            final(self)@ == (CtxView { requests: old(self)@.requests.push(request), ..old(self)@ }),
            final(self).wf() == old(self).wf(),
    {
        self.call_requests.push(request);
    }

    /// Opens a fold.
    pub fn push_fold(&mut self, frame: FoldState)
        ensures
            final(self)@ == (CtxView { folds: old(self)@.folds.push(frame), ..old(self)@ }),
            final(self).wf() == old(self).wf(),
    {
        self.folds.push(frame);
    }

    /// Closes the innermost fold.
    pub fn pop_fold(&mut self) -> (frame: Option<FoldState>)
        ensures
            match frame {
                Some(top) => {
                    &&& old(self)@.folds.len() > 0
                    &&& top == old(self)@.folds.last()
                    &&& final(self)@ == (CtxView {
                        folds: old(self)@.folds.drop_last(),
                        ..old(self)@
                    })
                },
                None => old(self)@.folds.len() == 0 && final(self)@ == old(self)@,
            },
            final(self).wf() == old(self).wf(),
    {
        self.folds.pop()
    }

    /// Puts `frame` in the place of the innermost fold.
    pub fn replace_fold(&mut self, frame: FoldState)
        ensures
            old(self)@.folds.len() > 0 ==> final(self)@ == (CtxView {
                folds: old(self)@.folds.drop_last().push(frame),
                ..old(self)@
            }),
            old(self)@.folds.len() == 0 ==> final(self)@ == old(self)@,
            final(self).wf() == old(self).wf(),
    {
        self.folds.replace_top(frame);
    }

    /// The number of folds that are open.
    pub fn open_folds(&self) -> (depth: usize)
        ensures
            depth == self@.folds.len(),
    {
        self.folds.depth()
    }

    /// The iteration indexes of the open folds, outermost first.
    pub fn scope(&self) -> (scope: Vec<u32>)
        ensures
            scope@ == crate::fold::scope_of(self@.folds),
    {
        self.folds.scope()
    }

    /// Takes the context apart at the end of a round: the value table, the
    /// last request identifier, the signature store, and the requests that
    /// wait for an answer.
    pub fn into_parts(self) -> (parts: (CidTable, u32, SignatureStore, Vec<CallRequest>))
        ensures
            parts.0@ == self@.cids,
            parts.1 == self@.last_call_request_id,
            parts.2@ == self@.signatures,
            self.wf() ==> parts.2.wf(),
            self.wf() ==> parts.0.wf(),
            parts.3@ == self@.requests,
    {
        (self.cid_table, self.last_call_request_id, self.signature_store, self.call_requests)
    }
}

/// Another value already holds the digest of `value`.
pub open spec fn cids_collide(cids: Map<Seq<u8>, Seq<u8>>, value: Seq<u8>) -> bool {
    cids.dom().contains(content_hash(value)) && cids[content_hash(value)] != value
}

} // verus!
