//! Resumable execution substrate of a choreography interpreter.
//!
//! A script orchestrates calls to the host. One run of the interpreter, a
//! round, walks the script as far as the answers of the host allow, and
//! leaves a trace of every operation it met. The next round reads that
//! trace and takes from it what is recorded, so that no call is made twice.
//!
//! The parts, leaves first:
//!
//! - [`bytes`] and [`byte_map`]: byte strings, their order, and the map
//!   that keeps its entries in that order;
//! - [`cid`]: the table of values, each under the digest of its bytes;
//! - [`trace`] and [`trace_handler`]: the trace and the decision, for each
//!   operation, between replaying what is recorded and executing afresh;
//! - [`call_results`] and [`exec_ctx`]: the answers of the host and the
//!   context that a round carries through its walk;
//! - [`fold`]: the state machine of a fold, one frame for each open fold;
//! - [`instruction`] and [`interpreter`]: the instruction tree and its walk;
//! - [`data`] and [`codec`]: the data that goes from round to round, and the
//!   bytes it is stored and signed as;
//! - [`signature`]: keys, signatures and the store of signatures;
//! - [`preparation`] and [`runner`]: a round from the bytes that come in to
//!   the bytes that go out;
//! - [`avm`]: the machine that keeps the data of every script in a store.
//!
//! What holds of every walk and every round is proved in [`laws`],
//! [`held`], [`replay`] and [`codec_laws`].

pub mod avm;
pub mod byte_map;
pub mod bytes;
pub mod call_results;
pub mod cid;
pub mod codec;
pub mod codec_laws;
pub mod data;
pub mod exec_ctx;
pub mod fold;
pub mod held;
pub mod instruction;
pub mod interpreter;
pub mod laws;
pub mod preparation;
pub mod replay;
pub mod runner;
pub mod signature;
pub mod trace;
pub mod trace_handler;
pub mod version;
