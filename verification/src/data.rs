//! Interpreter data: what one round hands to the next.

use vstd::prelude::*;
use crate::byte_map::ByteEntry;
use crate::cid::CidTable;
use crate::codec::dec_bytes;
use crate::codec::dec_bounded;
use crate::codec::dec_trace;
use crate::codec::dec_u64;
use crate::codec::enc_bytes;
use crate::codec::enc_trace;
use crate::codec::enc_u64;
use crate::codec::put_bytes;
use crate::codec::put_trace;
use crate::codec::put_u64;
use crate::codec::take_bounded;
use crate::codec::take_bytes;
use crate::codec::take_trace;
use crate::codec::take_u64;
use crate::trace::trace_view;
use crate::trace::ExecutedState;
use crate::trace::ExecutedStateView;
use crate::version::data_format;
use crate::version::data_format_version;
use crate::version::Version;
use crate::version::Versions;

verus! {

/// The unit that is stored between rounds, checked for its version, and
/// signed.
#[derive(Debug)]
pub struct InterpreterData {
    pub versions: Versions,
    pub trace: Vec<ExecutedState>,
    pub cid_info: CidTable,
    pub last_call_request_id: u32,
}

/// A piece of data in terms of what its parts stand for.
pub struct DataView {
    pub versions: Versions,
    pub trace: Seq<ExecutedStateView>,
    pub cids: Map<Seq<u8>, Seq<u8>>,
    pub last_call_request_id: u32,
}

impl View for InterpreterData {
    type V = DataView;

    open spec fn view(&self) -> DataView {
        DataView {
            versions: self.versions,
            trace: trace_view(self.trace@),
            cids: self.cid_info@,
            last_call_request_id: self.last_call_request_id,
        }
    }
}

/// The data of a script that has no history, as an interpreter of version
/// `interpreter_version` writes it.
pub open spec fn empty_data(interpreter_version: Version) -> DataView {
    DataView {
        versions: Versions { interpreter_version, data_version: data_format() },
        trace: Seq::empty(),
        cids: Map::empty(),
        last_call_request_id: 0,
    }
}

/// A version: major, minor and patch number.
pub open spec fn enc_version(version: Version) -> Seq<u8> {
    enc_u64(version.major) + enc_u64(version.minor) + enc_u64(version.patch)
}

/// The versions of a piece of data: the interpreter's, then the data format's.
pub open spec fn enc_versions(versions: Versions) -> Seq<u8> {
    enc_version(versions.interpreter_version) + enc_version(versions.data_version)
}

/// The entries of a value table one after the other.
pub open spec fn enc_entry_items(entries: Seq<ByteEntry>) -> Seq<u8>
    decreases entries.len(),
{
    if entries.len() == 0 {
        Seq::empty()
    } else {
        enc_entry_items(entries.drop_last()) + enc_bytes(entries.last().key()) + enc_bytes(
            entries.last().value(),
        )
    }
}

/// A value table: the number of its entries, then each of them.
pub open spec fn enc_table(entries: Seq<ByteEntry>) -> Seq<u8> {
    enc_u64(entries.len() as u64) + enc_entry_items(entries)
}

/// The bytes that a piece of interpreter data is stored and signed as: the
/// versions first, then the last request identifier, the value table in the
/// order of its identifiers, and the trace.
pub open spec fn encoding(data: InterpreterData) -> Seq<u8> {
    enc_versions(data.versions) + enc_u64(data.last_call_request_id as u64) + enc_table(
        data.cid_info.entries(),
    ) + enc_trace(trace_view(data.trace@))
}

/// The version that stands at `at`.
pub open spec fn dec_version(bytes: Seq<u8>, at: int) -> Option<(Version, int)> {
    match dec_u64(bytes, at) {
        Some((major, next)) => match dec_u64(bytes, next) {
            Some((minor, then)) => match dec_u64(bytes, then) {
                Some((patch, end)) => Some((Version { major, minor, patch }, end)),
                None => None,
            },
            None => None,
        },
        None => None,
    }
}

/// The two versions that stand at `at`.
pub open spec fn dec_versions(bytes: Seq<u8>, at: int) -> Option<(Versions, int)> {
    match dec_version(bytes, at) {
        Some((interpreter_version, next)) => match dec_version(bytes, next) {
            Some((data_version, end)) => Some(
                (Versions { interpreter_version, data_version }, end),
            ),
            None => None,
        },
        None => None,
    }
}

/// `count` entries from `at` on, put into `table` one by one. An entry
/// whose identifier the table holds with another value spoils the table.
pub open spec fn dec_entry_items(
    bytes: Seq<u8>,
    at: int,
    count: nat,
    table: Map<Seq<u8>, Seq<u8>>,
) -> Option<(Map<Seq<u8>, Seq<u8>>, int)>
    decreases count,
{
    if count == 0 {
        Some((table, at))
    } else {
        match dec_bytes(bytes, at) {
            Some((cid, next)) => match dec_bytes(bytes, next) {
                Some((value, then)) => if table.dom().contains(cid) && table[cid] != value {
                    None
                } else {
                    dec_entry_items(bytes, then, (count - 1) as nat, table.insert(cid, value))
                },
                None => None,
            },
            None => None,
        }
    }
}

/// The value table that stands at `at`.
pub open spec fn dec_table(bytes: Seq<u8>, at: int) -> Option<(Map<Seq<u8>, Seq<u8>>, int)> {
    match dec_u64(bytes, at) {
        Some((count, next)) => dec_entry_items(bytes, next, count as nat, Map::empty()),
        None => None,
    }
}

/// The versions that `bytes` start with, if they are long enough to hold
/// them.
pub open spec fn recorded_versions(bytes: Seq<u8>) -> Option<Versions> {
    match dec_versions(bytes, 0) {
        Some((versions, _)) => Some(versions),
        None => None,
    }
}

/// The data that `bytes` hold, if they hold a piece of data and nothing
/// else.
pub open spec fn decoded(bytes: Seq<u8>) -> Option<DataView> {
    match dec_versions(bytes, 0) {
        Some((versions, at_id)) => match dec_bounded(bytes, at_id, u32::MAX as u64) {
            Some((last, at_table)) => match dec_table(bytes, at_table) {
                Some((cids, at_trace)) => match dec_trace(bytes, at_trace) {
                    Some((trace, end)) => if end == bytes.len() {
                        Some(
                            DataView { versions, trace, cids, last_call_request_id: last as u32 },
                        )
                    } else {
                        None
                    },
                    None => None,
                },
                None => None,
            },
            None => None,
        },
        None => None,
    }
}

/// Appends a version to `out`.
fn put_version(out: &mut Vec<u8>, version: &Version)
    ensures
        final(out)@ == old(out)@ + enc_version(*version),
{
    put_u64(out, version.major);
    put_u64(out, version.minor);
    put_u64(out, version.patch);
    assert(out@ =~= old(out)@ + enc_version(*version));
}

/// Appends a value table to `out`.
fn put_table(out: &mut Vec<u8>, table: &CidTable)
    ensures
        final(out)@ == old(out)@ + enc_table(table.entries()),
{
    let count = table.len();
    put_u64(out, count as u64);
    let mut i: usize = 0;
    let ghost entries = table.entries();
    assert(entries.take(0) =~= Seq::<ByteEntry>::empty());
    while i < count
        invariant
            i <= count,
            count == entries.len(),
            entries == table.entries(),
            count == table.size(),
            out@ == old(out)@ + enc_u64(count as u64) + enc_entry_items(entries.take(i as int)),
        decreases count - i,
    {
        put_bytes(out, table.cid_at(i).as_slice());
        put_bytes(out, table.value_at(i).as_slice());
        assert(entries.take(i + 1).drop_last() =~= entries.take(i as int));
        i += 1;
        assert(out@ =~= old(out)@ + enc_u64(count as u64) + enc_entry_items(entries.take(i as int)));
    }
    assert(entries.take(i as int) =~= entries);
    assert(out@ =~= old(out)@ + enc_table(entries));
}

/// Reads the version at `at`.
fn take_version(bytes: &[u8], at: usize) -> (taken: Option<(Version, usize)>)
    ensures
        match taken {
            Some((version, next)) => dec_version(bytes@, at as int) == Some((version, next as int))
                && next <= bytes@.len(),
            None => dec_version(bytes@, at as int) is None,
        },
{
    let (major, next) = match take_u64(bytes, at) {
        Some(taken) => taken,
        None => {
            return None;
        },
    };
    let (minor, then) = match take_u64(bytes, next) {
        Some(taken) => taken,
        None => {
            return None;
        },
    };
    match take_u64(bytes, then) {
        Some((patch, end)) => Some((Version { major, minor, patch }, end)),
        None => None,
    }
}

/// Reads the two versions at `at`.
fn take_versions(bytes: &[u8], at: usize) -> (taken: Option<(Versions, usize)>)
    ensures
        match taken {
            Some((versions, next)) => dec_versions(bytes@, at as int) == Some(
                (versions, next as int),
            ) && next <= bytes@.len(),
            None => dec_versions(bytes@, at as int) is None,
        },
{
    let (interpreter_version, next) = match take_version(bytes, at) {
        Some(taken) => taken,
        None => {
            return None;
        },
    };
    match take_version(bytes, next) {
        Some((data_version, end)) => Some((Versions { interpreter_version, data_version }, end)),
        None => None,
    }
}

/// Reads the value table at `at`.
fn take_table(bytes: &[u8], at: usize) -> (taken: Option<(CidTable, usize)>)
    ensures
        match taken {
            Some((table, next)) => dec_table(bytes@, at as int) == Some((table@, next as int))
                && next <= bytes@.len() && table.wf(),
            None => dec_table(bytes@, at as int) is None,
        },
{
    let (count, start) = match take_u64(bytes, at) {
        Some(taken) => taken,
        None => {
            return None;
        },
    };
    let mut table = CidTable::new();
    let mut left: u64 = count;
    let mut next: usize = start;
    while left > 0
        invariant
            next <= bytes@.len(),
            table.wf(),
            dec_table(bytes@, at as int) == dec_entry_items(bytes@, next as int, left as nat, table@),
        decreases left,
    {
        let (cid, after_cid) = match take_bytes(bytes, next) {
            Some(taken) => taken,
            None => {
                return None;
            },
        };
        let (value, after_value) = match take_bytes(bytes, after_cid) {
            Some(taken) => taken,
            None => {
                return None;
            },
        };
        match table.insert(cid.as_slice(), value.as_slice()) {
            Ok(()) => {},
            Err(_) => {
                return None;
            },
        }
        next = after_value;
        left -= 1;
    }
    Some((table, next))
}

impl InterpreterData {
    /// The value table holds no identifier twice.
    pub open spec fn wf(&self) -> bool {
        self.cid_info.wf()
    }

    /// The data of a script that has no history.
    pub fn new(interpreter_version: Version) -> (data: InterpreterData)
        ensures
            data.wf(),
            data@ == empty_data(interpreter_version),
    {
        let data = InterpreterData {
            versions: Versions { interpreter_version, data_version: data_format_version() },
            trace: Vec::new(),
            cid_info: CidTable::new(),
            last_call_request_id: 0,
        };
        assert(data@.trace =~= Seq::<ExecutedStateView>::empty());
        data
    }

    /// The bytes that the data is stored and signed as.
    pub fn to_bytes(&self) -> (bytes: Vec<u8>)
        ensures
            bytes@ == encoding(*self),
    {
        let mut out: Vec<u8> = Vec::new();
        put_version(&mut out, &self.versions.interpreter_version);
        put_version(&mut out, &self.versions.data_version);
        put_u64(&mut out, self.last_call_request_id as u64);
        put_table(&mut out, &self.cid_info);
        put_trace(&mut out, &self.trace);
        assert(out@ =~= encoding(*self));
        out
    }

    /// Reads a piece of data; the bytes must hold one and nothing else.
    pub fn try_from_slice(bytes: &[u8]) -> (read: Option<InterpreterData>)
        ensures
            match read {
                Some(data) => decoded(bytes@) == Some(data@) && data.wf(),
                None => decoded(bytes@) is None,
            },
    {
        let (versions, at_id) = match take_versions(bytes, 0) {
            Some(taken) => taken,
            None => {
                return None;
            },
        };
        let (last, at_table) = match take_bounded(bytes, at_id, u32::MAX as u64) {
            Some(taken) => taken,
            None => {
                return None;
            },
        };
        let (cid_info, at_trace) = match take_table(bytes, at_table) {
            Some(taken) => taken,
            None => {
                return None;
            },
        };
        let (trace, end) = match take_trace(bytes, at_trace) {
            Some(taken) => taken,
            None => {
                return None;
            },
        };
        if end != bytes.len() {
            return None;
        }
        Some(InterpreterData { versions, trace, cid_info, last_call_request_id: last as u32 })
    }

    /// Reads the versions that a piece of data starts with, whatever
    /// follows them.
    pub fn try_get_versions(bytes: &[u8]) -> (read: Option<Versions>)
        ensures
            read == recorded_versions(bytes@),
    {
        match take_versions(bytes, 0) {
            Some((versions, _)) => Some(versions),
            None => None,
        }
    }
}

} // verus!
