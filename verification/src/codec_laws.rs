//! What is written is read back: the decoders of the byte encoding find
//! again what the encoders wrote.

use vstd::prelude::*;
use vstd::bytes::lemma_auto_spec_u64_to_from_le_bytes;
use crate::codec::code_number;
use crate::codec::dec_bounded;
use crate::codec::dec_bytes;
use crate::codec::dec_call;
use crate::codec::dec_call_state;
use crate::codec::dec_fold;
use crate::codec::dec_position;
use crate::codec::dec_state;
use crate::codec::dec_state_items;
use crate::codec::dec_trace;
use crate::codec::dec_u64;
use crate::codec::dec_word_items;
use crate::codec::dec_words;
use crate::codec::enc_bytes;
use crate::codec::enc_call_state;
use crate::codec::enc_position;
use crate::codec::enc_state;
use crate::codec::enc_state_items;
use crate::codec::enc_trace;
use crate::codec::enc_u64;
use crate::codec::enc_word_items;
use crate::codec::enc_words;
use crate::byte_map::distinct_keys;
use crate::byte_map::entries_map;
use crate::byte_map::lemma_entries_map_absent;
use crate::byte_map::lemma_entry_fits;
use crate::byte_map::law_order_follows_from_map;
use crate::byte_map::same_entries;
use crate::byte_map::ByteEntry;
use crate::data::dec_entry_items;
use crate::data::dec_table;
use crate::data::dec_version;
use crate::data::dec_versions;
use crate::data::decoded;
use crate::data::enc_entry_items;
use crate::data::enc_table;
use crate::data::enc_version;
use crate::data::enc_versions;
use crate::data::encoding;
use crate::data::InterpreterData;
use crate::trace::trace_view;
use crate::trace::CallState;
use crate::trace::ExecutedState;
use crate::trace::CallStateView;
use crate::version::Version;
use crate::trace::ExecutedStateView;
use crate::trace::PositionView;

verus! {

/// `part` stands in `bytes` at `at`.
pub open spec fn sits(bytes: Seq<u8>, at: int, part: Seq<u8>) -> bool {
    0 <= at && at + part.len() <= bytes.len() && bytes.subrange(at, at + part.len()) == part
}

/// Where two parts stand one behind the other, each of them stands in its place.
pub proof fn lemma_sits_split(bytes: Seq<u8>, at: int, head: Seq<u8>, tail: Seq<u8>)
    requires
        sits(bytes, at, head + tail),
    ensures
        sits(bytes, at, head),
        sits(bytes, at + head.len(), tail),
{
    let whole = head + tail;
    assert(bytes.subrange(at, at + head.len()) =~= head) by {
        assert forall|i: int| 0 <= i < head.len() implies bytes[at + i] == head[i] by {
            assert(bytes.subrange(at, at + whole.len())[i] == bytes[at + i]);
        }
    }
    assert(bytes.subrange(at + head.len(), at + head.len() + tail.len()) =~= tail) by {
        assert forall|i: int| 0 <= i < tail.len() implies bytes[at + head.len() + i] == tail[i] by {
            assert(bytes.subrange(at, at + whole.len())[head.len() + i] == bytes[at + head.len()
                + i]);
        }
    }
}

/// A number that was written is read back.
pub proof fn lemma_u64_read_back(bytes: Seq<u8>, at: int, n: u64)
    requires
        sits(bytes, at, enc_u64(n)),
    ensures
        enc_u64(n).len() == 8,
        dec_u64(bytes, at) == Some((n, at + 8)),
        forall|limit: u64| n <= limit ==> #[trigger] dec_bounded(bytes, at, limit) == Some((n, at + 8)),
{
    lemma_auto_spec_u64_to_from_le_bytes();
}

/// A byte string that was written is read back.
pub proof fn lemma_bytes_read_back(bytes: Seq<u8>, at: int, part: Seq<u8>)
    requires
        part.len() <= u64::MAX,
        sits(bytes, at, enc_bytes(part)),
    ensures
        enc_bytes(part).len() == 8 + part.len(),
        dec_bytes(bytes, at) == Some((part, at + enc_bytes(part).len())),
{
    lemma_sits_split(bytes, at, enc_u64(part.len() as u64), part);
    lemma_u64_read_back(bytes, at, part.len() as u64);
}

/// The items of the first `count` numbers stand at the head of the items
/// of all of them, eight bytes each.
proof fn lemma_word_items_prefix(words: Seq<u32>, count: int)
    requires
        0 <= count <= words.len(),
    ensures
        enc_word_items(words.take(count)).len() == 8 * count,
        enc_word_items(words).len() == 8 * words.len(),
        enc_word_items(words).take(8 * count) == enc_word_items(words.take(count)),
    decreases words.len(),
{
    lemma_auto_spec_u64_to_from_le_bytes();
    if words.len() == 0 {
        assert(words.take(count) =~= words);
        assert(enc_word_items(words).take(0) =~= enc_word_items(words));
    } else if count == words.len() {
        assert(words.take(count) =~= words);
        lemma_word_items_prefix(words.drop_last(), count - 1);
        assert(words.drop_last().take(count - 1) =~= words.drop_last());
        assert(enc_word_items(words).take(8 * count) =~= enc_word_items(words));
    } else {
        lemma_word_items_prefix(words.drop_last(), count);
        assert(words.drop_last().take(count) =~= words.take(count));
        assert(enc_word_items(words).take(8 * count) =~= enc_word_items(words.drop_last()).take(
            8 * count,
        ));
    }
}

/// The numbers of a list are read back one after the other.
proof fn lemma_word_items_read_back(bytes: Seq<u8>, at: int, words: Seq<u32>, read: int)
    requires
        0 <= read <= words.len(),
        sits(bytes, at, enc_word_items(words)),
    ensures
        dec_word_items(bytes, at + 8 * read, (words.len() - read) as nat, words.take(read)) == Some(
            (words, at + 8 * words.len()),
        ),
    decreases words.len() - read,
{
    lemma_word_items_prefix(words, read);
    if read == words.len() {
        assert(words.take(read) =~= words);
    } else {
        lemma_word_items_prefix(words, read + 1);
        let upto = enc_word_items(words.take(read + 1));
        assert(words.take(read + 1).drop_last() =~= words.take(read));
        assert(upto == enc_word_items(words.take(read)) + enc_u64(words[read] as u64));
        assert(sits(bytes, at, upto)) by {
            assert(enc_word_items(words) =~= upto + enc_word_items(words).skip(8 * (read + 1)));
            lemma_sits_split(bytes, at, upto, enc_word_items(words).skip(8 * (read + 1)));
        }
        lemma_sits_split(bytes, at, enc_word_items(words.take(read)), enc_u64(words[read] as u64));
        lemma_u64_read_back(bytes, at + 8 * read, words[read] as u64);
        assert(words.take(read).push(words[read]) =~= words.take(read + 1));
        lemma_word_items_read_back(bytes, at, words, read + 1);
    }
}

/// A list of numbers that was written is read back.
pub proof fn lemma_words_read_back(bytes: Seq<u8>, at: int, words: Seq<u32>)
    requires
        words.len() <= u64::MAX,
        sits(bytes, at, enc_words(words)),
    ensures
        enc_words(words).len() == 8 + 8 * words.len(),
        dec_words(bytes, at) == Some((words, at + enc_words(words).len())),
{
    lemma_sits_split(bytes, at, enc_u64(words.len() as u64), enc_word_items(words));
    lemma_u64_read_back(bytes, at, words.len() as u64);
    lemma_word_items_prefix(words, 0);
    lemma_word_items_read_back(bytes, at + 8, words, 0);
    assert(words.take(0) =~= Seq::<u32>::empty());
}

/// A position that was written is read back.
pub proof fn lemma_position_read_back(bytes: Seq<u8>, at: int, position: PositionView)
    requires
        position.scope.len() <= u64::MAX,
        sits(bytes, at, enc_position(position)),
    ensures
        dec_position(bytes, at) == Some((position, at + enc_position(position).len())),
{
    lemma_sits_split(bytes, at, enc_u64(position.node as u64), enc_words(position.scope));
    lemma_u64_read_back(bytes, at, position.node as u64);
    lemma_words_read_back(bytes, at + 8, position.scope);
}

/// The byte strings of a call's state are short enough for their length to
/// be written.
pub open spec fn call_state_fits(state: CallStateView) -> bool {
    match state {
        CallStateView::Requested => true,
        CallStateView::Succeeded { value } => value.len() <= u64::MAX,
        CallStateView::Failed { message, .. } => message.len() <= u64::MAX,
    }
}

/// The strings and lists of a state are short enough for their length to
/// be written.
pub open spec fn state_fits(state: ExecutedStateView) -> bool {
    &&& state.position().scope.len() <= u64::MAX
    &&& state matches ExecutedStateView::Call { peer, state: call, .. } ==> peer.len() <= u64::MAX
        && call_state_fits(call)
}

/// The state of a call that was written is read back.
pub proof fn lemma_call_state_read_back(bytes: Seq<u8>, at: int, state: CallStateView)
    requires
        call_state_fits(state),
        sits(bytes, at, enc_call_state(state)),
    ensures
        dec_call_state(bytes, at) == Some((state, at + enc_call_state(state).len())),
{
    match state {
        CallStateView::Requested => {
            lemma_u64_read_back(bytes, at, 0);
        },
        CallStateView::Succeeded { value } => {
            lemma_sits_split(bytes, at, enc_u64(1), enc_bytes(value));
            lemma_u64_read_back(bytes, at, 1);
            lemma_bytes_read_back(bytes, at + 8, value);
        },
        CallStateView::Failed { code, message } => {
            lemma_sits_split(bytes, at, enc_u64(2) + enc_u64(code_number(code)), enc_bytes(message));
            lemma_sits_split(bytes, at, enc_u64(2), enc_u64(code_number(code)));
            lemma_u64_read_back(bytes, at, 2);
            lemma_u64_read_back(bytes, at + 8, code_number(code));
            lemma_bytes_read_back(bytes, at + 16, message);
        },
    }
}

/// A state that was written is read back.
pub proof fn lemma_state_read_back(bytes: Seq<u8>, at: int, state: ExecutedStateView)
    requires
        state_fits(state),
        sits(bytes, at, enc_state(state)),
    ensures
        dec_state(bytes, at) == Some((state, at + enc_state(state).len())),
{
    match state {
        ExecutedStateView::Call { position, request_id, peer, state: call } => {
            let a = enc_u64(0);
            let b = enc_position(position);
            let c = enc_u64(request_id as u64);
            let d = enc_bytes(peer);
            let e = enc_call_state(call);
            lemma_sits_split(bytes, at, a + b + c + d, e);
            lemma_sits_split(bytes, at, a + b + c, d);
            lemma_sits_split(bytes, at, a + b, c);
            lemma_sits_split(bytes, at, a, b);
            lemma_u64_read_back(bytes, at, 0);
            lemma_position_read_back(bytes, at + 8, position);
            lemma_u64_read_back(bytes, at + 8 + b.len(), request_id as u64);
            lemma_bytes_read_back(bytes, at + 16 + b.len(), peer);
            lemma_call_state_read_back(bytes, at + 16 + b.len() + d.len(), call);
            assert(dec_call(bytes, at + 8 + b.len(), position) == Some(
                (state, at + enc_state(state).len()),
            ));
        },
        ExecutedStateView::Fold { position, iterations, span } => {
            let a = enc_u64(1);
            let b = enc_position(position);
            let c = enc_u64(iterations as u64);
            let d = enc_u64(span);
            lemma_sits_split(bytes, at, a + b + c, d);
            lemma_sits_split(bytes, at, a + b, c);
            lemma_sits_split(bytes, at, a, b);
            lemma_u64_read_back(bytes, at, 1);
            lemma_position_read_back(bytes, at + 8, position);
            lemma_u64_read_back(bytes, at + 8 + b.len(), iterations as u64);
            lemma_u64_read_back(bytes, at + 16 + b.len(), span);
            assert(dec_fold(bytes, at + 8 + b.len(), position) == Some(
                (state, at + enc_state(state).len()),
            ));
        },
        ExecutedStateView::Skip { position } => {
            lemma_sits_split(bytes, at, enc_u64(2), enc_position(position));
            lemma_u64_read_back(bytes, at, 2);
            lemma_position_read_back(bytes, at + 8, position);
        },
    }
}

/// Every state of the trace fits.
pub open spec fn trace_fits(trace: Seq<ExecutedStateView>) -> bool {
    &&& trace.len() <= u64::MAX
    &&& forall|i: int| 0 <= i < trace.len() ==> state_fits(#[trigger] trace[i])
}

/// The items of the first `count` states stand at the head of the items of
/// all of them.
proof fn lemma_state_items_prefix(trace: Seq<ExecutedStateView>, count: int)
    requires
        0 <= count <= trace.len(),
    ensures
        enc_state_items(trace.take(count)).len() <= enc_state_items(trace).len(),
        enc_state_items(trace).take(enc_state_items(trace.take(count)).len() as int)
            == enc_state_items(trace.take(count)),
    decreases trace.len(),
{
    if count == trace.len() {
        assert(trace.take(count) =~= trace);
        assert(enc_state_items(trace).take(enc_state_items(trace).len() as int)
            =~= enc_state_items(trace));
    } else {
        lemma_state_items_prefix(trace.drop_last(), count);
        assert(trace.drop_last().take(count) =~= trace.take(count));
        let part = enc_state_items(trace.take(count));
        assert(enc_state_items(trace).take(part.len() as int) =~= enc_state_items(
            trace.drop_last(),
        ).take(part.len() as int));
    }
}

/// The states of a trace are read back one after the other.
proof fn lemma_state_items_read_back(
    bytes: Seq<u8>,
    at: int,
    trace: Seq<ExecutedStateView>,
    read: int,
)
    requires
        0 <= read <= trace.len(),
        trace_fits(trace),
        sits(bytes, at, enc_state_items(trace)),
    ensures
        dec_state_items(
            bytes,
            at + enc_state_items(trace.take(read)).len(),
            (trace.len() - read) as nat,
            trace.take(read),
        ) == Some((trace, at + enc_state_items(trace).len())),
    decreases trace.len() - read,
{
    lemma_state_items_prefix(trace, read);
    if read == trace.len() {
        assert(trace.take(read) =~= trace);
    } else {
        lemma_state_items_prefix(trace, read + 1);
        let before = enc_state_items(trace.take(read));
        let upto = enc_state_items(trace.take(read + 1));
        let all = enc_state_items(trace);
        assert(trace.take(read + 1).drop_last() =~= trace.take(read));
        assert(upto == before + enc_state(trace[read]));
        assert(sits(bytes, at, upto)) by {
            assert(all =~= upto + all.skip(upto.len() as int));
            lemma_sits_split(bytes, at, upto, all.skip(upto.len() as int));
        }
        lemma_sits_split(bytes, at, before, enc_state(trace[read]));
        lemma_state_read_back(bytes, at + before.len(), trace[read]);
        assert(trace.take(read).push(trace[read]) =~= trace.take(read + 1));
        lemma_state_items_read_back(bytes, at, trace, read + 1);
    }
}

/// A trace that was written is read back.
pub proof fn lemma_trace_read_back(bytes: Seq<u8>, at: int, trace: Seq<ExecutedStateView>)
    requires
        trace_fits(trace),
        sits(bytes, at, enc_trace(trace)),
    ensures
        dec_trace(bytes, at) == Some((trace, at + enc_trace(trace).len())),
{
    lemma_sits_split(bytes, at, enc_u64(trace.len() as u64), enc_state_items(trace));
    lemma_u64_read_back(bytes, at, trace.len() as u64);
    lemma_state_items_read_back(bytes, at + 8, trace, 0);
    assert(trace.take(0) =~= Seq::<ExecutedStateView>::empty());
}

/// An entry of a value table: the identifier, then the value.
pub open spec fn enc_entry(entry: ByteEntry) -> Seq<u8> {
    enc_bytes(entry.key()) + enc_bytes(entry.value())
}

/// The items of the first `count` entries stand at the head of the items
/// of all of them.
proof fn lemma_entry_items_prefix(entries: Seq<ByteEntry>, count: int)
    requires
        0 <= count <= entries.len(),
    ensures
        enc_entry_items(entries.take(count)).len() <= enc_entry_items(entries).len(),
        enc_entry_items(entries).take(enc_entry_items(entries.take(count)).len() as int)
            == enc_entry_items(entries.take(count)),
    decreases entries.len(),
{
    if count == entries.len() {
        assert(entries.take(count) =~= entries);
        assert(enc_entry_items(entries).take(enc_entry_items(entries).len() as int)
            =~= enc_entry_items(entries));
    } else {
        lemma_entry_items_prefix(entries.drop_last(), count);
        assert(entries.drop_last().take(count) =~= entries.take(count));
        let part = enc_entry_items(entries.take(count));
        assert(enc_entry_items(entries).take(part.len() as int) =~= enc_entry_items(
            entries.drop_last(),
        ).take(part.len() as int));
    }
}

/// The entries of a value table are read back one after the other, and
/// none of them meets its identifier in the table.
proof fn lemma_entry_items_read_back(bytes: Seq<u8>, at: int, entries: Seq<ByteEntry>, read: int)
    requires
        0 <= read <= entries.len(),
        distinct_keys(entries),
        sits(bytes, at, enc_entry_items(entries)),
    ensures
        dec_entry_items(
            bytes,
            at + enc_entry_items(entries.take(read)).len(),
            (entries.len() - read) as nat,
            entries_map(entries.take(read)),
        ) == Some((entries_map(entries), at + enc_entry_items(entries).len())),
    decreases entries.len() - read,
{
    lemma_entry_items_prefix(entries, read);
    if read == entries.len() {
        assert(entries.take(read) =~= entries);
    } else {
        lemma_entry_items_prefix(entries, read + 1);
        let entry = entries[read];
        let before = enc_entry_items(entries.take(read));
        let upto = enc_entry_items(entries.take(read + 1));
        let all = enc_entry_items(entries);
        assert(entries.take(read + 1).drop_last() =~= entries.take(read));
        assert(upto =~= before + enc_entry(entry));
        assert(sits(bytes, at, upto)) by {
            assert(all =~= upto + all.skip(upto.len() as int));
            lemma_sits_split(bytes, at, upto, all.skip(upto.len() as int));
        }
        lemma_sits_split(bytes, at, before, enc_entry(entry));
        lemma_sits_split(bytes, at + before.len(), enc_bytes(entry.key()), enc_bytes(entry.value()));
        lemma_entry_fits(entry);
        lemma_bytes_read_back(bytes, at + before.len(), entry.key());
        lemma_bytes_read_back(
            bytes,
            at + before.len() + enc_bytes(entry.key()).len(),
            entry.value(),
        );
        assert forall|i: int| 0 <= i < read implies (#[trigger] entries.take(read)[i]).key()
            != entry.key() by {
            assert(entries.take(read)[i] == entries[i]);
        }
        lemma_entries_map_absent(entries.take(read), entry.key());
        lemma_entry_items_read_back(bytes, at, entries, read + 1);
    }
}

/// A value table that was written is read back, as the map that its entries stand for.
pub proof fn lemma_table_read_back(bytes: Seq<u8>, at: int, entries: Seq<ByteEntry>)
    requires
        entries.len() <= u64::MAX,
        distinct_keys(entries),
        sits(bytes, at, enc_table(entries)),
    ensures
        dec_table(bytes, at) == Some((entries_map(entries), at + enc_table(entries).len())),
{
    lemma_sits_split(bytes, at, enc_u64(entries.len() as u64), enc_entry_items(entries));
    lemma_u64_read_back(bytes, at, entries.len() as u64);
    lemma_entry_items_read_back(bytes, at + 8, entries, 0);
    assert(entries.take(0) =~= Seq::<ByteEntry>::empty());
}

/// A version that was written is read back.
pub proof fn lemma_version_read_back(bytes: Seq<u8>, at: int, version: Version)
    requires
        sits(bytes, at, enc_version(version)),
    ensures
        enc_version(version).len() == 24,
        dec_version(bytes, at) == Some((version, at + 24)),
{
    lemma_auto_spec_u64_to_from_le_bytes();
    lemma_sits_split(bytes, at, enc_u64(version.major) + enc_u64(version.minor), enc_u64(version.patch));
    lemma_sits_split(bytes, at, enc_u64(version.major), enc_u64(version.minor));
    lemma_u64_read_back(bytes, at, version.major);
    lemma_u64_read_back(bytes, at + 8, version.minor);
    lemma_u64_read_back(bytes, at + 16, version.patch);
}

/// A state that a program holds fits: no string or list in memory is too
/// long for its length to be written.
pub proof fn lemma_state_in_memory_fits(state: ExecutedState)
    ensures
        state_fits(state@),
{
    match state {
        ExecutedState::Call { position, peer, state: call, .. } => {
            assert(position.scope.len() == position.scope@.len());
            assert(peer.len() == peer@.len());
            match call {
                CallState::Requested => {},
                CallState::Succeeded { value } => {
                    assert(value.len() == value@.len());
                },
                CallState::Failed { message, .. } => {
                    assert(message.len() == message@.len());
                },
            }
        },
        ExecutedState::Fold { position, .. } => {
            assert(position.scope.len() == position.scope@.len());
        },
        ExecutedState::Skip { position } => {
            assert(position.scope.len() == position.scope@.len());
        },
    }
}

/// What is stored is read back: the bytes that a piece of interpreter data
/// is stored as stand for that very data.
pub proof fn law_stored_data_reads_back(data: InterpreterData)
    requires
        data.wf(),
    ensures
        decoded(encoding(data)) == Some(data@),
{
    let bytes = encoding(data);
    let trace = trace_view(data.trace@);
    let entries = data.cid_info.entries();
    let a = enc_versions(data.versions);
    let b = enc_u64(data.last_call_request_id as u64);
    let c = enc_table(entries);
    let d = enc_trace(trace);
    assert(bytes == a + b + c + d);
    assert(sits(bytes, 0, a + b + c + d)) by {
        assert(bytes.subrange(0, bytes.len() as int) =~= bytes);
    }
    lemma_sits_split(bytes, 0, a + b + c, d);
    lemma_sits_split(bytes, 0, a + b, c);
    lemma_sits_split(bytes, 0, a, b);
    lemma_sits_split(
        bytes,
        0,
        enc_version(data.versions.interpreter_version),
        enc_version(data.versions.data_version),
    );
    lemma_version_read_back(bytes, 0, data.versions.interpreter_version);
    lemma_version_read_back(bytes, 24, data.versions.data_version);
    assert(dec_versions(bytes, 0) == Some((data.versions, 48int)));
    lemma_u64_read_back(bytes, 48, data.last_call_request_id as u64);
    data.cid_info.lemma_entries();
    lemma_table_read_back(bytes, 56, entries);
    assert(trace_fits(trace)) by {
        assert(data.trace.len() == data.trace@.len());
        assert forall|i: int| 0 <= i < trace.len() implies state_fits(#[trigger] trace[i]) by {
            lemma_state_in_memory_fits(data.trace@[i]);
        }
    }
    lemma_trace_read_back(bytes, 56 + c.len() as int, trace);
}

/// The stored bytes tell data apart: two pieces of data that are stored as
/// the same bytes hold the same versions, the same trace, the same values
/// and the same request counter. So whoever signs the bytes signs the data.
pub proof fn law_encoding_tells_data_apart(one: InterpreterData, other: InterpreterData)
    requires
        one.wf(),
        other.wf(),
        encoding(one) == encoding(other),
    ensures
        one@ == other@,
{
    law_stored_data_reads_back(one);
    law_stored_data_reads_back(other);
}

/// Entries that agree place by place are stored as the same bytes.
pub proof fn lemma_same_entries_same_bytes(a: Seq<ByteEntry>, b: Seq<ByteEntry>)
    requires
        same_entries(a, b),
    ensures
        enc_entry_items(a) == enc_entry_items(b),
        enc_table(a) == enc_table(b),
    decreases a.len(),
{
    if a.len() > 0 {
        assert(same_entries(a.drop_last(), b.drop_last())) by {
            assert forall|i: int| 0 <= i < a.drop_last().len() implies (#[trigger] a.drop_last()[i]).key()
                == b.drop_last()[i].key() && a.drop_last()[i].value() == b.drop_last()[i].value() by {
                assert(a.drop_last()[i] == a[i]);
                assert(b.drop_last()[i] == b[i]);
            }
        }
        lemma_same_entries_same_bytes(a.drop_last(), b.drop_last());
        assert(a.last() == a[a.len() - 1]);
        assert(b.last() == b[b.len() - 1]);
    }
}

/// The data decides its bytes: two pieces of data that hold the same
/// versions, the same trace, the same values and the same request counter are
/// stored as the same bytes, whatever the order in which the values came. So
/// whoever knows the data knows the bytes that are signed.
pub proof fn law_data_decides_encoding(one: InterpreterData, other: InterpreterData)
    requires
        one.wf(),
        other.wf(),
        one@ == other@,
    ensures
        encoding(one) == encoding(other),
{
    one.cid_info.lemma_entries();
    other.cid_info.lemma_entries();
    law_order_follows_from_map(one.cid_info.entries(), other.cid_info.entries());
    lemma_same_entries_same_bytes(one.cid_info.entries(), other.cid_info.entries());
}

} // verus!
