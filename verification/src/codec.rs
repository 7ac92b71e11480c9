//! The byte encoding that interpreter data is stored and signed in: every
//! number as eight bytes, least significant first; every string behind its
//! length; every list behind the number of its items.

use vstd::prelude::*;
use vstd::bytes::spec_u64_from_le_bytes;
use vstd::bytes::spec_u64_to_le_bytes;
use vstd::bytes::u64_from_le_bytes;
use vstd::bytes::u64_to_le_bytes;
use vstd::slice::slice_subrange;
use crate::trace::CallState;
use crate::trace::CallStateView;
use crate::trace::ExecutedState;
use crate::trace::ExecutedStateView;
use crate::trace::Position;
use crate::trace::PositionView;
use crate::trace::trace_view;

verus! {

// ----- encoding -----

/// A number: eight bytes, the least significant first.
pub open spec fn enc_u64(n: u64) -> Seq<u8> {
    spec_u64_to_le_bytes(n)
}

/// A byte string: its length, then its bytes.
pub open spec fn enc_bytes(bytes: Seq<u8>) -> Seq<u8> {
    enc_u64(bytes.len() as u64) + bytes
}

/// The items of a list of numbers one after the other.
pub open spec fn enc_word_items(words: Seq<u32>) -> Seq<u8>
    decreases words.len(),
{
    if words.len() == 0 {
        Seq::empty()
    } else {
        enc_word_items(words.drop_last()) + enc_u64(words.last() as u64)
    }
}

/// A list of numbers: how many there are, then each of them.
pub open spec fn enc_words(words: Seq<u32>) -> Seq<u8> {
    enc_u64(words.len() as u64) + enc_word_items(words)
}

/// A position: the instruction, then the iterations around it.
pub open spec fn enc_position(position: PositionView) -> Seq<u8> {
    enc_u64(position.node as u64) + enc_words(position.scope)
}

/// A return code as a number that is not negative.
pub open spec fn code_number(code: i32) -> u64 {
    (code + 0x8000_0000) as u64
}

/// The state of a call: a tag that tells the three states apart, then what the state holds.
pub open spec fn enc_call_state(state: CallStateView) -> Seq<u8> {
    match state {
        CallStateView::Requested => enc_u64(0),
        CallStateView::Succeeded { value } => enc_u64(1) + enc_bytes(value),
        CallStateView::Failed { code, message } => enc_u64(2) + enc_u64(code_number(code))
            + enc_bytes(message),
    }
}

/// A state: a tag that tells the three kinds apart, the position, then what the kind holds.
pub open spec fn enc_state(state: ExecutedStateView) -> Seq<u8> {
    match state {
        ExecutedStateView::Call { position, request_id, peer, state } => enc_u64(0) + enc_position(
            position,
        ) + enc_u64(request_id as u64) + enc_bytes(peer) + enc_call_state(state),
        ExecutedStateView::Fold { position, iterations, span } => enc_u64(1) + enc_position(
            position,
        ) + enc_u64(iterations as u64) + enc_u64(span),
        ExecutedStateView::Skip { position } => enc_u64(2) + enc_position(position),
    }
}

/// The states of a trace one after the other.
pub open spec fn enc_state_items(trace: Seq<ExecutedStateView>) -> Seq<u8>
    decreases trace.len(),
{
    if trace.len() == 0 {
        Seq::empty()
    } else {
        enc_state_items(trace.drop_last()) + enc_state(trace.last())
    }
}

/// A trace: the number of its states, then each of them.
pub open spec fn enc_trace(trace: Seq<ExecutedStateView>) -> Seq<u8> {
    enc_u64(trace.len() as u64) + enc_state_items(trace)
}

/// Appends `bytes` to `out`.
pub fn put_raw(out: &mut Vec<u8>, bytes: &[u8])
    ensures
        final(out)@ == old(out)@ + bytes@,
{
    let mut i: usize = 0;
    while i < bytes.len()
        invariant
            i <= bytes.len(),
            out@ == old(out)@ + bytes@.take(i as int),
        decreases bytes.len() - i,
    {
        out.push(bytes[i]);
        i += 1;
        assert(out@ =~= old(out)@ + bytes@.take(i as int));
    }
    assert(bytes@.take(i as int) =~= bytes@);
}

/// Appends a number to `out`.
pub fn put_u64(out: &mut Vec<u8>, n: u64)
    ensures
        final(out)@ == old(out)@ + enc_u64(n),
{
    let bytes = u64_to_le_bytes(n);
    put_raw(out, bytes.as_slice());
}

/// Appends a byte string to `out`, behind its length.
pub fn put_bytes(out: &mut Vec<u8>, bytes: &[u8])
    ensures
        final(out)@ == old(out)@ + enc_bytes(bytes@),
{
    put_u64(out, bytes.len() as u64);
    put_raw(out, bytes);
    assert(out@ =~= old(out)@ + enc_bytes(bytes@));
}

/// Appends a list of numbers to `out`, behind their count.
pub fn put_words(out: &mut Vec<u8>, words: &Vec<u32>)
    ensures
        final(out)@ == old(out)@ + enc_words(words@),
{
    put_u64(out, words.len() as u64);
    let mut i: usize = 0;
    assert(words@.take(0) =~= Seq::<u32>::empty());
    while i < words.len()
        invariant
            i <= words@.len(),
            out@ == old(out)@ + enc_u64(words@.len() as u64) + enc_word_items(words@.take(i as int)),
        decreases words@.len() - i,
    {
        put_u64(out, words[i] as u64);
        assert(words@.take(i + 1).drop_last() =~= words@.take(i as int));
        i += 1;
        assert(out@ =~= old(out)@ + enc_u64(words@.len() as u64) + enc_word_items(
            words@.take(i as int),
        ));
    }
    assert(words@.take(i as int) =~= words@);
    assert(out@ =~= old(out)@ + enc_words(words@));
}

/// Appends a position to `out`.
pub fn put_position(out: &mut Vec<u8>, position: &Position)
    ensures
        final(out)@ == old(out)@ + enc_position(position@),
{
    put_u64(out, position.node as u64);
    put_words(out, &position.scope);
    assert(out@ =~= old(out)@ + enc_position(position@));
}

/// Decides `code_number`.
pub fn code_to_number(code: i32) -> (n: u64)
    ensures
        n == code_number(code),
        n <= u32::MAX,
{
    (code as i64 + 0x8000_0000i64) as u64
}

/// Appends the state of a call to `out`.
pub fn put_call_state(out: &mut Vec<u8>, state: &CallState)
    ensures
        final(out)@ == old(out)@ + enc_call_state(state@),
{
    match state {
        CallState::Requested => {
            put_u64(out, 0);
        },
        CallState::Succeeded { value } => {
            put_u64(out, 1);
            put_bytes(out, value.as_slice());
            assert(out@ =~= old(out)@ + enc_call_state(state@));
        },
        CallState::Failed { code, message } => {
            put_u64(out, 2);
            put_u64(out, code_to_number(*code));
            put_bytes(out, message.as_slice());
            assert(out@ =~= old(out)@ + enc_call_state(state@));
        },
    }
}

/// Appends a state to `out`.
pub fn put_state(out: &mut Vec<u8>, state: &ExecutedState)
    ensures
        final(out)@ == old(out)@ + enc_state(state@),
{
    match state {
        ExecutedState::Call { position, request_id, peer, state: call } => {
            put_u64(out, 0);
            put_position(out, position);
            put_u64(out, *request_id as u64);
            put_bytes(out, peer.as_slice());
            put_call_state(out, call);
            assert(out@ =~= old(out)@ + enc_state(state@));
        },
        ExecutedState::Fold { position, iterations, span } => {
            put_u64(out, 1);
            put_position(out, position);
            put_u64(out, *iterations as u64);
            put_u64(out, *span);
            assert(out@ =~= old(out)@ + enc_state(state@));
        },
        ExecutedState::Skip { position } => {
            put_u64(out, 2);
            put_position(out, position);
            assert(out@ =~= old(out)@ + enc_state(state@));
        },
    }
}

/// Appends a trace to `out`.
pub fn put_trace(out: &mut Vec<u8>, trace: &Vec<ExecutedState>)
    ensures
        final(out)@ == old(out)@ + enc_trace(trace_view(trace@)),
{
    put_u64(out, trace.len() as u64);
    let mut i: usize = 0;
    let ghost states = trace_view(trace@);
    assert(states.take(0) =~= Seq::<ExecutedStateView>::empty());
    while i < trace.len()
        invariant
            i <= trace@.len(),
            states == trace_view(trace@),
            out@ == old(out)@ + enc_u64(trace@.len() as u64) + enc_state_items(states.take(i as int)),
        decreases trace@.len() - i,
    {
        put_state(out, &trace[i]);
        assert(states.take(i + 1).drop_last() =~= states.take(i as int));
        assert(states.take(i + 1).last() == trace@[i as int]@);
        i += 1;
        assert(out@ =~= old(out)@ + enc_u64(trace@.len() as u64) + enc_state_items(
            states.take(i as int),
        ));
    }
    assert(states.take(i as int) =~= states);
    assert(out@ =~= old(out)@ + enc_trace(states));
}

// ----- decoding -----

/// The number that stands at `at`, and where the bytes go on behind it.
pub open spec fn dec_u64(bytes: Seq<u8>, at: int) -> Option<(u64, int)> {
    if 0 <= at && at + 8 <= bytes.len() {
        Some((spec_u64_from_le_bytes(bytes.subrange(at, at + 8)), at + 8))
    } else {
        None
    }
}

/// The number at `at` where it is no larger than `limit`.
pub open spec fn dec_bounded(bytes: Seq<u8>, at: int, limit: u64) -> Option<(u64, int)> {
    match dec_u64(bytes, at) {
        Some((n, next)) => if n <= limit {
            Some((n, next))
        } else {
            None
        },
        None => None,
    }
}

/// The byte string that stands at `at`, and where the bytes go on behind it.
pub open spec fn dec_bytes(bytes: Seq<u8>, at: int) -> Option<(Seq<u8>, int)> {
    match dec_u64(bytes, at) {
        Some((len, next)) => if next + len <= bytes.len() {
            Some((bytes.subrange(next, next + len), next + len))
        } else {
            None
        },
        None => None,
    }
}

/// `count` numbers from `at` on, behind those that `read` already holds.
pub open spec fn dec_word_items(bytes: Seq<u8>, at: int, count: nat, read: Seq<u32>) -> Option<
    (Seq<u32>, int),
>
    decreases count,
{
    if count == 0 {
        Some((read, at))
    } else {
        match dec_bounded(bytes, at, u32::MAX as u64) {
            Some((word, next)) => dec_word_items(
                bytes,
                next,
                (count - 1) as nat,
                read.push(word as u32),
            ),
            None => None,
        }
    }
}

/// The list of numbers that stands at `at`.
pub open spec fn dec_words(bytes: Seq<u8>, at: int) -> Option<(Seq<u32>, int)> {
    match dec_u64(bytes, at) {
        Some((count, next)) => dec_word_items(bytes, next, count as nat, Seq::empty()),
        None => None,
    }
}

/// The position that stands at `at`.
pub open spec fn dec_position(bytes: Seq<u8>, at: int) -> Option<(PositionView, int)> {
    match dec_bounded(bytes, at, u32::MAX as u64) {
        Some((node, next)) => match dec_words(bytes, next) {
            Some((scope, end)) => Some((PositionView { node: node as u32, scope }, end)),
            None => None,
        },
        None => None,
    }
}

/// The state of a call that stands at `at`; no tag but the three that are written is read.
pub open spec fn dec_call_state(bytes: Seq<u8>, at: int) -> Option<(CallStateView, int)> {
    match dec_u64(bytes, at) {
        Some((tag, next)) => if tag == 0 {
            Some((CallStateView::Requested, next))
        } else if tag == 1 {
            match dec_bytes(bytes, next) {
                Some((value, end)) => Some((CallStateView::Succeeded { value }, end)),
                None => None,
            }
        } else if tag == 2 {
            match dec_bounded(bytes, next, u32::MAX as u64) {
                Some((number, then)) => match dec_bytes(bytes, then) {
                    Some((message, end)) => Some(
                        (
                            CallStateView::Failed { code: (number - 0x8000_0000) as i32, message },
                            end,
                        ),
                    ),
                    None => None,
                },
                None => None,
            }
        } else {
            None
        },
        None => None,
    }
}

/// What a call holds behind its position.
pub open spec fn dec_call(bytes: Seq<u8>, at: int, position: PositionView) -> Option<
    (ExecutedStateView, int),
> {
    match dec_bounded(bytes, at, u32::MAX as u64) {
        Some((request_id, next)) => match dec_bytes(bytes, next) {
            Some((peer, then)) => match dec_call_state(bytes, then) {
                Some((state, end)) => Some(
                    (
                        ExecutedStateView::Call {
                            position,
                            request_id: request_id as u32,
                            peer,
                            state,
                        },
                        end,
                    ),
                ),
                None => None,
            },
            None => None,
        },
        None => None,
    }
}

/// What a fold marker holds behind its position.
pub open spec fn dec_fold(bytes: Seq<u8>, at: int, position: PositionView) -> Option<
    (ExecutedStateView, int),
> {
    match dec_bounded(bytes, at, u32::MAX as u64) {
        Some((iterations, next)) => match dec_u64(bytes, next) {
            Some((span, end)) => Some(
                (ExecutedStateView::Fold { position, iterations: iterations as u32, span }, end),
            ),
            None => None,
        },
        None => None,
    }
}

/// The state that stands at `at`; no tag but the three that are written is read.
pub open spec fn dec_state(bytes: Seq<u8>, at: int) -> Option<(ExecutedStateView, int)> {
    match dec_u64(bytes, at) {
        Some((tag, next)) => match dec_position(bytes, next) {
            Some((position, then)) => if tag == 0 {
                dec_call(bytes, then, position)
            } else if tag == 1 {
                dec_fold(bytes, then, position)
            } else if tag == 2 {
                Some((ExecutedStateView::Skip { position }, then))
            } else {
                None
            },
            None => None,
        },
        None => None,
    }
}

/// `count` states from `at` on, behind those that `read` already holds.
pub open spec fn dec_state_items(
    bytes: Seq<u8>,
    at: int,
    count: nat,
    read: Seq<ExecutedStateView>,
) -> Option<(Seq<ExecutedStateView>, int)>
    decreases count,
{
    if count == 0 {
        Some((read, at))
    } else {
        match dec_state(bytes, at) {
            Some((state, next)) => dec_state_items(bytes, next, (count - 1) as nat, read.push(state)),
            None => None,
        }
    }
}

/// The trace that stands at `at`.
pub open spec fn dec_trace(bytes: Seq<u8>, at: int) -> Option<(Seq<ExecutedStateView>, int)> {
    match dec_u64(bytes, at) {
        Some((count, next)) => dec_state_items(bytes, next, count as nat, Seq::empty()),
        None => None,
    }
}

/// Reads the number at `at`.
pub fn take_u64(bytes: &[u8], at: usize) -> (taken: Option<(u64, usize)>)
    ensures
        match taken {
            Some((n, next)) => dec_u64(bytes@, at as int) == Some((n, next as int)) && next
                <= bytes@.len(),
            None => dec_u64(bytes@, at as int) is None,
        },
{
    if bytes.len() < 8 || at > bytes.len() - 8 {
        None
    } else {
        let part = slice_subrange(bytes, at, at + 8);
        Some((u64_from_le_bytes(part), at + 8))
    }
}

/// Reads the number at `at`, which must be no larger than `limit`.
pub fn take_bounded(bytes: &[u8], at: usize, limit: u64) -> (taken: Option<(u64, usize)>)
    ensures
        match taken {
            Some((n, next)) => dec_bounded(bytes@, at as int, limit) == Some((n, next as int))
                && next <= bytes@.len() && n <= limit,
            None => dec_bounded(bytes@, at as int, limit) is None,
        },
{
    match take_u64(bytes, at) {
        Some((n, next)) => if n <= limit {
            Some((n, next))
        } else {
            None
        },
        None => None,
    }
}

/// Reads the byte string at `at`.
pub fn take_bytes(bytes: &[u8], at: usize) -> (taken: Option<(Vec<u8>, usize)>)
    ensures
        match taken {
            Some((part, next)) => dec_bytes(bytes@, at as int) == Some((part@, next as int))
                && next <= bytes@.len(),
            None => dec_bytes(bytes@, at as int) is None,
        },
{
    match take_u64(bytes, at) {
        Some((len, next)) => {
            if len > (bytes.len() - next) as u64 {
                None
            } else {
                let end = next + len as usize;
                let part = slice_subrange(bytes, next, end);
                Some((crate::bytes::copy_bytes(part), end))
            }
        },
        None => None,
    }
}

/// Reads the list of numbers at `at`.
pub fn take_words(bytes: &[u8], at: usize) -> (taken: Option<(Vec<u32>, usize)>)
    ensures
        match taken {
            Some((words, next)) => dec_words(bytes@, at as int) == Some((words@, next as int))
                && next <= bytes@.len(),
            None => dec_words(bytes@, at as int) is None,
        },
{
    let (count, start) = match take_u64(bytes, at) {
        Some(taken) => taken,
        None => {
            return None;
        },
    };
    let mut words: Vec<u32> = Vec::new();
    let mut left: u64 = count;
    let mut next: usize = start;
    while left > 0
        invariant
            next <= bytes@.len(),
            dec_words(bytes@, at as int) == dec_word_items(
                bytes@,
                next as int,
                left as nat,
                words@,
            ),
        decreases left,
    {
        match take_bounded(bytes, next, u32::MAX as u64) {
            Some((word, then)) => {
                words.push(word as u32);
                next = then;
                left -= 1;
            },
            None => {
                return None;
            },
        }
    }
    Some((words, next))
}

/// Reads the position at `at`.
pub fn take_position(bytes: &[u8], at: usize) -> (taken: Option<(Position, usize)>)
    ensures
        match taken {
            Some((position, next)) => dec_position(bytes@, at as int) == Some(
                (position@, next as int),
            ) && next <= bytes@.len(),
            None => dec_position(bytes@, at as int) is None,
        },
{
    match take_bounded(bytes, at, u32::MAX as u64) {
        Some((node, next)) => match take_words(bytes, next) {
            Some((scope, end)) => Some((Position::new(node as u32, scope), end)),
            None => None,
        },
        None => None,
    }
}

/// Reads the state of a call at `at`.
pub fn take_call_state(bytes: &[u8], at: usize) -> (taken: Option<(CallState, usize)>)
    ensures
        match taken {
            Some((state, next)) => dec_call_state(bytes@, at as int) == Some((state@, next as int))
                && next <= bytes@.len(),
            None => dec_call_state(bytes@, at as int) is None,
        },
{
    let (tag, next) = match take_u64(bytes, at) {
        Some(taken) => taken,
        None => {
            return None;
        },
    };
    if tag == 0 {
        Some((CallState::Requested, next))
    } else if tag == 1 {
        match take_bytes(bytes, next) {
            Some((value, end)) => Some((CallState::Succeeded { value }, end)),
            None => None,
        }
    } else if tag == 2 {
        match take_bounded(bytes, next, u32::MAX as u64) {
            Some((number, then)) => match take_bytes(bytes, then) {
                Some((message, end)) => Some(
                    (CallState::Failed { code: (number as i64 - 0x8000_0000i64) as i32, message }, end),
                ),
                None => None,
            },
            None => None,
        }
    } else {
        None
    }
}

/// Reads the state at `at`.
pub fn take_state(bytes: &[u8], at: usize) -> (taken: Option<(ExecutedState, usize)>)
    ensures
        match taken {
            Some((state, next)) => dec_state(bytes@, at as int) == Some((state@, next as int))
                && next <= bytes@.len(),
            None => dec_state(bytes@, at as int) is None,
        },
{
    let (tag, next) = match take_u64(bytes, at) {
        Some(taken) => taken,
        None => {
            return None;
        },
    };
    let (position, then) = match take_position(bytes, next) {
        Some(taken) => taken,
        None => {
            return None;
        },
    };
    if tag == 0 {
        let (request_id, after_id) = match take_bounded(bytes, then, u32::MAX as u64) {
            Some(taken) => taken,
            None => {
                return None;
            },
        };
        let (peer, after_peer) = match take_bytes(bytes, after_id) {
            Some(taken) => taken,
            None => {
                return None;
            },
        };
        match take_call_state(bytes, after_peer) {
            Some((state, end)) => Some(
                (ExecutedState::Call { position, request_id: request_id as u32, peer, state }, end),
            ),
            None => None,
        }
    } else if tag == 1 {
        let (iterations, after_count) = match take_bounded(bytes, then, u32::MAX as u64) {
            Some(taken) => taken,
            None => {
                return None;
            },
        };
        match take_u64(bytes, after_count) {
            Some((span, end)) => Some(
                (ExecutedState::Fold { position, iterations: iterations as u32, span }, end),
            ),
            None => None,
        }
    } else if tag == 2 {
        Some((ExecutedState::Skip { position }, then))
    } else {
        None
    }
}

/// Reads the trace at `at`.
pub fn take_trace(bytes: &[u8], at: usize) -> (taken: Option<(Vec<ExecutedState>, usize)>)
    ensures
        match taken {
            Some((trace, next)) => dec_trace(bytes@, at as int) == Some(
                (trace_view(trace@), next as int),
            ) && next <= bytes@.len(),
            None => dec_trace(bytes@, at as int) is None,
        },
{
    let (count, start) = match take_u64(bytes, at) {
        Some(taken) => taken,
        None => {
            return None;
        },
    };
    let mut trace: Vec<ExecutedState> = Vec::new();
    let mut left: u64 = count;
    let mut next: usize = start;
    assert(trace_view(trace@) =~= Seq::<ExecutedStateView>::empty());
    while left > 0
        invariant
            next <= bytes@.len(),
            dec_trace(bytes@, at as int) == dec_state_items(
                bytes@,
                next as int,
                left as nat,
                trace_view(trace@),
            ),
        decreases left,
    {
        match take_state(bytes, next) {
            Some((state, then)) => {
                let ghost before = trace_view(trace@);
                trace.push(state);
                assert(trace_view(trace@) =~= before.push(state@));
                next = then;
                left -= 1;
            },
            None => {
                return None;
            },
        }
    }
    Some((trace, next))
}

} // verus!
