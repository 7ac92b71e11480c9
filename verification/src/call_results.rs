//! The answers that the host supplies at the start of a round, each under
//! the identifier of the request that it answers.

use vstd::prelude::*;
use std::collections::HashMap;
use air_interpreter_interface::CallResultsRepr;
use air_interpreter_sede::FromSerialized;
use crate::bytes::bytes_less;
use crate::bytes::copy_bytes;
use crate::bytes::lemma_lex_one_way;
use crate::bytes::lemma_lex_total;
use crate::bytes::lemma_lex_transitive;
use crate::bytes::lex_lt;

verus! {

broadcast use vstd::std_specs::hash::group_hash_axioms;

/// The return code of a call that succeeded.
pub const CALL_SERVICE_SUCCESS: i32 = 0;

/// What the host answered to one request: a return code, and the bytes of
/// the value or of the error message.
#[derive(Debug, PartialEq, Eq)]
pub struct CallServiceResult {
    pub ret_code: i32,
    pub result: Vec<u8>,
}

/// An answer in terms of what its bytes stand for.
pub struct CallServiceResultView {
    pub ret_code: i32,
    pub result: Seq<u8>,
}

impl View for CallServiceResult {
    type V = CallServiceResultView;

    open spec fn view(&self) -> CallServiceResultView {
        CallServiceResultView { ret_code: self.ret_code, result: self.result@ }
    }
}

/// One answer as it comes out of the host's encoding: the identifier still
/// in writing.
#[derive(Debug, PartialEq, Eq)]
pub struct RawCallResult {
    pub key: Vec<u8>,
    pub ret_code: i32,
    pub result: Vec<u8>,
}

/// The answers that the host's encoding holds, each under its key as it is
/// written, where the bytes are such an encoding.
pub uninterp spec fn decoded_answers(raw: Seq<u8>) -> Option<Map<Seq<u8>, (i32, Seq<u8>)>>;

/// The map that a list of decoded answers stands for; of two answers under
/// one key the later one counts.
pub open spec fn written_map(decoded: Seq<RawCallResult>) -> Map<Seq<u8>, (i32, Seq<u8>)>
    decreases decoded.len(),
{
    if decoded.len() == 0 {
        Map::empty()
    } else {
        written_map(decoded.drop_last()).insert(
            decoded.last().key@,
            (decoded.last().ret_code, decoded.last().result@),
        )
    }
}

/// No key occurs twice.
pub open spec fn distinct_written_keys(decoded: Seq<RawCallResult>) -> bool {
    forall|i: int, j: int|
        0 <= i < j < decoded.len() ==> (#[trigger] decoded[i]).key@ != (#[trigger] decoded[j]).key@
}

/// `CallResultsRepr.deserialize` of the `air-interpreter-interface` crate:
/// reads the host's encoding of its answers into a hash map, whose entries
/// are handed out one by one, in the order in which the map is walked.
/// Whether the bytes decode, and to which map, is a function of the bytes
/// alone, which `decoded_answers` names; the order of the entries is not,
/// and nothing is claimed of it. A hash map holds every key once.
#[verifier::external_body]
fn decode_call_results(raw: &[u8]) -> (decoded: Option<Vec<RawCallResult>>)
    ensures
        match decoded {
            Some(entries) => distinct_written_keys(entries@) && decoded_answers(raw@) == Some(
                written_map(entries@),
            ),
            None => decoded_answers(raw@) is None,
        },
{
    match CallResultsRepr.deserialize(raw) {
        Ok(results) => Some(
            results.into_iter().map(
                |(key, answer)|
                    RawCallResult {
                        key: key.into_bytes(),
                        ret_code: answer.ret_code,
                        result: answer.result.into_bytes(),
                    },
            ).collect(),
        ),
        Err(_) => None,
    }
}

/// Why the host's answers were refused.
#[derive(Debug, PartialEq, Eq)]
pub enum CallResultsError {
    /// The bytes, which are handed back as they came, are no encoding of
    /// answers.
    Undecodable { call_results: Vec<u8> },
    /// An answer stands under `key`, which writes no request identifier. Of
    /// several such keys the first in the order of a dictionary is reported.
    MalformedRequestId { key: Vec<u8> },
}

/// A decimal digit in writing.
pub open spec fn is_digit(byte: u8) -> bool {
    48 <= byte <= 57
}

/// The number that a string of digits writes.
pub open spec fn decimal_value(digits: Seq<u8>) -> nat
    decreases digits.len(),
{
    if digits.len() == 0 {
        0
    } else {
        decimal_value(digits.drop_last()) * 10 + (digits.last() - 48) as nat
    }
}

/// A number in writing: one digit or more, all of them digits, and no zero
/// in front of another digit.
pub open spec fn is_decimal(text: Seq<u8>) -> bool {
    &&& text.len() > 0
    &&& forall|i: int| 0 <= i < text.len() ==> is_digit(#[trigger] text[i])
    &&& text.len() > 1 ==> text[0] != 48
}

/// The request identifier that `text` writes, if it writes one.
pub open spec fn request_id_of(text: Seq<u8>) -> Option<u32> {
    if is_decimal(text) && decimal_value(text) <= u32::MAX {
        Some(decimal_value(text) as u32)
    } else {
        None
    }
}

/// The number that the first digits of a string write is no larger than
/// the number that all of them write.
proof fn lemma_decimal_value_grows(digits: Seq<u8>, n: int)
    requires
        0 <= n <= digits.len(),
        forall|i: int| 0 <= i < digits.len() ==> is_digit(#[trigger] digits[i]),
    ensures
        decimal_value(digits.take(n)) <= decimal_value(digits),
    decreases digits.len(),
{
    if n == digits.len() {
        assert(digits.take(n) =~= digits);
    } else {
        lemma_decimal_value_grows(digits.drop_last(), n);
        assert(digits.drop_last().take(n) =~= digits.take(n));
    }
}

/// Reads a request identifier.
pub fn parse_request_id(text: &[u8]) -> (id: Option<u32>)
    ensures
        id == request_id_of(text@),
{
    if text.len() == 0 {
        return None;
    }
    if text.len() > 1 && text[0] == 48 {
        return None;
    }
    let mut value: u64 = 0;
    let mut i: usize = 0;
    while i < text.len()
        invariant
            i <= text.len(),
            forall|j: int| 0 <= j < i ==> is_digit(#[trigger] text@[j]),
            value == decimal_value(text@.take(i as int)),
            value <= u32::MAX,
        decreases text.len() - i,
    {
        let byte = text[i];
        if byte < 48 || byte > 57 {
            return None;
        }
        assert(text@.take(i + 1).drop_last() =~= text@.take(i as int));
        value = value * 10 + (byte - 48) as u64;
        i += 1;
        if value > u32::MAX as u64 {
            proof {
                if is_decimal(text@) {
                    lemma_decimal_value_grows(text@, i as int);
                }
            }
            return None;
        }
    }
    assert(text@.take(i as int) =~= text@);
    Some(value as u32)
}

/// The answers of the host, by request identifier.
#[derive(Debug)]
pub struct CallResults {
    answers: HashMap<u32, CallServiceResult>,
}

impl View for CallResults {
    type V = Map<u32, CallServiceResultView>;

    closed spec fn view(&self) -> Map<u32, CallServiceResultView> {
        self.answers@.map_values(|answer: CallServiceResult| answer@)
    }
}

impl CallResults {
    /// No answers at all.
    pub fn new() -> (results: CallResults)
        ensures
            results@ == Map::<u32, CallServiceResultView>::empty(),
    {
        let results = CallResults { answers: HashMap::new() };
        assert(results@ =~= Map::<u32, CallServiceResultView>::empty());
        results
    }

    /// Puts the answer to request `id` in; an earlier answer to the same
    /// request gives way.
    pub fn insert(&mut self, id: u32, answer: CallServiceResult)
        ensures
            final(self)@ == old(self)@.insert(id, answer@),
    {
        self.answers.insert(id, answer);
        assert(self@ =~= old(self)@.insert(id, answer@));
    }

    /// The answer to request `id`, if the host has given one.
    pub fn get(&self, id: u32) -> (found: Option<&CallServiceResult>)
        ensures
            match found {
                Some(answer) => self@.dom().contains(id) && answer@ == self@[id],
                None => !self@.dom().contains(id),
            },
    {
        self.answers.get(&id)
    }
}

/// The request identifier that the answer at each place stands under reads.
pub open spec fn all_keys_readable(raw: Seq<RawCallResult>) -> bool {
    forall|i: int| 0 <= i < raw.len() ==> request_id_of((#[trigger] raw[i]).key@) is Some
}

/// The answers of `raw`, each under the identifier that its key writes.
pub open spec fn collected(raw: Seq<RawCallResult>) -> Map<u32, CallServiceResultView>
    decreases raw.len(),
{
    if raw.len() == 0 {
        Map::empty()
    } else {
        collected(raw.drop_last()).insert(
            request_id_of(raw.last().key@).unwrap(),
            CallServiceResultView { ret_code: raw.last().ret_code, result: raw.last().result@ },
        )
    }
}

/// The key at place `i` writes no request identifier, and is the first of
/// the keys that write none, in the order of a dictionary.
pub open spec fn first_unreadable_at(raw: Seq<RawCallResult>, i: int) -> bool {
    &&& 0 <= i < raw.len()
    &&& request_id_of(raw[i].key@) is None
    &&& forall|j: int|
        0 <= j < raw.len() && request_id_of((#[trigger] raw[j]).key@) is None ==> raw[j].key@
            == raw[i].key@ || lex_lt(raw[i].key@, raw[j].key@)
}

/// Looks for the first key, in the order of a dictionary, that writes no
/// request identifier.
fn first_unreadable(raw: &Vec<RawCallResult>) -> (found: Option<usize>)
    ensures
        match found {
            Some(i) => first_unreadable_at(raw@, i as int),
            None => all_keys_readable(raw@),
        },
{
    let mut found: Option<usize> = None;
    let mut i: usize = 0;
    while i < raw.len()
        invariant
            i <= raw@.len(),
            match found {
                Some(at) => first_unreadable_at(raw@.take(i as int), at as int),
                None => all_keys_readable(raw@.take(i as int)),
            },
        decreases raw@.len() - i,
    {
        let ghost seen = raw@.take(i as int);
        let ghost next = raw@.take(i + 1);
        assert(forall|j: int| 0 <= j < i ==> seen[j] == next[j]);
        assert(next[i as int] == raw@[i as int]);
        if parse_request_id(raw[i].key.as_slice()).is_none() {
            match found {
                Some(at) => {
                    if bytes_less(raw[i].key.as_slice(), raw[at].key.as_slice()) {
                        proof {
                            assert forall|j: int|
                                0 <= j < next.len() && request_id_of(
                                    (#[trigger] next[j]).key@,
                                ) is None implies next[j].key@ == next[i as int].key@ || lex_lt(
                                next[i as int].key@,
                                next[j].key@,
                            ) by {
                                if j < i {
                                    assert(seen[j].key@ == seen[at as int].key@ || lex_lt(
                                        seen[at as int].key@,
                                        seen[j].key@,
                                    ));
                                    if seen[j].key@ != seen[at as int].key@ {
                                        lemma_lex_transitive(
                                            raw@[i as int].key@,
                                            seen[at as int].key@,
                                            seen[j].key@,
                                        );
                                    }
                                }
                            }
                        }
                        found = Some(i);
                    } else {
                        proof {
                            lemma_lex_total(raw@[i as int].key@, raw@[at as int].key@);
                            assert forall|j: int|
                                0 <= j < next.len() && request_id_of(
                                    (#[trigger] next[j]).key@,
                                ) is None implies next[j].key@ == next[at as int].key@ || lex_lt(
                                next[at as int].key@,
                                next[j].key@,
                            ) by {
                                if j < i {
                                    assert(seen[j].key@ == seen[at as int].key@ || lex_lt(
                                        seen[at as int].key@,
                                        seen[j].key@,
                                    ));
                                }
                            }
                        }
                    }
                },
                None => {
                    proof {
                        assert forall|j: int|
                            0 <= j < next.len() && request_id_of(
                                (#[trigger] next[j]).key@,
                            ) is None implies next[j].key@ == next[i as int].key@ || lex_lt(
                            next[i as int].key@,
                            next[j].key@,
                        ) by {
                            if j < i {
                                assert(request_id_of(seen[j].key@) is Some);
                            }
                        }
                    }
                    found = Some(i);
                },
            }
        } else {
            proof {
                match found {
                    Some(at) => {
                        assert forall|j: int|
                            0 <= j < next.len() && request_id_of(
                                (#[trigger] next[j]).key@,
                            ) is None implies next[j].key@ == next[at as int].key@ || lex_lt(
                            next[at as int].key@,
                            next[j].key@,
                        ) by {
                            if j < i {
                                assert(seen[j].key@ == seen[at as int].key@ || lex_lt(
                                    seen[at as int].key@,
                                    seen[j].key@,
                                ));
                            }
                        }
                    },
                    None => {
                        assert forall|j: int| 0 <= j < next.len() implies request_id_of(
                            (#[trigger] next[j]).key@,
                        ) is Some by {
                            if j < i {
                                assert(request_id_of(seen[j].key@) is Some);
                            }
                        }
                    },
                }
            }
        }
        i += 1;
    }
    assert(raw@.take(i as int) =~= raw@);
    found
}

/// Gathers decoded answers under their request identifiers. Every key must
/// write an identifier; of those that write none, the first in the order of
/// a dictionary is reported.
pub fn collect_call_results(raw: Vec<RawCallResult>) -> (gathered: Result<
    CallResults,
    CallResultsError,
>)
    ensures
        match gathered {
            Ok(results) => all_keys_readable(raw@) && results@ == collected(raw@),
            Err(CallResultsError::MalformedRequestId { key }) => exists|i: int|
                #[trigger] first_unreadable_at(raw@, i) && key@ == raw@[i].key@,
            Err(_) => false,
        },
{
    match first_unreadable(&raw) {
        Some(at) => {
            return Err(
                CallResultsError::MalformedRequestId { key: copy_bytes(raw[at].key.as_slice()) },
            );
        },
        None => {},
    }
    let mut results = CallResults::new();
    let mut i: usize = 0;
    assert(raw@.take(0) =~= Seq::<RawCallResult>::empty());
    while i < raw.len()
        invariant
            i <= raw@.len(),
            all_keys_readable(raw@),
            results@ == collected(raw@.take(i as int)),
        decreases raw@.len() - i,
    {
        let entry = &raw[i];
        match parse_request_id(entry.key.as_slice()) {
            Some(id) => {
                let answer = CallServiceResult {
                    ret_code: entry.ret_code,
                    result: entry.result.clone(),
                };
                results.insert(id, answer);
                proof {
                    assert(raw@.take(i + 1).drop_last() =~= raw@.take(i as int));
                    assert(raw@.take(i + 1).last() == raw@[i as int]);
                }
            },
            None => {
                assert(request_id_of(raw@[i as int].key@) is Some);
            },
        }
        i += 1;
    }
    assert(raw@.take(i as int) =~= raw@);
    Ok(results)
}

/// Every key of the map writes a request identifier.
pub open spec fn all_readable(written: Map<Seq<u8>, (i32, Seq<u8>)>) -> bool {
    forall|key: Seq<u8>| #[trigger] written.dom().contains(key) ==> request_id_of(key) is Some
}

/// The key of `written` that writes the request identifier `id`.
pub open spec fn key_of(written: Map<Seq<u8>, (i32, Seq<u8>)>, id: u32) -> Seq<u8> {
    choose|key: Seq<u8>| written.dom().contains(key) && request_id_of(key) == Some(id)
}

/// The answers of `written`, each under the request identifier that its
/// key writes.
pub open spec fn answers_by_id(written: Map<Seq<u8>, (i32, Seq<u8>)>) -> Map<
    u32,
    CallServiceResultView,
> {
    Map::new(
        |id: u32|
            exists|key: Seq<u8>| written.dom().contains(key) && request_id_of(key) == Some(id),
        |id: u32|
            CallServiceResultView {
                ret_code: written[key_of(written, id)].0,
                result: written[key_of(written, id)].1,
            },
    )
}

/// Ten to the power of `n`.
pub open spec fn pow10(n: nat) -> nat
    decreases n,
{
    if n == 0 {
        1
    } else {
        10 * pow10((n - 1) as nat)
    }
}

/// The powers of ten rise.
proof fn lemma_pow10_rises(low: nat, high: nat)
    requires
        low <= high,
    ensures
        pow10(low) <= pow10(high),
        pow10(low) >= 1,
    decreases high,
{
    if low < high {
        lemma_pow10_rises(low, (high - 1) as nat);
    } else if low > 0 {
        lemma_pow10_rises((low - 1) as nat, (low - 1) as nat);
    }
}

/// A string of `n` digits writes a number below ten to the `n`, and one
/// that does not start with a zero writes no less than ten to the `n - 1`.
proof fn lemma_decimal_value_bounds(digits: Seq<u8>)
    requires
        forall|i: int| 0 <= i < digits.len() ==> is_digit(#[trigger] digits[i]),
    ensures
        decimal_value(digits) < pow10(digits.len()),
        digits.len() > 0 && digits[0] != 48 ==> decimal_value(digits) >= pow10(
            (digits.len() - 1) as nat,
        ),
    decreases digits.len(),
{
    if digits.len() > 0 {
        let front = digits.drop_last();
        assert forall|i: int| 0 <= i < front.len() implies is_digit(#[trigger] front[i]) by {
            assert(front[i] == digits[i]);
        }
        lemma_decimal_value_bounds(front);
        assert(is_digit(digits[digits.len() - 1]));
        if digits.len() > 1 {
            assert(front[0] == digits[0]);
        }
    }
}

/// Two strings of digits of one length that write one number are one
/// string.
proof fn lemma_same_length_same_digits(one: Seq<u8>, other: Seq<u8>)
    requires
        forall|i: int| 0 <= i < one.len() ==> is_digit(#[trigger] one[i]),
        forall|i: int| 0 <= i < other.len() ==> is_digit(#[trigger] other[i]),
        one.len() == other.len(),
        decimal_value(one) == decimal_value(other),
    ensures
        one == other,
    decreases one.len(),
{
    if one.len() > 0 {
        let a = one.drop_last();
        let b = other.drop_last();
        assert forall|i: int| 0 <= i < a.len() implies is_digit(#[trigger] a[i]) by {
            assert(a[i] == one[i]);
        }
        assert forall|i: int| 0 <= i < b.len() implies is_digit(#[trigger] b[i]) by {
            assert(b[i] == other[i]);
        }
        assert(is_digit(one[one.len() - 1]));
        assert(is_digit(other[other.len() - 1]));
        lemma_same_length_same_digits(a, b);
        assert(one =~= a.push(one.last()));
        assert(other =~= b.push(other.last()));
    }
    assert(one =~= other);
}

/// A request identifier is written in one way only.
pub proof fn lemma_request_id_is_written_once(one: Seq<u8>, other: Seq<u8>)
    requires
        request_id_of(one) is Some,
        request_id_of(one) == request_id_of(other),
    ensures
        one == other,
{
    lemma_decimal_value_bounds(one);
    lemma_decimal_value_bounds(other);
    if one.len() == other.len() {
        lemma_same_length_same_digits(one, other);
    } else if one.len() < other.len() {
        lemma_pow10_rises(one.len(), (other.len() - 1) as nat);
    } else {
        lemma_pow10_rises(other.len(), (one.len() - 1) as nat);
    }
}

/// Every key of the map that a list stands for is the key of an entry.
proof fn lemma_written_map_witness(decoded: Seq<RawCallResult>, key: Seq<u8>) -> (i: int)
    requires
        written_map(decoded).dom().contains(key),
    ensures
        0 <= i < decoded.len(),
        decoded[i].key@ == key,
    decreases decoded.len(),
{
    if decoded.last().key@ == key {
        decoded.len() - 1
    } else {
        lemma_written_map_witness(decoded.drop_last(), key)
    }
}

/// Every entry of a list is in the map that the list stands for, and as it
/// stands where no key occurs twice.
proof fn lemma_written_map_present(decoded: Seq<RawCallResult>, i: int)
    requires
        0 <= i < decoded.len(),
    ensures
        written_map(decoded).dom().contains(decoded[i].key@),
        distinct_written_keys(decoded) ==> written_map(decoded)[decoded[i].key@] == (
            decoded[i].ret_code,
            decoded[i].result@,
        ),
    decreases decoded.len(),
{
    if i < decoded.len() - 1 {
        let front = decoded.drop_last();
        lemma_written_map_present(front, i);
        if distinct_written_keys(decoded) {
            assert(distinct_written_keys(front)) by {
                assert forall|a: int, b: int| 0 <= a < b < front.len() implies (
                #[trigger] front[a]).key@ != (#[trigger] front[b]).key@ by {
                    assert(decoded[a].key@ != decoded[b].key@);
                }
            }
            assert(decoded[i].key@ != decoded[decoded.len() - 1].key@);
        }
    }
}

/// Every request that the gathered answers answer is written by the key of
/// an entry.
proof fn lemma_collected_witness(decoded: Seq<RawCallResult>, id: u32) -> (i: int)
    requires
        collected(decoded).dom().contains(id),
    ensures
        0 <= i < decoded.len(),
        request_id_of(decoded[i].key@).unwrap() == id,
    decreases decoded.len(),
{
    if request_id_of(decoded.last().key@).unwrap() == id {
        decoded.len() - 1
    } else {
        lemma_collected_witness(decoded.drop_last(), id)
    }
}

/// Where no key occurs twice and every key writes a request identifier,
/// every entry is among the gathered answers as it stands.
proof fn lemma_collected_present(decoded: Seq<RawCallResult>, i: int)
    requires
        0 <= i < decoded.len(),
        distinct_written_keys(decoded),
        all_keys_readable(decoded),
    ensures
        collected(decoded).dom().contains(request_id_of(decoded[i].key@).unwrap()),
        collected(decoded)[request_id_of(decoded[i].key@).unwrap()] == (CallServiceResultView {
            ret_code: decoded[i].ret_code,
            result: decoded[i].result@,
        }),
    decreases decoded.len(),
{
    if i < decoded.len() - 1 {
        let front = decoded.drop_last();
        assert(distinct_written_keys(front)) by {
            assert forall|a: int, b: int| 0 <= a < b < front.len() implies (
            #[trigger] front[a]).key@ != (#[trigger] front[b]).key@ by {
                assert(decoded[a].key@ != decoded[b].key@);
            }
        }
        assert(all_keys_readable(front)) by {
            assert forall|a: int| 0 <= a < front.len() implies request_id_of(
                (#[trigger] front[a]).key@,
            ) is Some by {
                assert(front[a] == decoded[a]);
            }
        }
        lemma_collected_present(front, i);
        let last = decoded[decoded.len() - 1];
        assert(decoded[i].key@ != last.key@);
        assert(request_id_of(decoded[i].key@) is Some);
        assert(request_id_of(last.key@) is Some);
        if request_id_of(decoded[i].key@) == request_id_of(last.key@) {
            lemma_request_id_is_written_once(decoded[i].key@, last.key@);
        }
    }
}

/// The answers gathered from a list whose keys are all different and all
/// write request identifiers are the answers of the map that the list
/// stands for, whatever the order of the list.
pub proof fn lemma_collected_by_id(decoded: Seq<RawCallResult>)
    requires
        distinct_written_keys(decoded),
        all_keys_readable(decoded),
    ensures
        all_readable(written_map(decoded)),
        collected(decoded) == answers_by_id(written_map(decoded)),
{
    let written = written_map(decoded);
    assert forall|key: Seq<u8>| #[trigger] written.dom().contains(key) implies request_id_of(key)
        is Some by {
        let i = lemma_written_map_witness(decoded, key);
    }
    assert forall|id: u32| collected(decoded).dom().contains(id) == answers_by_id(
        written,
    ).dom().contains(id) by {
        if collected(decoded).dom().contains(id) {
            let i = lemma_collected_witness(decoded, id);
            lemma_written_map_present(decoded, i);
            assert(written.dom().contains(decoded[i].key@) && request_id_of(decoded[i].key@)
                == Some(id));
        }
        if answers_by_id(written).dom().contains(id) {
            let key = key_of(written, id);
            let i = lemma_written_map_witness(decoded, key);
            lemma_collected_present(decoded, i);
        }
    }
    assert forall|id: u32| collected(decoded).dom().contains(id) implies collected(decoded)[id]
        == answers_by_id(written)[id] by {
        let i = lemma_collected_witness(decoded, id);
        lemma_written_map_present(decoded, i);
        assert(written.dom().contains(decoded[i].key@) && request_id_of(decoded[i].key@) == Some(
            id,
        ));
        let key = key_of(written, id);
        lemma_request_id_is_written_once(key, decoded[i].key@);
        lemma_collected_present(decoded, i);
    }
    assert(collected(decoded) =~= answers_by_id(written));
}

/// The answers that the host's bytes hold, each under the request
/// identifier that its key writes, where the bytes decode and every key
/// writes an identifier.
pub open spec fn answers_read(raw: Seq<u8>) -> Option<Map<u32, CallServiceResultView>> {
    match decoded_answers(raw) {
        Some(written) => if all_readable(written) {
            Some(answers_by_id(written))
        } else {
            None
        },
        None => None,
    }
}

/// `key` is a key of `written` that writes no request identifier, and the
/// first of those in the order of a dictionary.
pub open spec fn first_unreadable_key(written: Map<Seq<u8>, (i32, Seq<u8>)>, key: Seq<u8>) -> bool {
    &&& written.dom().contains(key)
    &&& request_id_of(key) is None
    &&& forall|other: Seq<u8>|
        #[trigger] written.dom().contains(other) && request_id_of(other) is None ==> other == key
            || lex_lt(key, other)
}

/// `reason` says why the bytes hold no answers: they do not decode, and are
/// then handed back; or a key of what they hold writes no request
/// identifier, and then the first such key is reported.
pub open spec fn unreadable_as(raw: Seq<u8>, reason: CallResultsError) -> bool {
    &&& answers_read(raw) is None
    &&& match reason {
        CallResultsError::Undecodable { call_results } => decoded_answers(raw) is None
            && call_results@ == raw,
        CallResultsError::MalformedRequestId { key } => decoded_answers(raw) matches Some(written)
            && first_unreadable_key(written, key@),
    }
}

/// Bytes that hold no answers are refused for one reason only: the kind of
/// the error and what it carries follow from the bytes.
pub proof fn law_one_reason(raw: Seq<u8>, one: CallResultsError, other: CallResultsError)
    requires
        unreadable_as(raw, one),
        unreadable_as(raw, other),
    ensures
        one matches CallResultsError::Undecodable { call_results: first } ==> (
        other matches CallResultsError::Undecodable { call_results: second } && first@ == second@),
        one matches CallResultsError::MalformedRequestId { key: first } ==> (
        other matches CallResultsError::MalformedRequestId { key: second } && first@ == second@),
{
    match (one, other) {
        (
            CallResultsError::MalformedRequestId { key: first },
            CallResultsError::MalformedRequestId { key: second },
        ) => {
            lemma_lex_one_way(first@, second@);
        },
        _ => {},
    }
}

/// `read` is what reading the bytes gives: their answers, or why they hold
/// none.
pub open spec fn read_as(raw: Seq<u8>, read: Result<CallResults, CallResultsError>) -> bool {
    match read {
        Ok(results) => answers_read(raw) == Some(results@),
        Err(reason) => unreadable_as(raw, reason),
    }
}

/// The answers that were read, or `None` where none were.
pub open spec fn answers_of_read(read: Result<CallResults, CallResultsError>) -> Option<
    Map<u32, CallServiceResultView>,
> {
    match read {
        Ok(results) => Some(results@),
        Err(_) => None,
    }
}

/// Reads the host's encoding of its answers: the bytes must decode, and
/// every key of what they hold must write a request identifier. The answers
/// then stand each under the identifier that its key writes.
pub fn read_call_results(raw: &[u8]) -> (read: Result<CallResults, CallResultsError>)
    ensures
        read_as(raw@, read),
{
    match decode_call_results(raw) {
        Some(decoded) => {
            let ghost entries = decoded@;
            match collect_call_results(decoded) {
                Ok(results) => {
                    proof {
                        lemma_collected_by_id(entries);
                    }
                    Ok(results)
                },
                Err(CallResultsError::MalformedRequestId { key }) => {
                    proof {
                        let at = choose|i: int|
                            #[trigger] first_unreadable_at(entries, i) && key@ == entries[i].key@;
                        lemma_written_map_present(entries, at);
                        assert forall|other: Seq<u8>|
                            #[trigger] written_map(entries).dom().contains(other) && request_id_of(
                                other,
                            ) is None implies other == key@ || lex_lt(key@, other) by {
                            let j = lemma_written_map_witness(entries, other);
                            assert(entries[j].key@ == other);
                        }
                    }
                    Err(CallResultsError::MalformedRequestId { key })
                },
                Err(CallResultsError::Undecodable { call_results }) => Err(
                    CallResultsError::Undecodable { call_results },
                ),
            }
        },
        None => Err(CallResultsError::Undecodable { call_results: copy_bytes(raw) }),
    }
}

} // verus!
