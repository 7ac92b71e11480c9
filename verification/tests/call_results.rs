use air_core::call_results::collect_call_results;
use air_core::call_results::parse_request_id;
use air_core::call_results::read_call_results;
use air_core::call_results::CallResults;
use air_core::call_results::CallResultsError;
use air_core::call_results::CallServiceResult;
use air_core::call_results::RawCallResult;
use air_interpreter_sede::ToSerialized;

fn raw(key: &str, ret_code: i32, result: &str) -> RawCallResult {
    RawCallResult { key: key.as_bytes().to_vec(), ret_code, result: result.as_bytes().to_vec() }
}

#[test]
fn request_ids_are_read_from_decimal_writing() {
    assert_eq!(parse_request_id(b"0"), Some(0));
    assert_eq!(parse_request_id(b"7"), Some(7));
    assert_eq!(parse_request_id(b"1234"), Some(1234));
    assert_eq!(parse_request_id(b"4294967295"), Some(u32::MAX));
}

#[test]
fn request_ids_that_are_not_numbers_are_refused() {
    assert_eq!(parse_request_id(b""), None);
    assert_eq!(parse_request_id(b"01"), None);
    assert_eq!(parse_request_id(b"00"), None);
    assert_eq!(parse_request_id(b"-1"), None);
    assert_eq!(parse_request_id(b"+1"), None);
    assert_eq!(parse_request_id(b"12a"), None);
    assert_eq!(parse_request_id(b" 12"), None);
    assert_eq!(parse_request_id(b"4294967296"), None);
    assert_eq!(parse_request_id(b"99999999999999999999999999"), None);
}

#[test]
fn answers_are_gathered_under_their_identifiers() {
    let gathered =
        collect_call_results(vec![raw("2", 0, "two"), raw("10", 3, "ten"), raw("2", 1, "again")])
            .unwrap();
    assert_eq!(
        gathered.get(10),
        Some(&CallServiceResult { ret_code: 3, result: b"ten".to_vec() })
    );
    assert_eq!(
        gathered.get(2),
        Some(&CallServiceResult { ret_code: 1, result: b"again".to_vec() })
    );
    assert_eq!(gathered.get(3), None);
}

#[test]
fn answer_under_a_malformed_identifier_is_reported() {
    assert_eq!(
        collect_call_results(vec![raw("1", 0, "one"), raw("x", 0, "bad"), raw("y", 0, "bad")])
            .err(),
        Some(CallResultsError::MalformedRequestId { key: b"x".to_vec() })
    );
}

#[test]
fn first_malformed_identifier_is_reported_wherever_it_stands() {
    let orders = [
        ["zeta", "3", "alpha", "alp", "01"],
        ["01", "alp", "alpha", "3", "zeta"],
        ["alpha", "zeta", "01", "3", "alp"],
    ];
    for keys in orders {
        let given = keys.iter().map(|key| raw(key, 0, "")).collect();
        assert_eq!(
            collect_call_results(given).err(),
            Some(CallResultsError::MalformedRequestId { key: b"01".to_vec() })
        );
    }
    assert_eq!(
        collect_call_results(vec![raw("b", 0, ""), raw("", 0, ""), raw("a", 0, "")]).err(),
        Some(CallResultsError::MalformedRequestId { key: Vec::new() })
    );
    assert_eq!(
        collect_call_results(vec![raw("ab", 0, ""), raw("a", 0, ""), raw("abc", 0, "")]).err(),
        Some(CallResultsError::MalformedRequestId { key: b"a".to_vec() })
    );
}

#[test]
fn answers_are_read_from_the_hosts_encoding() {
    let mut given = air_interpreter_interface::CallResults::new();
    given.insert(
        String::from("1"),
        air_interpreter_interface::CallServiceResult { ret_code: 0, result: String::from("\"a\"") },
    );
    given.insert(
        String::from("12"),
        air_interpreter_interface::CallServiceResult { ret_code: 4, result: String::from("oops") },
    );
    let encoded = air_interpreter_interface::CallResultsRepr.serialize(&given).unwrap();
    let read = read_call_results(&encoded).unwrap();
    assert_eq!(
        read.get(1),
        Some(&CallServiceResult { ret_code: 0, result: b"\"a\"".to_vec() })
    );
    assert_eq!(
        read.get(12),
        Some(&CallServiceResult { ret_code: 4, result: b"oops".to_vec() })
    );
    assert_eq!(read.get(2), None);
}

#[test]
fn bytes_that_are_no_answers_are_refused() {
    assert_eq!(
        read_call_results(&[0xff, 0xff, 0xff]).err(),
        Some(CallResultsError::Undecodable { call_results: vec![0xff, 0xff, 0xff] })
    );
    assert_eq!(
        read_call_results(&[]).err(),
        Some(CallResultsError::Undecodable { call_results: Vec::new() })
    );
    let mut given = air_interpreter_interface::CallResults::new();
    given.insert(
        String::from("one"),
        air_interpreter_interface::CallServiceResult { ret_code: 0, result: String::new() },
    );
    given.insert(
        String::from("7"),
        air_interpreter_interface::CallServiceResult { ret_code: 0, result: String::new() },
    );
    given.insert(
        String::from("four"),
        air_interpreter_interface::CallServiceResult { ret_code: 0, result: String::new() },
    );
    let encoded = air_interpreter_interface::CallResultsRepr.serialize(&given).unwrap();
    assert_eq!(
        read_call_results(&encoded).err(),
        Some(CallResultsError::MalformedRequestId { key: b"four".to_vec() })
    );
}

#[test]
fn later_answer_to_a_request_replaces_the_earlier() {
    let mut results = CallResults::new();
    assert_eq!(results.get(1), None);
    results.insert(1, CallServiceResult { ret_code: 0, result: b"first".to_vec() });
    results.insert(2, CallServiceResult { ret_code: 0, result: b"other".to_vec() });
    results.insert(1, CallServiceResult { ret_code: 9, result: b"second".to_vec() });
    assert_eq!(
        results.get(1),
        Some(&CallServiceResult { ret_code: 9, result: b"second".to_vec() })
    );
    assert_eq!(
        results.get(2),
        Some(&CallServiceResult { ret_code: 0, result: b"other".to_vec() })
    );
}
