use air_core::codec::code_to_number;
use air_core::codec::put_bytes;
use air_core::codec::put_u64;
use air_core::codec::take_bytes;
use air_core::codec::take_state;
use air_core::codec::take_u64;
use air_core::codec::put_state;
use air_core::data::InterpreterData;
use air_core::trace::CallState;
use air_core::trace::ExecutedState;
use air_core::trace::Position;
use air_core::version::Version;
use air_core::version::Versions;

fn sample() -> InterpreterData {
    let mut data = InterpreterData::new(Version::new(0, 59, 1));
    data.last_call_request_id = 77;
    let ok = data.cid_info.intern(b"value").unwrap();
    let bad = data.cid_info.intern(b"message").unwrap();
    data.trace = vec![
        ExecutedState::Fold { position: Position::new(1, vec![]), iterations: 2, span: 3 },
        ExecutedState::Call {
            position: Position::new(2, vec![0]),
            request_id: 75,
            peer: b"peer a".to_vec(),
            state: CallState::Succeeded { value: ok },
        },
        ExecutedState::Call {
            position: Position::new(2, vec![1]),
            request_id: 76,
            peer: b"peer b".to_vec(),
            state: CallState::Failed { code: -3, message: bad },
        },
        ExecutedState::Skip { position: Position::new(3, vec![1, 4, 9]) },
        ExecutedState::Call {
            position: Position::new(4, vec![]),
            request_id: 77,
            peer: vec![],
            state: CallState::Requested,
        },
    ];
    data
}

#[test]
fn numbers_are_written_least_significant_byte_first() {
    let mut out = Vec::new();
    put_u64(&mut out, 0x0102);
    assert_eq!(out, vec![2, 1, 0, 0, 0, 0, 0, 0]);
    assert_eq!(take_u64(&out, 0), Some((0x0102, 8)));
    assert_eq!(take_u64(&out, 1), None);
    assert_eq!(take_u64(&[], 0), None);
}

#[test]
fn strings_are_written_behind_their_length() {
    let mut out = vec![9];
    put_bytes(&mut out, b"abc");
    assert_eq!(out, vec![9, 3, 0, 0, 0, 0, 0, 0, 0, b'a', b'b', b'c']);
    assert_eq!(take_bytes(&out, 1), Some((b"abc".to_vec(), 12)));
    assert_eq!(take_bytes(&out[..11], 1), None);
}

#[test]
fn return_codes_are_written_as_numbers_from_zero() {
    assert_eq!(code_to_number(i32::MIN), 0);
    assert_eq!(code_to_number(0), 0x8000_0000);
    assert_eq!(code_to_number(-1), 0x7fff_ffff);
    assert_eq!(code_to_number(i32::MAX), 0xffff_ffff);
}

#[test]
fn state_is_read_back_as_written() {
    let state = ExecutedState::Call {
        position: Position::new(8, vec![2, 3]),
        request_id: 5,
        peer: b"p".to_vec(),
        state: CallState::Failed { code: i32::MIN, message: b"m".to_vec() },
    };
    let mut out = Vec::new();
    put_state(&mut out, &state);
    let end = out.len();
    assert_eq!(take_state(&out, 0), Some((state, end)));
    assert_eq!(take_state(&out[..end - 1], 0), None);
}

#[test]
fn data_is_read_back_as_written() {
    let data = sample();
    let bytes = data.to_bytes();
    let read = InterpreterData::try_from_slice(&bytes).unwrap();
    assert_eq!(read.versions, data.versions);
    assert_eq!(read.last_call_request_id, 77);
    assert_eq!(read.trace, data.trace);
    assert_eq!(read.cid_info.len(), 2);
    for i in 0..2 {
        assert_eq!(read.cid_info.cid_at(i), data.cid_info.cid_at(i));
        assert_eq!(read.cid_info.value_at(i), data.cid_info.value_at(i));
    }
    let mut values = vec![read.cid_info.value_at(0).clone(), read.cid_info.value_at(1).clone()];
    values.sort();
    assert_eq!(values, vec![b"message".to_vec(), b"value".to_vec()]);
    assert_eq!(read.to_bytes(), bytes);
}

#[test]
fn data_with_the_same_values_is_written_as_the_same_bytes() {
    let mut one = InterpreterData::new(Version::new(0, 59, 1));
    let mut other = InterpreterData::new(Version::new(0, 59, 1));
    one.cid_info.intern(b"value").unwrap();
    one.cid_info.intern(b"message").unwrap();
    one.cid_info.intern(b"more").unwrap();
    other.cid_info.intern(b"more").unwrap();
    other.cid_info.intern(b"message").unwrap();
    other.cid_info.intern(b"value").unwrap();
    assert_eq!(one.to_bytes(), other.to_bytes());
    other.cid_info.intern(b"last").unwrap();
    assert_ne!(one.to_bytes(), other.to_bytes());
}

#[test]
fn fresh_data_has_a_fixed_encoding() {
    let bytes = InterpreterData::new(Version::new(1, 2, 3)).to_bytes();
    let mut expected = Vec::new();
    for number in [1u64, 2, 3, 0, 6, 0, 0, 0, 0] {
        expected.extend_from_slice(&number.to_le_bytes());
    }
    assert_eq!(bytes, expected);
    assert_eq!(bytes.len(), 72);
}

#[test]
fn trailing_or_missing_bytes_are_refused() {
    let bytes = sample().to_bytes();
    let mut longer = bytes.clone();
    longer.push(0);
    assert!(InterpreterData::try_from_slice(&longer).is_none());
    for cut in 0..bytes.len() {
        assert!(InterpreterData::try_from_slice(&bytes[..cut]).is_none());
    }
    assert!(InterpreterData::try_from_slice(&[]).is_none());
}

#[test]
fn table_with_two_values_under_one_cid_is_refused() {
    let mut bytes = Vec::new();
    for number in [0u64, 59, 0, 0, 6, 0, 0, 2] {
        put_u64(&mut bytes, number);
    }
    put_bytes(&mut bytes, b"cid");
    put_bytes(&mut bytes, b"one");
    put_bytes(&mut bytes, b"cid");
    put_bytes(&mut bytes, b"two");
    put_u64(&mut bytes, 0);
    assert!(InterpreterData::try_from_slice(&bytes).is_none());
    let end = bytes.len();
    bytes[end - 9] = b'e';
    bytes[end - 10] = b'n';
    bytes[end - 11] = b'o';
    let read = InterpreterData::try_from_slice(&bytes).unwrap();
    assert_eq!(read.cid_info.len(), 1);
}

#[test]
fn versions_are_recovered_from_the_head_of_malformed_data() {
    let bytes = sample().to_bytes();
    assert_eq!(
        InterpreterData::try_get_versions(&bytes[..50]),
        Some(Versions {
            interpreter_version: Version::new(0, 59, 1),
            data_version: Version::new(0, 6, 0),
        })
    );
    assert_eq!(InterpreterData::try_get_versions(&bytes[..47]), None);
}

#[test]
fn versions_are_ordered_from_major_to_patch() {
    assert!(Version::new(0, 53, 9).is_older_than(&Version::new(0, 54, 0)));
    assert!(Version::new(0, 54, 0).is_older_than(&Version::new(0, 54, 1)));
    assert!(Version::new(0, 99, 99).is_older_than(&Version::new(1, 0, 0)));
    assert!(!Version::new(0, 54, 0).is_older_than(&Version::new(0, 54, 0)));
    assert!(!Version::new(1, 0, 0).is_older_than(&Version::new(0, 99, 99)));
}
