use air_core::cid::CidCollision;
use air_core::cid::UnknownCid;
use air_core::cid::CidTable;

fn abc_digest() -> Vec<u8> {
    vec![
        0xba, 0x78, 0x16, 0xbf, 0x8f, 0x01, 0xcf, 0xea, 0x41, 0x41, 0x40, 0xde, 0x5d, 0xae, 0x22,
        0x23, 0xb0, 0x03, 0x61, 0xa3, 0x96, 0x17, 0x7a, 0x9c, 0xb4, 0x10, 0xff, 0x61, 0xf2, 0x00,
        0x15, 0xad,
    ]
}

#[test]
fn intern_returns_the_sha256_digest() {
    let mut table = CidTable::new();
    let cid = table.intern(b"abc").unwrap();
    assert_eq!(cid, abc_digest());
    assert_ne!(cid, b"abc".to_vec());
    assert_eq!(table.len(), 1);
    assert_eq!(table.resolve(&cid).unwrap(), b"abc".to_vec());
}

#[test]
fn interning_twice_is_idempotent() {
    let mut table = CidTable::new();
    let first = table.intern(b"some value").unwrap();
    let size = table.len();
    let second = table.intern(b"some value").unwrap();
    assert_eq!(first, second);
    assert_eq!(table.len(), size);
    assert_eq!(table.len(), 1);
}

#[test]
fn interning_different_values_grows_the_table() {
    let mut table = CidTable::new();
    let first = table.intern(b"one").unwrap();
    let second = table.intern(b"two").unwrap();
    assert_ne!(first, second);
    assert_eq!(table.len(), 2);
    assert_eq!(table.resolve(&first).unwrap(), b"one".to_vec());
    assert_eq!(table.resolve(&second).unwrap(), b"two".to_vec());
    let (low, high) = if first < second { (&first, &second) } else { (&second, &first) };
    assert_eq!(table.cid_at(0), low);
    assert_eq!(table.cid_at(1), high);
    assert_eq!(table.value_at(0), &table.resolve(low).unwrap());
    assert_eq!(table.value_at(1), &table.resolve(high).unwrap());
}

#[test]
fn entries_stand_in_the_order_of_their_identifiers() {
    let mut table = CidTable::new();
    table.insert(&[2, 0], b"third").unwrap();
    table.insert(&[1, 9, 9], b"second").unwrap();
    table.insert(&[3], b"fifth").unwrap();
    table.insert(&[], b"first").unwrap();
    table.insert(&[2, 0, 0], b"fourth").unwrap();
    assert_eq!(table.len(), 5);
    assert_eq!(table.cid_at(0), &Vec::<u8>::new());
    assert_eq!(table.cid_at(1), &vec![1u8, 9, 9]);
    assert_eq!(table.cid_at(2), &vec![2u8, 0]);
    assert_eq!(table.cid_at(3), &vec![2u8, 0, 0]);
    assert_eq!(table.cid_at(4), &vec![3u8]);
    assert_eq!(table.value_at(0), &b"first".to_vec());
    assert_eq!(table.value_at(1), &b"second".to_vec());
    assert_eq!(table.value_at(2), &b"third".to_vec());
    assert_eq!(table.value_at(3), &b"fourth".to_vec());
    assert_eq!(table.value_at(4), &b"fifth".to_vec());
}

#[test]
fn order_of_interning_does_not_show_in_the_table() {
    let mut one = CidTable::new();
    let mut other = CidTable::new();
    for value in [&b"a"[..], b"b", b"c", b"d"] {
        one.intern(value).unwrap();
    }
    for value in [&b"d"[..], b"b", b"a", b"c"] {
        other.intern(value).unwrap();
    }
    assert_eq!(one.len(), other.len());
    for i in 0..one.len() {
        assert_eq!(one.cid_at(i), other.cid_at(i));
        assert_eq!(one.value_at(i), other.value_at(i));
    }
}

#[test]
fn resolve_of_an_unknown_cid_fails() {
    let mut table = CidTable::new();
    table.intern(b"one").unwrap();
    assert!(!table.contains(b"nothing"));
    assert_eq!(
        table.resolve(b"nothing"),
        Err(UnknownCid { cid: b"nothing".to_vec() })
    );
}

#[test]
fn empty_table_resolves_nothing() {
    let table = CidTable::new();
    assert_eq!(table.len(), 0);
    assert_eq!(table.resolve(b""), Err(UnknownCid { cid: vec![] }));
}

#[test]
fn insert_refuses_another_value_under_a_held_cid() {
    let mut table = CidTable::new();
    assert_eq!(table.insert(b"k", b"v"), Ok(()));
    assert_eq!(table.insert(b"k", b"v"), Ok(()));
    assert_eq!(table.len(), 1);
    assert_eq!(
        table.insert(b"k", b"w"),
        Err(CidCollision { cid: b"k".to_vec() })
    );
    assert_eq!(table.len(), 1);
    assert_eq!(table.resolve(b"k").unwrap(), b"v".to_vec());
}

#[test]
fn interning_collides_with_a_forged_entry() {
    let mut table = CidTable::new();
    table.insert(&abc_digest(), b"not abc").unwrap();
    assert_eq!(
        table.intern(b"abc"),
        Err(CidCollision { cid: abc_digest() })
    );
    assert_eq!(table.len(), 1);
}

#[test]
fn merge_joins_tables_that_agree() {
    let mut previous = CidTable::new();
    previous.insert(b"a", b"1").unwrap();
    previous.insert(b"b", b"2").unwrap();
    let mut current = CidTable::new();
    current.insert(b"b", b"2").unwrap();
    current.insert(b"c", b"3").unwrap();
    let merged = CidTable::merge(previous, &current).unwrap();
    assert_eq!(merged.len(), 3);
    assert_eq!(merged.resolve(b"a").unwrap(), b"1".to_vec());
    assert_eq!(merged.resolve(b"b").unwrap(), b"2".to_vec());
    assert_eq!(merged.resolve(b"c").unwrap(), b"3".to_vec());
}

#[test]
fn merge_reports_a_collision() {
    let mut previous = CidTable::new();
    previous.insert(b"a", b"1").unwrap();
    let mut current = CidTable::new();
    current.insert(b"z", b"9").unwrap();
    current.insert(b"a", b"other").unwrap();
    assert_eq!(
        CidTable::merge(previous, &current).unwrap_err(),
        CidCollision { cid: b"a".to_vec() }
    );
}

#[test]
fn merge_reports_the_first_of_several_collisions() {
    let mut previous = CidTable::new();
    previous.insert(b"m", b"1").unwrap();
    previous.insert(b"c", b"1").unwrap();
    previous.insert(b"x", b"1").unwrap();
    previous.insert(b"a", b"1").unwrap();
    let mut current = CidTable::new();
    current.insert(b"x", b"2").unwrap();
    current.insert(b"a", b"1").unwrap();
    current.insert(b"m", b"2").unwrap();
    current.insert(b"c", b"2").unwrap();
    assert_eq!(
        CidTable::merge(previous, &current).unwrap_err(),
        CidCollision { cid: b"c".to_vec() }
    );
}

#[test]
fn merge_with_an_empty_table_keeps_the_other() {
    let mut previous = CidTable::new();
    previous.insert(b"a", b"1").unwrap();
    let merged = CidTable::merge(previous, &CidTable::new()).unwrap();
    assert_eq!(merged.len(), 1);
    let mut current = CidTable::new();
    current.insert(b"c", b"3").unwrap();
    let merged = CidTable::merge(CidTable::new(), &current).unwrap();
    assert_eq!(merged.len(), 1);
    assert_eq!(merged.resolve(b"c").unwrap(), b"3".to_vec());
}
