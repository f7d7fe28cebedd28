use std::collections::{BTreeSet, HashSet};

use serde_fressian::inst::INST;
use serde_fressian::key::KEY;
use serde_fressian::ser;
use serde_fressian::sym::SYM;
use serde_fressian::types::set::{HASHSET, SET};

#[test]
fn inst_test() {
    let i: INST = INST::from_millis(1535328836181);
    assert_eq!(i.to_millis(), 1535328836181)
}

#[test]
fn sym_test() {
    // (api/write 'foo)
    let control_bytes: Vec<u8> = vec![201, 247, 205, 221, 102, 111, 111];
    let control_value: SYM = SYM::new(None, "foo".to_string());
    let test_value: SYM = serde_fressian::de::from_vec(&control_bytes).unwrap();
    assert_eq!(test_value, control_value);

    let test_bytes: Vec<u8> = serde_fressian::ser::to_vec(&control_value).unwrap();
    assert_eq!(test_bytes, control_bytes);

    assert_eq!(control_value, serde_fressian::de::from_vec(&test_bytes).unwrap());

    // (api/write 'foo/bar)
    let control_bytes: Vec<u8> = vec![201, 205, 221, 102, 111, 111, 205, 221, 98, 97, 114];
    let control_value: SYM = SYM::new(Some("foo".to_string()), "bar".to_string());

    let test_value: SYM = serde_fressian::de::from_vec(&control_bytes).unwrap();
    assert_eq!(test_value, control_value);

    let test_bytes: Vec<u8> = serde_fressian::ser::to_vec(&control_value).unwrap();
    assert_eq!(test_bytes, control_bytes);

    assert_eq!(control_value, serde_fressian::de::from_vec(&test_bytes).unwrap())
}

#[test]
fn key_test() {
    // (api/write :foo)
    let control_bytes: Vec<u8> = vec![202, 247, 205, 221, 102, 111, 111];
    let control_value: KEY = KEY::new(None, "foo".to_string());
    let test_value: KEY = serde_fressian::de::from_vec(&control_bytes).unwrap();
    assert_eq!(test_value, control_value);

    let test_bytes: Vec<u8> = serde_fressian::ser::to_vec(&control_value).unwrap();
    assert_eq!(test_bytes, control_bytes);

    assert_eq!(control_value, serde_fressian::de::from_vec(&test_bytes).unwrap());

    // (api/write :foo/bar)
    let control_bytes: Vec<u8> = vec![202, 205, 221, 102, 111, 111, 205, 221, 98, 97, 114];
    let control_value: KEY = KEY::new(Some("foo".to_string()), "bar".to_string());

    let test_value: KEY = serde_fressian::de::from_vec(&control_bytes).unwrap();
    assert_eq!(test_value, control_value);

    let test_bytes: Vec<u8> = serde_fressian::ser::to_vec(&control_value).unwrap();
    assert_eq!(test_bytes, control_bytes);

    assert_eq!(control_value, serde_fressian::de::from_vec(&test_bytes).unwrap())
}

#[test]
fn sets() {
    let btreeset: BTreeSet<i64> = [0, 1, 2, 3].iter().cloned().collect();
    let output = ser::to_vec(&btreeset); //--> serialized as LIST; [0 1 2 3]

    let control_bytes: Vec<u8> = vec![232, 0, 1, 2, 3];
    assert_eq!(output.unwrap(), control_bytes);

    let wrapped_btreeset: SET<i64> = SET::from(btreeset);
    let output = ser::to_vec(&wrapped_btreeset); //--> serialized as SET; #{0 1 2 3}

    let control_bytes: Vec<u8> = vec![193, 232, 0, 1, 2, 3];
    assert_eq!(output.unwrap(), control_bytes);

    // SET derives hash from its btreeset, so it can be stored in a hashset if we want
    // but we could not do the other way around.
    let mut hashset: HashSet<SET<i64>> = HashSet::new();
    hashset.insert(wrapped_btreeset);
    let output = ser::to_vec(&hashset); //--> serialized as LIST; [#{0 1 2 3}]

    //this may have nondet ordering
    let control_bytes: Vec<u8> = vec![229, 193, 232, 0, 1, 2, 3];
    assert_eq!(output.unwrap(), control_bytes);

    let wrapped_hashset: HASHSET<SET<i64>> = HASHSET::from(hashset);
    let output = ser::to_vec(&wrapped_hashset); //--> serialized as SET; #{#{0 1 2 3}}

    //this may have nondet ordering
    let control_bytes: Vec<u8> = vec![193, 229, 193, 232, 0, 1, 2, 3];
    assert_eq!(output.unwrap(), control_bytes);
}
