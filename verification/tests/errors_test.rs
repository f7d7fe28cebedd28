use std::collections::hash_map::DefaultHasher;
use std::hash::{Hash, Hasher};
use serde_fressian::de::{self, Deserializer};
use serde_fressian::error::{Category, ErrorCode};
use serde_fressian::imp::cache::Cache;
use serde_fressian::imp::io::ByteReader;
use serde_fressian::imp::rawinput::RawInput;
use serde_fressian::ser::{ListType, Serializer};
use serde_fressian::sym::SYM;

#[test]
fn eof_on_empty_input() {
    let data: Vec<u8> = vec![];
    let mut rdr = ByteReader::from_vec(&data);
    let e = RawInput.read_int(&mut rdr).unwrap_err();
    assert!(e.is_eof());
    assert_eq!(e.classify(), Category::Eof);
}

#[test]
fn eof_in_the_middle_of_an_int() {
    let data: Vec<u8> = vec![0x68, 1];
    let mut rdr = ByteReader::from_vec(&data);
    let e = RawInput.read_int(&mut rdr).unwrap_err();
    assert!(e.is_eof());
    assert_eq!(e.err.position, 2);
}

#[test]
fn expected_i64() {
    let data: Vec<u8> = vec![0xC0];
    let mut rdr = ByteReader::from_vec(&data);
    let e = RawInput.read_int(&mut rdr).unwrap_err();
    assert!(matches!(e.err.code, ErrorCode::Expectedi64));
    assert_eq!(e.err.position, 1);
    assert_eq!(e.classify(), Category::De);
}

#[test]
fn expected_boolean_code() {
    let data: Vec<u8> = vec![0];
    let mut rdr = ByteReader::from_vec(&data);
    let e = RawInput.read_boolean(&mut rdr).unwrap_err();
    assert!(matches!(e.err.code, ErrorCode::ExpectedBooleanCode));
}

#[test]
fn expected_bytes_code() {
    let data: Vec<u8> = vec![0];
    let mut rdr = ByteReader::from_vec(&data);
    let e = RawInput.read_bytes(&mut rdr).unwrap_err();
    assert!(matches!(e.err.code, ErrorCode::ExpectedBytesCode));
}

#[test]
fn expected_string_code() {
    let data: Vec<u8> = vec![0];
    let mut rdr = ByteReader::from_vec(&data);
    let e = RawInput.read_string(&mut rdr).unwrap_err();
    assert!(matches!(e.err.code, ErrorCode::ExpectedStringCode));
}

#[test]
fn invalid_modified_utf8() {
    let data: Vec<u8> = vec![0xDB, 0xFF];
    let mut rdr = ByteReader::from_vec(&data);
    let e = RawInput.read_string(&mut rdr).unwrap_err();
    assert!(matches!(e.err.code, ErrorCode::InvalidUTF8));
    assert_eq!(e.err.position, 2);

    // an unpaired surrogate
    let data: Vec<u8> = vec![0xDD, 0xED, 0xA0, 0xBD];
    let mut rdr = ByteReader::from_vec(&data);
    let e = RawInput.read_string(&mut rdr).unwrap_err();
    assert!(matches!(e.err.code, ErrorCode::InvalidUTF8));

    // a sequence cut short
    let data: Vec<u8> = vec![0xDB, 0xC3];
    let mut rdr = ByteReader::from_vec(&data);
    let e = RawInput.read_string(&mut rdr).unwrap_err();
    assert!(matches!(e.err.code, ErrorCode::InvalidUTF8));
}

#[test]
fn invalid_utf8() {
    let data: Vec<u8> = vec![0xBF, 1, 0xFF];
    let mut rdr = ByteReader::from_vec(&data);
    let e = RawInput.read_string(&mut rdr).unwrap_err();
    assert!(matches!(e.err.code, ErrorCode::InvalidUTF8));
}

#[test]
fn expected_float_and_double_codes() {
    let data: Vec<u8> = vec![0];
    let mut rdr = ByteReader::from_vec(&data);
    assert!(matches!(RawInput.read_float(&mut rdr).unwrap_err().err.code, ErrorCode::ExpectedFloatCode));
    let mut rdr = ByteReader::from_vec(&data);
    assert!(matches!(RawInput.read_double(&mut rdr).unwrap_err().err.code, ErrorCode::ExpectedDoubleCode));
}

#[test]
fn doubles_with_codes_of_their_own() {
    let data: Vec<u8> = vec![251];
    let mut rdr = ByteReader::from_vec(&data);
    assert_eq!(f64::from_bits(RawInput.read_double(&mut rdr).unwrap()), 0.0);
    let data: Vec<u8> = vec![252];
    let mut rdr = ByteReader::from_vec(&data);
    assert_eq!(f64::from_bits(RawInput.read_double(&mut rdr).unwrap()), 1.0);

    let mut fw = Serializer::from_vec(Vec::new());
    fw.write_double((-0.0f64).to_bits()).unwrap();
    fw.write_double(1.0f64.to_bits()).unwrap();
    fw.write_double(2.0f64.to_bits()).unwrap();
    assert_eq!(fw.to_vec(), vec![251, 252, 250, 64, 0, 0, 0, 0, 0, 0, 0]);
}

#[test]
fn int_too_large_for_i64() {
    let mut fw = Serializer::from_vec(Vec::new());
    let e = fw.write_u64(u64::MAX).unwrap_err();
    assert!(matches!(e.err.code, ErrorCode::IntTooLargeFori64));
    assert_eq!(e.classify(), Category::Ser);
    fw.write_u64(5).unwrap();
    assert_eq!(fw.to_vec(), vec![5]);
}

#[test]
fn expected_list_code() {
    let data: Vec<u8> = vec![0xF7];
    let r: Result<Vec<i64>, _> = de::from_vec(&data);
    assert!(matches!(r.unwrap_err().err.code, ErrorCode::ExpectedListCode));
}

#[test]
fn unmatched_code_for_a_symbol() {
    let data: Vec<u8> = vec![1];
    let r: Result<SYM, _> = de::from_vec(&data);
    assert!(matches!(r.unwrap_err().err.code, ErrorCode::UnmatchedCode(1)));
}

/// The hash that the cache takes for any value: a fresh `DefaultHasher`, as the
/// library's `intern` uses for strings.
fn default_hash_of<T: Hash + ?Sized>(t: &T) -> u64 {
    let mut s = DefaultHasher::new();
    t.hash(&mut s);
    s.finish()
}

#[test]
fn cache_test() {
    let mut cache = Cache::new();

    let v0 = vec![1, 2, 3];
    let v1 = "foo";

    assert_eq!(None, cache.intern_hash(default_hash_of(&v0)));
    assert_eq!(None, cache.intern(v1));
    assert_eq!(Some(0), cache.intern_hash(default_hash_of(&v0)));
    assert_eq!(Some(1), cache.intern(v1));
    cache.reset();
    assert_eq!(None, cache.intern_hash(default_hash_of(&v0)));
    assert_eq!(None, cache.intern(v1));
}

#[test]
fn cache_interns_strings_by_their_hash() {
    let mut cache = Cache::new();
    assert_eq!(None, cache.intern("bar"));
    assert_eq!(Some(0), cache.intern_hash(default_hash_of("bar")));
}

#[test]
fn list_framing() {
    let mut fw = Serializer::from_vec(Vec::new());
    fw.begin_closed_list().unwrap();
    fw.write_int(1).unwrap();
    fw.end_compound(ListType::Closed).unwrap();
    fw.begin_open_list().unwrap();
    fw.end_compound(ListType::Open).unwrap();
    fw.write_list_header(3).unwrap();
    fw.end_compound(ListType::Fixed).unwrap();
    fw.write_list_header(8).unwrap();
    assert_eq!(fw.to_vec(), vec![0xED, 1, 0xFD, 0xEE, 0xFD, 0xE7, 0xEC, 8]);
}

#[test]
fn maps_and_sets() {
    let mut fw = Serializer::from_vec(Vec::new());
    fw.write_map(&["a".to_string()], &[0i64]).unwrap();
    assert_eq!(fw.to_vec(), vec![192, 230, 219, 97, 0]);
    fw.reset();
    fw.write_set(&[0i64, 1, 2, 3]).unwrap();
    assert_eq!(fw.to_vec(), vec![193, 232, 0, 1, 2, 3]);
}

#[test]
fn read_next_code_and_position() {
    let data: Vec<u8> = vec![0xC0, 0xE6];
    let mut de = Deserializer::from_vec(&data);
    assert_eq!(de.read_next_code().unwrap(), 0xC0u8 as i8);
    assert_eq!(de.read_next_code().unwrap(), 0xE6u8 as i8);
    assert!(de.read_next_code().unwrap_err().is_eof());
}
