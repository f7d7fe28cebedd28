use serde_fressian::de::{self, Deserializer};
use serde_fressian::error::ErrorCode;
use serde_fressian::imp::io::ByteReader;
use serde_fressian::imp::rawinput::RawInput;
use serde_fressian::inst::INST;
use serde_fressian::key::KEY;
use serde_fressian::ser::{self, Serializer};
use serde_fressian::sym::SYM;
use serde_fressian::typed_arrays::{BooleanArray, IntArray, LongArray};

fn int_bytes(i: i64) -> Vec<u8> {
    let mut fw = Serializer::from_vec(Vec::new());
    fw.write_int(i).unwrap();
    fw.to_vec()
}

#[test]
fn int_roundtrip_at_every_boundary() {
    let values: Vec<i64> = vec![
        0, -1, 1, 63, 64, -2, -4096, 4095, 4096, -4097, -0x80000, 0x7FFFF, 0x80000,
        -0x2000000, 0x1FFFFFF, 0x2000000, -0x200000000, 0x1FFFFFFFF, 0x200000000,
        -0x20000000000, 0x1FFFFFFFFFF, 0x20000000000, -0x2000000000000, 0x1FFFFFFFFFFFF,
        0x2000000000000, i64::MAX, i64::MIN,
    ];
    for v in values {
        let mut bytes = int_bytes(v);
        let len = bytes.len();
        bytes.push(0xF7);
        let mut rdr = ByteReader::from_vec(&bytes);
        assert_eq!(RawInput.read_int(&mut rdr).unwrap(), v);
        assert_eq!(rdr.get_bytes_read(), len);
    }
}

#[test]
fn int_encoding_lengths() {
    assert_eq!(int_bytes(-1), vec![0xFF]);
    assert_eq!(int_bytes(63), vec![63]);
    assert_eq!(int_bytes(64), vec![0x50, 64]);
    assert_eq!(int_bytes(-4096), vec![0x40, 0]);
    assert_eq!(int_bytes(4096), vec![0x68, 16, 0]);
    assert_eq!(int_bytes(i64::MIN), vec![0xF8, 0x80, 0, 0, 0, 0, 0, 0, 0]);
}

#[test]
fn boolean_roundtrip() {
    for b in [true, false] {
        let mut fw = Serializer::from_vec(Vec::new());
        fw.write_boolean(b).unwrap();
        let bytes = fw.to_vec();
        assert_eq!(bytes, vec![if b { 245 } else { 246 }]);
        let mut rdr = ByteReader::from_vec(&bytes);
        assert_eq!(RawInput.read_boolean(&mut rdr).unwrap(), b);
    }
}

#[test]
fn bytes_roundtrip() {
    for n in [1usize, 7, 8, 200, 65535] {
        let data: Vec<u8> = (0..n).map(|i| (i % 251) as u8).collect();
        let mut fw = Serializer::from_vec(Vec::new());
        fw.write_bytes(&data, 0, data.len()).unwrap();
        let mut bytes = fw.to_vec();
        let len = bytes.len();
        bytes.push(0);
        let mut rdr = ByteReader::from_vec(&bytes);
        assert_eq!(RawInput.read_bytes(&mut rdr).unwrap(), data.as_slice());
        assert_eq!(rdr.get_bytes_read(), len);
    }
}

#[test]
fn empty_bytes_are_written_but_refused_on_read() {
    let mut fw = Serializer::from_vec(Vec::new());
    fw.write_bytes(&[], 0, 0).unwrap();
    let bytes = fw.to_vec();
    assert_eq!(bytes, vec![0xD0]);
    let mut rdr = ByteReader::from_vec(&bytes);
    let err = RawInput.read_bytes(&mut rdr).unwrap_err();
    assert!(matches!(err.err.code, ErrorCode::ExpectedNonZeroReadLength));
}

#[test]
fn long_bytes_are_written_in_chunks() {
    let data: Vec<u8> = vec![7; 65536];
    let mut fw = Serializer::from_vec(Vec::new());
    fw.write_bytes(&data, 0, data.len()).unwrap();
    let bytes = fw.to_vec();
    assert_eq!(bytes[0], 0xD8);
    assert_eq!(&bytes[1..4], &[0x68, 0xFF, 0xFF]);
    assert_eq!(bytes[4 + 65535], 0xD9);
    assert_eq!(bytes[5 + 65535], 1);
    assert_eq!(bytes.len(), 4 + 65535 + 2 + 1);
}

#[test]
fn string_roundtrip() {
    let samples = vec!["", "a", "hola", "é", "東京", "😎", "é❤️ßℝ東京東京😉 😎 🤔 😐 🙄", "nul\u{0}byte"];
    for s in samples {
        let mut fw = Serializer::from_vec(Vec::new());
        fw.write_string(s).unwrap();
        let mut bytes = fw.to_vec();
        let len = bytes.len();
        bytes.push(0xF7);
        let mut rdr = ByteReader::from_vec(&bytes);
        assert_eq!(RawInput.read_string(&mut rdr).unwrap(), s);
        assert_eq!(rdr.get_bytes_read(), len);
    }
}

#[test]
fn utf8_coded_string_reads() {
    let bytes: Vec<u8> = vec![0xBF, 3, b'a', b'b', b'c'];
    let mut rdr = ByteReader::from_vec(&bytes);
    assert_eq!(RawInput.read_string(&mut rdr).unwrap(), "abc");
}

#[test]
fn long_string_is_written_in_chunks() {
    // a string that fits one chunk is written under STRING
    let s: String = "x".repeat(30000);
    let mut fw = Serializer::from_vec(Vec::new());
    fw.write_string(&s).unwrap();
    let bytes = fw.to_vec();
    assert_eq!(&bytes[0..4], &[0xE3, 0x68, 0x75, 0x30]);

    // a longer one in chunks, each with its own characters
    let s: String = format!("{}{}", "a".repeat(65535), "b".repeat(10));
    fw.reset();
    fw.write_string(&s).unwrap();
    let bytes = fw.to_vec();
    assert_eq!(&bytes[0..4], &[0xE2, 0x68, 0xFF, 0xFF]);
    assert_eq!(&bytes[4 + 65535..], &[0xE3, 10, 98, 98, 98, 98, 98, 98, 98, 98, 98, 98]);
}

#[test]
fn cached_strings_are_referenced() {
    let mut fw = Serializer::from_vec(Vec::new());
    fw.write_cached_string("foo").unwrap();
    fw.write_cached_string("bar").unwrap();
    fw.write_cached_string("foo").unwrap();
    fw.write_cached_string("bar").unwrap();
    fw.write_cached_string("").unwrap();
    let bytes = fw.to_vec();
    assert_eq!(bytes, vec![205, 221, 102, 111, 111, 205, 221, 98, 97, 114, 128, 129, 218]);

    let mut de = Deserializer::from_vec(&bytes);
    assert_eq!(de.read_cached_string().unwrap(), "foo");
    assert_eq!(de.read_cached_string().unwrap(), "bar");
    assert_eq!(de.read_cached_string().unwrap(), "foo");
    assert_eq!(de.read_cached_string().unwrap(), "bar");
    assert_eq!(de.read_cached_string().unwrap(), "");
}

#[test]
fn missing_cache_slot_is_an_error() {
    let bytes: Vec<u8> = vec![128];
    let mut de = Deserializer::from_vec(&bytes);
    assert!(de.read_cached_string().is_err());
}

#[test]
fn sym_with_equal_namespace_and_name() {
    let value = SYM::new(Some("foo".to_string()), "foo".to_string());
    let bytes = ser::to_vec(&value).unwrap();
    assert_eq!(bytes, vec![201, 205, 221, 102, 111, 111, 128]);
    let back: SYM = de::from_vec(&bytes).unwrap();
    assert_eq!(back, value);
}

#[test]
fn simple_and_namespaced_constructors() {
    assert_eq!(SYM::simple("a".to_string()), SYM::new(None, "a".to_string()));
    assert_eq!(
        KEY::namespaced("n".to_string(), "a".to_string()),
        KEY::new(Some("n".to_string()), "a".to_string())
    );
}

#[test]
fn key_reads_from_symbol_bytes() {
    let bytes: Vec<u8> = vec![201, 247, 205, 221, 102, 111, 111];
    let key: KEY = de::from_vec(&bytes).unwrap();
    assert_eq!(key, KEY::new(None, "foo".to_string()));
}

#[test]
fn inst_roundtrip() {
    let i = INST::from_millis(1535328836181);
    let bytes = ser::to_vec(&i).unwrap();
    assert_eq!(bytes[0], 200);
    let back: INST = de::from_vec(&bytes).unwrap();
    assert_eq!(back, i);
    assert_eq!(back.into_inner(), 1535328836181);
    let plain: INST = de::from_vec(&vec![5]).unwrap();
    assert_eq!(plain.to_millis(), 5);
}

#[test]
fn typed_arrays_roundtrip() {
    let ints = IntArray::from_vec(vec![1, 2, 3]);
    let bytes = ser::to_vec(&ints).unwrap();
    assert_eq!(bytes, vec![179, 3, 1, 2, 3]);
    let back: IntArray = de::from_vec(&bytes).unwrap();
    assert_eq!(back, ints);

    let bools = BooleanArray::from_vec(vec![true, false, true, false, false]);
    let bytes = ser::to_vec(&bools).unwrap();
    assert_eq!(bytes, vec![178, 5, 245, 246, 245, 246, 246]);
    let back: BooleanArray = de::from_vec(&bytes).unwrap();
    assert_eq!(back, bools);

    let longs = LongArray::from_vec(vec![i64::MIN, -1, 0, 1 << 40]);
    let bytes = ser::to_vec(&longs).unwrap();
    assert_eq!(bytes[0], 176);
    let back: LongArray = de::from_vec(&bytes).unwrap();
    assert_eq!(back.into_inner(), vec![i64::MIN, -1, 0, 1 << 40]);
}

#[test]
fn int_array_refuses_out_of_range_items() {
    let bytes: Vec<u8> = vec![179, 1, 0xF8, 0, 0, 0, 1, 0, 0, 0, 0];
    let r: Result<IntArray, _> = de::from_vec(&bytes);
    assert!(matches!(r.unwrap_err().err.code, ErrorCode::UnsupportedTAType));
}

#[test]
fn vec_of_strings_roundtrip() {
    let write_data: Vec<String> = vec!["some".to_string(), "strings".to_string()];
    let bytes: Vec<u8> = ser::to_vec(&write_data).unwrap();
    let read_data: Vec<String> = de::from_vec(&bytes).unwrap();
    assert_eq!(write_data, read_data)
}

#[test]
fn vec_of_ints_roundtrip() {
    let write_data: Vec<i64> = (0..100).map(|i| i * 1000 - 30000).collect();
    let bytes: Vec<u8> = ser::to_vec(&write_data).unwrap();
    assert_eq!(bytes[0], 0xEC);
    let read_data: Vec<i64> = de::from_vec(&bytes).unwrap();
    assert_eq!(write_data, read_data)
}

#[test]
fn list_length_256_roundtrip() {
    let write_data: Vec<i64> = vec![0; 256];
    let bytes: Vec<u8> = ser::to_vec(&write_data).unwrap();
    assert_eq!(&bytes[0..3], &[0xEC, 0x51, 0x00]);
    let read_data: Vec<i64> = de::from_vec(&bytes).unwrap();
    assert_eq!(read_data, write_data);
}

#[test]
fn footer_counts_the_bytes_before_it() {
    let bytes = ser::to_vec_footer(&7i64).unwrap();
    assert_eq!(bytes, vec![7, 0xCF, 0xCF, 0xCF, 0xCF, 0, 0, 0, 1, 0, 0, 0, 0]);
}

#[test]
fn closed_and_open_lists_read_as_vectors() {
    let closed: Vec<u8> = vec![237, 1, 253];
    let v: Vec<i64> = de::from_vec(&closed).unwrap();
    assert_eq!(v, vec![1]);
    let open: Vec<u8> = vec![238, 1, 2];
    let v: Vec<i64> = de::from_vec(&open).unwrap();
    assert_eq!(v, vec![1, 2]);
    let open_marked: Vec<u8> = vec![238, 5, 253, 9];
    let v: Vec<i64> = de::from_vec(&open_marked).unwrap();
    assert_eq!(v, vec![5]);
    let unfinished: Vec<u8> = vec![237, 1];
    assert!(de::from_vec::<Vec<i64>>(&unfinished).is_err());
}

#[test]
fn footer_follows_the_plain_bytes() {
    let value = "a footer follows".to_string();
    let plain = ser::to_vec(&value).unwrap();
    let framed = ser::to_vec_footer(&value).unwrap();
    let mut expected = plain.clone();
    expected.extend_from_slice(&[0xCF, 0xCF, 0xCF, 0xCF]);
    expected.extend_from_slice(&(plain.len() as i32).to_be_bytes());
    expected.extend_from_slice(&[0, 0, 0, 0]);
    assert_eq!(framed, expected);
}

#[test]
fn footer_follows_the_plain_bytes_of_a_vector() {
    let value: Vec<i64> = vec![1, -300, 70000];
    let plain = ser::to_vec(&value).unwrap();
    let framed = ser::to_vec_footer(&value).unwrap();
    assert_eq!(&framed[..plain.len()], &plain[..]);
    assert_eq!(&framed[plain.len()..plain.len() + 4], &[0xCF, 0xCF, 0xCF, 0xCF]);
    assert_eq!(&framed[plain.len() + 4..plain.len() + 8], &(plain.len() as i32).to_be_bytes());
    assert_eq!(&framed[plain.len() + 8..], &[0, 0, 0, 0]);
}
