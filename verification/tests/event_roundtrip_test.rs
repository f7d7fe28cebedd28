use serde_fressian::de::{Deserializer, Event};
use serde_fressian::ser::Serializer;

fn written(f: impl FnOnce(&mut Serializer<serde_fressian::imp::io::ByteWriter>)) -> Vec<u8> {
    let mut ser = Serializer::from_vec(Vec::new());
    f(&mut ser);
    ser.to_vec()
}

#[test]
fn event_after_int() {
    for i in [0i64, -1, 63, 64, -4096, 4095, 1 << 20, -(1 << 40), i64::MAX, i64::MIN] {
        let bytes = written(|s| s.write_int(i).unwrap());
        let mut de = Deserializer::from_vec(&bytes);
        assert!(matches!(de.read_event(), Ok(Event::Int(v)) if v == i));
        assert_eq!(de.get_bytes_read(), bytes.len());
    }
}

#[test]
fn event_after_null_and_boolean() {
    let bytes = written(|s| {
        s.write_null().unwrap();
        s.write_boolean(true).unwrap();
        s.write_boolean(false).unwrap();
    });
    let mut de = Deserializer::from_vec(&bytes);
    assert!(matches!(de.read_event(), Ok(Event::Null)));
    assert!(matches!(de.read_event(), Ok(Event::Bool(true))));
    assert!(matches!(de.read_event(), Ok(Event::Bool(false))));
}

#[test]
fn event_after_float_and_double() {
    let f = 32.2f32.to_bits();
    let bytes = written(|s| s.write_float(f).unwrap());
    let mut de = Deserializer::from_vec(&bytes);
    assert!(matches!(de.read_event(), Ok(Event::Float(v)) if v == f));

    for d in [64.4f64, 0.0, 1.0, -2.5, f64::MAX] {
        let bits = d.to_bits();
        let bytes = written(|s| s.write_double(bits).unwrap());
        let mut de = Deserializer::from_vec(&bytes);
        assert!(matches!(de.read_event(), Ok(Event::Double(v)) if v == bits));
    }

    // negative zero is written under the code of zero
    let bytes = written(|s| s.write_double((-0.0f64).to_bits()).unwrap());
    let mut de = Deserializer::from_vec(&bytes);
    assert!(matches!(de.read_event(), Ok(Event::Double(0))));
}

#[test]
fn event_after_bytes() {
    for n in [1usize, 7, 8, 300] {
        let data: Vec<u8> = (0..n).map(|k| (k % 251) as u8).collect();
        let bytes = written(|s| s.write_bytes(&data, 0, data.len()).unwrap());
        let mut de = Deserializer::from_vec(&bytes);
        match de.read_event() {
            Ok(Event::Bytes(b)) => assert_eq!(b, &data[..]),
            other => panic!("{:?}", other),
        }
        assert_eq!(de.get_bytes_read(), bytes.len());
    }
}

#[test]
fn event_after_string() {
    for text in ["", "a", "héllo wörld", "\u{1F600} and more text than eight bytes"] {
        let bytes = written(|s| s.write_string(text).unwrap());
        let mut de = Deserializer::from_vec(&bytes);
        match de.read_event() {
            Ok(Event::Str(s)) => assert_eq!(s, text),
            other => panic!("{:?}", other),
        }
        assert_eq!(de.get_bytes_read(), bytes.len());
    }
}

#[test]
fn event_after_cached_string() {
    let bytes = written(|s| {
        s.write_cached_string("ns").unwrap();
        s.write_cached_string("ns").unwrap();
    });
    assert_eq!(bytes, vec![0xCD, 0xDC, b'n', b's', 0x80]);
    let mut de = Deserializer::from_vec(&bytes);
    for _ in 0..2 {
        match de.read_event() {
            Ok(Event::Str(s)) => assert_eq!(s, "ns"),
            other => panic!("{:?}", other),
        }
    }
}

#[test]
fn event_after_list_header() {
    for n in [0usize, 3, 7, 8, 300, 1000] {
        let bytes = written(|s| s.write_list_header(n).unwrap());
        let mut de = Deserializer::from_vec(&bytes);
        assert!(matches!(de.read_event(), Ok(Event::List(m)) if m == n));
    }
    // a length of 256 is written as LIST and its count
    let bytes = written(|s| s.write_list_header(256).unwrap());
    let mut de = Deserializer::from_vec(&bytes);
    assert!(matches!(de.read_event(), Ok(Event::List(256))));
    assert_eq!(bytes, vec![0xEC, 0x51, 0x00]);
}

#[test]
fn events_after_string_vec() {
    let v: Vec<String> = vec!["some".to_string(), "strings".to_string()];
    let bytes = serde_fressian::ser::to_vec(&v).unwrap();
    let mut de = Deserializer::from_vec(&bytes);
    assert!(matches!(de.read_event(), Ok(Event::List(2))));
    for expected in ["some", "strings"] {
        match de.read_event() {
            Ok(Event::Str(s)) => assert_eq!(s, expected),
            other => panic!("{:?}", other),
        }
    }
    assert_eq!(de.get_bytes_read(), bytes.len());
}

#[test]
fn event_after_long_single_chunk_string() {
    let text = "xyz".repeat(20000);
    let bytes = written(|s| s.write_string(&text).unwrap());
    assert_eq!(bytes[0], 0xE3);
    let mut de = Deserializer::from_vec(&bytes);
    match de.read_event() {
        Ok(Event::Str(s)) => assert_eq!(s, text),
        other => panic!("{:?}", other.map(|_| ())),
    }
    assert_eq!(de.get_bytes_read(), bytes.len());
}

#[test]
fn event_after_raw_utf8() {
    let bytes = written(|s| s.write_raw_utf8("héllo").unwrap());
    assert_eq!(bytes, vec![0xBF, 6, b'h', 0xC3, 0xA9, b'l', b'l', b'o']);
    let mut de = Deserializer::from_vec(&bytes);
    match de.read_event() {
        Ok(Event::Str(s)) => assert_eq!(s, "héllo"),
        other => panic!("{:?}", other),
    }
}
