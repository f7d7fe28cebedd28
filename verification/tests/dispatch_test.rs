use serde_fressian::de::{value_kind, Deserializer, ValueKind};
use serde_fressian::error::ErrorCode;
use serde_fressian::ser::{named_code, newtype_kind, NewtypeKind};

#[test]
fn newtype_names_pick_codes() {
    assert_eq!(newtype_kind("SET"), NewtypeKind::Tagged(0xC1));
    assert_eq!(newtype_kind("INST"), NewtypeKind::Tagged(0xC8));
    assert_eq!(newtype_kind("UUID"), NewtypeKind::Tagged(0xC3));
    assert_eq!(newtype_kind("URI"), NewtypeKind::Tagged(0xC5));
    assert_eq!(newtype_kind("REGEX"), NewtypeKind::Tagged(0xC4));
    assert_eq!(newtype_kind("INT_ARRAY"), NewtypeKind::TypedArray(0xB3));
    assert_eq!(newtype_kind("LONG_ARRAY"), NewtypeKind::TypedArray(0xB0));
    assert_eq!(newtype_kind("FLOAT_ARRAY"), NewtypeKind::TypedArray(0xB4));
    assert_eq!(newtype_kind("DOUBLE_ARRAY"), NewtypeKind::TypedArray(0xB1));
    assert_eq!(newtype_kind("BOOLEAN_ARRAY"), NewtypeKind::TypedArray(0xB2));
    assert_eq!(newtype_kind("OBJECT_ARRAY"), NewtypeKind::Unsupported);
    assert_eq!(newtype_kind("Meters"), NewtypeKind::Plain);
    assert_eq!(newtype_kind("set"), NewtypeKind::Plain);
    assert_eq!(newtype_kind(""), NewtypeKind::Plain);
}

#[test]
fn tuple_struct_names_pick_codes() {
    assert_eq!(named_code("SYM"), Some(0xC9));
    assert_eq!(named_code("KEY"), Some(0xCA));
    assert_eq!(named_code("KEYS"), None);
    assert_eq!(named_code("Point"), None);
}

#[test]
fn codes_announce_kinds() {
    assert_eq!(value_kind(0xF7), ValueKind::Null);
    assert_eq!(value_kind(0xF5), ValueKind::Boolean);
    assert_eq!(value_kind(0xF6), ValueKind::Boolean);
    assert_eq!(value_kind(0x00), ValueKind::Int);
    assert_eq!(value_kind(0x7F), ValueKind::Int);
    assert_eq!(value_kind(0xFF), ValueKind::Int);
    assert_eq!(value_kind(0xF8), ValueKind::Int);
    assert_eq!(value_kind(0xF9), ValueKind::Float);
    assert_eq!(value_kind(0xFA), ValueKind::Double);
    assert_eq!(value_kind(0xFB), ValueKind::Double);
    assert_eq!(value_kind(0xFC), ValueKind::Double);
    assert_eq!(value_kind(0xD9), ValueKind::Bytes);
    assert_eq!(value_kind(0xD3), ValueKind::Bytes);
    assert_eq!(value_kind(0xDA), ValueKind::PackedString(0));
    assert_eq!(value_kind(0xE1), ValueKind::PackedString(7));
    assert_eq!(value_kind(0xE3), ValueKind::String);
    assert_eq!(value_kind(0xBF), ValueKind::Utf8);
    assert_eq!(value_kind(0xE6), ValueKind::PackedList(2));
    assert_eq!(value_kind(0xEC), ValueKind::List);
    assert_eq!(value_kind(0xED), ValueKind::ClosedList);
    assert_eq!(value_kind(0xEE), ValueKind::OpenList);
    assert_eq!(value_kind(0xC0), ValueKind::MapValue);
    assert_eq!(value_kind(0xC1), ValueKind::SetValue);
    assert_eq!(value_kind(0xC8), ValueKind::Inst);
    assert_eq!(value_kind(0xC3), ValueKind::Uuid);
    assert_eq!(value_kind(0xC5), ValueKind::Uri);
    assert_eq!(value_kind(0xC4), ValueKind::Regex);
    assert_eq!(value_kind(0xC9), ValueKind::Sym);
    assert_eq!(value_kind(0xCA), ValueKind::Key);
    assert_eq!(value_kind(0xB3), ValueKind::TypedArray);
    assert_eq!(value_kind(0xB2), ValueKind::TypedArray);
    assert_eq!(value_kind(0xCD), ValueKind::PutPriorityCache);
    assert_eq!(value_kind(0x80), ValueKind::CachedRef(0));
    assert_eq!(value_kind(0x9F), ValueKind::CachedRef(31));
    assert_eq!(value_kind(0xD8), ValueKind::Unsupported);
    assert_eq!(value_kind(0xE2), ValueKind::Unsupported);
    assert_eq!(value_kind(0xB5), ValueKind::Unsupported);
    assert_eq!(value_kind(0xCF), ValueKind::Unmatched);
    assert_eq!(value_kind(0xFD), ValueKind::Unmatched);
}

#[test]
fn list_end_marker_is_consumed() {
    let data: Vec<u8> = vec![0xFD, 0x01];
    let mut de = Deserializer::from_vec(&data);
    assert_eq!(de.at_list_end(false).unwrap(), true);
    assert_eq!(de.at_list_end(false).unwrap(), false);
    assert_eq!(de.read_long().unwrap(), 1);
}

#[test]
fn list_end_at_end_of_input() {
    let data: Vec<u8> = vec![];
    let mut open = Deserializer::from_vec(&data);
    assert_eq!(open.at_list_end(true).unwrap(), true);
    let mut closed = Deserializer::from_vec(&data);
    let e = closed.at_list_end(false).unwrap_err();
    assert!(matches!(e.err.code, ErrorCode::Eof));
}

use serde_fressian::de::Event;

fn first_event(data: &[u8]) -> Result<Event<'_>, serde_fressian::error::Error> {
    let mut de = Deserializer::from_bytes(data);
    de.read_event()
}

#[test]
fn events_of_scalars() {
    assert!(matches!(first_event(&[0xF7]), Ok(Event::Null)));
    assert!(matches!(first_event(&[0xF5]), Ok(Event::Bool(true))));
    assert!(matches!(first_event(&[0xF6]), Ok(Event::Bool(false))));
    assert!(matches!(first_event(&[0x05]), Ok(Event::Int(5))));
    assert!(matches!(first_event(&[0xFF]), Ok(Event::Int(-1))));
    assert!(matches!(first_event(&[0x51, 0x00]), Ok(Event::Int(256))));
    assert!(matches!(first_event(&[0xC8, 0x07]), Ok(Event::Int(7))));
    assert!(matches!(first_event(&[0xF9, 0x3F, 0x80, 0x00, 0x00]), Ok(Event::Float(0x3F80_0000))));
    assert!(matches!(first_event(&[0xFB]), Ok(Event::Double(0))));
    assert!(matches!(first_event(&[0xFC]), Ok(Event::Double(0x3FF0_0000_0000_0000))));
    assert!(matches!(
        first_event(&[0xFA, 0x40, 0x09, 0x21, 0xFB, 0x54, 0x44, 0x2D, 0x18]),
        Ok(Event::Double(0x4009_21FB_5444_2D18))
    ));
}

#[test]
fn events_of_bytes_and_strings() {
    match first_event(&[0xD2, 1, 2]) {
        Ok(Event::Bytes(b)) => assert_eq!(b, &[1u8, 2][..]),
        other => panic!("{:?}", other),
    }
    match first_event(&[0xD9, 0x03, 7, 8, 9]) {
        Ok(Event::Bytes(b)) => assert_eq!(b, &[7u8, 8, 9][..]),
        other => panic!("{:?}", other),
    }
    match first_event(&[0xC3, 0xD1, 9]) {
        Ok(Event::Bytes(b)) => assert_eq!(b, &[9u8][..]),
        other => panic!("{:?}", other),
    }
    match first_event(&[0xDB, b'a']) {
        Ok(Event::Str(s)) => assert_eq!(s, "a"),
        other => panic!("{:?}", other),
    }
    match first_event(&[0xBF, 0x02, b'h', b'i']) {
        Ok(Event::Str(s)) => assert_eq!(s, "hi"),
        other => panic!("{:?}", other),
    }
    match first_event(&[0xC5, 0xDC, b'x', b'y']) {
        Ok(Event::Str(s)) => assert_eq!(s, "xy"),
        other => panic!("{:?}", other),
    }
    match first_event(&[0xC4, 0xDB, b'.']) {
        Ok(Event::Str(s)) => assert_eq!(s, "."),
        other => panic!("{:?}", other),
    }
}

#[test]
fn events_of_collections() {
    assert!(matches!(first_event(&[0xE6]), Ok(Event::List(2))));
    assert!(matches!(first_event(&[0xEC, 0x09]), Ok(Event::List(9))));
    assert!(matches!(first_event(&[0xED]), Ok(Event::ClosedList)));
    assert!(matches!(first_event(&[0xEE]), Ok(Event::OpenList)));
    assert!(matches!(first_event(&[0xC0, 0xE6]), Ok(Event::Entries(2))));
    assert!(matches!(first_event(&[0xC0, 0xED]), Ok(Event::ClosedEntries)));
    assert!(matches!(first_event(&[0xC1, 0xE5]), Ok(Event::List(1))));
    assert!(matches!(first_event(&[0xC1, 0xEE]), Ok(Event::OpenList)));
    assert!(matches!(first_event(&[0xC9]), Ok(Event::List(2))));
    assert!(matches!(first_event(&[0xCA]), Ok(Event::List(2))));
    assert!(matches!(first_event(&[0xB3, 0x02]), Ok(Event::List(2))));
    assert!(matches!(first_event(&[0xB2, 0x00]), Ok(Event::List(0))));
}

#[test]
fn events_refused() {
    let e = first_event(&[]).unwrap_err();
    assert!(matches!(e.err.code, ErrorCode::Eof));
    let e = first_event(&[0xC0, 0xEE]).unwrap_err();
    assert!(matches!(e.err.code, ErrorCode::MapExpectedListCode));
    let e = first_event(&[0xC0, 0x01]).unwrap_err();
    assert!(matches!(e.err.code, ErrorCode::MapExpectedListCode));
    let e = first_event(&[0xC1, 0x01]).unwrap_err();
    assert!(matches!(e.err.code, ErrorCode::ExpectedListCode));
    let e = first_event(&[0xD8]).unwrap_err();
    assert!(matches!(e.err.code, ErrorCode::UnsupportedType));
    let e = first_event(&[0xB5]).unwrap_err();
    assert!(matches!(e.err.code, ErrorCode::UnsupportedType));
    let e = first_event(&[0xCF]).unwrap_err();
    assert!(matches!(e.err.code, ErrorCode::UnmatchedCode(0xCF)));
    let e = first_event(&[0x80]).unwrap_err();
    assert!(matches!(e.err.code, ErrorCode::Message(_)));
    let e = first_event(&[0xCD]).unwrap_err();
    assert!(matches!(e.err.code, ErrorCode::Eof));
}

#[test]
fn put_priority_cache_keeps_the_string() {
    let data: Vec<u8> = vec![0xCD, 0xDB, b'a', 0x80, 0xCD, 0xCD, 0xDB, b'b', 0x81, 0x80];
    let mut de = Deserializer::from_vec(&data);
    for expected in ["a", "a", "b", "b", "a"] {
        match de.read_event() {
            Ok(Event::Str(s)) => assert_eq!(s, expected),
            other => panic!("{:?}", other),
        }
    }
    assert_eq!(de.get_bytes_read(), data.len());
}

#[test]
fn error_codes_describe_themselves() {
    assert_eq!(ErrorCode::Eof.describe(), Some("Eof"));
    assert_eq!(ErrorCode::UnmatchedCode(3).describe(), Some("UnmatchedCode"));
    assert_eq!(ErrorCode::Message("boom".to_string()).describe(), Some("boom"));
    assert_eq!(ErrorCode::InvalidUTF8.describe(), Some("InvalidUTF8"));
    assert_eq!(ErrorCode::ExpectedNonZeroReadLength.describe(), Some("ExpectedNonZeroReadLength"));
    let io = std::io::Error::new(std::io::ErrorKind::Other, "disk");
    assert_eq!(ErrorCode::Io(io).describe(), None);
}

use serde_fressian::ser::{newtype_variant_form, Serializer, VariantForm};
use serde_fressian::key::KEY;
use serde_fressian::sym::SYM;

#[test]
fn variant_forms() {
    assert_eq!(newtype_variant_form("Result", "Ok"), VariantForm::Bare);
    assert_eq!(newtype_variant_form("Result", "Err"), VariantForm::Tagged(0xCB));
    assert_eq!(newtype_variant_form("Result", "Maybe"), VariantForm::Refused);
    assert_eq!(newtype_variant_form("Shape", "Ok"), VariantForm::Pair);
}

#[test]
fn bytes_written_are_counted() {
    let mut ser = Serializer::from_vec(Vec::new());
    assert_eq!(ser.get_bytes_written(), 0);
    ser.write_int(1000).unwrap();
    ser.write_null().unwrap();
    assert_eq!(ser.get_bytes_written(), 3);
}

#[test]
fn named_values_come_apart() {
    let (ns, name) = SYM::namespaced("a".to_string(), "b".to_string()).into_parts();
    assert_eq!(ns, Some("a".to_string()));
    assert_eq!(name, "b");
    let (ns, name) = KEY::simple("k".to_string()).into_parts();
    assert_eq!(ns, None);
    assert_eq!(name, "k");
}

#[test]
fn put_priority_cache_waits_for_a_string() {
    let data: Vec<u8> = vec![0xCD, 0xF7, 0x05, 0xDB, b'a', 0x80, 0xDB, b'b', 0x81];
    let mut de = Deserializer::from_vec(&data);
    assert!(matches!(de.read_event(), Ok(Event::Null)));
    assert!(matches!(de.read_event(), Ok(Event::Int(5))));
    for expected in ["a", "a", "b"] {
        match de.read_event() {
            Ok(Event::Str(s)) => assert_eq!(s, expected),
            other => panic!("{:?}", other),
        }
    }
    let e = de.read_event().unwrap_err();
    assert!(matches!(e.err.code, ErrorCode::Message(_)));
}
