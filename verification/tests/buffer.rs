//! Writing values big-endian through the scalar walk.
use facet_minecraft::buffer::{to_buffer_inner, to_vec, SerializeBuffer, SerializeError, SerializeWriter};
use facet_minecraft::parse::{parse_scalar, ScalarTypeHint, ScalarValue};
use facet_minecraft::peek::parse_peek;
use facet_minecraft::peek::PeekValue;
use facet_minecraft::value::{Field, Value};

#[test]
fn to_vec_writes_big_endian() {
    let value = Value::Struct(vec![
        Field { variable: false, value: Value::U16(0x1234) },
        Field { variable: false, value: Value::Str(String::from("ab")) },
        Field { variable: true, value: Value::U32(300) },
        Field { variable: false, value: Value::I32(-2) },
        Field { variable: false, value: Value::Bool(true) },
    ]);
    assert_eq!(
        to_vec(&value).unwrap(),
        vec![0x12, 0x34, 2, b'a', b'b', 0xAC, 0x02, 0xFF, 0xFF, 0xFF, 0xFE, 1]
    );
}

#[test]
fn to_vec_writes_lengths_and_tags() {
    let value = Value::List(vec![
        Value::Optional(None),
        Value::Optional(Some(Box::new(Value::U8(9)))),
    ]);
    assert_eq!(to_vec(&value).unwrap(), vec![2, 0, 1, 9]);
    let floats = Value::Array(vec![Value::F32(1.0f32.to_bits()), Value::F64(2.0f64.to_bits())]);
    assert_eq!(
        to_vec(&floats).unwrap(),
        vec![0x3F, 0x80, 0, 0, 0x40, 0, 0, 0, 0, 0, 0, 0]
    );
}

#[test]
fn to_vec_rejects_unwritable_values() {
    assert_eq!(to_vec(&Value::Pointer(None)), Err(SerializeError));
    assert_eq!(to_vec(&Value::UnsupportedScalar), Err(SerializeError));
    assert!(parse_peek(&Value::Struct(vec![Field { variable: false, value: Value::Pointer(None) }])).is_err());
}

#[test]
fn to_buffer_appends() {
    let mut buffer: Vec<u8> = vec![0xAA];
    to_buffer_inner(&Value::U16(1), &mut buffer).unwrap();
    assert_eq!(buffer.get_content(), &[0xAA, 0x00, 0x01][..]);
    assert!(buffer.write_data(&[5]));
    assert_eq!(buffer, vec![0xAA, 0x00, 0x01, 5]);
}

#[test]
fn scalars_read_back() {
    let values = [
        (Value::U16(0xBEEF), ScalarTypeHint::U16),
        (Value::I64(-5), ScalarTypeHint::I64),
        (Value::U128(1 << 100), ScalarTypeHint::U128),
        (Value::Str(String::from("héllo")), ScalarTypeHint::String),
    ];
    for (value, hint) in values.iter() {
        let bytes = to_vec(value).unwrap();
        let (read, size) = parse_scalar(&bytes, *hint, false).ok().unwrap();
        assert_eq!(size, bytes.len());
        match (value, read) {
            (Value::U16(x), ScalarValue::U64(y)) => assert_eq!(*x as u64, y),
            (Value::I64(x), ScalarValue::I64(y)) => assert_eq!(*x, y),
            (Value::U128(x), ScalarValue::U128(y)) => assert_eq!(*x, y),
            (Value::Str(x), ScalarValue::Str(y)) => assert_eq!(x.as_str(), y),
            _ => panic!("read back a different kind"),
        }
    }
    let mut iter_values = parse_peek(&Value::I16(-1)).unwrap().into_iter();
    assert_eq!(iter_values.next(), Some(PeekValue::U16(0xFFFF)));
}
