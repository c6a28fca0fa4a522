//! Reading values part by part with the resumable walk.
use facet_minecraft::cursor::InputCursor;
use facet_minecraft::iter::{from_slice, from_slice_remainder, DeserializeIter, DeserializeIterError};
use facet_minecraft::schema::{FieldSchema, Schema, VariantSchema};
use facet_minecraft::value::{Field, Value};

fn field(schema: Schema) -> FieldSchema {
    FieldSchema { variable: false, schema }
}

fn var_field(schema: Schema) -> FieldSchema {
    FieldSchema { variable: true, schema }
}

#[test]
fn iter_reads_struct_fields() {
    let schema = Schema::Struct(vec![
        field(Schema::Bool),
        var_field(Schema::U16),
        field(Schema::U32),
        field(Schema::Str),
        field(Schema::Optional(Box::new(Schema::U8))),
        field(Schema::List(Box::new(Schema::U8))),
    ]);
    let input = [1, 0xAC, 0x02, 0x12, 0x34, 0x56, 0x78, 2, b'h', b'i', 1, 7, 2, 9, 8, 0xFF];
    let (value, used) = from_slice_remainder(&input, &schema).ok().unwrap();
    assert_eq!(used, 15);
    let expected = Value::Struct(vec![
        Field { variable: false, value: Value::Bool(true) },
        Field { variable: true, value: Value::U16(300) },
        Field { variable: false, value: Value::U32(0x12345678) },
        Field { variable: false, value: Value::Str(String::from("hi")) },
        Field { variable: false, value: Value::Optional(Some(Box::new(Value::U8(7)))) },
        Field { variable: false, value: Value::List(vec![Value::U8(9), Value::U8(8)]) },
    ]);
    assert_eq!(value, expected);
}

#[test]
fn iter_reads_enum_variant() {
    let schema = Schema::Enum {
        name: String::from("Example"),
        variants: vec![
            VariantSchema { name: String::from("Empty"), discriminant: 0, fields: vec![] },
            VariantSchema { name: String::from("Pair"), discriminant: 2, fields: vec![field(Schema::Bool), field(Schema::I8)] },
        ],
    };
    let value = from_slice(&[2, 1, 0xFF], &schema).ok().unwrap();
    assert_eq!(
        value,
        Value::Enum {
            discriminant: 2,
            fields: vec![
                Field { variable: false, value: Value::Bool(true) },
                Field { variable: false, value: Value::I8(-1) },
            ],
        }
    );
    assert!(matches!(from_slice(&[5], &schema), Err(DeserializeIterError::InvalidVariant(5))));
}

#[test]
fn iter_reads_maps_sets_arrays_and_pointers() {
    let schema = Schema::Struct(vec![
        field(Schema::KeyValue(Box::new(Schema::U8), Box::new(Schema::U16))),
        field(Schema::Distinct(Box::new(Schema::U8))),
        field(Schema::Array(Box::new(Schema::I16), 2)),
        field(Schema::Pointer(Box::new(Schema::U8))),
        field(Schema::Unit),
    ]);
    let input = [2, 1, 0x00, 0x10, 2, 0x00, 0x20, 1, 4, 0xFF, 0xFE, 0x00, 0x02, 42];
    let value = from_slice(&input, &schema).ok().unwrap();
    let expected = Value::Struct(vec![
        Field {
            variable: false,
            value: Value::KeyValue(vec![
                (Value::U8(1), Value::U16(0x10)),
                (Value::U8(2), Value::U16(0x20)),
            ]),
        },
        Field { variable: false, value: Value::Distinct(vec![Value::U8(4)]) },
        Field { variable: false, value: Value::Array(vec![Value::I16(-2), Value::I16(2)]) },
        Field { variable: false, value: Value::Pointer(Some(Box::new(Value::U8(42)))) },
        Field { variable: false, value: Value::Unit },
    ]);
    assert_eq!(value, expected);
}

#[test]
fn iter_errors() {
    let optional = Schema::Optional(Box::new(Schema::U8));
    assert!(matches!(from_slice(&[2], &optional), Err(DeserializeIterError::Boolean(2))));
    assert!(matches!(from_slice(&[0], &optional), Ok(Value::Optional(None))));

    assert!(matches!(from_slice(&[3], &Schema::Bool), Err(DeserializeIterError::Boolean(3))));
    assert!(matches!(
        from_slice(&[2, 0xC3, 0x28], &Schema::Str),
        Err(DeserializeIterError::Utf8(0))
    ));
    match from_slice(&[0x01], &Schema::U32) {
        Err(DeserializeIterError::EndOfInput { error, .. }) => {
            assert_eq!(error.had, 1);
            assert_eq!(error.expected, 4);
        }
        _ => panic!("expected the input to run out"),
    }
}

#[test]
fn iter_resumes_with_more_input() {
    let schema = Schema::Struct(vec![field(Schema::U8), field(Schema::U16)]);
    let iter = DeserializeIter::new(&schema);
    let first = [7u8, 1];
    let mut cursor = InputCursor::new(&first);
    let iter = match iter.next(&mut cursor) {
        Err(DeserializeIterError::EndOfInput { error, iterator }) => {
            assert_eq!(error.had, 1);
            assert_eq!(error.expected, 2);
            iterator
        }
        _ => panic!("expected the input to run out"),
    };
    let second = [0x01, 0x02];
    let mut cursor = InputCursor::new(&second);
    let (iter, done) = iter.next(&mut cursor).ok().unwrap();
    assert!(done);
    assert_eq!(
        iter.into_value().unwrap(),
        Value::Struct(vec![
            Field { variable: false, value: Value::U8(7) },
            Field { variable: false, value: Value::U16(0x0102) },
        ])
    );
}

#[test]
fn iter_ignores_trailing_input() {
    // A value read whole reads the same with more bytes after it.
    let schema = Schema::Struct(vec![
        field(Schema::Bool),
        var_field(Schema::U32),
        field(Schema::List(Box::new(Schema::U8))),
    ]);
    let input = [1u8, 0xAC, 0x02, 2, 9, 8];
    let mut longer = input.to_vec();
    longer.extend_from_slice(&[0xFF, 0xFF, 0x00]);
    let (short_value, short_used) = match from_slice_remainder(&input, &schema) {
        Ok(pair) => pair,
        Err(_) => panic!("the value should be read"),
    };
    let (long_value, long_used) = match from_slice_remainder(&longer, &schema) {
        Ok(pair) => pair,
        Err(_) => panic!("the value should be read"),
    };
    assert_eq!(short_value, long_value);
    assert_eq!(short_used, 6);
    assert_eq!(long_used, 6);
    assert_eq!(
        short_value,
        Value::Struct(vec![
            Field { variable: false, value: Value::Bool(true) },
            Field { variable: true, value: Value::U32(300) },
            Field { variable: false, value: Value::List(vec![Value::U8(9), Value::U8(8)]) },
        ])
    );

    // An error that is not about running out stays the same too.
    assert!(matches!(from_slice(&[5, 1, 2, 3], &Schema::Bool), Err(DeserializeIterError::Boolean(5))));
    assert!(matches!(from_slice(&[5], &Schema::Bool), Err(DeserializeIterError::Boolean(5))));
}

#[test]
fn iter_tells_where_it_stopped() {
    let schema = Schema::Struct(vec![field(Schema::U8), field(Schema::U16)]);
    let first = [7u8, 1];
    let mut cursor = InputCursor::new(&first);
    match DeserializeIter::new(&schema).next(&mut cursor) {
        Err(DeserializeIterError::EndOfInput { error, .. }) => {
            assert_eq!(error.had, 1);
            assert_eq!(cursor.as_slice(), &[1u8][..]);
        }
        _ => panic!("expected the input to run out"),
    }

    // A string cut in its body is not started: its length stays unread, and
    // the walk resumes on the bytes kept followed by more.
    let text = Schema::Struct(vec![field(Schema::U8), field(Schema::Str)]);
    let cut = [9u8, 3, b'a'];
    let mut cursor = InputCursor::new(&cut);
    let iterator = match DeserializeIter::new(&text).next(&mut cursor) {
        Err(DeserializeIterError::EndOfInput { error, iterator }) => {
            assert_eq!(error.had, 2);
            assert_eq!(error.expected, 4);
            assert_eq!(cursor.as_slice(), &[3u8, b'a'][..]);
            iterator
        }
        _ => panic!("expected the input to run out"),
    };
    let more = [3u8, b'a', b'b', b'c'];
    let mut cursor = InputCursor::new(&more);
    let (done, finished) = iterator.next(&mut cursor).ok().unwrap();
    assert!(finished);
    assert_eq!(
        done.into_value(),
        Some(Value::Struct(vec![
            Field { variable: false, value: Value::U8(9) },
            Field { variable: false, value: Value::Str(String::from("abc")) },
        ]))
    );

    // A finished walk gives its value again without reading.
    let mut cursor = InputCursor::new(&[5u8]);
    let (done, finished) = DeserializeIter::new(&Schema::U8).next(&mut cursor).ok().unwrap();
    assert!(finished);
    let mut empty = InputCursor::new(&[]);
    let (again, finished) = done.next(&mut empty).ok().unwrap();
    assert!(finished);
    assert_eq!(again.into_value(), Some(Value::U8(5)));
}
