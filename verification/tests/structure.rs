//! Values of struct and enum types written and read back.
use facet_minecraft::buffer::to_vec;
use facet_minecraft::iter::from_slice;
use facet_minecraft::schema::{FieldSchema, Schema};
use facet_minecraft::value::{Field, Value};

fn field(variable: bool, value: Value) -> Field {
    Field { variable, value }
}

fn field_schema(variable: bool, schema: Schema) -> FieldSchema {
    FieldSchema { variable, schema }
}

fn check(schema: &Schema, value: Value, expected: &[u8]) {
    let serialized = match to_vec(&value) {
        Ok(bytes) => bytes,
        Err(_) => panic!("{value:?} should be written"),
    };
    assert_eq!(serialized, expected, "From {value:?} expected {expected:02x?}, got {serialized:02x?}");
    match from_slice(&serialized, schema) {
        Ok(read) => assert_eq!(read, value),
        Err(_) => panic!("{value:?} should be read back"),
    }
}

#[test]
fn structure_struct() {
    let unit = Schema::Struct(vec![]);
    check(&unit, Value::Struct(vec![]), &[]);

    let tuple = Schema::Struct(vec![
        field_schema(false, Schema::Bool),
        field_schema(false, Schema::Optional(Box::new(Schema::U8))),
        field_schema(false, Schema::U8),
    ]);
    let tuple_value = |a: bool, b: Option<u8>, c: u8| {
        Value::Struct(vec![
            field(false, Value::Bool(a)),
            field(false, Value::Optional(b.map(|x| Box::new(Value::U8(x))))),
            field(false, Value::U8(c)),
        ])
    };
    check(&tuple, tuple_value(false, None, 0xff), &[0x00, 0x00, 0xff]);
    check(&tuple, tuple_value(false, Some(0x00), 0xff), &[0x00, 0x01, 0x00, 0xff]);
    check(&tuple, tuple_value(true, Some(0x2a), 0xff), &[0x01, 0x01, 0x2a, 0xff]);

    let plain = Schema::Struct(vec![
        field_schema(false, Schema::Bool),
        field_schema(false, Schema::U32),
        field_schema(true, Schema::USize),
    ]);
    let plain_value = |a: bool, b: u32, c: usize| {
        Value::Struct(vec![
            field(false, Value::Bool(a)),
            field(false, Value::U32(b)),
            field(true, Value::USize(c)),
        ])
    };
    check(&plain, plain_value(false, 0x00, 0x00), &[0x00, 0x00, 0x00, 0x00, 0x00, 0x00]);
    check(&plain, plain_value(true, 0x12345678, 0x00), &[0x01, 0x12, 0x34, 0x56, 0x78, 0x00]);
    check(&plain, plain_value(true, 0x12345678, 0x2a), &[0x01, 0x12, 0x34, 0x56, 0x78, 0x2a]);
    check(&plain, plain_value(true, 0x12345678, 0xff), &[0x01, 0x12, 0x34, 0x56, 0x78, 0xff, 0x01]);

    let variable_option = Schema::Struct(vec![
        field_schema(false, Schema::Str),
        field_schema(true, Schema::Optional(Box::new(Schema::U32))),
        field_schema(false, Schema::Bool),
    ]);
    let variable_option_value = |a: &str, b: Option<u32>, c: bool| {
        Value::Struct(vec![
            field(false, Value::Str(String::from(a))),
            field(true, Value::Optional(b.map(|x| Box::new(Value::U32(x))))),
            field(false, Value::Bool(c)),
        ])
    };
    check(&variable_option, variable_option_value("", None, false), &[0x00, 0x00, 0x00]);
    check(&variable_option, variable_option_value("", Some(0x00), false), &[0x00, 0x01, 0x00, 0x00]);
    check(
        &variable_option,
        variable_option_value("aa", Some(0xff), false),
        &[0x02, b'a', b'a', 0x01, 0xff, 0x01, 0x00],
    );
}

#[test]
fn structure_enum() {}
