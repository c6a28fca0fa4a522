//! The library's overview example: a player profile written and read back.
use facet_minecraft::schema::{FieldSchema, Schema};
use facet_minecraft::value::{Field, Value};
use facet_minecraft::{deserialize, serialize, McSerializer};

fn field(value: Value) -> Field {
    Field { variable: false, value }
}

fn schema_field(schema: Schema) -> FieldSchema {
    FieldSchema { variable: false, schema }
}

fn property_schema() -> Schema {
    Schema::Struct(vec![
        schema_field(Schema::Str),
        schema_field(Schema::Str),
        schema_field(Schema::Optional(Box::new(Schema::Str))),
    ])
}

fn profile() -> Value {
    Value::Struct(vec![
        field(Value::Str(String::from("jeb_"))),
        field(Value::List(vec![Value::Struct(vec![
            field(Value::Str(String::from("textures"))),
            field(Value::Str(String::from("pretend_base64"))),
            field(Value::Optional(None)),
        ])])),
    ])
}

#[test]
fn readme_profile_roundtrip() {
    let schema = Schema::Struct(vec![
        schema_field(Schema::Str),
        schema_field(Schema::List(Box::new(property_schema()))),
    ]);
    let profile = profile();
    let mut buffer = Vec::<u8>::new();
    serialize(&profile, &mut buffer).unwrap();
    let (read, rest) = deserialize(&buffer, &schema).unwrap();
    assert_eq!(read, profile);
    assert!(rest.is_empty());

    let mut ser = McSerializer(Vec::new());
    ser.serialize(&profile).unwrap();
    assert_eq!(ser.0, buffer);
    assert_eq!(&buffer[..5], &[4, b'j', b'e', b'b', b'_']);
}

#[test]
fn roundtrip_keeps_trailing_input() {
    let schema = Schema::Struct(vec![
        schema_field(Schema::I32),
        FieldSchema { variable: true, schema: Schema::I64 },
        schema_field(Schema::Array(Box::new(Schema::Bool), 2)),
    ]);
    let value = Value::Struct(vec![
        field(Value::I32(-7)),
        Field { variable: true, value: Value::I64(-300) },
        field(Value::Array(vec![Value::Bool(true), Value::Bool(false)])),
    ]);
    let mut buffer = Vec::<u8>::new();
    serialize(&value, &mut buffer).unwrap();
    buffer.extend_from_slice(&[9, 9]);
    let (read, rest) = deserialize(&buffer, &schema).unwrap();
    assert_eq!(read, value);
    assert_eq!(rest, &[9, 9][..]);
}

#[test]
fn serialize_writes_lengths_and_strings() {
    let value = Value::List(vec![Value::Str(String::from("Foo")), Value::Str(String::new())]);
    let mut buf: Vec<u8> = Vec::new();
    assert!(serialize(&value, &mut buf).is_ok());
    assert_eq!(buf, vec![2, 3, b'F', b'o', b'o', 0]);
    // A second call appends to what the writer holds.
    assert!(serialize(&Value::U8(7), &mut buf).is_ok());
    assert_eq!(buf, vec![2, 3, b'F', b'o', b'o', 0, 7]);
}
