//! The tests made before reading: which shapes can be read and walked, and
//! which errors can be laid out.
use facet_minecraft::de::{DeserializeError, ErrorReason};
use facet_minecraft::iter::is_walkable;
use facet_minecraft::schema::{is_readable, FieldSchema, Schema, VariantSchema};

fn field(variable: bool, schema: Schema) -> FieldSchema {
    FieldSchema { variable, schema }
}

#[test]
fn readable_shapes() {
    assert!(is_readable(&Schema::U8, false));
    assert!(!is_readable(&Schema::U8, true));
    assert!(is_readable(&Schema::U32, true));
    assert!(!is_readable(&Schema::Str, true));
    assert!(!is_readable(&Schema::KeyValue(Box::new(Schema::U8), Box::new(Schema::U8)), false));
    assert!(!is_readable(&Schema::Distinct(Box::new(Schema::U8)), false));
    assert!(is_readable(&Schema::List(Box::new(Schema::U64)), true));
    let good = Schema::Struct(vec![field(false, Schema::Bool), field(true, Schema::I64)]);
    assert!(is_readable(&good, false));
    let bad = Schema::Struct(vec![field(false, Schema::Bool), field(true, Schema::F32)]);
    assert!(!is_readable(&bad, false));
    let variants = vec![
        VariantSchema { name: String::from("A"), discriminant: 0, fields: vec![] },
        VariantSchema {
            name: String::from("B"),
            discriminant: 1,
            fields: vec![field(false, Schema::Unsupported)],
        },
    ];
    assert!(!is_readable(&Schema::Enum { name: String::from("E"), variants }, false));
}

#[test]
fn walkable_shapes() {
    assert!(is_walkable(&Schema::KeyValue(Box::new(Schema::Str), Box::new(Schema::U8))));
    assert!(is_walkable(&Schema::Distinct(Box::new(Schema::U8))));
    assert!(!is_walkable(&Schema::Unsupported));
    assert!(!is_walkable(&Schema::Optional(Box::new(Schema::Unsupported))));
    let variants = vec![
        VariantSchema { name: String::from("A"), discriminant: 0, fields: vec![] },
        VariantSchema {
            name: String::from("B"),
            discriminant: 1,
            fields: vec![field(true, Schema::U32), field(false, Schema::Str)],
        },
    ];
    assert!(is_walkable(&Schema::Enum { name: String::from("E"), variants }));
    let nested = Schema::Struct(vec![field(false, Schema::List(Box::new(Schema::Unsupported)))]);
    assert!(!is_walkable(&nested));
}

#[test]
fn errors_that_can_be_laid_out() {
    let input: &[u8] = &[1, 2, 3];
    let plain = DeserializeError::new(input, String::from("u8"), ErrorReason::EndOfInput);
    assert!(plain.source_is_defined());
    assert!(ErrorReason::EndOfInput.note_is_defined(&plain));

    // An error in a string four bytes past the end of the whole input is the
    // furthest that can be shown.
    let whole: &[u8] = &[9, 9, 0xff];
    let at_end = DeserializeError::new(&whole[2..], String::from("String"), ErrorReason::InvalidUtf8(5))
        .with_origin(whole, String::from("Outer"));
    assert!(at_end.source_is_defined());
    let past = DeserializeError::new(&whole[2..], String::from("String"), ErrorReason::InvalidUtf8(6))
        .with_origin(whole, String::from("Outer"));
    assert!(!past.source_is_defined());

    // A note on a string error needs its position inside the bytes, after
    // valid UTF-8.
    let bytes: &[u8] = &[b'a', b'b', 0xff];
    let utf8 = DeserializeError::new(bytes, String::from("String"), ErrorReason::InvalidUtf8(2));
    assert!(ErrorReason::InvalidUtf8(2).note_is_defined(&utf8));
    assert!(!ErrorReason::InvalidUtf8(3).note_is_defined(&utf8));
    assert!(!ErrorReason::InvalidUtf8(4).note_is_defined(&utf8));

    // A note on the end of the input needs the error to blame at least the
    // bytes that were left.
    let short = DeserializeError::new(&whole[1..], String::from("u32"), ErrorReason::EndOfInput)
        .with_origin(whole, String::from("Outer"))
        .with_length(4);
    assert!(ErrorReason::EndOfInput.note_is_defined(&short));
    let over = DeserializeError::new(&whole[1..], String::from("u32"), ErrorReason::EndOfInput)
        .with_origin(whole, String::from("Outer"))
        .with_length(1);
    assert!(!ErrorReason::EndOfInput.note_is_defined(&over));
}
