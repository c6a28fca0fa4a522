//! What a deserialization error tells about itself.
use facet_minecraft::de::{DeserializeError, ErrorReason};
use facet_minecraft::deserialize;
use facet_minecraft::schema::{Schema, VariantSchema};

#[test]
fn error_labels() {
    assert_eq!(
        ErrorReason::EndOfInput.error_label(),
        "The input ended unexpectedly while parsing data."
    );
    assert_eq!(
        ErrorReason::InvalidBool(7).error_label(),
        "Expected either `true` (1) or `false` (0), but found `7`."
    );
    assert_eq!(ErrorReason::InvalidVariant(-12).error_label(), "Invalid enum variant `-12`");
    assert_eq!(
        ErrorReason::InvalidVariant(i64::MIN).error_label(),
        "Invalid enum variant `-9223372036854775808`"
    );
    assert_eq!(
        ErrorReason::InvalidUtf8(3).error_label(),
        "Strings must be valid UTF-8, but the input contained invalid bytes."
    );
    assert_eq!(ErrorReason::InvalidBool(255).error_reason(), "Invalid boolean value");
}

#[test]
fn source_without_origin() {
    let input: &[u8] = &[0, 1, 2, 3, 4, 5, 6, 7, 8, 9];
    let error = DeserializeError::new(input, String::from("u8"), ErrorReason::EndOfInput);
    let (source, span) = error.build_source();
    assert_eq!(source, "Input: [0, 1, 2, 3, 4, 5, 6, 7, ...]");
    assert_eq!(span, 8..9);

    let short: &[u8] = &[100, 20];
    let error =
        DeserializeError::new(short, String::from("u16"), ErrorReason::EndOfInput).with_length(2);
    let (source, span) = error.build_source();
    assert_eq!(source, "Input: [100, 20]");
    assert_eq!(span, 8..13);

    let empty: &[u8] = &[];
    let error = DeserializeError::new(empty, String::from("u8"), ErrorReason::EndOfInput);
    assert_eq!(error.build_source(), (String::from("Input: <empty>"), 8..8));
}

#[test]
fn source_with_origin() {
    let input: &[u8] = &[10, 11, 12, 13, 14, 15, 16, 17, 18, 19, 20, 21];
    let error = DeserializeError::new(&input[6..], String::from("u16"), ErrorReason::InvalidBool(16))
        .with_origin(input, String::from("Outer"));
    let (source, span) = error.build_source();
    assert_eq!(source, "Input: [..., 12, 13, 14, 15, 16, 17, 18, 19, ...]");
    assert_eq!(&source[span.clone()], "16");

    let error = DeserializeError::new(&input[6..], String::from("u16"), ErrorReason::EndOfInput)
        .with_length(2)
        .with_origin(input, String::from("Outer"));
    let (source, span) = error.build_source();
    assert_eq!(&source[span], "16, 17");
    assert_eq!(error.identifier(), "Outer");
}

#[test]
fn expected_notes() {
    let input: &[u8] = &[1, 2, 3, 4, 5, 6];
    let error = DeserializeError::new(&input[4..], String::from("u32"), ErrorReason::EndOfInput)
        .with_length(4)
        .with_origin(input, String::from("Outer"));
    assert_eq!(
        ErrorReason::EndOfInput.expected_note(&error),
        Some(String::from("Expected 2 more bytes for a `u32`"))
    );
    let error = DeserializeError::new(&input[3..], String::from("u32"), ErrorReason::EndOfInput)
        .with_length(4)
        .with_origin(input, String::from("Outer"));
    assert_eq!(
        ErrorReason::EndOfInput.expected_note(&error),
        Some(String::from("Expected 1 more byte for a `u32`"))
    );
    let error = DeserializeError::new(&input[2..], String::from("u32"), ErrorReason::EndOfInput)
        .with_length(4)
        .with_origin(input, String::from("Outer"));
    assert_eq!(ErrorReason::EndOfInput.expected_note(&error), None);

    let text: &[u8] = &[b'o', b'k', 0xFF];
    let error = DeserializeError::new(text, String::from("str"), ErrorReason::InvalidUtf8(2));
    assert_eq!(
        ErrorReason::InvalidUtf8(2).expected_note(&error),
        Some(String::from("Valid string slice: \"ok\" (0..2)"))
    );
    assert_eq!(ErrorReason::InvalidBool(2).expected_note(&error), None);
}

#[test]
fn invalid_variant_note() {
    let schema = Schema::Enum {
        name: String::from("Mode"),
        variants: vec![
            VariantSchema { name: String::from("Off"), discriminant: 0, fields: vec![] },
            VariantSchema { name: String::from("Back"), discriminant: -1, fields: vec![] },
        ],
    };
    let error = deserialize(&[3], &schema).unwrap_err();
    assert_eq!(error.reason, ErrorReason::InvalidVariant(3));
    assert_eq!(
        error.reason.expected_note(&error),
        Some(String::from("Expected one of:\nMode::Off (0)\nMode::Back (-1)"))
    );
    assert_eq!(error.reason.error_label(), "Invalid enum variant `3`");
}
