//! Reading length-prefixed strings from a slice.
use facet_minecraft::parse::{parse_owned_scalar, ScalarTypeHint, ScalarValue};

struct TestCursor(&'static [u8]);

impl TestCursor {
    fn read_string(&mut self) -> Result<String, ()> {
        match parse_owned_scalar(self.0, ScalarTypeHint::String, false) {
            Ok((ScalarValue::OwnedStr(s), size)) => {
                self.0 = &self.0[size..];
                Ok(s)
            }
            _ => Err(()),
        }
    }
}

#[test]
fn string() {
    let mut cursor = TestCursor(&[
        0, 1, b'A', 3, b'F', b'o', b'o', 13, b'H', b'e', b'l', b'l', b'o', b',', b' ', b'W', b'o',
        b'r', b'l', b'd', b'!',
    ]);

    assert_eq!(cursor.read_string().unwrap(), "");
    assert_eq!(cursor.read_string().unwrap(), "A");
    assert_eq!(cursor.read_string().unwrap(), "Foo");
    assert_eq!(cursor.read_string().unwrap(), "Hello, World!");
}
