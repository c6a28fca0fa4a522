//! Reading scalars one after the other from a stream of bytes, each with a
//! walk of its own over what is left.
use facet_minecraft::iter::from_slice_remainder;
use facet_minecraft::parse::ScalarTypeHint;
use facet_minecraft::schema::Schema;
use facet_minecraft::value::Value;

struct TestCursor {
    data: &'static [u8],
    pos: usize,
}

fn schema_for(hint: ScalarTypeHint) -> Schema {
    match hint {
        ScalarTypeHint::Bool => Schema::Bool,
        ScalarTypeHint::U8 => Schema::U8,
        ScalarTypeHint::U16 => Schema::U16,
        ScalarTypeHint::U32 => Schema::U32,
        ScalarTypeHint::U64 => Schema::U64,
        ScalarTypeHint::U128 => Schema::U128,
        ScalarTypeHint::I8 => Schema::I8,
        ScalarTypeHint::I16 => Schema::I16,
        ScalarTypeHint::I32 => Schema::I32,
        ScalarTypeHint::I64 => Schema::I64,
        ScalarTypeHint::I128 => Schema::I128,
        ScalarTypeHint::F32 => Schema::F32,
        ScalarTypeHint::F64 => Schema::F64,
        _ => Schema::Unsupported,
    }
}

impl TestCursor {
    fn new(data: &'static [u8]) -> Self {
        TestCursor { data, pos: 0 }
    }

    fn read(&mut self, hint: ScalarTypeHint) -> Result<Value, ()> {
        let schema = schema_for(hint);
        match from_slice_remainder(&self.data[self.pos..], &schema) {
            Ok((value, size)) => {
                self.pos += size;
                Ok(value)
            }
            Err(_) => Err(()),
        }
    }

    fn read_bool(&mut self) -> Result<bool, ()> {
        match self.read(ScalarTypeHint::Bool)? {
            Value::Bool(b) => Ok(b),
            _ => Err(()),
        }
    }

    fn read_u64(&mut self, hint: ScalarTypeHint) -> u64 {
        match self.read(hint).unwrap() {
            Value::U8(v) => v as u64,
            Value::U16(v) => v as u64,
            Value::U32(v) => v as u64,
            Value::U64(v) => v,
            other => panic!("unexpected {other:?}"),
        }
    }

    fn read_i64(&mut self, hint: ScalarTypeHint) -> i64 {
        match self.read(hint).unwrap() {
            Value::I8(v) => v as i64,
            Value::I16(v) => v as i64,
            Value::I32(v) => v as i64,
            Value::I64(v) => v,
            other => panic!("unexpected {other:?}"),
        }
    }

    fn read_u128(&mut self) -> u128 {
        match self.read(ScalarTypeHint::U128).unwrap() {
            Value::U128(v) => v,
            other => panic!("unexpected {other:?}"),
        }
    }

    fn read_i128(&mut self) -> i128 {
        match self.read(ScalarTypeHint::I128).unwrap() {
            Value::I128(v) => v,
            other => panic!("unexpected {other:?}"),
        }
    }

    fn read_f32(&mut self) -> f32 {
        match self.read(ScalarTypeHint::F32).unwrap() {
            Value::F32(bits) => f32::from_bits(bits),
            other => panic!("unexpected {other:?}"),
        }
    }

    fn read_f64(&mut self) -> f64 {
        match self.read(ScalarTypeHint::F64).unwrap() {
            Value::F64(bits) => f64::from_bits(bits),
            other => panic!("unexpected {other:?}"),
        }
    }
}

#[test]
fn bool() {
    let mut cursor = TestCursor::new(&[0, 1, 0, 1, 0, 1, 0, 1, 2]);

    assert_eq!(cursor.read_bool().unwrap(), false);
    assert_eq!(cursor.read_bool().unwrap(), true);
    assert_eq!(cursor.read_bool().unwrap(), false);
    assert_eq!(cursor.read_bool().unwrap(), true);
    assert_eq!(cursor.read_bool().unwrap(), false);
    assert_eq!(cursor.read_bool().unwrap(), true);
    assert_eq!(cursor.read_bool().unwrap(), false);
    assert_eq!(cursor.read_bool().unwrap(), true);
    assert!(cursor.read_bool().is_err());
}

#[test]
fn u8() {
    let mut cursor = TestCursor::new(&[0, 1, 2, 3, 4, 5, 6, 7, 8, 9, 10, 11, 12, 13, 14, 15]);

    assert_eq!(cursor.read_u64(ScalarTypeHint::U8), 0u8 as u64);
    assert_eq!(cursor.read_u64(ScalarTypeHint::U8), 1u8 as u64);
    assert_eq!(cursor.read_u64(ScalarTypeHint::U8), 2u8 as u64);
    assert_eq!(cursor.read_u64(ScalarTypeHint::U8), 3u8 as u64);
    assert_eq!(cursor.read_u64(ScalarTypeHint::U8), 4u8 as u64);
    assert_eq!(cursor.read_u64(ScalarTypeHint::U8), 5u8 as u64);
    assert_eq!(cursor.read_u64(ScalarTypeHint::U8), 6u8 as u64);
    assert_eq!(cursor.read_u64(ScalarTypeHint::U8), 7u8 as u64);
}

#[test]
fn i8() {
    let mut cursor = TestCursor::new(&[0, 1, 2, 3, 4, 5, 6, 7, 8, 9, 10, 11, 12, 13, 14, 15]);

    assert_eq!(cursor.read_i64(ScalarTypeHint::I8), 0i8 as i64);
    assert_eq!(cursor.read_i64(ScalarTypeHint::I8), 1i8 as i64);
    assert_eq!(cursor.read_i64(ScalarTypeHint::I8), 2i8 as i64);
    assert_eq!(cursor.read_i64(ScalarTypeHint::I8), 3i8 as i64);
    assert_eq!(cursor.read_i64(ScalarTypeHint::I8), 4i8 as i64);
    assert_eq!(cursor.read_i64(ScalarTypeHint::I8), 5i8 as i64);
    assert_eq!(cursor.read_i64(ScalarTypeHint::I8), 6i8 as i64);
    assert_eq!(cursor.read_i64(ScalarTypeHint::I8), 7i8 as i64);
}

#[test]
fn u16() {
    let mut cursor = TestCursor::new(&[0, 0, 0, 1, 0, 2, 0, 3, 0, 4, 0, 5, 0, 6, 0, 7]);

    assert_eq!(cursor.read_u64(ScalarTypeHint::U16), 0u16 as u64);
    assert_eq!(cursor.read_u64(ScalarTypeHint::U16), 1u16 as u64);
    assert_eq!(cursor.read_u64(ScalarTypeHint::U16), 2u16 as u64);
    assert_eq!(cursor.read_u64(ScalarTypeHint::U16), 3u16 as u64);
    assert_eq!(cursor.read_u64(ScalarTypeHint::U16), 4u16 as u64);
    assert_eq!(cursor.read_u64(ScalarTypeHint::U16), 5u16 as u64);
    assert_eq!(cursor.read_u64(ScalarTypeHint::U16), 6u16 as u64);
    assert_eq!(cursor.read_u64(ScalarTypeHint::U16), 7u16 as u64);
}

#[test]
fn i16() {
    let mut cursor = TestCursor::new(&[0, 0, 0, 1, 0, 2, 0, 3, 0, 4, 0, 5, 0, 6, 0, 7]);

    assert_eq!(cursor.read_i64(ScalarTypeHint::I16), 0i16 as i64);
    assert_eq!(cursor.read_i64(ScalarTypeHint::I16), 1i16 as i64);
    assert_eq!(cursor.read_i64(ScalarTypeHint::I16), 2i16 as i64);
    assert_eq!(cursor.read_i64(ScalarTypeHint::I16), 3i16 as i64);
    assert_eq!(cursor.read_i64(ScalarTypeHint::I16), 4i16 as i64);
    assert_eq!(cursor.read_i64(ScalarTypeHint::I16), 5i16 as i64);
    assert_eq!(cursor.read_i64(ScalarTypeHint::I16), 6i16 as i64);
    assert_eq!(cursor.read_i64(ScalarTypeHint::I16), 7i16 as i64);
}

#[test]
fn u32() {
    let mut cursor = TestCursor::new(&[0, 0, 0, 0, 0, 0, 0, 1, 0, 0, 0, 2, 0, 0, 0, 3, 0, 0, 0, 4, 0, 0, 0, 5, 0, 0, 0, 6, 0, 0, 0, 7,]);

    assert_eq!(cursor.read_u64(ScalarTypeHint::U32), 0u32 as u64);
    assert_eq!(cursor.read_u64(ScalarTypeHint::U32), 1u32 as u64);
    assert_eq!(cursor.read_u64(ScalarTypeHint::U32), 2u32 as u64);
    assert_eq!(cursor.read_u64(ScalarTypeHint::U32), 3u32 as u64);
    assert_eq!(cursor.read_u64(ScalarTypeHint::U32), 4u32 as u64);
    assert_eq!(cursor.read_u64(ScalarTypeHint::U32), 5u32 as u64);
    assert_eq!(cursor.read_u64(ScalarTypeHint::U32), 6u32 as u64);
    assert_eq!(cursor.read_u64(ScalarTypeHint::U32), 7u32 as u64);
}

#[test]
fn i32() {
    let mut cursor = TestCursor::new(&[0, 0, 0, 0, 0, 0, 0, 1, 0, 0, 0, 2, 0, 0, 0, 3, 0, 0, 0, 4, 0, 0, 0, 5, 0, 0, 0, 6, 0, 0, 0, 7,]);

    assert_eq!(cursor.read_i64(ScalarTypeHint::I32), 0i32 as i64);
    assert_eq!(cursor.read_i64(ScalarTypeHint::I32), 1i32 as i64);
    assert_eq!(cursor.read_i64(ScalarTypeHint::I32), 2i32 as i64);
    assert_eq!(cursor.read_i64(ScalarTypeHint::I32), 3i32 as i64);
    assert_eq!(cursor.read_i64(ScalarTypeHint::I32), 4i32 as i64);
    assert_eq!(cursor.read_i64(ScalarTypeHint::I32), 5i32 as i64);
    assert_eq!(cursor.read_i64(ScalarTypeHint::I32), 6i32 as i64);
    assert_eq!(cursor.read_i64(ScalarTypeHint::I32), 7i32 as i64);
}

#[test]
fn u64() {
    let mut cursor = TestCursor::new(&[0, 0, 0, 0, 0, 0, 0, 0, 0, 0, 0, 0, 0, 0, 0, 1, 0, 0, 0, 0, 0, 0, 0, 2, 0, 0, 0, 0, 0, 0, 0, 3, 0, 0, 0, 0, 0, 0, 0, 4, 0, 0, 0, 0, 0, 0, 0, 5, 0, 0, 0, 0, 0, 0, 0, 6, 0, 0, 0, 0, 0, 0, 0, 7,]);

    assert_eq!(cursor.read_u64(ScalarTypeHint::U64), 0u64 as u64);
    assert_eq!(cursor.read_u64(ScalarTypeHint::U64), 1u64 as u64);
    assert_eq!(cursor.read_u64(ScalarTypeHint::U64), 2u64 as u64);
    assert_eq!(cursor.read_u64(ScalarTypeHint::U64), 3u64 as u64);
    assert_eq!(cursor.read_u64(ScalarTypeHint::U64), 4u64 as u64);
    assert_eq!(cursor.read_u64(ScalarTypeHint::U64), 5u64 as u64);
    assert_eq!(cursor.read_u64(ScalarTypeHint::U64), 6u64 as u64);
    assert_eq!(cursor.read_u64(ScalarTypeHint::U64), 7u64 as u64);
}

#[test]
fn i64() {
    let mut cursor = TestCursor::new(&[0, 0, 0, 0, 0, 0, 0, 0, 0, 0, 0, 0, 0, 0, 0, 1, 0, 0, 0, 0, 0, 0, 0, 2, 0, 0, 0, 0, 0, 0, 0, 3, 0, 0, 0, 0, 0, 0, 0, 4, 0, 0, 0, 0, 0, 0, 0, 5, 0, 0, 0, 0, 0, 0, 0, 6, 0, 0, 0, 0, 0, 0, 0, 7,]);

    assert_eq!(cursor.read_i64(ScalarTypeHint::I64), 0i64 as i64);
    assert_eq!(cursor.read_i64(ScalarTypeHint::I64), 1i64 as i64);
    assert_eq!(cursor.read_i64(ScalarTypeHint::I64), 2i64 as i64);
    assert_eq!(cursor.read_i64(ScalarTypeHint::I64), 3i64 as i64);
    assert_eq!(cursor.read_i64(ScalarTypeHint::I64), 4i64 as i64);
    assert_eq!(cursor.read_i64(ScalarTypeHint::I64), 5i64 as i64);
    assert_eq!(cursor.read_i64(ScalarTypeHint::I64), 6i64 as i64);
    assert_eq!(cursor.read_i64(ScalarTypeHint::I64), 7i64 as i64);
}

#[test]
fn u128() {
    let mut cursor = TestCursor::new(&[0, 0, 0, 0, 0, 0, 0, 0, 0, 0, 0, 0, 0, 0, 0, 0, 0, 0, 0, 0, 0, 0, 0, 0, 0, 0, 0, 0, 0, 0, 0, 1, 0, 0, 0, 0, 0, 0, 0, 0, 0, 0, 0, 0, 0, 0, 0, 2, 0, 0, 0, 0, 0, 0, 0, 0, 0, 0, 0, 0, 0, 0, 0, 3, 0, 0, 0, 0, 0, 0, 0, 0, 0, 0, 0, 0, 0, 0, 0, 4, 0, 0, 0, 0, 0, 0, 0, 0, 0, 0, 0, 0, 0, 0, 0, 5, 0, 0, 0, 0, 0, 0, 0, 0, 0, 0, 0, 0, 0, 0, 0, 6, 0, 0, 0, 0, 0, 0, 0, 0, 0, 0, 0, 0, 0, 0, 0, 7,]);

    assert_eq!(cursor.read_u128(), 0u128);
    assert_eq!(cursor.read_u128(), 1u128);
    assert_eq!(cursor.read_u128(), 2u128);
    assert_eq!(cursor.read_u128(), 3u128);
    assert_eq!(cursor.read_u128(), 4u128);
    assert_eq!(cursor.read_u128(), 5u128);
    assert_eq!(cursor.read_u128(), 6u128);
    assert_eq!(cursor.read_u128(), 7u128);
}

#[test]
fn i128() {
    let mut cursor = TestCursor::new(&[0, 0, 0, 0, 0, 0, 0, 0, 0, 0, 0, 0, 0, 0, 0, 0, 0, 0, 0, 0, 0, 0, 0, 0, 0, 0, 0, 0, 0, 0, 0, 1, 0, 0, 0, 0, 0, 0, 0, 0, 0, 0, 0, 0, 0, 0, 0, 2, 0, 0, 0, 0, 0, 0, 0, 0, 0, 0, 0, 0, 0, 0, 0, 3, 0, 0, 0, 0, 0, 0, 0, 0, 0, 0, 0, 0, 0, 0, 0, 4, 0, 0, 0, 0, 0, 0, 0, 0, 0, 0, 0, 0, 0, 0, 0, 5, 0, 0, 0, 0, 0, 0, 0, 0, 0, 0, 0, 0, 0, 0, 0, 6, 0, 0, 0, 0, 0, 0, 0, 0, 0, 0, 0, 0, 0, 0, 0, 7,]);

    assert_eq!(cursor.read_i128(), 0i128);
    assert_eq!(cursor.read_i128(), 1i128);
    assert_eq!(cursor.read_i128(), 2i128);
    assert_eq!(cursor.read_i128(), 3i128);
    assert_eq!(cursor.read_i128(), 4i128);
    assert_eq!(cursor.read_i128(), 5i128);
    assert_eq!(cursor.read_i128(), 6i128);
    assert_eq!(cursor.read_i128(), 7i128);
}

#[test]
fn f32() {
    let mut cursor = TestCursor::new(&[0, 0, 0, 0, 63, 128, 0, 0, 64, 0, 0, 0, 64, 64, 0, 0, 64, 128, 0, 0, 64, 160, 0, 0, 64, 192, 0, 0, 64, 224, 0, 0, 65, 0, 0, 0,]);

    assert!((cursor.read_f32() - 0.0f32).abs() < f32::EPSILON);
    assert!((cursor.read_f32() - 1.0f32).abs() < f32::EPSILON);
    assert!((cursor.read_f32() - 2.0f32).abs() < f32::EPSILON);
    assert!((cursor.read_f32() - 3.0f32).abs() < f32::EPSILON);
    assert!((cursor.read_f32() - 4.0f32).abs() < f32::EPSILON);
    assert!((cursor.read_f32() - 5.0f32).abs() < f32::EPSILON);
    assert!((cursor.read_f32() - 6.0f32).abs() < f32::EPSILON);
    assert!((cursor.read_f32() - 7.0f32).abs() < f32::EPSILON);
}

#[test]
fn f64() {
    let mut cursor = TestCursor::new(&[0, 0, 0, 0, 0, 0, 0, 0, 63, 240, 0, 0, 0, 0, 0, 0, 64, 0, 0, 0, 0, 0, 0, 0, 64, 8, 0, 0, 0, 0, 0, 0, 64, 16, 0, 0, 0, 0, 0, 0, 64, 20, 0, 0, 0, 0, 0, 0, 64, 24, 0, 0, 0, 0, 0, 0, 64, 28, 0, 0, 0, 0, 0, 0, 64, 32, 0, 0,]);

    assert!((cursor.read_f64() - 0.0f64).abs() < f64::EPSILON);
    assert!((cursor.read_f64() - 1.0f64).abs() < f64::EPSILON);
    assert!((cursor.read_f64() - 2.0f64).abs() < f64::EPSILON);
    assert!((cursor.read_f64() - 3.0f64).abs() < f64::EPSILON);
    assert!((cursor.read_f64() - 4.0f64).abs() < f64::EPSILON);
    assert!((cursor.read_f64() - 5.0f64).abs() < f64::EPSILON);
    assert!((cursor.read_f64() - 6.0f64).abs() < f64::EPSILON);
    assert!((cursor.read_f64() - 7.0f64).abs() < f64::EPSILON);
}
