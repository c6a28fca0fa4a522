//! The scalars a walk over a value gives, in order.
use facet_minecraft::peek::{PeekValue, SerializeIter};
use facet_minecraft::value::{Field, Value};

fn field(value: Value) -> Field {
    Field { variable: false, value }
}

fn var_field(value: Value) -> Field {
    Field { variable: true, value }
}

#[test]
fn primitive() {
    let value = Value::U8(0);
    let mut iter = SerializeIter::new(&value).unwrap();
    assert!(iter.next().is_some_and(|res| res.is_ok_and(|val| val == PeekValue::U8(0))));
    assert!(iter.next().is_none());

    let value = Value::I8(0);
    let mut iter = SerializeIter::new(&value).unwrap();
    assert!(iter.next().is_some_and(|res| res.is_ok_and(|val| val == PeekValue::U8(0))));
    assert!(iter.next().is_none());

    let value = Value::U128(256);
    let mut iter = SerializeIter::new(&value).unwrap();
    assert!(iter.next().is_some_and(|res| res.is_ok_and(|val| val == PeekValue::U128(256))));
    assert!(iter.next().is_none());

    let value = Value::I128(256);
    let mut iter = SerializeIter::new(&value).unwrap();
    assert!(iter.next().is_some_and(|res| res.is_ok_and(|val| val == PeekValue::U128(256))));
    assert!(iter.next().is_none());

    let value = Value::Str(String::from("string"));
    let mut iter = SerializeIter::new(&value).unwrap();
    assert!(iter.next().is_some_and(|res| res.is_ok_and(|val| val == PeekValue::Variable(6))));
    assert!(iter.next().is_some_and(|res| res.is_ok_and(|val| val == PeekValue::Bytes(&b"string"[..]))));
    assert!(iter.next().is_none());
}

#[test]
fn list() {
    let array = Value::Array(vec![Value::U8(0), Value::U8(0), Value::U8(0), Value::U8(0)]);
    let slice = Value::List(vec![Value::U8(0), Value::U8(0), Value::U8(0), Value::U8(0)]);

    let mut iter = SerializeIter::new(&array).unwrap();
    assert!(iter.next().is_some_and(|res| res.is_ok_and(|val| val == PeekValue::U8(0))));
    assert!(iter.next().is_some_and(|res| res.is_ok_and(|val| val == PeekValue::U8(0))));
    assert!(iter.next().is_some_and(|res| res.is_ok_and(|val| val == PeekValue::U8(0))));
    assert!(iter.next().is_some_and(|res| res.is_ok_and(|val| val == PeekValue::U8(0))));
    assert!(iter.next().is_none());

    let mut iter = SerializeIter::new(&slice).unwrap();
    assert!(iter.next().is_some_and(|res| res.is_ok_and(|val| val == PeekValue::Variable(4))));
    assert!(iter.next().is_some_and(|res| res.is_ok_and(|val| val == PeekValue::U8(0))));
    assert!(iter.next().is_some_and(|res| res.is_ok_and(|val| val == PeekValue::U8(0))));
    assert!(iter.next().is_some_and(|res| res.is_ok_and(|val| val == PeekValue::U8(0))));
    assert!(iter.next().is_some_and(|res| res.is_ok_and(|val| val == PeekValue::U8(0))));
    assert!(iter.next().is_none());

    let vec = Value::List(vec![Value::U32(0), Value::U32(0), Value::U32(0), Value::U32(0)]);
    let mut iter = SerializeIter::new(&vec).unwrap();
    assert!(iter.next().is_some_and(|res| res.is_ok_and(|val| val == PeekValue::Variable(4))));
    assert!(iter.next().is_some_and(|res| res.is_ok_and(|val| val == PeekValue::U32(0))));
    assert!(iter.next().is_some_and(|res| res.is_ok_and(|val| val == PeekValue::U32(0))));
    assert!(iter.next().is_some_and(|res| res.is_ok_and(|val| val == PeekValue::U32(0))));
    assert!(iter.next().is_some_and(|res| res.is_ok_and(|val| val == PeekValue::U32(0))));
    assert!(iter.next().is_none());
}

#[test]
fn map() {
    let mut items = Vec::new();
    for i in 0..8 {
        items.push(Value::U32(i));
    }
    let bset = Value::Distinct(items);
    let mut iter = SerializeIter::new(&bset).unwrap();
    assert!(iter.next().is_some_and(|res| res.is_ok_and(|val| val == PeekValue::Variable(8))));
    for i in 0..8u32 {
        assert!(iter.next().is_some_and(|res| res.is_ok_and(|val| val == PeekValue::U32(i))));
    }
    assert!(iter.next().is_none());

    let mut entries = Vec::new();
    for i in 0..8u32 {
        entries.push((Value::U32(i), Value::U32(255)));
    }
    let bmap = Value::KeyValue(entries);
    let mut iter = SerializeIter::new(&bmap).unwrap();
    assert!(iter.next().is_some_and(|res| res.is_ok_and(|val| val == PeekValue::Variable(8))));
    for i in 0..8u32 {
        assert!(iter.next().is_some_and(|res| res.is_ok_and(|val| val == PeekValue::U32(i))));
        assert!(iter.next().is_some_and(|res| res.is_ok_and(|val| val == PeekValue::U32(255))));
    }
    assert!(iter.next().is_none());
}

#[test]
fn serialize_iter_struct() {
    let unit = Value::Struct(vec![]);
    let mut iter = SerializeIter::new(&unit).unwrap();
    assert!(iter.next().is_none());

    let new_type = Value::Struct(vec![field(Value::Str(String::from("string2")))]);
    let mut iter = SerializeIter::new(&new_type).unwrap();
    assert!(iter.next().is_some_and(|res| res.is_ok_and(|val| val == PeekValue::Variable(7))));
    assert!(iter.next().is_some_and(|r| r.is_ok_and(|val| val == PeekValue::Bytes(&b"string2"[..]))));
    assert!(iter.next().is_none());

    let generic = Value::Struct(vec![field(Value::Struct(vec![field(Value::Str(String::from(
        "string3",
    )))]))]);
    let mut iter = SerializeIter::new(&generic).unwrap();
    assert!(iter.next().is_some_and(|res| res.is_ok_and(|val| val == PeekValue::Variable(7))));
    assert!(iter.next().is_some_and(|r| r.is_ok_and(|val| val == PeekValue::Bytes(&b"string3"[..]))));
    assert!(iter.next().is_none());

    let fields =
        Value::Struct(vec![field(Value::U8(1)), field(Value::U16(2)), field(Value::Bool(false))]);
    let mut iter = SerializeIter::new(&fields).unwrap();
    assert!(iter.next().is_some_and(|res| res.is_ok_and(|val| val == PeekValue::U8(1))));
    assert!(iter.next().is_some_and(|res| res.is_ok_and(|val| val == PeekValue::U16(2))));
    assert!(iter.next().is_some_and(|res| res.is_ok_and(|val| val == PeekValue::Bool(false))));
    assert!(iter.next().is_none());

    let variable = || {
        Value::Struct(vec![field(Value::U8(1)), var_field(Value::U16(2)), field(Value::Bool(false))])
    };
    let value = variable();
    let mut iter = SerializeIter::new(&value).unwrap();
    assert!(iter.next().is_some_and(|res| res.is_ok_and(|val| val == PeekValue::U8(1))));
    assert!(iter.next().is_some_and(|res| res.is_ok_and(|val| val == PeekValue::Variable(2))));
    assert!(iter.next().is_some_and(|res| res.is_ok_and(|val| val == PeekValue::Bool(false))));
    assert!(iter.next().is_none());

    let input = Value::Struct(vec![
        var_field(Value::U16(1)),
        var_field(Value::Optional(Some(Box::new(Value::U16(2))))),
        field(variable()),
    ]);
    let mut iter = SerializeIter::new(&input).unwrap();
    assert!(iter.next().is_some_and(|res| res.is_ok_and(|val| val == PeekValue::Variable(1))));
    assert!(iter.next().is_some_and(|res| res.is_ok_and(|val| val == PeekValue::Variable(1))));
    assert!(iter.next().is_some_and(|res| res.is_ok_and(|val| val == PeekValue::Variable(2))));
    assert!(iter.next().is_some_and(|res| res.is_ok_and(|val| val == PeekValue::U8(1))));
    assert!(iter.next().is_some_and(|res| res.is_ok_and(|val| val == PeekValue::Variable(2))));
    assert!(iter.next().is_some_and(|res| res.is_ok_and(|val| val == PeekValue::Bool(false))));
    assert!(iter.next().is_none());
}

#[test]
fn serialize_iter_enum() {
    let variant = |discriminant: i64, fields: Vec<Field>| Value::Enum { discriminant, fields };

    let value = variant(0, vec![]);
    let mut iter = SerializeIter::new(&value).unwrap();
    assert!(iter.next().is_some_and(|res| res.is_ok_and(|val| val == PeekValue::Variable(0))));
    assert!(iter.next().is_none());

    let value = variant(1, vec![field(Value::Unit)]);
    let mut iter = SerializeIter::new(&value).unwrap();
    assert!(iter.next().is_some_and(|res| res.is_ok_and(|val| val == PeekValue::Variable(1))));
    assert!(iter.next().is_none());

    let value = variant(2, vec![field(Value::Bool(true))]);
    let mut iter = SerializeIter::new(&value).unwrap();
    assert!(iter.next().is_some_and(|res| res.is_ok_and(|val| val == PeekValue::Variable(2))));
    assert!(iter.next().is_some_and(|res| res.is_ok_and(|val| val == PeekValue::Bool(true))));
    assert!(iter.next().is_none());

    let value = variant(3, vec![field(Value::Bool(true)), field(Value::Bool(true))]);
    let mut iter = SerializeIter::new(&value).unwrap();
    assert!(iter.next().is_some_and(|res| res.is_ok_and(|val| val == PeekValue::Variable(3))));
    assert!(iter.next().is_some_and(|res| res.is_ok_and(|val| val == PeekValue::Bool(true))));
    assert!(iter.next().is_some_and(|res| res.is_ok_and(|val| val == PeekValue::Bool(true))));
    assert!(iter.next().is_none());

    let value = variant(4, vec![
        field(Value::Str(String::from("123"))),
        field(Value::Optional(None)),
    ]);
    let mut iter = SerializeIter::new(&value).unwrap();
    assert!(iter.next().is_some_and(|res| res.is_ok_and(|val| val == PeekValue::Variable(4))));
    assert!(iter.next().is_some_and(|res| res.is_ok_and(|val| val == PeekValue::Variable(3))));
    assert!(iter.next().is_some_and(|res| res.is_ok_and(|val| val == PeekValue::Bytes(&b"123"[..]))));
    assert!(iter.next().is_some_and(|res| res.is_ok_and(|val| val == PeekValue::Variable(0))));
    assert!(iter.next().is_none());

    let value = variant(4, vec![
        field(Value::Str(String::from("123"))),
        field(Value::Optional(Some(Box::new(Value::U32(123))))),
    ]);
    let mut iter = SerializeIter::new(&value).unwrap();
    assert!(iter.next().is_some_and(|res| res.is_ok_and(|val| val == PeekValue::Variable(4))));
    assert!(iter.next().is_some_and(|res| res.is_ok_and(|val| val == PeekValue::Variable(3))));
    assert!(iter.next().is_some_and(|res| res.is_ok_and(|val| val == PeekValue::Bytes(&b"123"[..]))));
    assert!(iter.next().is_some_and(|res| res.is_ok_and(|val| val == PeekValue::Variable(1))));
    assert!(iter.next().is_some_and(|res| res.is_ok_and(|val| val == PeekValue::U32(123))));
    assert!(iter.next().is_none());

    let value = variant(-1, vec![]);
    let mut iter = SerializeIter::new(&value).unwrap();
    assert_eq!((-1i128).to_le_bytes(), 340282366920938463463374607431768211455u128.to_le_bytes());
    assert!(iter.next().is_some_and(|res| {
        res.is_ok_and(|val| val == PeekValue::Variable(340282366920938463463374607431768211455u128))
    }));
    assert!(iter.next().is_none());
}
