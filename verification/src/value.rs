//! Values as the serializer sees them, and the bytes the protocol gives them.
use crate::bytes::le_bytes;
use crate::varint::var_bytes;
use crate::writer::twos;
use vstd::prelude::*;
use vstd::utf8::encode_utf8;

verus! {

/// A field of a struct or of an enum variant.
#[derive(Debug, PartialEq, Eq)]
pub struct Field {
    /// Whether the field is marked for the variable-length encoding.
    pub variable: bool,
    /// The field's value.
    pub value: Value,
}

/// A value to serialize, as its shape and contents describe it.
///
/// Floating-point numbers are carried as their IEEE 754 bits.
#[derive(Debug, PartialEq, Eq)]
pub enum Value {
    /// `()`, a unit struct, or any value with nothing to write.
    Unit,
    Bool(bool),
    U8(u8),
    U16(u16),
    U32(u32),
    U64(u64),
    U128(u128),
    USize(usize),
    I8(i8),
    I16(i16),
    I32(i32),
    I64(i64),
    I128(i128),
    ISize(isize),
    /// The bits of an `f32`.
    F32(u32),
    /// The bits of an `f64`.
    F64(u64),
    /// A string: `str`, `String` or a borrowed-or-owned string.
    Str(String),
    /// A scalar of a type the format has no encoding for.
    UnsupportedScalar,
    /// A map, as its entries in iteration order.
    KeyValue(Vec<(Value, Value)>),
    /// A list or a slice.
    List(Vec<Value>),
    /// An array of fixed length.
    Array(Vec<Value>),
    /// An optional value.
    Optional(Option<Box<Value>>),
    /// A set.
    Distinct(Vec<Value>),
    /// A smart pointer, with what it points to when it is initialized.
    Pointer(Option<Box<Value>>),
    /// A struct with its fields.
    Struct(Vec<Field>),
    /// An enum: the active variant's discriminant and its fields.
    Enum { discriminant: i64, fields: Vec<Field> },
    /// A reference to raw bytes.
    Bytes(Vec<u8>),
    /// A value whose type is marked transparent: it is written as its inner
    /// value.
    Transparent(Box<Value>),
}

/// Why a value cannot be serialized.
#[derive(Debug, Clone, Copy, PartialEq, Eq, Structural)]
pub enum SerializeErrorReason {
    /// The value is a scalar the format does not support.
    UnsupportedType,
    /// The value is a set.
    SetsUnsupported,
    /// The value is a smart pointer that points to nothing.
    PointerUninitialized,
    /// The value is marked variable-length but has no such encoding.
    NotVariable,
}

/// The bytes a value gives, up to the point where it fails if it does, with
/// why it fails and the value that fails.
pub struct Enc {
    pub bytes: Seq<u8>,
    pub error: Option<(SerializeErrorReason, Option<Value>)>,
}

/// Bytes that do not fail.
pub open spec fn enc_ok(bytes: Seq<u8>) -> Enc {
    Enc { bytes, error: None }
}

/// A failure before any byte.
pub open spec fn enc_err(reason: SerializeErrorReason, value: Option<Value>) -> Enc {
    Enc { bytes: seq![], error: Some((reason, value)) }
}

/// `a`, followed by `b` when `a` does not fail.
pub open spec fn then(a: Enc, b: Enc) -> Enc {
    if a.error is Some {
        a
    } else {
        Enc { bytes: a.bytes + b.bytes, error: b.error }
    }
}

/// The bytes of a scalar written as it is.
pub open spec fn scalar_bytes(v: Value) -> Option<Seq<u8>> {
    match v {
        Value::Unit => Some(seq![]),
        Value::Bool(b) => Some(seq![if b { 1u8 } else { 0u8 }]),
        Value::U8(x) => Some(seq![x]),
        Value::U16(x) => Some(le_bytes(x as nat, 2)),
        Value::U32(x) => Some(le_bytes(x as nat, 4)),
        Value::U64(x) => Some(le_bytes(x as nat, 8)),
        Value::U128(x) => Some(le_bytes(x as nat, 16)),
        Value::USize(x) => Some(le_bytes(x as nat, 8)),
        Value::I8(x) => Some(le_bytes(twos(x as int, 8), 1)),
        Value::I16(x) => Some(le_bytes(twos(x as int, 16), 2)),
        Value::I32(x) => Some(le_bytes(twos(x as int, 32), 4)),
        Value::I64(x) => Some(le_bytes(twos(x as int, 64), 8)),
        Value::I128(x) => Some(le_bytes(twos(x as int, 128), 16)),
        Value::ISize(x) => Some(le_bytes(twos(x as int, 64), 8)),
        Value::F32(x) => Some(le_bytes(x as nat, 4)),
        Value::F64(x) => Some(le_bytes(x as nat, 8)),
        Value::Str(s) => Some(var_bytes(encode_utf8(s@).len()) + encode_utf8(s@)),
        Value::Bytes(b) => Some(b@),
        _ => None,
    }
}

/// The bytes of an integer written in the variable-length encoding.
pub open spec fn var_scalar_bytes(v: Value) -> Option<Seq<u8>> {
    match v {
        Value::U16(x) => Some(var_bytes(x as nat)),
        Value::U32(x) => Some(var_bytes(x as nat)),
        Value::U64(x) => Some(var_bytes(x as nat)),
        Value::U128(x) => Some(var_bytes(x as nat)),
        Value::USize(x) => Some(var_bytes(x as nat)),
        Value::I16(x) => Some(var_bytes(twos(x as int, 16))),
        Value::I32(x) => Some(var_bytes(twos(x as int, 32))),
        Value::I64(x) => Some(var_bytes(twos(x as int, 64))),
        Value::I128(x) => Some(var_bytes(twos(x as int, 128))),
        Value::ISize(x) => Some(var_bytes(twos(x as int, 64))),
        _ => None,
    }
}

/// How a value is written: in the variable-length encoding when `var` is
/// set, and, when `unwrap` is set, as its inner value if it is transparent.
pub open spec fn enc(v: Value, var: bool, unwrap: bool) -> Enc
    decreases v, (if unwrap {
        1int
    } else {
        0int
    }),
{
    if unwrap {
        match v {
            Value::Transparent(inner) => enc(*inner, var, false),
            _ => enc(v, var, false),
        }
    } else if !var {
        match v {
            Value::UnsupportedScalar => enc_err(SerializeErrorReason::UnsupportedType, Some(v)),
            Value::KeyValue(e) => then(enc_ok(var_bytes(e@.len())), enc_entries(e@, false)),
            Value::List(items) => then(enc_ok(var_bytes(items@.len())), enc_items(items@, false)),
            Value::Array(items) => enc_items(items@, false),
            Value::Optional(o) => match o {
                Some(x) => then(enc_ok(seq![1u8]), enc(*x, false, true)),
                None => enc_ok(seq![0u8]),
            },
            Value::Distinct(_) => enc_err(SerializeErrorReason::SetsUnsupported, Some(v)),
            Value::Pointer(p) => match p {
                Some(x) => enc(*x, false, true),
                None => enc_err(SerializeErrorReason::PointerUninitialized, None),
            },
            Value::Struct(fields) => enc_fields(fields@),
            Value::Enum { discriminant, fields } => then(
                enc_ok(var_bytes(twos(discriminant as int, 64))),
                enc_fields(fields@),
            ),
            Value::Transparent(inner) => enc(*inner, false, true),
            _ => enc_ok(scalar_bytes(v).unwrap()),
        }
    } else {
        match v {
            Value::KeyValue(e) => then(enc_ok(var_bytes(e@.len())), enc_entries(e@, true)),
            Value::List(items) => then(enc_ok(var_bytes(items@.len())), enc_items(items@, true)),
            Value::Array(items) => enc_items(items@, true),
            Value::Optional(o) => match o {
                Some(x) => then(enc_ok(seq![1u8]), enc(*x, true, true)),
                None => enc_ok(seq![0u8]),
            },
            _ => match var_scalar_bytes(v) {
                Some(b) => enc_ok(b),
                None => enc_err(SerializeErrorReason::NotVariable, Some(v)),
            },
        }
    }
}

/// How a sequence of values is written, one after another.
pub open spec fn enc_items(s: Seq<Value>, var: bool) -> Enc
    decreases s, 0int,
{
    if s.len() == 0 {
        enc_ok(seq![])
    } else {
        then(enc(s[0], var, true), enc_items(s.drop_first(), var))
    }
}

/// How a sequence of fields is written, each as its marking says.
pub open spec fn enc_fields(s: Seq<Field>) -> Enc
    decreases s, 0int,
{
    if s.len() == 0 {
        enc_ok(seq![])
    } else {
        then(enc(s[0].value, s[0].variable, true), enc_fields(s.drop_first()))
    }
}

/// How a sequence of map entries is written: each key as it is, then its
/// value.
pub open spec fn enc_entries(s: Seq<(Value, Value)>, var: bool) -> Enc
    decreases s, 0int,
{
    if s.len() == 0 {
        enc_ok(seq![])
    } else {
        then(
            then(enc(s[0].0, false, true), enc(s[0].1, var, true)),
            enc_entries(s.drop_first(), var),
        )
    }
}

/// How much work a value is for the serializer.
pub open spec fn vsize(v: Value) -> nat
    decreases v, 1int,
{
    match v {
        Value::KeyValue(e) => 2 + entries_size(e@),
        Value::List(items) | Value::Array(items) | Value::Distinct(items) => 2 + items_size(items@),
        Value::Optional(o) | Value::Pointer(o) => match o {
            Some(x) => 1 + vsize(*x),
            None => 1,
        },
        Value::Transparent(x) => 1 + vsize(*x),
        Value::Struct(fields) | Value::Enum { fields, .. } => 2 + fields_size(fields@),
        _ => 1,
    }
}

/// How much work a sequence of values is.
pub open spec fn items_size(s: Seq<Value>) -> nat
    decreases s, 0int,
{
    if s.len() == 0 {
        0
    } else {
        vsize(s[0]) + 1 + items_size(s.drop_first())
    }
}

/// How much work a sequence of fields is.
pub open spec fn fields_size(s: Seq<Field>) -> nat
    decreases s, 0int,
{
    if s.len() == 0 {
        0
    } else {
        vsize(s[0].value) + 1 + fields_size(s.drop_first())
    }
}

/// How much work a sequence of map entries is.
pub open spec fn entries_size(s: Seq<(Value, Value)>) -> nat
    decreases s, 0int,
{
    if s.len() == 0 {
        0
    } else {
        vsize(s[0].0) + vsize(s[0].1) + 1 + entries_size(s.drop_first())
    }
}

/// Following nothing that does not fail changes nothing.
pub proof fn lemma_then_empty(a: Enc)
    ensures
        then(enc_ok(seq![]), a) == a,
        then(a, enc_ok(seq![])) == a,
{
    assert(seq![] + a.bytes =~= a.bytes);
    assert(a.bytes + seq![] =~= a.bytes);
}

/// Writing three parts gives the same bytes and failure however the parts
/// are grouped.
pub proof fn lemma_then_assoc(a: Enc, b: Enc, c: Enc)
    ensures
        then(then(a, b), c) == then(a, then(b, c)),
{
    if a.error is None && b.error is None {
        assert(a.bytes + b.bytes + c.bytes =~= a.bytes + (b.bytes + c.bytes));
    }
}

/// Two runs of bytes that do not fail are one such run.
pub proof fn lemma_then_ok(x: Seq<u8>, y: Seq<u8>, c: Enc)
    ensures
        then(enc_ok(x), then(enc_ok(y), c)) == then(enc_ok(x + y), c),
{
    assert(x + (y + c.bytes) =~= (x + y) + c.bytes);
}

/// The bytes each value of `s` is written as on its own.
pub open spec fn parts(s: Seq<Value>, var: bool) -> Seq<Seq<u8>> {
    s.map_values(|x: Value| enc(x, var, true).bytes)
}

/// The bytes each field of `s` is written as on its own.
pub open spec fn field_parts(s: Seq<Field>) -> Seq<Seq<u8>> {
    s.map_values(|f: Field| enc(f.value, f.variable, true).bytes)
}

proof fn lemma_items_by_parts(s: Seq<Value>, var: bool)
    requires
        forall|i: int| 0 <= i < s.len() ==> #[trigger] enc(s[i], var, true).error is None,
    ensures
        enc_items(s, var) == enc_ok(parts(s, var).flatten()),
    decreases s.len(),
{
    if s.len() > 0 {
        assert forall|i: int| 0 <= i < s.drop_first().len() implies #[trigger] enc(
            s.drop_first()[i],
            var,
            true,
        ).error is None by {
            assert(s.drop_first()[i] == s[i + 1]);
        }
        lemma_items_by_parts(s.drop_first(), var);
        assert(parts(s, var).drop_first() =~= parts(s.drop_first(), var));
        assert(enc(s[0], var, true).error is None);
    } else {
        assert(parts(s, var) =~= Seq::<Seq<u8>>::empty());
    }
}

proof fn lemma_fields_by_parts(s: Seq<Field>)
    requires
        forall|i: int| 0 <= i < s.len() ==> #[trigger] enc(s[i].value, s[i].variable, true).error is None,
    ensures
        enc_fields(s) == enc_ok(field_parts(s).flatten()),
    decreases s.len(),
{
    if s.len() > 0 {
        assert forall|i: int| 0 <= i < s.drop_first().len() implies #[trigger] enc(
            s.drop_first()[i].value,
            s.drop_first()[i].variable,
            true,
        ).error is None by {
            assert(s.drop_first()[i] == s[i + 1]);
        }
        lemma_fields_by_parts(s.drop_first());
        assert(field_parts(s).drop_first() =~= field_parts(s.drop_first()));
        assert(enc(s[0].value, s[0].variable, true).error is None);
    } else {
        assert(field_parts(s) =~= Seq::<Seq<u8>>::empty());
    }
}

/// A list is written as its length in the variable-length encoding, then
/// each item as it is written on its own, in order.
pub proof fn lemma_list_by_parts(items: Vec<Value>)
    requires
        forall|i: int| 0 <= i < items@.len() ==> #[trigger] enc(items@[i], false, true).error is None,
    ensures
        enc(Value::List(items), false, true) == enc_ok(
            var_bytes(items@.len()) + parts(items@, false).flatten(),
        ),
{
    lemma_items_by_parts(items@, false);
    let v = Value::List(items);
    assert(enc(v, false, true) == enc(v, false, false));
}

/// An array is written as each item is written on its own, in order, with
/// no length in front.
pub proof fn lemma_array_by_parts(items: Vec<Value>)
    requires
        forall|i: int| 0 <= i < items@.len() ==> #[trigger] enc(items@[i], false, true).error is None,
    ensures
        enc(Value::Array(items), false, true) == enc_ok(parts(items@, false).flatten()),
{
    lemma_items_by_parts(items@, false);
    let v = Value::Array(items);
    assert(enc(v, false, true) == enc(v, false, false));
}

/// A struct is written as each field is written on its own, in order; a
/// struct with no fields writes nothing.
pub proof fn lemma_struct_by_parts(fields: Vec<Field>)
    requires
        forall|i: int| 0 <= i < fields@.len() ==> #[trigger] enc(
            fields@[i].value,
            fields@[i].variable,
            true,
        ).error is None,
    ensures
        enc(Value::Struct(fields), false, true) == enc_ok(field_parts(fields@).flatten()),
{
    lemma_fields_by_parts(fields@);
    let v = Value::Struct(fields);
    assert(enc(v, false, true) == enc(v, false, false));
}

/// An enum is written as its discriminant in the variable-length encoding,
/// then each field of its variant as it is written on its own, in order.
pub proof fn lemma_enum_by_parts(discriminant: i64, fields: Vec<Field>)
    requires
        forall|i: int| 0 <= i < fields@.len() ==> #[trigger] enc(
            fields@[i].value,
            fields@[i].variable,
            true,
        ).error is None,
    ensures
        enc(Value::Enum { discriminant, fields }, false, true) == enc_ok(
            var_bytes(twos(discriminant as int, 64)) + field_parts(fields@).flatten(),
        ),
{
    lemma_fields_by_parts(fields@);
    let v = Value::Enum { discriminant, fields };
    assert(enc(v, false, true) == enc(v, false, false));
}

} // verus!
