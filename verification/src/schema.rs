//! The shape a value is read as, what a value holds as a mathematical
//! object, and what reading a value of a shape gives.
use crate::bytes::le_value;
use crate::de::{DeserializeError, ErrorReason};
use crate::parse::signed_of;
use crate::value::{Field, Value};
use crate::varint::{var_read, width_bound};
use vstd::prelude::*;
use vstd::utf8::{decode_utf8, valid_utf8};

verus! {

/// A field of a struct or an enum variant, as it is read.
#[derive(Debug, PartialEq, Eq)]
pub struct FieldSchema {
    /// Whether the field is marked for the variable-length encoding.
    pub variable: bool,
    /// The field's shape.
    pub schema: Schema,
}

/// A variant of an enum, as it is read.
#[derive(Debug, PartialEq, Eq)]
pub struct VariantSchema {
    /// The variant's name.
    pub name: String,
    /// The discriminant that selects the variant.
    pub discriminant: i64,
    /// The variant's fields.
    pub fields: Vec<FieldSchema>,
}

/// The shape of a value to read.
#[derive(Debug, PartialEq, Eq)]
pub enum Schema {
    Unit,
    Bool,
    U8,
    U16,
    U32,
    U64,
    U128,
    USize,
    I8,
    I16,
    I32,
    I64,
    I128,
    ISize,
    /// The bits of an `f32`.
    F32,
    /// The bits of an `f64`.
    F64,
    /// An owned string.
    Str,
    /// An array of the given number of items.
    Array(Box<Schema>, usize),
    /// A list or a slice: its length, then its items.
    List(Box<Schema>),
    /// An optional value: whether it is there, then the value.
    Optional(Box<Schema>),
    /// A smart pointer: what it points to.
    Pointer(Box<Schema>),
    /// A map: its length, then each key followed by its value.
    KeyValue(Box<Schema>, Box<Schema>),
    /// A set: its length, then its items.
    Distinct(Box<Schema>),
    /// A struct with its fields.
    Struct(Vec<FieldSchema>),
    /// An enum, with its name and its variants.
    Enum { name: String, variants: Vec<VariantSchema> },
    /// A shape that cannot be read: a union, an opaque type.
    Unsupported,
}

/// What a [`Value`] holds.
pub enum ValueView {
    Unit,
    Bool(bool),
    U8(u8),
    U16(u16),
    U32(u32),
    U64(u64),
    U128(u128),
    USize(usize),
    I8(i8),
    I16(i16),
    I32(i32),
    I64(i64),
    I128(i128),
    ISize(isize),
    F32(u32),
    F64(u64),
    Str(Seq<char>),
    UnsupportedScalar,
    KeyValue(Seq<(ValueView, ValueView)>),
    List(Seq<ValueView>),
    Array(Seq<ValueView>),
    Optional(Option<Box<ValueView>>),
    Distinct(Seq<ValueView>),
    Pointer(Option<Box<ValueView>>),
    /// The fields, each with its marking.
    Struct(Seq<(bool, ValueView)>),
    Enum(i64, Seq<(bool, ValueView)>),
    Bytes(Seq<u8>),
    Transparent(Box<ValueView>),
}

/// What a value holds.
pub open spec fn value_view(v: Value) -> ValueView
    decreases v, 1int,
{
    match v {
        Value::Unit => ValueView::Unit,
        Value::Bool(x) => ValueView::Bool(x),
        Value::U8(x) => ValueView::U8(x),
        Value::U16(x) => ValueView::U16(x),
        Value::U32(x) => ValueView::U32(x),
        Value::U64(x) => ValueView::U64(x),
        Value::U128(x) => ValueView::U128(x),
        Value::USize(x) => ValueView::USize(x),
        Value::I8(x) => ValueView::I8(x),
        Value::I16(x) => ValueView::I16(x),
        Value::I32(x) => ValueView::I32(x),
        Value::I64(x) => ValueView::I64(x),
        Value::I128(x) => ValueView::I128(x),
        Value::ISize(x) => ValueView::ISize(x),
        Value::F32(x) => ValueView::F32(x),
        Value::F64(x) => ValueView::F64(x),
        Value::Str(s) => ValueView::Str(s@),
        Value::UnsupportedScalar => ValueView::UnsupportedScalar,
        Value::KeyValue(e) => ValueView::KeyValue(entries_view(e@)),
        Value::List(items) => ValueView::List(items_view(items@)),
        Value::Array(items) => ValueView::Array(items_view(items@)),
        Value::Optional(o) => ValueView::Optional(
            match o {
                Some(x) => Some(Box::new(value_view(*x))),
                None => None,
            },
        ),
        Value::Distinct(items) => ValueView::Distinct(items_view(items@)),
        Value::Pointer(o) => ValueView::Pointer(
            match o {
                Some(x) => Some(Box::new(value_view(*x))),
                None => None,
            },
        ),
        Value::Struct(fields) => ValueView::Struct(fields_view(fields@)),
        Value::Enum { discriminant, fields } => ValueView::Enum(discriminant, fields_view(fields@)),
        Value::Bytes(b) => ValueView::Bytes(b@),
        Value::Transparent(x) => ValueView::Transparent(Box::new(value_view(*x))),
    }
}

/// What a sequence of values holds.
pub open spec fn items_view(s: Seq<Value>) -> Seq<ValueView>
    decreases s, 0int,
{
    if s.len() == 0 {
        seq![]
    } else {
        seq![value_view(s[0])] + items_view(s.drop_first())
    }
}

/// What a sequence of fields holds.
pub open spec fn fields_view(s: Seq<Field>) -> Seq<(bool, ValueView)>
    decreases s, 0int,
{
    if s.len() == 0 {
        seq![]
    } else {
        seq![(s[0].variable, value_view(s[0].value))] + fields_view(s.drop_first())
    }
}

/// What a sequence of map entries holds.
pub open spec fn entries_view(s: Seq<(Value, Value)>) -> Seq<(ValueView, ValueView)>
    decreases s, 0int,
{
    if s.len() == 0 {
        seq![]
    } else {
        seq![(value_view(s[0].0), value_view(s[0].1))] + entries_view(s.drop_first())
    }
}

impl View for Value {
    type V = ValueView;

    open spec fn view(&self) -> ValueView {
        value_view(*self)
    }
}

/// Why reading failed: the reason, the input from where it failed, the
/// name of the type being read there, and how many bytes are blamed.
pub struct DecErr {
    pub reason: ErrorReason,
    pub input: Seq<u8>,
    pub name: Seq<char>,
    pub length: Option<usize>,
    /// The variants of the enum being read, when the error is about its
    /// discriminant.
    pub variants: Option<Seq<(Seq<char>, i64)>>,
}

/// Whether an error is the one described.
pub open spec fn error_matches(e: DeserializeError, d: DecErr) -> bool {
    &&& e.reason == d.reason
    &&& e.error.0@ == d.input
    &&& e.error.1@ == d.name
    &&& e.length == d.length
    &&& e.origin is None
    &&& e.state@.len() == 0
    &&& variants_view(e.variants) == d.variants
}

/// The names and discriminants of an enum's variants.
pub open spec fn variant_names(vs: Seq<VariantSchema>) -> Seq<(Seq<char>, i64)> {
    vs.map_values(|v: VariantSchema| (v.name@, v.discriminant))
}

/// What a list of variants in an error holds.
pub open spec fn variants_view(v: Option<Vec<(String, i64)>>) -> Option<Seq<(Seq<char>, i64)>> {
    match v {
        Some(vs) => Some(vs@.map_values(|x: (String, i64)| (x.0@, x.1))),
        None => None,
    }
}

/// What reading gives: a value and how many bytes it took, or an error.
pub type Dec = Result<(ValueView, nat), DecErr>;

/// Reading a fixed-width number of `n` bytes named `name`.
pub open spec fn fixed_dec(input: Seq<u8>, n: nat, name: Seq<char>, mk: spec_fn(nat) -> ValueView) -> Dec {
    if input.len() >= n {
        Ok((mk(le_value(input.take(n as int))), n))
    } else {
        Err(DecErr { reason: ErrorReason::EndOfInput, input, name, length: Some(n as usize), variants: None })
    }
}

/// Reading a variable-length number of at most `max` bytes named `name`.
pub open spec fn var_dec(input: Seq<u8>, max: nat, name: Seq<char>, mk: spec_fn(nat) -> ValueView) -> Dec {
    match var_read(input, max) {
        Some((v, k)) => Ok((mk(v), k)),
        None => Err(
            DecErr {
                reason: ErrorReason::EndOfInput,
                input,
                name,
                length: Some((input.len() + 1) as usize), variants: None },
        ),
    }
}

/// Reading a boolean.
pub open spec fn bool_dec(input: Seq<u8>) -> Dec {
    if input.len() == 0 {
        Err(DecErr { reason: ErrorReason::EndOfInput, input, name: "bool"@, length: None, variants: None })
    } else if input[0] <= 1 {
        Ok((ValueView::Bool(input[0] == 1), 1))
    } else {
        Err(DecErr { reason: ErrorReason::InvalidBool(input[0]), input, name: "bool"@, length: None, variants: None })
    }
}

/// A length as the format carries it: a variable-length `u64` read as a
/// `usize`.
pub open spec fn len_of(v: nat) -> usize {
    ((v % width_bound(64)) as u64) as usize
}

/// Whether the first `p` bytes of `b` are the longest prefix of `b` that is
/// valid UTF-8.
pub open spec fn is_valid_prefix_len(b: Seq<u8>, p: nat) -> bool {
    &&& p <= b.len()
    &&& valid_utf8(b.take(p as int))
    &&& forall|j: int| p < j <= b.len() ==> !valid_utf8(#[trigger] b.take(j))
}

/// The length of the longest prefix of `b` that is valid UTF-8.
pub open spec fn valid_prefix_len(b: Seq<u8>) -> nat {
    choose|p: nat| is_valid_prefix_len(b, p)
}

/// There is one longest valid prefix.
pub proof fn lemma_valid_prefix_len_unique(b: Seq<u8>, p: nat)
    requires
        is_valid_prefix_len(b, p),
    ensures
        valid_prefix_len(b) == p,
{
    let q = valid_prefix_len(b);
    assert(is_valid_prefix_len(b, q));
    if q < p {
        assert(!valid_utf8(b.take(p as int)));
    }
    if p < q {
        assert(!valid_utf8(b.take(q as int)));
    }
}

/// Reading a length-prefixed UTF-8 string.
pub open spec fn str_dec(input: Seq<u8>) -> Dec {
    match var_read(input, 10) {
        None => Err(
            DecErr {
                reason: ErrorReason::EndOfInput,
                input,
                name: "u64"@,
                length: Some((input.len() + 1) as usize), variants: None },
        ),
        Some((v, k)) => {
            let len = len_of(v);
            let remainder = input.skip(k as int);
            if len > remainder.len() {
                Err(
                    DecErr {
                        reason: ErrorReason::EndOfInput,
                        input: remainder,
                        name: "str"@,
                        length: Some(len), variants: None },
                )
            } else if valid_utf8(remainder.take(len as int)) {
                Ok((ValueView::Str(decode_utf8(remainder.take(len as int))), k + (len as nat)))
            } else {
                let p = valid_prefix_len(remainder.take(len as int));
                Err(
                    DecErr {
                        reason: ErrorReason::InvalidUtf8(p as usize),
                        input: remainder,
                        name: "str"@,
                        length: Some((len - p) as usize), variants: None },
                )
            }
        },
    }
}

/// The first variant with the given discriminant.
pub open spec fn first_variant(vs: Seq<VariantSchema>, disc: i64) -> Option<nat>
    decreases vs.len(),
{
    if vs.len() == 0 {
        None
    } else if vs[0].discriminant == disc {
        Some(0)
    } else {
        match first_variant(vs.drop_first(), disc) {
            Some(i) => Some(i + 1),
            None => None,
        }
    }
}

/// Reading a scalar of the given shape, in the variable-length encoding
/// when `var` is set.
pub open spec fn scalar_dec(s: Schema, var: bool, input: Seq<u8>) -> Dec {
    if !var {
        match s {
            Schema::Unit => Ok((ValueView::Unit, 0)),
            Schema::Bool => bool_dec(input),
            Schema::U8 => fixed_dec(input, 1, "u8"@, |x: nat| ValueView::U8(x as u8)),
            Schema::U16 => fixed_dec(input, 2, "u16"@, |x: nat| ValueView::U16(x as u16)),
            Schema::U32 => fixed_dec(input, 4, "u32"@, |x: nat| ValueView::U32(x as u32)),
            Schema::U64 => fixed_dec(input, 8, "u64"@, |x: nat| ValueView::U64(x as u64)),
            Schema::U128 => fixed_dec(input, 16, "u128"@, |x: nat| ValueView::U128(x as u128)),
            Schema::USize => fixed_dec(
                input,
                8,
                "u64"@,
                |x: nat| ValueView::USize((x as u64) as usize),
            ),
            Schema::I8 => fixed_dec(input, 1, "i8"@, |x: nat| ValueView::I8(signed_of(x, 8) as i8)),
            Schema::I16 => fixed_dec(
                input,
                2,
                "i16"@,
                |x: nat| ValueView::I16(signed_of(x, 16) as i16),
            ),
            Schema::I32 => fixed_dec(
                input,
                4,
                "i32"@,
                |x: nat| ValueView::I32(signed_of(x, 32) as i32),
            ),
            Schema::I64 => fixed_dec(
                input,
                8,
                "i64"@,
                |x: nat| ValueView::I64(signed_of(x, 64) as i64),
            ),
            Schema::I128 => fixed_dec(
                input,
                16,
                "i128"@,
                |x: nat| ValueView::I128(signed_of(x, 128) as i128),
            ),
            Schema::ISize => fixed_dec(
                input,
                8,
                "i64"@,
                |x: nat| ValueView::ISize((signed_of(x, 64) as i64) as isize),
            ),
            Schema::F32 => fixed_dec(input, 4, "f32"@, |x: nat| ValueView::F32(x as u32)),
            Schema::F64 => fixed_dec(input, 8, "f64"@, |x: nat| ValueView::F64(x as u64)),
            _ => str_dec(input),
        }
    } else {
        match s {
            Schema::U16 => var_dec(
                input,
                3,
                "u16"@,
                |v: nat| ValueView::U16((v % width_bound(16)) as u16),
            ),
            Schema::U32 => var_dec(
                input,
                5,
                "u32"@,
                |v: nat| ValueView::U32((v % width_bound(32)) as u32),
            ),
            Schema::U64 => var_dec(
                input,
                10,
                "u64"@,
                |v: nat| ValueView::U64((v % width_bound(64)) as u64),
            ),
            Schema::U128 => var_dec(
                input,
                19,
                "u128"@,
                |v: nat| ValueView::U128((v % width_bound(128)) as u128),
            ),
            Schema::USize => var_dec(input, 10, "u64"@, |v: nat| ValueView::USize(len_of(v))),
            Schema::I16 => var_dec(
                input,
                3,
                "u16"@,
                |v: nat| ValueView::I16(signed_of(v % width_bound(16), 16) as i16),
            ),
            Schema::I32 => var_dec(
                input,
                5,
                "u32"@,
                |v: nat| ValueView::I32(signed_of(v % width_bound(32), 32) as i32),
            ),
            Schema::I64 => var_dec(
                input,
                10,
                "u64"@,
                |v: nat| ValueView::I64(signed_of(v % width_bound(64), 64) as i64),
            ),
            Schema::I128 => var_dec(
                input,
                19,
                "u128"@,
                |v: nat| ValueView::I128(signed_of(v % width_bound(128), 128) as i128),
            ),
            _ => var_dec(
                input,
                10,
                "u64"@,
                |v: nat| ValueView::ISize((signed_of(v % width_bound(64), 64) as i64) as isize),
            ),
        }
    }
}

/// Whether a shape can be read, in the variable-length encoding when `var`
/// is set.
pub open spec fn readable(s: Schema, var: bool) -> bool
    decreases s, 1int,
{
    match s {
        Schema::Unsupported | Schema::KeyValue(..) | Schema::Distinct(..) => false,
        Schema::Unit | Schema::Bool | Schema::U8 | Schema::I8 | Schema::F32 | Schema::F64
        | Schema::Str => !var,
        Schema::Array(e, _) | Schema::List(e) | Schema::Optional(e) | Schema::Pointer(e) => readable(
            *e,
            var,
        ),
        Schema::Struct(fields) => fields_readable(fields@),
        Schema::Enum { variants, .. } => variants_readable(variants@),
        _ => true,
    }
}

/// Whether every field can be read as its marking says.
pub open spec fn fields_readable(fs: Seq<FieldSchema>) -> bool
    decreases fs, 0int,
{
    if fs.len() == 0 {
        true
    } else {
        readable(fs[0].schema, fs[0].variable) && fields_readable(fs.drop_first())
    }
}

/// Whether the fields of every variant can be read.
pub open spec fn variants_readable(vs: Seq<VariantSchema>) -> bool
    decreases vs, 0int,
{
    if vs.len() == 0 {
        true
    } else {
        fields_readable(vs[0].fields@) && variants_readable(vs.drop_first())
    }
}

/// Reading a value of shape `s` from the start of `input`, in the
/// variable-length encoding when `var` is set: what it holds and how many
/// bytes it takes, or why it cannot be read.
pub open spec fn dec(s: Schema, var: bool, input: Seq<u8>) -> Dec
    decreases s, 2int, 0nat,
{
    match s {
        Schema::Array(e, n) => match dec_seq(*e, var, n as nat, input) {
            Ok((vs, k)) => Ok((ValueView::Array(vs), k)),
            Err(x) => Err(x),
        },
        Schema::List(e) => match var_read(input, 10) {
            None => Err(
                DecErr {
                    reason: ErrorReason::EndOfInput,
                    input,
                    name: "u64"@,
                    length: Some((input.len() + 1) as usize), variants: None },
            ),
            Some((v, k)) => match dec_seq(*e, var, len_of(v) as nat, input.skip(k as int)) {
                Ok((vs, m)) => Ok((ValueView::List(vs), k + m)),
                Err(x) => Err(x),
            },
        },
        Schema::Optional(e) => match bool_dec(input) {
            Err(x) => Err(x),
            Ok((b, _)) => if b == ValueView::Bool(true) {
                match dec(*e, var, input.skip(1)) {
                    Ok((v, m)) => Ok((ValueView::Optional(Some(Box::new(v))), 1 + m)),
                    Err(x) => Err(x),
                }
            } else {
                Ok((ValueView::Optional(None), 1))
            },
        },
        Schema::Pointer(e) => match dec(*e, var, input) {
            Ok((v, m)) => Ok((ValueView::Pointer(Some(Box::new(v))), m)),
            Err(x) => Err(x),
        },
        Schema::Struct(fields) => match dec_fields(fields@, input) {
            Ok((fs, m)) => Ok((ValueView::Struct(fs), m)),
            Err(x) => Err(x),
        },
        Schema::Enum { name, variants } => match var_read(input, 10) {
            None => Err(
                DecErr {
                    reason: ErrorReason::EndOfInput,
                    input,
                    name: "u64"@,
                    length: Some((input.len() + 1) as usize), variants: None },
            ),
            Some((v, k)) => {
                let disc = signed_of(v % width_bound(64), 64) as i64;
                match first_variant(variants@, disc) {
                    None => Err(
                        DecErr {
                            reason: ErrorReason::InvalidVariant(disc),
                            input,
                            name: name@,
                            length: Some(k as usize), variants: Some(variant_names(variants@)) },
                    ),
                    Some(i) => if i < variants@.len() {
                        match dec_fields(variants@[i as int].fields@, input.skip(k as int)) {
                            Ok((fs, m)) => Ok((ValueView::Enum(disc, fs), k + m)),
                            Err(x) => Err(x),
                        }
                    } else {
                        Ok((ValueView::Unit, 0))
                    },
                }
            },
        },
        _ => scalar_dec(s, var, input),
    }
}

/// Reading `n` values of shape `e` one after another.
pub open spec fn dec_seq(e: Schema, var: bool, n: nat, input: Seq<u8>) -> Result<
    (Seq<ValueView>, nat),
    DecErr,
>
    decreases e, 3int, n,
{
    if n == 0 {
        Ok((seq![], 0))
    } else {
        match dec(e, var, input) {
            Err(x) => Err(x),
            Ok((v, k)) => match dec_seq(e, var, (n - 1) as nat, input.skip(k as int)) {
                Err(x) => Err(x),
                Ok((vs, m)) => Ok((seq![v] + vs, k + m)),
            },
        }
    }
}

/// Reading fields one after another, each as its marking says.
pub open spec fn dec_fields(fs: Seq<FieldSchema>, input: Seq<u8>) -> Result<
    (Seq<(bool, ValueView)>, nat),
    DecErr,
>
    decreases fs, 0int, 0nat,
{
    if fs.len() == 0 {
        Ok((seq![], 0))
    } else {
        match dec(fs[0].schema, fs[0].variable, input) {
            Err(x) => Err(x),
            Ok((v, k)) => match dec_fields(fs.drop_first(), input.skip(k as int)) {
                Err(x) => Err(x),
                Ok((vs, m)) => Ok((seq![(fs[0].variable, v)] + vs, k + m)),
            },
        }
    }
}

/// Whether a shape can be read, in the variable-length encoding when `var`
/// is set, tested before reading a value of it.
pub fn is_readable(s: &Schema, var: bool) -> (r: bool)
    ensures
        r == readable(*s, var),
    decreases s,
{
    match s {
        Schema::Unsupported | Schema::KeyValue(..) | Schema::Distinct(..) => false,
        Schema::Unit | Schema::Bool | Schema::U8 | Schema::I8 | Schema::F32 | Schema::F64
        | Schema::Str => !var,
        Schema::Array(e, _) | Schema::List(e) | Schema::Optional(e) | Schema::Pointer(e) => {
            is_readable(e, var)
        },
        Schema::Struct(fields) => fields_are_readable(fields),
        Schema::Enum { variants, .. } => {
            let mut j: usize = 0;
            assert(variants@.skip(0) =~= variants@);
            while j < variants.len()
                invariant
                    j <= variants@.len(),
                    readable(*s, var) == variants_readable(variants@.skip(j as int)),
                    forall|k: int| 0 <= k < variants@.len() ==> decreases_to!(s => #[trigger] variants@[k].fields),
                decreases variants@.len() - j,
            {
                assert(variants@.skip(j as int).drop_first() =~= variants@.skip(j + 1));
                if !fields_are_readable(&variants[j].fields) {
                    assert(variants@.skip(j as int)[0] == variants@[j as int]);
                    assert(!variants_readable(variants@.skip(j as int)));
                    return false;
                }
                j = j + 1;
            }
            true
        },
        _ => true,
    }
}

/// Whether every field can be read as its marking says.
fn fields_are_readable(fs: &Vec<FieldSchema>) -> (r: bool)
    ensures
        r == fields_readable(fs@),
    decreases fs,
{
    let mut i: usize = 0;
    assert(fs@.skip(0) =~= fs@);
    while i < fs.len()
        invariant
            i <= fs@.len(),
            fields_readable(fs@) == fields_readable(fs@.skip(i as int)),
        decreases fs@.len() - i,
    {
        assert(fs@.skip(i as int).drop_first() =~= fs@.skip(i + 1));
        assert(decreases_to!(fs => fs@[i as int].schema));
        if !is_readable(&fs[i].schema, fs[i].variable) {
            return false;
        }
        i = i + 1;
    }
    true
}

} // verus!
