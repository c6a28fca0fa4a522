//! What a type's size hint promises of the bytes written for its values.
use crate::buffer::{be_encoding, tok_bytes, toks_bytes};
use crate::bytes::lemma_be_bytes_len;
use crate::hint::{
    admits, fold_max, fold_min, has_variable_attr, hint_max, hint_min, hint_span, shape_hint,
    shape_hint_fits, ty_hint, ty_hint_fits, variant_hints, TypeSizeHint,
};
use crate::peek::{flat, flat_entries, flat_fields, flat_items, PeekView};
use crate::shape::{FieldAttribute, ShapeDef, ShapeModel, ShapeType};
use crate::value::{Field, Value};
use crate::varint::{lemma_var_bytes_nonempty, lemma_var_bytes_width, var_bytes, width_bound};
use crate::walkback::{lemma_toks_bytes_append, lemma_toks_bytes_one};
use crate::writer::twos;
use vstd::prelude::*;

verus! {

/// Whether the attributes of a field mark it as variable-length.
pub open spec fn marked_variable(attrs: Option<Seq<FieldAttribute>>) -> bool {
    match attrs {
        Some(a) => has_variable_attr(a),
        None => false,
    }
}

/// The width in bytes of an integer value; `None` for any other value.
pub open spec fn int_width(v: Value) -> Option<usize> {
    match v {
        Value::U8(_) | Value::I8(_) => Some(1),
        Value::U16(_) | Value::I16(_) => Some(2),
        Value::U32(_) | Value::I32(_) => Some(4),
        Value::U64(_) | Value::I64(_) | Value::USize(_) | Value::ISize(_) => Some(8),
        Value::U128(_) | Value::I128(_) => Some(16),
        _ => None,
    }
}

/// The width in bytes of a floating-point value; `None` for any other value.
pub open spec fn float_width(v: Value) -> Option<usize> {
    match v {
        Value::F32(_) => Some(4),
        Value::F64(_) => Some(8),
        _ => None,
    }
}

/// The number of bytes written for a value in a field marked variable-length
/// or not.
pub open spec fn written_len(v: Value, var: bool) -> nat {
    toks_bytes(flat(v, var).toks).len()
}

/// Whether `v` is a value of the type that shape `s` describes, held by a
/// field with attributes `attrs`: a map, list, array or option of values of
/// the element shapes (or raw bytes for a list of bytes), a pointer to a
/// value of the shape it points to, and otherwise a value of what the type
/// is made of.
pub open spec fn of_shape(v: Value, s: ShapeModel, attrs: Option<Seq<FieldAttribute>>) -> bool
    decreases s, 1int,
{
    match s.def {
        ShapeDef::KeyValue(k, x) => match v {
            Value::KeyValue(es) => es@.len() <= u32::MAX && forall|i: int|
                0 <= i < es@.len() ==> of_shape(#[trigger] es@[i].0, *k, attrs) && of_shape(
                    es@[i].1,
                    *x,
                    attrs,
                ),
            _ => false,
        },
        ShapeDef::Distinct(t) => match v {
            Value::Distinct(items) => items@.len() <= u32::MAX && forall|i: int|
                0 <= i < items@.len() ==> of_shape(#[trigger] items@[i], *t, attrs),
            _ => false,
        },
        ShapeDef::List(t) | ShapeDef::Slice(t) => match v {
            Value::List(items) => items@.len() <= u32::MAX && forall|i: int|
                0 <= i < items@.len() ==> of_shape(#[trigger] items@[i], *t, attrs),
            Value::Bytes(_) => t.def is Scalar && t.ty is Integer && t.layout == Some(1usize),
            _ => false,
        },
        ShapeDef::Array(t, n) => match v {
            Value::Array(items) => items@.len() == n && forall|i: int|
                0 <= i < items@.len() ==> of_shape(#[trigger] items@[i], *t, attrs),
            _ => false,
        },
        ShapeDef::Optional(t) => match v {
            Value::Optional(o) => match o {
                Some(x) => of_shape(*x, *t, attrs),
                None => true,
            },
            _ => false,
        },
        ShapeDef::Fallible(_, _) => false,
        ShapeDef::Pointer(p) => match p {
            Some(inner) => match v {
                Value::Pointer(Some(x)) => of_shape(*x, *inner, attrs),
                _ => false,
            },
            None => ty_of_shape(v, s, attrs),
        },
        ShapeDef::Scalar | ShapeDef::Undefined => ty_of_shape(v, s, attrs),
        ShapeDef::Other => true,
    }
}

/// Whether `v` is a value of what the type that `s` describes is made of:
/// an integer or float of its width, a string, a struct with its number of
/// fields, an enum whose variant has as many fields as one of its variants
/// and whose discriminant is an unsigned 32-bit number, a UUID as its 128
/// bits in a field not marked variable-length, and any value of a type the
/// hint says nothing of.
pub open spec fn ty_of_shape(v: Value, s: ShapeModel, attrs: Option<Seq<FieldAttribute>>) -> bool
    decreases s, 0int,
{
    match s.ty {
        ShapeType::Boolean => v is Bool,
        ShapeType::Integer => int_width(v) is Some && (s.layout is Some ==> int_width(v)
            == s.layout),
        ShapeType::Float => float_width(v) is Some && (s.layout is Some ==> float_width(v)
            == s.layout),
        ShapeType::Str => v is Str,
        ShapeType::Array(t, n) => !marked_variable(attrs) && match v {
            Value::Array(items) => items@.len() == n && forall|i: int|
                0 <= i < items@.len() ==> of_shape(#[trigger] items@[i], *t, None),
            _ => false,
        },
        ShapeType::Slice => v is List,
        ShapeType::Struct(count) => match v {
            Value::Struct(fields) => fields@.len() == count,
            Value::Unit => count == 0,
            _ => false,
        },
        ShapeType::Enum(counts) => match v {
            Value::Enum { discriminant, fields } => 0 <= discriminant <= u32::MAX
                && exists|i: int| 0 <= i < counts@.len() && counts@[i] == fields@.len(),
            _ => false,
        },
        ShapeType::Opaque => if s.type_identifier@ == "String"@ {
            v is Str
        } else if s.type_identifier@ == "Uuid"@ {
            v is U128 && !marked_variable(attrs)
        } else {
            true
        },
        ShapeType::Reference(t) => of_shape(v, *t, attrs),
        _ => true,
    }
}

// ---------------------------------------------------------------------------------------------

/// A length a hint admits lies between its minimum and its maximum.
proof fn lemma_admits_bounds(h: TypeSizeHint, n: nat)
    requires
        admits(h, n),
    ensures
        hint_min(h) matches Some(lo) ==> lo <= n,
        hint_max(h) matches Some(hi) ==> n <= hi,
{
}

/// The bytes of a length or count written before what it counts.
proof fn lemma_prefixed_len(n: nat, rest: Seq<PeekView>)
    requires
        n <= u32::MAX,
    ensures
        toks_bytes(seq![PeekView::Variable(n as u128)] + rest).len() == var_bytes(n).len()
            + toks_bytes(rest).len(),
        1 <= var_bytes(n).len() <= 5,
{
    lemma_toks_bytes_append(seq![PeekView::Variable(n as u128)], rest);
    lemma_toks_bytes_one(PeekView::Variable(n as u128));
    lemma_var_bytes_width(n, 32);
}

/// The bytes written for one integer: its width as it is, and between one
/// byte and the most its width needs in the variable-length form.
proof fn lemma_int_len(v: Value, var: bool)
    requires
        int_width(v) is Some,
    ensures
        !flat(v, var).error,
        !var ==> written_len(v, var) == int_width(v).unwrap(),
        var && int_width(v).unwrap() == 2 ==> 1 <= written_len(v, var) <= 3,
        var && int_width(v).unwrap() == 4 ==> 1 <= written_len(v, var) <= 5,
        var && int_width(v).unwrap() == 8 ==> 1 <= written_len(v, var) <= 10,
        var && int_width(v).unwrap() == 16 ==> 1 <= written_len(v, var) <= 19,
{
    let toks = flat(v, var).toks;
    assert(toks.len() == 1);
    assert(toks =~= seq![toks[0]]);
    lemma_toks_bytes_one(toks[0]);
    match v {
        Value::U8(_) | Value::I8(_) => {},
        Value::U16(x) => if var {
            lemma_var_bytes_width(x as nat, 16);
        } else {
            lemma_be_bytes_len(x as nat, 2);
        },
        Value::I16(x) => if var {
            lemma_var_bytes_width(twos(x as int, 16), 16);
        } else {
            lemma_be_bytes_len(twos(x as int, 16), 2);
        },
        Value::U32(x) => if var {
            lemma_var_bytes_width(x as nat, 32);
        } else {
            lemma_be_bytes_len(x as nat, 4);
        },
        Value::I32(x) => if var {
            lemma_var_bytes_width(twos(x as int, 32), 32);
        } else {
            lemma_be_bytes_len(twos(x as int, 32), 4);
        },
        Value::U64(x) => if var {
            lemma_var_bytes_width(x as nat, 64);
        } else {
            lemma_be_bytes_len(x as nat, 8);
        },
        Value::I64(x) => if var {
            lemma_var_bytes_width(twos(x as int, 64), 64);
        } else {
            lemma_be_bytes_len(twos(x as int, 64), 8);
        },
        Value::USize(x) => if var {
            lemma_var_bytes_width(x as nat, 64);
        } else {
            lemma_be_bytes_len(x as u64 as nat, 8);
        },
        Value::ISize(x) => if var {
            lemma_var_bytes_width(twos(x as int, 64), 64);
        } else {
            lemma_be_bytes_len(twos(x as int, 64), 8);
        },
        Value::U128(x) => if var {
            lemma_var_bytes_width(x as nat, 128);
        } else {
            lemma_be_bytes_len(x as nat, 16);
        },
        Value::I128(x) => if var {
            lemma_var_bytes_width(twos(x as int, 128), 128);
        } else {
            lemma_be_bytes_len(twos(x as int, 128), 16);
        },
        _ => {},
    }
}

/// Over the hints of an enum's variants, the span has a minimum only when no
/// variant has fields; it is nothing exactly when there is at least one
/// variant, and spans from `usize::MAX` down to nothing when there is none.
proof fn lemma_fold_variants(counts: Seq<usize>)
    ensures
        fold_min(variant_hints(counts)) is Some ==> forall|i: int|
            0 <= i < counts.len() ==> counts[i] == 0,
        (forall|i: int| 0 <= i < counts.len() ==> counts[i] == 0) ==> fold_max(
            variant_hints(counts),
        ) == Some(0usize) && fold_min(variant_hints(counts)) == (if counts.len() == 0 {
            Some(usize::MAX)
        } else {
            Some(0usize)
        }),
    decreases counts.len(),
{
    let hs = variant_hints(counts);
    if counts.len() > 0 {
        let c = counts.drop_last();
        assert(hs.drop_last() =~= variant_hints(c));
        assert(hs.last() == crate::hint::field_hint(counts.last()));
        lemma_fold_variants(c);
        if fold_min(hs) is Some {
            assert forall|i: int| 0 <= i < counts.len() implies counts[i] == 0 by {
                if i < counts.len() - 1 {
                    assert(c[i] == counts[i]);
                }
            }
        }
        if forall|i: int| 0 <= i < counts.len() ==> counts[i] == 0 {
            assert forall|i: int| 0 <= i < c.len() implies c[i] == 0 by {
                assert(c[i] == counts[i]);
            }
            assert(counts.last() == counts[counts.len() - 1]);
        }
    }
}

/// The span of an enum's variant hints is unknown, or nothing when no variant
/// has fields.
proof fn lemma_variant_span(counts: Seq<usize>)
    ensures
        hint_span(variant_hints(counts)) is Unknown || (hint_span(variant_hints(counts))
            == TypeSizeHint::Exact { size: 0 } && forall|i: int|
            0 <= i < counts.len() ==> counts[i] == 0),
{
    lemma_fold_variants(counts);
}

/// `n` values that each take between a hint's minimum and maximum take what
/// the hint multiplied by `n` admits.
proof fn lemma_multiply_admits(h: TypeSizeHint, n: usize, total: nat)
    requires
        crate::hint::multiply_fits(h, n),
        hint_min(h) matches Some(lo) ==> lo * n <= total,
        hint_max(h) matches Some(hi) ==> total <= hi * n,
    ensures
        admits(crate::hint::hint_multiply(h, n), total),
{
}

/// Values written one after another, each of a shape whose hint runs from a
/// minimum to a maximum, take between that many times the minimum and the
/// maximum.
proof fn lemma_items_len(items: Seq<Value>, t: ShapeModel, attrs: Option<Seq<FieldAttribute>>)
    requires
        forall|i: int| 0 <= i < items.len() ==> #[trigger] of_shape(items[i], t, attrs),
        shape_hint_fits(t, attrs),
    ensures
        !flat_items(items, marked_variable(attrs)).error ==> {
            let n = toks_bytes(flat_items(items, marked_variable(attrs)).toks).len();
            &&& hint_min(shape_hint(t, attrs)) matches Some(lo) ==> lo * items.len() <= n
            &&& hint_max(shape_hint(t, attrs)) matches Some(hi) ==> n <= hi * items.len()
        },
    decreases t, 2int, items.len(),
{
    let var = marked_variable(attrs);
    if items.len() == 0 {
        assert(toks_bytes(flat_items(items, var).toks) =~= Seq::<u8>::empty());
    } else {
        let x = items[0];
        let rest = items.drop_first();
        assert forall|i: int| 0 <= i < rest.len() implies #[trigger] of_shape(rest[i], t, attrs) by {
            assert(rest[i] == items[i + 1]);
            assert(of_shape(items[i + 1], t, attrs));
        }
        assert(of_shape(items[0], t, attrs));
        lemma_items_len(rest, t, attrs);
        lemma_written_admits_hint(x, t, attrs);
        if !flat_items(items, var).error {
            let fx = flat(x, var);
            let fr = flat_items(rest, var);
            lemma_toks_bytes_append(fx.toks, fr.toks);
            let a = written_len(x, var);
            lemma_admits_bounds(shape_hint(t, attrs), a);
            let m = rest.len();
            if let Some(lo) = hint_min(shape_hint(t, attrs)) {
                assert(lo * items.len() == lo * m + lo) by (nonlinear_arith)
                    requires
                        items.len() == m + 1,
                ;
            }
            if let Some(hi) = hint_max(shape_hint(t, attrs)) {
                assert(hi * items.len() == hi * m + hi) by (nonlinear_arith)
                    requires
                        items.len() == m + 1,
                ;
            }
        }
    }
}

/// Map entries whose keys and values are of shapes that take nothing take
/// nothing.
proof fn lemma_entries_len(es: Seq<(Value, Value)>, s: ShapeModel, attrs: Option<Seq<FieldAttribute>>)
    requires
        s.def matches ShapeDef::KeyValue(k, x) && shape_hint(*k, attrs) == (TypeSizeHint::Exact {
            size: 0,
        }) && shape_hint(*x, attrs) == (TypeSizeHint::Exact { size: 0 }) && shape_hint_fits(
            *k,
            attrs,
        ) && shape_hint_fits(*x, attrs) && forall|i: int|
            0 <= i < es.len() ==> #[trigger] of_shape(es[i].0, *k, attrs) && of_shape(
                es[i].1,
                *x,
                attrs,
            ),
    ensures
        !flat_entries(es, marked_variable(attrs)).error ==> toks_bytes(
            flat_entries(es, marked_variable(attrs)).toks,
        ).len() == 0,
    decreases s, 0int, es.len(),
{
    let var = marked_variable(attrs);
    if let ShapeDef::KeyValue(k, x) = s.def {
        if es.len() == 0 {
            assert(toks_bytes(flat_entries(es, var).toks) =~= Seq::<u8>::empty());
        } else {
            let rest = es.drop_first();
            assert forall|i: int| 0 <= i < rest.len() implies #[trigger] of_shape(rest[i].0, *k, attrs)
                && of_shape(rest[i].1, *x, attrs) by {
                assert(rest[i] == es[i + 1]);
                assert(of_shape(es[i + 1].0, *k, attrs));
            }
            assert(of_shape(es[0].0, *k, attrs));
            lemma_entries_len(rest, s, attrs);
            lemma_written_admits_hint(es[0].0, *k, attrs);
            lemma_written_admits_hint(es[0].1, *x, attrs);
            if !flat_entries(es, var).error {
                let fk = flat(es[0].0, var);
                let fv = flat(es[0].1, var);
                let fr = flat_entries(rest, var);
                lemma_toks_bytes_append(fk.toks, fv.toks);
                lemma_toks_bytes_append(fk.toks + fv.toks, fr.toks);
            }
        }
    }
}

/// A value of a shape, held by a field with given attributes, is written in
/// as many bytes as the shape's size hint admits.
#[verifier::spinoff_prover]
pub proof fn lemma_written_admits_hint(v: Value, s: ShapeModel, attrs: Option<Seq<FieldAttribute>>)
    requires
        of_shape(v, s, attrs),
        shape_hint_fits(s, attrs),
    ensures
        !flat(v, marked_variable(attrs)).error ==> admits(
            shape_hint(s, attrs),
            written_len(v, marked_variable(attrs)),
        ),
    decreases s, 1int, 0int,
{
    let var = marked_variable(attrs);
    match s.def {
        ShapeDef::KeyValue(k, x) => {
            if let Value::KeyValue(es) = v {
                if !flat(v, var).error {
                    lemma_prefixed_len(es@.len(), flat_entries(es@, var).toks);
                    assert(flat(v, var).toks == seq![PeekView::Variable(es@.len() as u128)]
                        + flat_entries(es@, var).toks);
                    if shape_hint(*k, attrs) == (TypeSizeHint::Exact { size: 0 }) && shape_hint(
                        *x,
                        attrs,
                    ) == (TypeSizeHint::Exact { size: 0 }) {
                        assert forall|i: int| 0 <= i < es@.len() implies #[trigger] of_shape(
                            es@[i].0,
                            *k,
                            attrs,
                        ) && of_shape(es@[i].1, *x, attrs) by {
                            assert(of_shape(es@[i].0, *k, attrs));
                        }
                        lemma_entries_len(es@, s, attrs);
                    }
                }
            }
        },
        ShapeDef::Distinct(t) => {
            if let Value::Distinct(items) = v {
                lemma_items_len(items@, *t, attrs);
                if !flat(v, var).error {
                    lemma_prefixed_len(items@.len(), flat_items(items@, var).toks);
                    assert(flat(v, var).toks == seq![PeekView::Variable(items@.len() as u128)]
                        + flat_items(items@, var).toks);
                    if shape_hint(*t, attrs) == (TypeSizeHint::Exact { size: 0 }) {
                        assert(0 * items@.len() == 0);
                    }
                }
            }
        },
        ShapeDef::List(t) | ShapeDef::Slice(t) => {
            if v is Bytes {
                lemma_str_len(v, var);
                assert(shape_hint(*t, attrs) == ty_hint(*t, attrs));
                assert(ty_hint(*t, attrs) != (TypeSizeHint::Exact { size: 0 }));
            }
            if let Value::List(items) = v {
                lemma_items_len(items@, *t, attrs);
                if !flat(v, var).error {
                    lemma_prefixed_len(items@.len(), flat_items(items@, var).toks);
                    assert(flat(v, var).toks == seq![PeekView::Variable(items@.len() as u128)]
                        + flat_items(items@, var).toks);
                    if shape_hint(*t, attrs) == (TypeSizeHint::Exact { size: 0 }) {
                        assert(0 * items@.len() == 0);
                    }
                }
            }
        },
        ShapeDef::Array(t, n) => {
            if let Value::Array(items) = v {
                lemma_items_len(items@, *t, attrs);
                if !flat(v, var).error {
                    lemma_multiply_admits(shape_hint(*t, attrs), n, written_len(v, var));
                }
            }
        },
        ShapeDef::Optional(t) => {
            if let Value::Optional(o) = v {
                if !flat(v, var).error {
                    match o {
                        Some(x) => {
                            lemma_written_admits_hint(*x, *t, attrs);
                            lemma_prefixed_len(1, flat(*x, var).toks);
                            assert(var_bytes(1).len() == 1);
                            lemma_admits_bounds(shape_hint(*t, attrs), written_len(*x, var));
                        },
                        None => {
                            lemma_prefixed_len(0, seq![]);
                            assert(seq![PeekView::Variable(0)] + Seq::<PeekView>::empty() =~= seq![
                                PeekView::Variable(0),
                            ]);
                            assert(var_bytes(0).len() == 1);
                        },
                    }
                    }
            }
        },
        ShapeDef::Fallible(_, _) => {},
        ShapeDef::Pointer(p) => match p {
            Some(inner) => {
                if let Value::Pointer(Some(x)) = v {
                    lemma_written_admits_hint(*x, *inner, attrs);
                }
            },
            None => {
                lemma_ty_written_admits_hint(v, s, attrs);
            },
        },
        ShapeDef::Scalar | ShapeDef::Undefined => {
            lemma_ty_written_admits_hint(v, s, attrs);
        },
        ShapeDef::Other => {},
    }
}

/// A value of what a type is made of is written in as many bytes as the
/// hint from what it is made of admits.
proof fn lemma_ty_written_admits_hint(v: Value, s: ShapeModel, attrs: Option<Seq<FieldAttribute>>)
    requires
        ty_of_shape(v, s, attrs),
        ty_hint_fits(s, attrs),
    ensures
        !flat(v, marked_variable(attrs)).error ==> admits(
            ty_hint(s, attrs),
            written_len(v, marked_variable(attrs)),
        ),
    decreases s, 0int, 0int,
{
    let var = marked_variable(attrs);
    match s.ty {
        ShapeType::Boolean => {
            if let Value::Bool(b) = v {
                lemma_toks_bytes_one(PeekView::Bool(b));
            }
        },
        ShapeType::Integer => {
            lemma_int_len(v, var);
        },
        ShapeType::Float => {
            match v {
                Value::F32(x) => {
                    lemma_toks_bytes_one(PeekView::F32(x));
                    lemma_be_bytes_len(x as nat, 4);
                },
                Value::F64(x) => {
                    lemma_toks_bytes_one(PeekView::F64(x));
                    lemma_be_bytes_len(x as nat, 8);
                },
                _ => {},
            }
        },
        ShapeType::Str => {
            lemma_str_len(v, var);
        },
        ShapeType::Array(t, n) => {
            if let Value::Array(items) = v {
                lemma_items_len(items@, *t, None);
                if !flat(v, var).error {
                    lemma_multiply_admits(shape_hint(*t, None), n, written_len(v, var));
                }
            }
        },
        ShapeType::Slice => {
            if let Value::List(items) = v {
                if !flat(v, var).error {
                    let r = flat_items(items@, var).toks;
                    lemma_toks_bytes_append(seq![PeekView::Variable(items@.len() as u128)], r);
                    lemma_toks_bytes_one(PeekView::Variable(items@.len() as u128));
                    lemma_var_bytes_nonempty(items@.len() as u128 as nat);
                }
            }
        },
        ShapeType::Struct(count) => {
            match v {
                Value::Struct(fields) => {
                    if count == 0 {
                        assert(fields@ =~= Seq::<Field>::empty());
                        assert(flat_fields(fields@).toks =~= Seq::<PeekView>::empty());
                        assert(toks_bytes(flat(v, var).toks) =~= Seq::<u8>::empty());
                    }
                },
                Value::Unit => {
                    assert(toks_bytes(flat(v, var).toks) =~= Seq::<u8>::empty());
                },
                _ => {},
            }
        },
        ShapeType::Enum(counts) => {
            lemma_variant_span(counts@);
            if let Value::Enum { discriminant, fields } = v {
                if hint_span(variant_hints(counts@)) == (TypeSizeHint::Exact { size: 0 }) {
                    let k = choose|i: int| 0 <= i < counts@.len() && counts@[i] == fields@.len();
                    assert(counts@[k] == 0);
                    assert(fields@ =~= Seq::<Field>::empty());
                    assert(flat_fields(fields@).toks =~= Seq::<PeekView>::empty());
                    let d = discriminant as nat;
                    vstd::arithmetic::div_mod::lemma_small_mod(
                        d,
                        0x1_0000_0000_0000_0000_0000_0000_0000_0000nat,
                    );
                    assert(twos(discriminant as int, 128) == d);
                    lemma_prefixed_len(d, seq![]);
                    assert(flat(v, var).toks =~= seq![PeekView::Variable(d as u128)] + Seq::<
                        PeekView,
                    >::empty());
                }
            }
        },
        ShapeType::Opaque => {
            if s.type_identifier@ == "String"@ {
                lemma_str_len(v, var);
            } else if s.type_identifier@ == "Uuid"@ {
                if let Value::U128(x) = v {
                    lemma_toks_bytes_one(PeekView::U128(x));
                    lemma_be_bytes_len(x as nat, 16);
                }
            }
        },
        ShapeType::Reference(t) => {
            lemma_written_admits_hint(v, *t, attrs);
        },
        _ => {},
    }
}

/// A string or a run of bytes is written in at least one byte: its length
/// comes first.
proof fn lemma_str_len(v: Value, var: bool)
    requires
        v is Str || v is Bytes,
    ensures
        written_len(v, var) >= 1,
{
    let toks = flat(v, var).toks;
    let a = toks[0];
    let b = toks[1];
    assert(toks =~= seq![a] + seq![b]);
    lemma_toks_bytes_append(seq![a], seq![b]);
    lemma_toks_bytes_one(a);
    if let PeekView::Variable(n) = a {
        lemma_var_bytes_nonempty(n as nat);
    }
}

/// A type's size hint admits the length of what `to_vec` writes for each of
/// its values: no shorter than the hint's minimum, no longer than its
/// maximum, and exactly its size when the hint is exact.
pub proof fn lemma_size_hint_admits_encoding(v: Value, s: ShapeModel)
    requires
        of_shape(v, s, None),
        shape_hint_fits(s, None),
    ensures
        be_encoding(v) matches Some(b) ==> admits(shape_hint(s, None), b.len()),
{
    lemma_written_admits_hint(v, s, None);
}

/// Whether the attributes of a field name a custom function to write or read
/// it.
pub open spec fn marked_custom(attrs: Option<Seq<FieldAttribute>>) -> bool {
    match attrs {
        Some(a) => crate::hint::has_custom_attr(a),
        None => false,
    }
}

/// Whether every value of a shape is written in the same number of bytes:
/// a `bool`, an integer or float of a known size, a UUID, a struct without
/// fields, a reference or pointer to such a shape, or an array of them, held
/// by a field that is not marked variable-length and names no custom
/// function.
pub open spec fn fixed_width(s: ShapeModel, attrs: Option<Seq<FieldAttribute>>) -> bool
    decreases s, 1int,
{
    !marked_variable(attrs) && !marked_custom(attrs) && match s.def {
        ShapeDef::Array(t, _) => fixed_width(*t, attrs),
        ShapeDef::Pointer(Some(t)) => fixed_width(*t, attrs),
        ShapeDef::Pointer(None) | ShapeDef::Scalar | ShapeDef::Undefined => ty_fixed_width(
            s,
            attrs,
        ),
        _ => false,
    }
}

/// Whether every value of what a type is made of is written in the same
/// number of bytes.
pub open spec fn ty_fixed_width(s: ShapeModel, attrs: Option<Seq<FieldAttribute>>) -> bool
    decreases s, 0int,
{
    match s.ty {
        ShapeType::Boolean => true,
        ShapeType::Integer | ShapeType::Float => s.layout is Some,
        ShapeType::Opaque => s.type_identifier@ == "Uuid"@,
        ShapeType::Struct(count) => count == 0,
        ShapeType::Reference(t) => fixed_width(*t, attrs),
        _ => false,
    }
}

/// The size hint of a shape whose values are all written in the same number
/// of bytes is exact: it names one size, not a range and not nothing.
pub proof fn lemma_fixed_width_hint_exact(s: ShapeModel, attrs: Option<Seq<FieldAttribute>>)
    requires
        fixed_width(s, attrs),
        shape_hint_fits(s, attrs),
    ensures
        shape_hint(s, attrs) is Exact,
    decreases s, 1int,
{
    match s.def {
        ShapeDef::Array(t, _) => lemma_fixed_width_hint_exact(*t, attrs),
        ShapeDef::Pointer(Some(t)) => lemma_fixed_width_hint_exact(*t, attrs),
        _ => lemma_ty_fixed_width_hint_exact(s, attrs),
    }
}

/// The hint from what a type is made of is exact when all its values are
/// written in the same number of bytes.
proof fn lemma_ty_fixed_width_hint_exact(s: ShapeModel, attrs: Option<Seq<FieldAttribute>>)
    requires
        ty_fixed_width(s, attrs),
        ty_hint_fits(s, attrs),
        !marked_variable(attrs),
        !marked_custom(attrs),
    ensures
        ty_hint(s, attrs) is Exact,
    decreases s, 0int,
{
    match s.ty {
        ShapeType::Opaque => {
            reveal_strlit("Uuid");
            reveal_strlit("String");
            assert(s.type_identifier@ != "String"@) by {
                assert(s.type_identifier@[0] != "String"@[0]);
            }
        },
        ShapeType::Reference(t) => lemma_fixed_width_hint_exact(*t, attrs),
        _ => {},
    }
}

/// Every value of a shape whose values are all written in the same number of
/// bytes is written in exactly the number of bytes its size hint names.
pub proof fn lemma_fixed_width_written_exactly(
    v: Value,
    s: ShapeModel,
    attrs: Option<Seq<FieldAttribute>>,
)
    requires
        fixed_width(s, attrs),
        of_shape(v, s, attrs),
        shape_hint_fits(s, attrs),
    ensures
        !flat(v, false).error ==> shape_hint(s, attrs) == (TypeSizeHint::Exact {
            size: written_len(v, false) as usize,
        }),
{
    lemma_fixed_width_hint_exact(s, attrs);
    lemma_written_admits_hint(v, s, attrs);
}

/// A UUID, held by a field not marked variable-length and naming no custom
/// function, has the hint of exactly the sixteen bytes it is written in.
pub proof fn lemma_uuid_hint_exact(s: ShapeModel, attrs: Option<Seq<FieldAttribute>>)
    requires
        s.def is Scalar || s.def is Undefined,
        s.ty is Opaque,
        s.type_identifier@ == "Uuid"@,
        !marked_variable(attrs),
        !marked_custom(attrs),
    ensures
        shape_hint(s, attrs) == (TypeSizeHint::Exact { size: 16 }),
{
    reveal_strlit("Uuid");
    reveal_strlit("String");
    assert(s.type_identifier@ != "String"@) by {
        assert(s.type_identifier@[0] != "String"@[0]);
    }
    let v = Value::U128(0);
    assert(ty_of_shape(v, s, attrs));
    assert(of_shape(v, s, attrs));
    assert(ty_fixed_width(s, attrs));
    assert(fixed_width(s, attrs));
    assert(ty_hint_fits(s, attrs));
    assert(shape_hint_fits(s, attrs));
    lemma_toks_bytes_one(PeekView::U128(0));
    lemma_be_bytes_len(0, 16);
    assert(written_len(v, false) == 16);
    lemma_fixed_width_written_exactly(v, s, attrs);
}

/// The unsigned integer value of a width in bytes, zero or the largest.
pub open spec fn unsigned_of_width(width: usize, largest: bool) -> Value {
    if width == 2 {
        Value::U16(if largest { 0xffff } else { 0 })
    } else if width == 4 {
        Value::U32(if largest { 0xffff_ffff } else { 0 })
    } else if width == 8 {
        Value::U64(if largest { 0xffff_ffff_ffff_ffff } else { 0 })
    } else {
        Value::U128(if largest { 0xffff_ffff_ffff_ffff_ffff_ffff_ffff_ffff } else { 0 })
    }
}

/// The hint of an integer of 2, 4, 8 or 16 bytes in a field marked
/// variable-length runs exactly from what zero is written in to what the
/// largest value of the width is written in: no wider, no narrower.
pub proof fn lemma_variable_hint_tight(s: ShapeModel, attrs: Option<Seq<FieldAttribute>>)
    requires
        s.def is Scalar || s.def is Undefined,
        s.ty is Integer,
        s.layout matches Some(w) && (w == 2 || w == 4 || w == 8 || w == 16),
        marked_variable(attrs),
        !marked_custom(attrs),
    ensures
        ({
            let w = s.layout.unwrap();
            let lo = unsigned_of_width(w, false);
            let hi = unsigned_of_width(w, true);
            &&& of_shape(lo, s, attrs) && of_shape(hi, s, attrs)
            &&& shape_hint(s, attrs) == (TypeSizeHint::Range {
                min: written_len(lo, true) as usize,
                max: Some(written_len(hi, true) as usize),
            })
        }),
{
    let w = s.layout.unwrap();
    let lo = unsigned_of_width(w, false);
    let hi = unsigned_of_width(w, true);
    assert(ty_of_shape(lo, s, attrs));
    assert(ty_of_shape(hi, s, attrs));
    let tl = flat(lo, true).toks;
    let th = flat(hi, true).toks;
    assert(tl =~= seq![tl[0]]);
    assert(th =~= seq![th[0]]);
    lemma_toks_bytes_one(tl[0]);
    lemma_toks_bytes_one(th[0]);
    assert(var_bytes(0).len() == 1);
    assert(shape_hint(s, attrs) == ty_hint(s, attrs));
    assert(has_variable_attr(attrs.unwrap()) && !crate::hint::has_custom_attr(attrs.unwrap()));
    if w == 2 {
        assert(var_bytes(0xffff).len() == 3) by {
            reveal_with_fuel(var_bytes, 4);
        }
    } else if w == 4 {
        assert(var_bytes(0xffff_ffff).len() == 5) by {
            reveal_with_fuel(var_bytes, 6);
        }
    } else if w == 8 {
        assert(var_bytes(0xffff_ffff_ffff_ffff).len() == 10) by {
            reveal_with_fuel(var_bytes, 11);
        }
    } else {
        assert(var_bytes(0xffff_ffff_ffff_ffff_ffff_ffff_ffff_ffff).len() == 19) by {
            reveal_with_fuel(var_bytes, 20);
        }
    }
}

/// Whether a shape's values are written after a count or a flag: maps,
/// sets, lists, slices, options and strings.
pub open spec fn prefixed_shape(s: ShapeModel) -> bool {
    match s.def {
        ShapeDef::KeyValue(_, _) | ShapeDef::Distinct(_) | ShapeDef::List(_) | ShapeDef::Slice(_)
        | ShapeDef::Optional(_) => true,
        ShapeDef::Scalar | ShapeDef::Undefined => s.ty is Str || s.ty is Slice || (s.ty is Opaque
            && s.type_identifier@ == "String"@),
        _ => false,
    }
}

/// Whether a value holds nothing after its count or flag: an empty map, set,
/// list or string, or an absent option.
pub open spec fn holds_nothing(v: Value) -> bool {
    match v {
        Value::KeyValue(es) => es@.len() == 0,
        Value::Distinct(items) | Value::List(items) => items@.len() == 0,
        Value::Optional(o) => o is None,
        Value::Str(st) => st@.len() == 0,
        _ => false,
    }
}

/// The hint of a shape written after a count or a flag has as its minimum
/// exactly what a value of it that holds nothing is written in.
pub proof fn lemma_prefixed_hint_min_tight(v: Value, s: ShapeModel, attrs: Option<
    Seq<FieldAttribute>,
>)
    requires
        prefixed_shape(s),
        of_shape(v, s, attrs),
        holds_nothing(v),
    ensures
        hint_min(shape_hint(s, attrs)) == Some(written_len(v, marked_variable(attrs)) as usize),
{
    let var = marked_variable(attrs);
    let toks = flat(v, var).toks;
    assert(var_bytes(0).len() == 1);
    match v {
        Value::KeyValue(es) => {
            assert(flat_entries(es@, var).toks =~= Seq::<PeekView>::empty());
            lemma_prefixed_len(0, seq![]);
            assert(toks =~= seq![PeekView::Variable(0)] + Seq::<PeekView>::empty());
        },
        Value::Distinct(items) | Value::List(items) => {
            assert(flat_items(items@, var).toks =~= Seq::<PeekView>::empty());
            lemma_prefixed_len(0, seq![]);
            assert(toks =~= seq![PeekView::Variable(0)] + Seq::<PeekView>::empty());
        },
        Value::Optional(_) => {
            lemma_prefixed_len(0, seq![]);
            assert(toks =~= seq![PeekView::Variable(0)] + Seq::<PeekView>::empty());
        },
        Value::Str(st) => {
            assert(vstd::utf8::encode_utf8(st@) =~= Seq::<u8>::empty());
            let a = toks[0];
            let b = toks[1];
            assert(toks =~= seq![a] + seq![b]);
            lemma_toks_bytes_append(seq![a], seq![b]);
            lemma_toks_bytes_one(a);
            lemma_toks_bytes_one(b);
        },
        _ => {},
    }
    assert(written_len(v, var) == 1);
    match s.def {
        ShapeDef::Scalar | ShapeDef::Undefined => {
            assert(shape_hint(s, attrs) == ty_hint(s, attrs));
            if s.ty is Opaque {
                reveal_strlit("String");
            }
        },
        _ => {},
    }
}

} // verus!
