//! What the resumable walk reads back of what the big-endian walk wrote.
use crate::buffer::{be_encoding, tok_bytes, toks_bytes};
use crate::bytes::{be_bytes, be_value, lemma_be_bytes_len, lemma_be_value_bytes, lemma_pow256_16};
use crate::iter::{pdec, pdec_entries, pdec_fields, pdec_items, request, scalar_value};
use crate::peek::{fok, fthen, flat, flat_entries, flat_fields, flat_items, scalar_toks, Flat, PeekView};
use crate::process::{process_step, prefixed_step, PartialValue};
use crate::roundtrip::{lemma_pow256_widths, lemma_signed_twos, lemma_var_back};
use crate::schema::{entries_view, fields_view, first_variant, items_view, FieldSchema, Schema, ValueView};
use crate::value::{Field, Value};
use crate::varint::{var_bytes, var_max_bytes, var_read, var_read_width, width_bound};
use crate::writer::twos;
use vstd::arithmetic::div_mod::*;
use vstd::arithmetic::power::*;
use vstd::prelude::*;
use vstd::utf8::{decode_utf8, encode_utf8, valid_utf8};

verus! {

broadcast use vstd::utf8::group_utf8_lib;

/// Whether a value has the given shape for the walk, with integers in the
/// variable-length encoding when `var` is set, so that what the big-endian
/// walk writes of it the resumable walk reads back.
pub open spec fn walk_conforms(v: Value, s: Schema, var: bool) -> bool
    decreases v, 1int,
{
    match (v, s) {
        (Value::Unit, Schema::Unit) | (Value::Bool(_), Schema::Bool) | (Value::U8(_), Schema::U8)
        | (Value::I8(_), Schema::I8) | (Value::F32(_), Schema::F32) | (Value::F64(_), Schema::F64)
        | (Value::U16(_), Schema::U16) | (Value::U32(_), Schema::U32) | (Value::U64(_), Schema::U64)
        | (Value::U128(_), Schema::U128) | (Value::USize(_), Schema::USize) | (
            Value::I16(_),
            Schema::I16,
        ) | (Value::I32(_), Schema::I32) | (Value::I64(_), Schema::I64) | (
            Value::I128(_),
            Schema::I128,
        ) | (Value::ISize(_), Schema::ISize) => true,
        (Value::Str(x), Schema::Str) => encode_utf8(x@).len() <= usize::MAX,
        (Value::List(items), Schema::List(e)) | (Value::Distinct(items), Schema::Distinct(e)) => items@.len()
            <= usize::MAX && walk_items_conform(items@, *e, var),
        (Value::Array(items), Schema::Array(e, n)) => items@.len() == n && walk_items_conform(
            items@,
            *e,
            var,
        ),
        (Value::KeyValue(es), Schema::KeyValue(k, x)) => !var && es@.len() <= usize::MAX
            && walk_entries_conform(es@, *k, *x),
        (Value::Optional(o), Schema::Optional(e)) => match o {
            Some(x) => walk_conforms(*x, *e, var),
            None => true,
        },
        (Value::Pointer(o), Schema::Pointer(e)) => match o {
            Some(x) => walk_conforms(*x, *e, var),
            None => false,
        },
        (Value::Struct(fields), Schema::Struct(fs)) => walk_fields_conform(fields@, fs@),
        (Value::Enum { discriminant, fields }, Schema::Enum { variants, .. }) => 0 <= discriminant
            <= usize::MAX && match first_variant(variants@, discriminant) {
            Some(i) => i < variants@.len() && walk_fields_conform(fields@, variants@[i as int].fields@),
            None => false,
        },
        _ => false,
    }
}

/// Whether each value has the given shape for the walk.
pub open spec fn walk_items_conform(items: Seq<Value>, e: Schema, var: bool) -> bool
    decreases items, 0int,
{
    if items.len() == 0 {
        true
    } else {
        walk_conforms(items[0], e, var) && walk_items_conform(items.drop_first(), e, var)
    }
}

/// Whether each entry's key and value have the key and value shapes.
pub open spec fn walk_entries_conform(es: Seq<(Value, Value)>, k: Schema, x: Schema) -> bool
    decreases es, 0int,
{
    if es.len() == 0 {
        true
    } else {
        walk_conforms(es[0].0, k, false) && walk_conforms(es[0].1, x, false) && walk_entries_conform(
            es.drop_first(),
            k,
            x,
        )
    }
}

/// Whether each field has the shape and the marking of its place.
pub open spec fn walk_fields_conform(fields: Seq<Field>, fs: Seq<FieldSchema>) -> bool
    decreases fields, 0int,
{
    if fields.len() == 0 {
        fs.len() == 0
    } else {
        &&& fs.len() > 0
        &&& fields[0].variable == fs[0].variable
        &&& walk_conforms(fields[0].value, fs[0].schema, fs[0].variable)
        &&& walk_fields_conform(fields.drop_first(), fs.drop_first())
    }
}

// ---------------------------------------------------------------------------------------------

/// The bytes of scalars written one run after another.
pub(crate) proof fn lemma_toks_bytes_append(a: Seq<PeekView>, b: Seq<PeekView>)
    ensures
        toks_bytes(a + b) == toks_bytes(a) + toks_bytes(b),
    decreases b.len(),
{
    if b.len() == 0 {
        assert(a + b =~= a);
        assert(toks_bytes(a) + seq![] =~= toks_bytes(a));
    } else {
        lemma_toks_bytes_append(a, b.drop_last());
        assert((a + b).drop_last() =~= a + b.drop_last());
        assert((a + b).last() == b.last());
        assert(toks_bytes(a) + toks_bytes(b.drop_last()) + tok_bytes(b.last()) =~= toks_bytes(a) + (
        toks_bytes(b.drop_last()) + tok_bytes(b.last())));
    }
}

/// The bytes of one scalar.
pub(crate) proof fn lemma_toks_bytes_one(t: PeekView)
    ensures
        toks_bytes(seq![t]) == tok_bytes(t),
{
    let s1 = seq![t];
    assert(s1.drop_last() =~= Seq::<PeekView>::empty());
    assert(s1.last() == t);
    assert(toks_bytes(s1.drop_last()) == Seq::<u8>::empty());
    assert(Seq::<u8>::empty() + tok_bytes(t) =~= tok_bytes(t));
}

/// The bytes of two scalars.
proof fn lemma_toks_bytes_two(t: PeekView, u: PeekView)
    ensures
        toks_bytes(seq![t, u]) == tok_bytes(t) + tok_bytes(u),
{
    lemma_toks_bytes_one(t);
    assert(seq![t, u].drop_last() =~= seq![t]);
}

/// Reading back the big-endian bytes of a number below `256^n` gives the
/// number, whatever follows them.
proof fn lemma_be_back(x: nat, n: nat, rest: Seq<u8>)
    requires
        n == 1 || n == 2 || n == 4 || n == 8 || n == 16,
        x < pow(256, n),
    ensures
        (be_bytes(x, n) + rest).len() >= n,
        be_value((be_bytes(x, n) + rest).take(n as int)) == x,
        (be_bytes(x, n) + rest).skip(n as int) == rest,
{
    lemma_be_bytes_len(x, n);
    lemma_be_value_bytes(x, n);
    lemma_small_mod(x, pow(256, n) as nat);
    assert((be_bytes(x, n) + rest).take(n as int) =~= be_bytes(x, n));
    assert((be_bytes(x, n) + rest).skip(n as int) =~= rest);
}

/// Reading back a fixed-width scalar gives it.
#[verifier::spinoff_prover]
#[verifier::rlimit(80)]
proof fn lemma_walk_fixed(v: Value, s: Schema, rest: Seq<u8>)
    requires
        walk_conforms(v, s, false),
        scalar_toks(v, false) is Some,
        !(v is Str),
    ensures
        ({
            let b = toks_bytes(scalar_toks(v, false).unwrap());
            pdec(s, false, b + rest) == Ok::<(ValueView, nat), crate::iter::StepErr>((v@, b.len()))
        }),
{
    lemma_pow256_widths();
    let t = scalar_toks(v, false).unwrap();
    match v {
        Value::Unit => {
            assert(t =~= Seq::<PeekView>::empty());
            assert(toks_bytes(t) + rest =~= rest);
        },
        Value::Bool(x) => {
            lemma_toks_bytes_one(t[0]);
            assert(t =~= seq![t[0]]);
            assert((toks_bytes(t) + rest)[0] == (if x { 1u8 } else { 0u8 }));
        },
        Value::U8(x) => {
            lemma_toks_bytes_one(t[0]);
            assert(t =~= seq![t[0]]);
            let r = toks_bytes(t) + rest;
            assert(r.take(1) =~= seq![x]);
            reveal_with_fuel(be_value, 2);
            assert(seq![x].drop_last() =~= Seq::<u8>::empty());
        },
        Value::I8(x) => {
            lemma_toks_bytes_one(t[0]);
            assert(t =~= seq![t[0]]);
            lemma_signed_twos(x as int, 8);
            let u = twos(x as int, 8) as u8;
            let r = toks_bytes(t) + rest;
            assert(r.take(1) =~= seq![u]);
            reveal_with_fuel(be_value, 2);
            assert(seq![u].drop_last() =~= Seq::<u8>::empty());
            lemma_small_mod(u as nat, 0x100);
        },
        Value::U16(x) => {
            lemma_toks_bytes_one(t[0]);
            assert(t =~= seq![t[0]]);
            lemma_be_back(x as nat, 2, rest);
            lemma_small_mod(x as nat, width_bound(16));
        },
        Value::U32(x) => {
            lemma_toks_bytes_one(t[0]);
            assert(t =~= seq![t[0]]);
            lemma_be_back(x as nat, 4, rest);
            lemma_small_mod(x as nat, width_bound(32));
        },
        Value::U64(x) => {
            lemma_toks_bytes_one(t[0]);
            assert(t =~= seq![t[0]]);
            lemma_be_back(x as nat, 8, rest);
            lemma_small_mod(x as nat, width_bound(64));
        },
        Value::U128(x) => {
            lemma_toks_bytes_one(t[0]);
            assert(t =~= seq![t[0]]);
            lemma_be_back(x as nat, 16, rest);
            lemma_small_mod(x as nat, width_bound(128));
        },
        Value::USize(x) => {
            lemma_toks_bytes_one(t[0]);
            assert(t =~= seq![t[0]]);
            lemma_be_back(x as nat, 8, rest);
        },
        Value::I16(x) => {
            lemma_toks_bytes_one(t[0]);
            assert(t =~= seq![t[0]]);
            lemma_signed_twos(x as int, 16);
            lemma_be_back(twos(x as int, 16), 2, rest);
            lemma_small_mod(twos(x as int, 16), width_bound(16));
        },
        Value::I32(x) => {
            lemma_toks_bytes_one(t[0]);
            assert(t =~= seq![t[0]]);
            lemma_signed_twos(x as int, 32);
            lemma_be_back(twos(x as int, 32), 4, rest);
            lemma_small_mod(twos(x as int, 32), width_bound(32));
        },
        Value::I64(x) => {
            lemma_toks_bytes_one(t[0]);
            assert(t =~= seq![t[0]]);
            lemma_signed_twos(x as int, 64);
            lemma_be_back(twos(x as int, 64), 8, rest);
            lemma_small_mod(twos(x as int, 64), width_bound(64));
        },
        Value::I128(x) => {
            lemma_toks_bytes_one(t[0]);
            assert(t =~= seq![t[0]]);
            lemma_signed_twos(x as int, 128);
            lemma_be_back(twos(x as int, 128), 16, rest);
            lemma_small_mod(twos(x as int, 128), width_bound(128));
        },
        Value::ISize(x) => {
            lemma_toks_bytes_one(t[0]);
            assert(t =~= seq![t[0]]);
            lemma_signed_twos(x as int, 64);
            lemma_be_back(twos(x as int, 64), 8, rest);
            lemma_small_mod(twos(x as int, 64), width_bound(64));
        },
        Value::F32(x) => {
            lemma_toks_bytes_one(t[0]);
            assert(t =~= seq![t[0]]);
            lemma_be_back(x as nat, 4, rest);
            lemma_small_mod(x as nat, 0x1_0000_0000);
        },
        Value::F64(x) => {
            lemma_toks_bytes_one(t[0]);
            assert(t =~= seq![t[0]]);
            lemma_be_back(x as nat, 8, rest);
            lemma_small_mod(x as nat, 0x1_0000_0000_0000_0000);
        },
        _ => {},
    }
}

/// A number read as a length from its variable-length bytes, whatever
/// follows them.
proof fn lemma_length_back(n: nat, rest: Seq<u8>)
    requires
        n <= usize::MAX,
    ensures
        ({
            let r = var_bytes(n) + rest;
            let st = process_step(r, PartialValue::Length, false);
            &&& st.result matches Ok(p) && p == crate::process::ProcessedView::Int(n as int)
            &&& st.advance == var_bytes(n).len()
            &&& r.skip(st.advance as int) == rest
        }),
{
    assert(usize::MAX < width_bound(128)) by {
        lemma_pow256_16();
    }
    lemma_var_back(n, 128, rest);
}

/// Reading back an integer written in the variable-length encoding gives it.
#[verifier::spinoff_prover]
#[verifier::rlimit(80)]
proof fn lemma_walk_variable(v: Value, s: Schema, rest: Seq<u8>)
    requires
        walk_conforms(v, s, true),
        v is U16 || v is U32 || v is U64 || v is U128 || v is USize || v is I16 || v is I32
            || v is I64 || v is I128 || v is ISize,
    ensures
        scalar_toks(v, true) is Some,
        ({
            let b = toks_bytes(scalar_toks(v, true).unwrap());
            pdec(s, true, b + rest) == Ok::<(ValueView, nat), crate::iter::StepErr>((v@, b.len()))
        }),
{
    lemma_pow256_16();
    let t = scalar_toks(v, true).unwrap();
    lemma_toks_bytes_one(t[0]);
    assert(t =~= seq![t[0]]);
    match v {
        Value::U16(x) => {
            lemma_var_back(x as nat, 128, rest);
            lemma_small_mod(x as nat, width_bound(16));
        },
        Value::U32(x) => {
            lemma_var_back(x as nat, 128, rest);
            lemma_small_mod(x as nat, width_bound(32));
        },
        Value::U64(x) => {
            lemma_var_back(x as nat, 128, rest);
            lemma_small_mod(x as nat, width_bound(64));
        },
        Value::U128(x) => {
            lemma_var_back(x as nat, 128, rest);
        },
        Value::USize(x) => {
            lemma_var_back(x as nat, 128, rest);
        },
        Value::I16(x) => {
            lemma_signed_twos(x as int, 16);
            lemma_var_back(twos(x as int, 16), 128, rest);
            lemma_small_mod(twos(x as int, 16), width_bound(16));
        },
        Value::I32(x) => {
            lemma_signed_twos(x as int, 32);
            lemma_var_back(twos(x as int, 32), 128, rest);
            lemma_small_mod(twos(x as int, 32), width_bound(32));
        },
        Value::I64(x) => {
            lemma_signed_twos(x as int, 64);
            lemma_var_back(twos(x as int, 64), 128, rest);
            lemma_small_mod(twos(x as int, 64), width_bound(64));
        },
        Value::I128(x) => {
            lemma_signed_twos(x as int, 128);
            lemma_var_back(twos(x as int, 128), 128, rest);
            lemma_small_mod(twos(x as int, 128), width_bound(128));
        },
        Value::ISize(x) => {
            lemma_signed_twos(x as int, 64);
            lemma_var_back(twos(x as int, 64), 128, rest);
            lemma_small_mod(twos(x as int, 64), width_bound(64));
        },
        _ => {},
    }
}

/// Reading back a string gives it.
proof fn lemma_walk_str(v: Value, var: bool, rest: Seq<u8>)
    requires
        walk_conforms(v, Schema::Str, var),
    ensures
        scalar_toks(v, var) is Some,
        ({
            let b = toks_bytes(scalar_toks(v, var).unwrap());
            pdec(Schema::Str, var, b + rest) == Ok::<(ValueView, nat), crate::iter::StepErr>((v@, b.len()))
        }),
{
    if let Value::Str(x) = v {
        let u = encode_utf8(x@);
        let n = u.len();
        let t = scalar_toks(v, var).unwrap();
        lemma_toks_bytes_two(t[0], t[1]);
        assert(t =~= seq![t[0], t[1]]);
        assert(usize::MAX < width_bound(128)) by {
            lemma_pow256_16();
        }
        lemma_var_back(n, 128, u + rest);
        let b = toks_bytes(t);
        assert(b + rest =~= var_bytes(n) + (u + rest));
        assert((u + rest).take(n as int) =~= u);
        assert((b + rest).skip(var_bytes(n).len() as int) =~= u + rest);
        assert(valid_utf8(u));
        assert(decode_utf8(u) == x@);
    }
}

/// The ensures of the roundtrip, for one value.
pub open spec fn walks_back(v: Value, s: Schema, var: bool, rest: Seq<u8>) -> bool {
    &&& !flat(v, var).error
    &&& pdec(s, var, toks_bytes(flat(v, var).toks) + rest) == Ok::<
        (ValueView, nat),
        crate::iter::StepErr,
    >((v@, toks_bytes(flat(v, var).toks).len()))
}

/// What the big-endian walk writes of a value that has a shape, the
/// resumable walk reads back as the value, taking exactly those bytes,
/// whatever follows them.
pub proof fn lemma_walk_roundtrip(v: Value, s: Schema, var: bool, rest: Seq<u8>)
    requires
        walk_conforms(v, s, var),
    ensures
        walks_back(v, s, var, rest),
    decreases v, 2int,
{
    match v {
        Value::List(_) | Value::Distinct(_) => lemma_walk_list(v, s, var, rest),
        Value::Array(items) => {
            if let Schema::Array(e, _) = s {
                lemma_walk_items(items@, *e, var, rest);
            }
        },
        Value::KeyValue(_) => lemma_walk_map(v, s, var, rest),
        Value::Optional(_) => lemma_walk_opt(v, s, var, rest),
        Value::Pointer(o) => {
            if let Schema::Pointer(e) = s {
                if let Some(x) = o {
                    lemma_walk_roundtrip(*x, *e, var, rest);
                }
            }
        },
        Value::Struct(fields) => {
            if let Schema::Struct(fs) = s {
                lemma_walk_fields(fields@, fs@, rest);
            }
        },
        Value::Enum { .. } => lemma_walk_enum(v, s, var, rest),
        Value::Str(_) => {
            lemma_walk_str(v, var, rest);
        },
        _ => {
            if var && (v is U16 || v is U32 || v is U64 || v is U128 || v is USize || v is I16
                || v is I32 || v is I64 || v is I128 || v is ISize) {
                lemma_walk_variable(v, s, rest);
            } else {
                assert(scalar_toks(v, var) == scalar_toks(v, false));
                lemma_walk_fixed(v, s, rest);
                assert(pdec(s, var, toks_bytes(scalar_toks(v, var).unwrap()) + rest) == pdec(
                    s,
                    false,
                    toks_bytes(scalar_toks(v, var).unwrap()) + rest,
                ));
            }
        },
    }
}

#[verifier::spinoff_prover]
#[verifier::rlimit(60)]
proof fn lemma_walk_list(v: Value, s: Schema, var: bool, rest: Seq<u8>)
    requires
        walk_conforms(v, s, var),
        v is List || v is Distinct,
    ensures
        walks_back(v, s, var, rest),
    decreases v, 1int,
{
    let items = match v {
        Value::List(items) | Value::Distinct(items) => items@,
        _ => Seq::<Value>::empty(),
    };
    let e = match s {
        Schema::List(e) | Schema::Distinct(e) => *e,
        _ => Schema::Unit,
    };
    let n = items.len();
    let fi = flat_items(items, var);
    lemma_walk_items(items, e, var, rest);
    let head = seq![PeekView::Variable(n as u128)];
    lemma_toks_bytes_append(head, fi.toks);
    lemma_toks_bytes_one(head[0]);
    let bi = toks_bytes(fi.toks);
    assert(flat(v, var).toks == head + fi.toks);
    assert(toks_bytes(flat(v, var).toks) + rest =~= var_bytes(n) + (bi + rest));
    lemma_length_back(n, bi + rest);
}

#[verifier::spinoff_prover]
#[verifier::rlimit(60)]
proof fn lemma_walk_map(v: Value, s: Schema, var: bool, rest: Seq<u8>)
    requires
        walk_conforms(v, s, var),
        v is KeyValue,
    ensures
        walks_back(v, s, var, rest),
    decreases v, 1int,
{
    if let Value::KeyValue(es) = v {
        let n = es@.len();
        let fe = flat_entries(es@, var);
        lemma_walk_entries(es@, s, n, rest);
        let head = seq![PeekView::Variable(n as u128)];
        lemma_toks_bytes_append(head, fe.toks);
        lemma_toks_bytes_one(head[0]);
        let be = toks_bytes(fe.toks);
        assert(flat(v, var).toks == head + fe.toks);
        assert(toks_bytes(flat(v, var).toks) + rest =~= var_bytes(n) + (be + rest));
        lemma_length_back(n, be + rest);
    }
}

#[verifier::spinoff_prover]
#[verifier::rlimit(60)]
proof fn lemma_walk_opt(v: Value, s: Schema, var: bool, rest: Seq<u8>)
    requires
        walk_conforms(v, s, var),
        v is Optional,
    ensures
        walks_back(v, s, var, rest),
    decreases v, 1int,
{
    if let (Value::Optional(o), Schema::Optional(e)) = (v, s) {
        match o {
            Some(x) => {
                let fx = flat(*x, var);
                lemma_walk_roundtrip(*x, *e, var, rest);
                let head = seq![PeekView::Variable(1)];
                lemma_toks_bytes_append(head, fx.toks);
                lemma_toks_bytes_one(head[0]);
                let bx = toks_bytes(fx.toks);
                assert(flat(v, var).toks == head + fx.toks);
                assert(toks_bytes(flat(v, var).toks) + rest =~= var_bytes(1) + (bx + rest));
                lemma_length_back(1, bx + rest);
            },
            None => {
                lemma_toks_bytes_one(PeekView::Variable(0));
                assert(flat(v, var).toks == seq![PeekView::Variable(0)]);
                lemma_length_back(0, rest);
            },
        }
    }
}

#[verifier::spinoff_prover]
#[verifier::rlimit(60)]
proof fn lemma_walk_enum(v: Value, s: Schema, var: bool, rest: Seq<u8>)
    requires
        walk_conforms(v, s, var),
        v is Enum,
    ensures
        walks_back(v, s, var, rest),
    decreases v, 1int,
{
    if let (Value::Enum { discriminant, fields }, Schema::Enum { name, variants }) = (v, s) {
        let i = first_variant(variants@, discriminant).unwrap();
        let d = discriminant as nat;
        assert(twos(discriminant as int, 128) == d) by {
            lemma_pow256_16();
            lemma_small_mod(d, width_bound(128));
        }
        let ff = flat_fields(fields@);
        lemma_walk_fields(fields@, variants@[i as int].fields@, rest);
        let head = seq![PeekView::Variable(d as u128)];
        lemma_toks_bytes_append(head, ff.toks);
        lemma_toks_bytes_one(head[0]);
        let bf = toks_bytes(ff.toks);
        assert(flat(v, var).toks == head + ff.toks);
        assert(toks_bytes(flat(v, var).toks) + rest =~= var_bytes(d) + (bf + rest));
        lemma_length_back(d, bf + rest);
    }
}

/// Reading back values written one after another gives them, whatever
/// follows.
#[verifier::spinoff_prover]
#[verifier::rlimit(80)]
pub proof fn lemma_walk_items(items: Seq<Value>, e: Schema, var: bool, rest: Seq<u8>)
    requires
        walk_items_conform(items, e, var),
    ensures
        !flat_items(items, var).error,
        pdec_items(e, var, items.len(), toks_bytes(flat_items(items, var).toks) + rest) == Ok::<
            (Seq<ValueView>, nat),
            crate::iter::StepErr,
        >((items_view(items), toks_bytes(flat_items(items, var).toks).len())),
    decreases items, 0int,
{
    if items.len() == 0 {
        assert(toks_bytes(flat_items(items, var).toks) + rest =~= rest);
    } else {
        let x = items[0];
        let t = items.drop_first();
        let fx = flat(x, var);
        let ft = flat_items(t, var);
        lemma_walk_items(t, e, var, rest);
        let bt = toks_bytes(ft.toks);
        lemma_walk_roundtrip(x, e, var, bt + rest);
        let bx = toks_bytes(fx.toks);
        lemma_toks_bytes_append(fx.toks, ft.toks);
        assert(toks_bytes(flat_items(items, var).toks) + rest =~= bx + (bt + rest));
        assert((bx + (bt + rest)).skip(bx.len() as int) =~= bt + rest);
    }
}

/// Reading back map entries written one after another gives them, whatever
/// follows.
#[verifier::spinoff_prover]
#[verifier::rlimit(80)]
pub proof fn lemma_walk_entries(es: Seq<(Value, Value)>, s: Schema, n: nat, rest: Seq<u8>)
    requires
        s matches Schema::KeyValue(k, x) && walk_entries_conform(es, *k, *x),
        n == es.len(),
    ensures
        !flat_entries(es, false).error,
        pdec_entries(s, false, n, toks_bytes(flat_entries(es, false).toks) + rest) == Ok::<
            (Seq<(ValueView, ValueView)>, nat),
            crate::iter::StepErr,
        >((entries_view(es), toks_bytes(flat_entries(es, false).toks).len())),
    decreases es, 0int,
{
    if let Schema::KeyValue(k, x) = s {
        if es.len() == 0 {
            assert(toks_bytes(flat_entries(es, false).toks) + rest =~= rest);
        } else {
            let t = es.drop_first();
            let fk = flat(es[0].0, false);
            let fv = flat(es[0].1, false);
            let ft = flat_entries(t, false);
            lemma_walk_entries(t, s, (n - 1) as nat, rest);
            let bt = toks_bytes(ft.toks);
            lemma_walk_roundtrip(es[0].1, *x, false, bt + rest);
            let bv = toks_bytes(fv.toks);
            lemma_walk_roundtrip(es[0].0, *k, false, bv + (bt + rest));
            let bk = toks_bytes(fk.toks);
            lemma_toks_bytes_append(fk.toks, fv.toks);
            lemma_toks_bytes_append(fk.toks + fv.toks, ft.toks);
            let all = bk + (bv + (bt + rest));
            assert(toks_bytes(flat_entries(es, false).toks) + rest =~= all);
            assert(all.skip(bk.len() as int) =~= bv + (bt + rest));
            assert(all.skip((bk.len() + bv.len()) as int) =~= bt + rest);
        }
    }
}

/// Reading back fields written one after another gives them, whatever
/// follows.
#[verifier::spinoff_prover]
#[verifier::rlimit(80)]
pub proof fn lemma_walk_fields(fields: Seq<Field>, fs: Seq<FieldSchema>, rest: Seq<u8>)
    requires
        walk_fields_conform(fields, fs),
    ensures
        !flat_fields(fields).error,
        pdec_fields(fs, toks_bytes(flat_fields(fields).toks) + rest) == Ok::<
            (Seq<(bool, ValueView)>, nat),
            crate::iter::StepErr,
        >((fields_view(fields), toks_bytes(flat_fields(fields).toks).len())),
    decreases fields, 0int,
{
    if fields.len() == 0 {
        assert(toks_bytes(flat_fields(fields).toks) + rest =~= rest);
    } else {
        let x = fields[0];
        let t = fields.drop_first();
        let fx = flat(x.value, x.variable);
        let ft = flat_fields(t);
        lemma_walk_fields(t, fs.drop_first(), rest);
        let bt = toks_bytes(ft.toks);
        lemma_walk_roundtrip(x.value, fs[0].schema, x.variable, bt + rest);
        let bx = toks_bytes(fx.toks);
        lemma_toks_bytes_append(fx.toks, ft.toks);
        assert(toks_bytes(flat_fields(fields).toks) + rest =~= bx + (bt + rest));
        assert((bx + (bt + rest)).skip(bx.len() as int) =~= bt + rest);
    }
}

/// What `to_vec` writes of a value that has a shape, `from_slice` reads back
/// as the value, taking every byte.
pub proof fn lemma_to_vec_from_slice(v: Value, s: Schema)
    requires
        walk_conforms(v, s, false),
    ensures
        be_encoding(v) matches Some(b) && pdec(s, false, b) == Ok::<
            (ValueView, nat),
            crate::iter::StepErr,
        >((v@, b.len())),
{
    lemma_walk_roundtrip(v, s, false, seq![]);
    let b = toks_bytes(flat(v, false).toks);
    assert(b + seq![] =~= b);
}

} // verus!
