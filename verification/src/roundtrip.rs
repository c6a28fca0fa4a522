//! What is read back of what was written.
use crate::bytes::{le_bytes, le_value, lemma_le_bytes_len, lemma_le_value_bytes, lemma_pow256_16};
use crate::parse::{pow2_bits, signed_of};
use crate::schema::{
    bool_dec, dec, dec_fields, dec_seq, fields_view, first_variant, fixed_dec, items_view, len_of,
    scalar_dec, str_dec, value_view, var_dec, FieldSchema, Schema, ValueView, VariantSchema,
};
use crate::value::{enc, enc_fields, enc_items, enc_ok, scalar_bytes, then, var_scalar_bytes, Field, Value};
use crate::varint::{lemma_var_read_prefix, lemma_var_roundtrip, var_bytes, var_max_bytes, var_read, width_bound};
use crate::writer::{pow2, twos};
use vstd::arithmetic::div_mod::*;
use vstd::arithmetic::power::*;
use vstd::prelude::*;
use vstd::utf8::{decode_utf8, encode_utf8, valid_utf8};

verus! {

broadcast use vstd::utf8::group_utf8_lib;

/// Whether a value has the given shape and can be written in it, in the
/// variable-length encoding when `var` is set, and read back.
pub open spec fn conforms(v: Value, s: Schema, var: bool) -> bool
    decreases v, 1int,
{
    match (v, s) {
        (Value::Unit, Schema::Unit) | (Value::Bool(_), Schema::Bool) | (Value::U8(_), Schema::U8)
        | (Value::I8(_), Schema::I8) | (Value::F32(_), Schema::F32) | (
            Value::F64(_),
            Schema::F64,
        ) => !var,
        (Value::U16(_), Schema::U16) | (Value::U32(_), Schema::U32) | (Value::U64(_), Schema::U64)
        | (Value::U128(_), Schema::U128) | (Value::USize(_), Schema::USize) | (
            Value::I16(_),
            Schema::I16,
        ) | (Value::I32(_), Schema::I32) | (Value::I64(_), Schema::I64) | (
            Value::I128(_),
            Schema::I128,
        ) | (Value::ISize(_), Schema::ISize) => true,
        (Value::Str(x), Schema::Str) => !var && encode_utf8(x@).len() <= usize::MAX,
        (Value::List(items), Schema::List(e)) => items@.len() <= usize::MAX && items_conform(
            items@,
            *e,
            var,
        ),
        (Value::Array(items), Schema::Array(e, n)) => items@.len() == n && items_conform(
            items@,
            *e,
            var,
        ),
        (Value::Optional(o), Schema::Optional(e)) => match o {
            Some(x) => conforms(*x, *e, var),
            None => true,
        },
        (Value::Pointer(o), Schema::Pointer(e)) => !var && match o {
            Some(x) => conforms(*x, *e, false),
            None => false,
        },
        (Value::Struct(fields), Schema::Struct(fs)) => !var && fields_conform(fields@, fs@),
        (Value::Enum { discriminant, fields }, Schema::Enum { variants, .. }) => !var && match
            first_variant(variants@, discriminant) {
            Some(i) => i < variants@.len() && fields_conform(fields@, variants@[i as int].fields@),
            None => false,
        },
        _ => false,
    }
}

/// Whether each value has the given shape.
pub open spec fn items_conform(items: Seq<Value>, e: Schema, var: bool) -> bool
    decreases items, 0int,
{
    if items.len() == 0 {
        true
    } else {
        conforms(items[0], e, var) && items_conform(items.drop_first(), e, var)
    }
}

/// Whether each field has the shape and the marking of its place.
pub open spec fn fields_conform(fields: Seq<Field>, fs: Seq<FieldSchema>) -> bool
    decreases fields, 0int,
{
    if fields.len() == 0 {
        fs.len() == 0
    } else {
        &&& fs.len() > 0
        &&& fields[0].variable == fs[0].variable
        &&& conforms(fields[0].value, fs[0].schema, fs[0].variable)
        &&& fields_conform(fields.drop_first(), fs.drop_first())
    }
}

// ---------------------------------------------------------------------------------------------

/// Powers of 256 for the widths of the fixed-width scalars.
pub proof fn lemma_pow256_widths()
    ensures
        pow(256, 1) == 0x100,
        pow(256, 2) == 0x1_0000,
        pow(256, 4) == 0x1_0000_0000,
        pow(256, 8) == 0x1_0000_0000_0000_0000,
        pow(256, 16) == 0x1_0000_0000_0000_0000_0000_0000_0000_0000nat,
{
    reveal_with_fuel(pow, 9);
    lemma_pow256_16();
}

/// Reading back the low `n` bytes of a number below `256^n` gives the
/// number, whatever follows them.
proof fn lemma_le_back(x: nat, n: nat, rest: Seq<u8>)
    requires
        n == 1 || n == 2 || n == 4 || n == 8 || n == 16,
        x < pow(256, n),
    ensures
        (le_bytes(x, n) + rest).len() >= n,
        (le_bytes(x, n) + rest).take(n as int) == le_bytes(x, n),
        le_value((le_bytes(x, n) + rest).take(n as int)) == x,
        (le_bytes(x, n) + rest).skip(n as int) == rest,
{
    lemma_le_bytes_len(x, n);
    lemma_le_value_bytes(x, n);
    lemma_small_mod(x, pow(256, n) as nat);
    assert((le_bytes(x, n) + rest).take(n as int) =~= le_bytes(x, n));
    assert((le_bytes(x, n) + rest).skip(n as int) =~= rest);
}

/// A signed number is the two's complement reading of its bits.
pub proof fn lemma_signed_twos(x: int, bits: nat)
    requires
        bits == 8 || bits == 16 || bits == 32 || bits == 64 || bits == 128,
        -(pow2(bits) as int) <= 2 * x < pow2(bits),
    ensures
        twos(x, bits) < pow2(bits),
        signed_of(twos(x, bits), bits) == x,
{
    let m = pow2(bits) as int;
    if x >= 0 {
        lemma_small_mod(x as nat, m as nat);
    } else {
        lemma_mod_add_multiples_vanish(x, m);
        lemma_small_mod((x + m) as nat, m as nat);
    }
}

/// Reading back a variable-length number below `2^bits` gives it, whatever
/// follows it.
pub proof fn lemma_var_back(x: nat, bits: nat, rest: Seq<u8>)
    requires
        bits == 16 || bits == 32 || bits == 64 || bits == 128,
        x < width_bound(bits),
    ensures
        var_read(var_bytes(x) + rest, var_max_bytes(bits)) == Some((x, var_bytes(x).len())),
        (var_bytes(x) + rest).skip(var_bytes(x).len() as int) == rest,
        x % width_bound(bits) == x,
{
    lemma_var_roundtrip(x, bits, rest);
    lemma_small_mod(x, width_bound(bits));
    assert((var_bytes(x) + rest).skip(var_bytes(x).len() as int) =~= rest);
}

/// Reading back a scalar gives it.
#[verifier::spinoff_prover]
#[verifier::rlimit(60)]
proof fn lemma_roundtrip_scalar(v: Value, s: Schema, var: bool, rest: Seq<u8>)
    requires
        conforms(v, s, var),
        !var ==> scalar_bytes(v) is Some,
        var ==> var_scalar_bytes(v) is Some,
    ensures
        enc(v, var, true).error is None,
        dec(s, var, enc(v, var, true).bytes + rest) == Ok::<(ValueView, nat), crate::schema::DecErr>(
            (v@, enc(v, var, true).bytes.len()),
        ),
{
    lemma_pow256_widths();
    assert(enc(v, var, true) == enc(v, var, false));
    let b = enc(v, var, true).bytes;
    if !var {
        assert(b == scalar_bytes(v).unwrap());
        match v {
            Value::Unit => {
                assert(b + rest =~= rest);
            },
            Value::Bool(x) => {
                assert((b + rest)[0] == (if x { 1u8 } else { 0u8 }));
                assert((b + rest).skip(1) =~= rest);
            },
            Value::U8(x) => {
                lemma_le_back(x as nat, 1, rest);
                reveal_with_fuel(le_bytes, 2);
            },
            Value::U16(x) => {
                lemma_le_back(x as nat, 2, rest);
            },
            Value::U32(x) => {
                lemma_le_back(x as nat, 4, rest);
            },
            Value::U64(x) => {
                lemma_le_back(x as nat, 8, rest);
            },
            Value::U128(x) => {
                lemma_le_back(x as nat, 16, rest);
            },
            Value::USize(x) => {
                lemma_le_back(x as nat, 8, rest);
            },
            Value::I8(x) => {
                lemma_signed_twos(x as int, 8);
                lemma_le_back(twos(x as int, 8), 1, rest);
            },
            Value::I16(x) => {
                lemma_signed_twos(x as int, 16);
                lemma_le_back(twos(x as int, 16), 2, rest);
            },
            Value::I32(x) => {
                lemma_signed_twos(x as int, 32);
                lemma_le_back(twos(x as int, 32), 4, rest);
            },
            Value::I64(x) => {
                lemma_signed_twos(x as int, 64);
                lemma_le_back(twos(x as int, 64), 8, rest);
            },
            Value::I128(x) => {
                lemma_signed_twos(x as int, 128);
                lemma_le_back(twos(x as int, 128), 16, rest);
            },
            Value::ISize(x) => {
                lemma_signed_twos(x as int, 64);
                lemma_le_back(twos(x as int, 64), 8, rest);
            },
            Value::F32(x) => {
                lemma_le_back(x as nat, 4, rest);
            },
            Value::F64(x) => {
                lemma_le_back(x as nat, 8, rest);
            },
            Value::Str(x) => {
                let u = encode_utf8(x@);
                let n = u.len();
                lemma_var_back(n, 64, u + rest);
                assert(b + rest =~= var_bytes(n) + (u + rest));
                assert(len_of(n) == n);
                assert((u + rest).take(n as int) =~= u);
                assert((u + rest).skip(n as int) =~= rest);
            },
            _ => {},
        }
    } else {
        assert(b == var_scalar_bytes(v).unwrap());
        match v {
            Value::U16(x) => {
                lemma_var_back(x as nat, 16, rest);
            },
            Value::U32(x) => {
                lemma_var_back(x as nat, 32, rest);
            },
            Value::U64(x) => {
                lemma_var_back(x as nat, 64, rest);
            },
            Value::U128(x) => {
                lemma_var_back(x as nat, 128, rest);
            },
            Value::USize(x) => {
                lemma_var_back(x as nat, 64, rest);
            },
            Value::I16(x) => {
                lemma_signed_twos(x as int, 16);
                lemma_var_back(twos(x as int, 16), 16, rest);
            },
            Value::I32(x) => {
                lemma_signed_twos(x as int, 32);
                lemma_var_back(twos(x as int, 32), 32, rest);
            },
            Value::I64(x) => {
                lemma_signed_twos(x as int, 64);
                lemma_var_back(twos(x as int, 64), 64, rest);
            },
            Value::I128(x) => {
                lemma_signed_twos(x as int, 128);
                lemma_var_back(twos(x as int, 128), 128, rest);
            },
            Value::ISize(x) => {
                lemma_signed_twos(x as int, 64);
                lemma_var_back(twos(x as int, 64), 64, rest);
            },
            _ => {},
        }
    }
}

/// Reading back what a value that has a shape was written as gives the
/// value, and takes exactly the bytes it was written as, whatever follows
/// them.
pub proof fn lemma_roundtrip(v: Value, s: Schema, var: bool, rest: Seq<u8>)
    requires
        conforms(v, s, var),
    ensures
        enc(v, var, true).error is None,
        dec(s, var, enc(v, var, true).bytes + rest) == Ok::<(ValueView, nat), crate::schema::DecErr>(
            (v@, enc(v, var, true).bytes.len()),
        ),
    decreases v, 1int,
{
    assert(enc(v, var, true) == enc(v, var, false));
    let b = enc(v, var, true).bytes;
    match v {
        Value::List(items) => {
            if let Schema::List(e) = s {
                let n = items@.len();
                let eb = enc_items(items@, var);
                lemma_roundtrip_items(items@, *e, var, rest);
                lemma_var_back(n, 64, eb.bytes + rest);
                assert(b + rest =~= var_bytes(n) + (eb.bytes + rest));
                assert(len_of(n) == n);
            }
        },
        Value::Array(items) => {
            if let Schema::Array(e, _) = s {
                lemma_roundtrip_items(items@, *e, var, rest);
            }
        },
        Value::Optional(o) => {
            if let Schema::Optional(e) = s {
                match o {
                    Some(x) => {
                        let bx = enc(*x, var, true).bytes;
                        lemma_roundtrip(*x, *e, var, rest);
                        assert(b + rest =~= seq![1u8] + (bx + rest));
                        assert((b + rest).skip(1) =~= bx + rest);
                    },
                    None => {
                        assert((b + rest)[0] == 0u8);
                    },
                }
            }
        },
        Value::Pointer(o) => {
            if let Schema::Pointer(e) = s {
                if let Some(x) = o {
                    lemma_roundtrip(*x, *e, false, rest);
                }
            }
        },
        Value::Struct(fields) => {
            if let Schema::Struct(fs) = s {
                lemma_roundtrip_fields(fields@, fs@, rest);
            }
        },
        Value::Enum { discriminant, fields } => {
            if let Schema::Enum { name, variants } = s {
                let i = first_variant(variants@, discriminant).unwrap();
                let t = twos(discriminant as int, 64);
                let fb = enc_fields(fields@);
                lemma_signed_twos(discriminant as int, 64);
                lemma_roundtrip_fields(fields@, variants@[i as int].fields@, rest);
                lemma_var_back(t, 64, fb.bytes + rest);
                assert(b + rest =~= var_bytes(t) + (fb.bytes + rest));
            }
        },
        _ => {
            lemma_roundtrip_scalar(v, s, var, rest);
        },
    }
}

/// Reading back values written one after another gives them, whatever
/// follows.
pub proof fn lemma_roundtrip_items(items: Seq<Value>, e: Schema, var: bool, rest: Seq<u8>)
    requires
        items_conform(items, e, var),
    ensures
        enc_items(items, var).error is None,
        dec_seq(e, var, items.len(), enc_items(items, var).bytes + rest) == Ok::<
            (Seq<ValueView>, nat),
            crate::schema::DecErr,
        >((items_view(items), enc_items(items, var).bytes.len())),
    decreases items, 0int,
{
    if items.len() == 0 {
        assert(enc_items(items, var).bytes + rest =~= rest);
    } else {
        let x = items[0];
        let t = items.drop_first();
        let bx = enc(x, var, true).bytes;
        let bt = enc_items(t, var).bytes;
        lemma_roundtrip_items(t, e, var, rest);
        lemma_roundtrip(x, e, var, bt + rest);
        assert(enc_items(items, var).bytes + rest =~= bx + (bt + rest));
        assert((bx + (bt + rest)).skip(bx.len() as int) =~= bt + rest);
    }
}

/// Reading back fields written one after another gives them, whatever
/// follows.
pub proof fn lemma_roundtrip_fields(fields: Seq<Field>, fs: Seq<FieldSchema>, rest: Seq<u8>)
    requires
        fields_conform(fields, fs),
    ensures
        enc_fields(fields).error is None,
        dec_fields(fs, enc_fields(fields).bytes + rest) == Ok::<
            (Seq<(bool, ValueView)>, nat),
            crate::schema::DecErr,
        >((fields_view(fields), enc_fields(fields).bytes.len())),
    decreases fields, 0int,
{
    if fields.len() == 0 {
        assert(enc_fields(fields).bytes + rest =~= rest);
    } else {
        let x = fields[0];
        let t = fields.drop_first();
        let bx = enc(x.value, x.variable, true).bytes;
        let bt = enc_fields(t).bytes;
        lemma_roundtrip_fields(t, fs.drop_first(), rest);
        lemma_roundtrip(x.value, fs[0].schema, x.variable, bt + rest);
        assert(enc_fields(fields).bytes + rest =~= bx + (bt + rest));
        assert((bx + (bt + rest)).skip(bx.len() as int) =~= bt + rest);
    }
}

// ---------------------------------------------------------------------------------------------
// What follows the input.

/// A prefix of `a` is a prefix of `a` followed by anything.
proof fn lemma_prefix_of_append(a: Seq<u8>, b: Seq<u8>, k: int)
    requires
        0 <= k <= a.len(),
    ensures
        (a + b).take(k) == a.take(k),
        (a + b).skip(k) == a.skip(k) + b,
{
    assert((a + b).take(k) =~= a.take(k));
    assert((a + b).skip(k) =~= a.skip(k) + b);
}

/// A number read whole reads the same, and as far, whatever follows.
proof fn lemma_var_prefix(a: Seq<u8>, b: Seq<u8>, max: nat)
    requires
        0 < max,
        var_read(a, max) is Some,
    ensures
        var_read(a + b, max) == var_read(a, max),
        var_read(a, max).unwrap().1 <= a.len(),
{
    lemma_var_read_prefix(a, b, max);
    crate::varint::lemma_var_end_range(a, 0, max);
}

/// A scalar read whole reads the same whatever follows.
#[verifier::spinoff_prover]
#[verifier::rlimit(60)]
proof fn lemma_scalar_dec_extend(s: Schema, var: bool, a: Seq<u8>, b: Seq<u8>)
    requires
        scalar_dec(s, var, a) is Ok,
    ensures
        scalar_dec(s, var, a + b) == scalar_dec(s, var, a),
        (scalar_dec(s, var, a))->Ok_0.1 <= a.len(),
{
    if a.len() >= 1 {
        assert((a + b)[0] == a[0]);
    }
    if a.len() >= 1 { lemma_prefix_of_append(a, b, 1); }
    if a.len() >= 2 { lemma_prefix_of_append(a, b, 2); }
    if a.len() >= 4 { lemma_prefix_of_append(a, b, 4); }
    if a.len() >= 8 { lemma_prefix_of_append(a, b, 8); }
    if a.len() >= 16 { lemma_prefix_of_append(a, b, 16); }
    if var {
        if var_read(a, 3) is Some { lemma_var_prefix(a, b, 3); }
        if var_read(a, 5) is Some { lemma_var_prefix(a, b, 5); }
        if var_read(a, 10) is Some { lemma_var_prefix(a, b, 10); }
        if var_read(a, 19) is Some { lemma_var_prefix(a, b, 19); }
    } else if var_read(a, 10) is Some {
        lemma_var_prefix(a, b, 10);
        let k = var_read(a, 10).unwrap().1;
        lemma_prefix_of_append(a, b, k as int);
        let len = len_of(var_read(a, 10).unwrap().0);
        if len <= a.skip(k as int).len() {
            lemma_prefix_of_append(a.skip(k as int), b, len as int);
        }
    }
}

/// A value read whole reads the same, taking as many bytes, whatever bytes
/// follow the input: bytes left after a value never change what was read.
pub proof fn lemma_dec_extend(s: Schema, var: bool, a: Seq<u8>, b: Seq<u8>)
    requires
        dec(s, var, a) is Ok,
    ensures
        dec(s, var, a + b) == dec(s, var, a),
        (dec(s, var, a))->Ok_0.1 <= a.len(),
    decreases s, 2int, 0nat,
{
    match s {
        Schema::Array(e, n) => lemma_seq_extend(*e, var, n as nat, a, b),
        Schema::List(e) => {
            lemma_var_prefix(a, b, 10);
            let (v, k) = var_read(a, 10).unwrap();
            lemma_prefix_of_append(a, b, k as int);
            lemma_seq_extend(*e, var, len_of(v) as nat, a.skip(k as int), b);
        },
        Schema::Optional(e) => {
            assert((a + b)[0] == a[0]);
            if a[0] == 1 {
                lemma_prefix_of_append(a, b, 1);
                lemma_dec_extend(*e, var, a.skip(1), b);
            }
        },
        Schema::Pointer(e) => lemma_dec_extend(*e, var, a, b),
        Schema::Struct(fields) => lemma_fields_extend(fields@, a, b),
        Schema::Enum { name, variants } => {
            lemma_var_prefix(a, b, 10);
            let (v, k) = var_read(a, 10).unwrap();
            lemma_prefix_of_append(a, b, k as int);
            let disc = signed_of(v % width_bound(64), 64) as i64;
            if let Some(i) = first_variant(variants@, disc) {
                if i < variants@.len() {
                    lemma_fields_extend(variants@[i as int].fields@, a.skip(k as int), b);
                }
            }
        },
        _ => lemma_scalar_dec_extend(s, var, a, b),
    }
}

proof fn lemma_seq_extend(e: Schema, var: bool, n: nat, a: Seq<u8>, b: Seq<u8>)
    requires
        dec_seq(e, var, n, a) is Ok,
    ensures
        dec_seq(e, var, n, a + b) == dec_seq(e, var, n, a),
        (dec_seq(e, var, n, a))->Ok_0.1 <= a.len(),
    decreases e, 3int, n,
{
    if n > 0 {
        lemma_dec_extend(e, var, a, b);
        let k = (dec(e, var, a))->Ok_0.1;
        lemma_prefix_of_append(a, b, k as int);
        lemma_seq_extend(e, var, (n - 1) as nat, a.skip(k as int), b);
    }
}

proof fn lemma_fields_extend(fs: Seq<FieldSchema>, a: Seq<u8>, b: Seq<u8>)
    requires
        dec_fields(fs, a) is Ok,
    ensures
        dec_fields(fs, a + b) == dec_fields(fs, a),
        (dec_fields(fs, a))->Ok_0.1 <= a.len(),
    decreases fs, 0int, 0nat,
{
    if fs.len() > 0 {
        lemma_dec_extend(fs[0].schema, fs[0].variable, a, b);
        let k = (dec(fs[0].schema, fs[0].variable, a))->Ok_0.1;
        lemma_prefix_of_append(a, b, k as int);
        lemma_fields_extend(fs.drop_first(), a.skip(k as int), b);
    }
}

} // verus!
