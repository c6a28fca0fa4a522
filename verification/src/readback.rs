//! What the big-endian scalar reader gives back of what the scalar walk
//! writes.
use crate::buffer::{tok_bytes, toks_bytes};
use crate::bytes::{be_bytes, be_value, lemma_be_bytes_len, lemma_be_value_bytes};
use crate::parse::{bytes_parse, scalar_parse, signed_of, ScalarTypeHint, ScalarView};
use crate::peek::{scalar_toks, PeekView};
use crate::roundtrip::{lemma_pow256_widths, lemma_signed_twos, lemma_var_back};
use crate::value::Value;
use crate::varint::{var_bytes, var_max_bytes, var_read_width, width_bound};
use crate::writer::{pow2, twos};
use vstd::arithmetic::div_mod::lemma_small_mod;
use vstd::arithmetic::power::pow;
use vstd::prelude::*;
use vstd::utf8::{encode_utf8, encode_utf8_valid_utf8, valid_utf8};

verus! {

/// The kind a scalar value is read back as.
pub open spec fn read_hint(v: Value) -> Option<ScalarTypeHint> {
    match v {
        Value::Bool(_) => Some(ScalarTypeHint::Bool),
        Value::U8(_) => Some(ScalarTypeHint::U8),
        Value::U16(_) => Some(ScalarTypeHint::U16),
        Value::U32(_) => Some(ScalarTypeHint::U32),
        Value::U64(_) => Some(ScalarTypeHint::U64),
        Value::U128(_) => Some(ScalarTypeHint::U128),
        Value::I8(_) => Some(ScalarTypeHint::I8),
        Value::I16(_) => Some(ScalarTypeHint::I16),
        Value::I32(_) => Some(ScalarTypeHint::I32),
        Value::I64(_) => Some(ScalarTypeHint::I64),
        Value::I128(_) => Some(ScalarTypeHint::I128),
        Value::F32(_) => Some(ScalarTypeHint::F32),
        Value::F64(_) => Some(ScalarTypeHint::F64),
        Value::Str(_) => Some(ScalarTypeHint::String),
        Value::Bytes(_) => Some(ScalarTypeHint::Bytes),
        _ => None,
    }
}

/// What reading a scalar value back gives.
pub open spec fn read_view(v: Value) -> ScalarView {
    match v {
        Value::Bool(b) => ScalarView::Bool(b),
        Value::U8(x) => ScalarView::U64(x as nat),
        Value::U16(x) => ScalarView::U64(x as nat),
        Value::U32(x) => ScalarView::U64(x as nat),
        Value::U64(x) => ScalarView::U64(x as nat),
        Value::U128(x) => ScalarView::U128(x as nat),
        Value::I8(x) => ScalarView::I64(x as int),
        Value::I16(x) => ScalarView::I64(x as int),
        Value::I32(x) => ScalarView::I64(x as int),
        Value::I64(x) => ScalarView::I64(x as int),
        Value::I128(x) => ScalarView::I128(x as int),
        Value::F32(x) => ScalarView::F32(x as nat),
        Value::F64(x) => ScalarView::F64(x as nat),
        Value::Str(s) => ScalarView::Str(encode_utf8(s@)),
        Value::Bytes(b) => ScalarView::Bytes(b@),
        _ => ScalarView::Null,
    }
}

/// Whether a scalar value can be read back: a kind the reader has, the
/// variable-length form only for integers wider than a byte, and a string
/// or byte string whose length fits the 32-bit length prefix.
pub open spec fn readable_scalar(v: Value, var: bool) -> bool {
    &&& read_hint(v) is Some
    &&& var ==> (v is U16 || v is U32 || v is U64 || v is U128 || v is I16 || v is I32 || v is I64
        || v is I128)
    &&& v matches Value::Str(s) ==> encode_utf8(s@).len() < 0x1_0000_0000
    &&& v matches Value::Bytes(b) ==> b@.len() < 0x1_0000_0000
}

/// The bytes of one scalar.
proof fn lemma_one(t: PeekView)
    ensures
        toks_bytes(seq![t]) == tok_bytes(t),
{
    assert(seq![t].drop_last() =~= Seq::<PeekView>::empty());
    assert(toks_bytes(Seq::<PeekView>::empty()) + tok_bytes(t) =~= tok_bytes(t));
}

/// The bytes of a length and the bytes it counts.
proof fn lemma_two(n: u128, b: Seq<u8>)
    ensures
        toks_bytes(seq![PeekView::Variable(n), PeekView::Bytes(b)]) == var_bytes(n as nat) + b,
{
    let s = seq![PeekView::Variable(n), PeekView::Bytes(b)];
    assert(s.drop_last() =~= seq![PeekView::Variable(n)]);
    lemma_one(PeekView::Variable(n));
}

/// Big-endian bytes of a number below `256^n` read back as the number.
proof fn lemma_be_back(x: nat, n: nat, rest: Seq<u8>)
    requires
        x < pow(256, n),
    ensures
        (be_bytes(x, n) + rest).len() >= n,
        (be_bytes(x, n) + rest).take(n as int) == be_bytes(x, n),
        be_value(be_bytes(x, n)) == x,
{
    lemma_be_bytes_len(x, n);
    lemma_be_value_bytes(x, n);
    lemma_small_mod(x, pow(256, n) as nat);
    assert((be_bytes(x, n) + rest).take(n as int) =~= be_bytes(x, n));
}

/// A length-prefixed byte string reads back whole, whatever follows it.
proof fn lemma_prefixed_back(b: Seq<u8>, rest: Seq<u8>)
    requires
        b.len() < 0x1_0000_0000,
    ensures
        bytes_parse(var_bytes(b.len()) + b + rest) == Ok::<(Seq<u8>, nat), crate::parse::DeserializeErrorKind>(
            (b, var_bytes(b.len()).len() + b.len()),
        ),
{
    let s = var_bytes(b.len()) + b + rest;
    assert(s =~= var_bytes(b.len()) + (b + rest));
    lemma_var_back(b.len(), 32, b + rest);
    let n = var_bytes(b.len()).len();
    assert(var_read_width(s, 5, 32) == Some((b.len(), n)));
    assert(s.subrange(n as int, (n + b.len()) as int) =~= b);
}

/// Reading back, big-endian, the scalar the walk writes for a value gives the
/// value, whatever follows it.
pub proof fn lemma_scalar_readback(v: Value, var: bool, rest: Seq<u8>)
    requires
        readable_scalar(v, var),
    ensures
        scalar_toks(v, var) is Some,
        scalar_parse(toks_bytes(scalar_toks(v, var).unwrap()) + rest, read_hint(v).unwrap(), var)
            == Ok::<(ScalarView, nat), crate::parse::DeserializeErrorKind>(
            (read_view(v), toks_bytes(scalar_toks(v, var).unwrap()).len()),
        ),
{
    lemma_pow256_widths();
    let toks = scalar_toks(v, var).unwrap();
    let hint = read_hint(v).unwrap();
    match v {
        Value::Str(s) => {
            let e = encode_utf8(s@);
            lemma_two(e.len() as u128, e);
            lemma_prefixed_back(e, rest);
            encode_utf8_valid_utf8(s@);
            assert(var_bytes(e.len()) + e + rest =~= toks_bytes(toks) + rest);
        },
        Value::Bytes(b) => {
            lemma_two(b@.len() as u128, b@);
            lemma_prefixed_back(b@, rest);
            assert(var_bytes(b@.len()) + b@ + rest =~= toks_bytes(toks) + rest);
        },
        _ => {
            assert(toks.len() == 1);
            assert(toks =~= seq![toks[0]]);
            lemma_one(toks[0]);
            let b = tok_bytes(toks[0]);
            if var {
                let (x, bits): (nat, nat) = match v {
                    Value::U16(x) => (x as nat, 16),
                    Value::U32(x) => (x as nat, 32),
                    Value::U64(x) => (x as nat, 64),
                    Value::U128(x) => (x as nat, 128),
                    Value::I16(x) => (twos(x as int, 16), 16),
                    Value::I32(x) => (twos(x as int, 32), 32),
                    Value::I64(x) => (twos(x as int, 64), 64),
                    Value::I128(x) => (twos(x as int, 128), 128),
                    _ => (0, 16),
                };
                match v {
                    Value::I16(x) => lemma_signed_twos(x as int, 16),
                    Value::I32(x) => lemma_signed_twos(x as int, 32),
                    Value::I64(x) => lemma_signed_twos(x as int, 64),
                    Value::I128(x) => lemma_signed_twos(x as int, 128),
                    _ => {},
                }
                assert(b == var_bytes(x));
                lemma_var_back(x, bits, rest);
            } else {
                match v {
                    Value::Bool(x) => {
                        assert((b + rest).take(1) =~= b);
                    },
                    Value::U8(x) => {
                        reveal_with_fuel(be_value, 2);
                        assert((b + rest).take(1) =~= b);
                        assert(b.drop_last() =~= Seq::<u8>::empty());
                    },
                    Value::I8(x) => {
                        reveal_with_fuel(be_value, 2);
                        lemma_signed_twos(x as int, 8);
                        assert((b + rest).take(1) =~= b);
                        assert(b.drop_last() =~= Seq::<u8>::empty());
                    },
                    Value::U16(x) => lemma_be_back(x as nat, 2, rest),
                    Value::U32(x) => lemma_be_back(x as nat, 4, rest),
                    Value::U64(x) => lemma_be_back(x as nat, 8, rest),
                    Value::U128(x) => lemma_be_back(x as nat, 16, rest),
                    Value::F32(x) => lemma_be_back(x as nat, 4, rest),
                    Value::F64(x) => lemma_be_back(x as nat, 8, rest),
                    Value::I16(x) => {
                        lemma_signed_twos(x as int, 16);
                        lemma_be_back(twos(x as int, 16), 2, rest);
                    },
                    Value::I32(x) => {
                        lemma_signed_twos(x as int, 32);
                        lemma_be_back(twos(x as int, 32), 4, rest);
                    },
                    Value::I64(x) => {
                        lemma_signed_twos(x as int, 64);
                        lemma_be_back(twos(x as int, 64), 8, rest);
                    },
                    Value::I128(x) => {
                        lemma_signed_twos(x as int, 128);
                        lemma_be_back(twos(x as int, 128), 16, rest);
                    },
                    _ => {},
                }
            }
        },
    }
}

} // verus!
