//! Reading scalars in the protocol's big-endian format from the start of a
//! byte slice.
use crate::bytes::{be_value, lemma_be_value_bound, lemma_pow256_16, read_be};
use crate::text::str_from_utf8;
use crate::varint::{lemma_var_end_range, read_var, var_max_bytes, var_read_width, width_bound};
use vstd::arithmetic::div_mod::*;
use vstd::arithmetic::power::*;
use vstd::prelude::*;
use vstd::utf8::{decode_utf8, encode_utf8, valid_utf8};

verus! {

broadcast use vstd::utf8::group_utf8_lib;

/// The kind of scalar the input is read as.
#[derive(Debug, Clone, Copy, PartialEq, Eq, Structural)]
pub enum ScalarTypeHint {
    Bool,
    U8,
    U16,
    U32,
    U64,
    U128,
    Usize,
    I8,
    I16,
    I32,
    I64,
    I128,
    Isize,
    F32,
    F64,
    String,
    Bytes,
    Char,
}

/// A scalar read from the input.
///
/// Floating-point numbers are carried as their IEEE 754 bits.
#[derive(Debug)]
pub enum ScalarValue<'a> {
    /// No value.
    Null,
    /// A boolean.
    Bool(bool),
    /// A signed integer of up to 64 bits.
    I64(i64),
    /// An unsigned integer of up to 64 bits.
    U64(u64),
    /// A signed 128-bit integer.
    I128(i128),
    /// An unsigned 128-bit integer.
    U128(u128),
    /// The bits of a single-precision floating-point number.
    F32(u32),
    /// The bits of a double-precision floating-point number.
    F64(u64),
    /// A string borrowed from the input.
    Str(&'a str),
    /// Bytes borrowed from the input.
    Bytes(&'a [u8]),
    /// A string of its own.
    OwnedStr(String),
    /// Bytes of their own.
    OwnedBytes(Vec<u8>),
}

/// What a [`ScalarValue`] holds, whether borrowed or owned.
pub enum ScalarView {
    Null,
    Bool(bool),
    I64(int),
    U64(nat),
    I128(int),
    U128(nat),
    F32(nat),
    F64(nat),
    /// The UTF-8 bytes of a string.
    Str(Seq<u8>),
    Bytes(Seq<u8>),
}

impl<'a> View for ScalarValue<'a> {
    type V = ScalarView;

    open spec fn view(&self) -> ScalarView {
        match *self {
            ScalarValue::Null => ScalarView::Null,
            ScalarValue::Bool(b) => ScalarView::Bool(b),
            ScalarValue::I64(v) => ScalarView::I64(v as int),
            ScalarValue::U64(v) => ScalarView::U64(v as nat),
            ScalarValue::I128(v) => ScalarView::I128(v as int),
            ScalarValue::U128(v) => ScalarView::U128(v as nat),
            ScalarValue::F32(v) => ScalarView::F32(v as nat),
            ScalarValue::F64(v) => ScalarView::F64(v as nat),
            ScalarValue::Str(s) => ScalarView::Str(encode_utf8(s@)),
            ScalarValue::Bytes(b) => ScalarView::Bytes(b@),
            ScalarValue::OwnedStr(s) => ScalarView::Str(encode_utf8(s@)),
            ScalarValue::OwnedBytes(b) => ScalarView::Bytes(b@),
        }
    }
}

impl<'a> ScalarValue<'a> {
    /// Whether the value borrows nothing from the input.
    pub open spec fn is_owned(&self) -> bool {
        !(self is Str) && !(self is Bytes)
    }
}

/// Why reading a scalar failed.
#[derive(Debug, Clone, Copy, PartialEq, Eq, Structural)]
pub enum DeserializeErrorKind {
    /// The input ended before the value did.
    UnexpectedEndOfInput {
        /// How many bytes were needed.
        expected: usize,
        /// How many bytes there were.
        found: usize,
    },
    /// A boolean was neither 0 nor 1.
    InvalidBool(u8),
    /// A string was not UTF-8.
    InvalidUtf8,
}

/// An error that occurred while reading a scalar.
#[derive(Debug, Clone, Copy, PartialEq, Eq, Structural)]
pub struct DeserializeError {
    /// Why reading failed.
    pub kind: DeserializeErrorKind,
}

impl DeserializeError {
    /// Create a new [`DeserializeError`] of the given kind.
    pub fn new(kind: DeserializeErrorKind) -> (r: Self)
        ensures
            r.kind == kind,
    {
        Self { kind }
    }

    /// Why reading failed.
    pub fn kind(&self) -> (r: &DeserializeErrorKind)
        ensures
            *r == self.kind,
    {
        &self.kind
    }
}

/// `2^bits` for the widths of the integer types.
pub open spec fn pow2_bits(bits: nat) -> nat {
    if bits == 8 {
        0x100
    } else {
        width_bound(bits)
    }
}

/// The signed number whose two's complement in `bits` bits is `v`.
pub open spec fn signed_of(v: nat, bits: nat) -> int {
    if v * 2 < pow2_bits(bits) {
        v as int
    } else {
        v - pow2_bits(bits)
    }
}

/// How many bytes a fixed-width scalar takes.
pub open spec fn fixed_size(hint: ScalarTypeHint) -> nat {
    match hint {
        ScalarTypeHint::Bool | ScalarTypeHint::U8 | ScalarTypeHint::I8 => 1,
        ScalarTypeHint::U16 | ScalarTypeHint::I16 => 2,
        ScalarTypeHint::U32 | ScalarTypeHint::Usize | ScalarTypeHint::I32 | ScalarTypeHint::Isize
        | ScalarTypeHint::F32 => 4,
        ScalarTypeHint::U64 | ScalarTypeHint::I64 | ScalarTypeHint::F64 => 8,
        ScalarTypeHint::U128 | ScalarTypeHint::I128 => 16,
        _ => 0,
    }
}

/// The fixed-width scalar whose big-endian bytes are `s`.
pub open spec fn fixed_value(hint: ScalarTypeHint, s: Seq<u8>) -> Result<
    ScalarView,
    DeserializeErrorKind,
> {
    match hint {
        ScalarTypeHint::Bool => if s[0] == 0 {
            Ok(ScalarView::Bool(false))
        } else if s[0] == 1 {
            Ok(ScalarView::Bool(true))
        } else {
            Err(DeserializeErrorKind::InvalidBool(s[0]))
        },
        ScalarTypeHint::U128 => Ok(ScalarView::U128(be_value(s))),
        ScalarTypeHint::I8 => Ok(ScalarView::I64(signed_of(be_value(s), 8))),
        ScalarTypeHint::I16 => Ok(ScalarView::I64(signed_of(be_value(s), 16))),
        ScalarTypeHint::I32 | ScalarTypeHint::Isize => Ok(
            ScalarView::I64(signed_of(be_value(s), 32)),
        ),
        ScalarTypeHint::I64 => Ok(ScalarView::I64(signed_of(be_value(s), 64))),
        ScalarTypeHint::I128 => Ok(ScalarView::I128(signed_of(be_value(s), 128))),
        ScalarTypeHint::F32 => Ok(ScalarView::F32(be_value(s))),
        ScalarTypeHint::F64 => Ok(ScalarView::F64(be_value(s))),
        _ => Ok(ScalarView::U64(be_value(s))),
    }
}

/// The width in bits of a variable-length integer scalar.
pub open spec fn var_bits(hint: ScalarTypeHint) -> nat {
    match hint {
        ScalarTypeHint::U16 | ScalarTypeHint::I16 => 16,
        ScalarTypeHint::U32 | ScalarTypeHint::Usize | ScalarTypeHint::I32
        | ScalarTypeHint::Isize => 32,
        ScalarTypeHint::U64 | ScalarTypeHint::I64 => 64,
        _ => 128,
    }
}

/// The variable-length integer scalar that carries `v`.
pub open spec fn var_value(hint: ScalarTypeHint, v: nat) -> ScalarView {
    match hint {
        ScalarTypeHint::U128 => ScalarView::U128(v),
        ScalarTypeHint::I16 => ScalarView::I64(signed_of(v, 16)),
        ScalarTypeHint::I32 | ScalarTypeHint::Isize => ScalarView::I64(signed_of(v, 32)),
        ScalarTypeHint::I64 => ScalarView::I64(signed_of(v, 64)),
        ScalarTypeHint::I128 => ScalarView::I128(signed_of(v, 128)),
        _ => ScalarView::U64(v),
    }
}

/// The running-out error of a variable-length integer.
pub open spec fn var_end_error() -> DeserializeErrorKind {
    DeserializeErrorKind::UnexpectedEndOfInput { expected: 1, found: 0 }
}

/// `x`, or `usize::MAX` when `x` is larger.
pub open spec fn saturate(x: int) -> usize {
    if x > usize::MAX {
        usize::MAX
    } else {
        x as usize
    }
}

/// Reading a length-prefixed byte string from the start of `s`: the bytes and
/// how many bytes the whole takes.
pub open spec fn bytes_parse(s: Seq<u8>) -> Result<(Seq<u8>, nat), DeserializeErrorKind> {
    match var_read_width(s, 5, 32) {
        None => Err(var_end_error()),
        Some((len, n)) => if n + len <= s.len() {
            Ok((s.subrange(n as int, (n + len) as int), n + len))
        } else {
            Err(
                DeserializeErrorKind::UnexpectedEndOfInput {
                    expected: saturate((n + len) as int),
                    found: s.len() as usize,
                },
            )
        },
    }
}

/// Whether a scalar of this kind can be read, with or without the
/// variable-length encoding.
pub open spec fn parse_supported(hint: ScalarTypeHint, variable: bool) -> bool {
    if variable {
        match hint {
            ScalarTypeHint::U16 | ScalarTypeHint::U32 | ScalarTypeHint::U64 | ScalarTypeHint::U128
            | ScalarTypeHint::Usize | ScalarTypeHint::I16 | ScalarTypeHint::I32
            | ScalarTypeHint::I64 | ScalarTypeHint::I128 | ScalarTypeHint::Isize => true,
            _ => false,
        }
    } else {
        !(hint is Char)
    }
}

/// Reading a scalar of the given kind from the start of `s`: the scalar and
/// how many bytes it takes.
pub open spec fn scalar_parse(s: Seq<u8>, hint: ScalarTypeHint, variable: bool) -> Result<
    (ScalarView, nat),
    DeserializeErrorKind,
> {
    if variable {
        match var_read_width(s, var_max_bytes(var_bits(hint)), var_bits(hint)) {
            None => Err(var_end_error()),
            Some((v, n)) => Ok((var_value(hint, v), n)),
        }
    } else if hint is String {
        match bytes_parse(s) {
            Ok((b, n)) => if valid_utf8(b) {
                Ok((ScalarView::Str(b), n))
            } else {
                Err(DeserializeErrorKind::InvalidUtf8)
            },
            Err(e) => Err(e),
        }
    } else if hint is Bytes {
        match bytes_parse(s) {
            Ok((b, n)) => Ok((ScalarView::Bytes(b), n)),
            Err(e) => Err(e),
        }
    } else if s.len() < fixed_size(hint) {
        Err(
            DeserializeErrorKind::UnexpectedEndOfInput {
                expected: fixed_size(hint) as usize,
                found: s.len() as usize,
            },
        )
    } else {
        match fixed_value(hint, s.take(fixed_size(hint) as int)) {
            Ok(v) => Ok((v, fixed_size(hint))),
            Err(e) => Err(e),
        }
    }
}

/// The result of reading a scalar, as the spec states it.
pub open spec fn parse_result_matches<'a>(
    r: Result<(ScalarValue<'a>, usize), DeserializeError>,
    expected: Result<(ScalarView, nat), DeserializeErrorKind>,
) -> bool {
    match expected {
        Ok((v, n)) => r matches Ok((x, m)) && x@ == v && m == n,
        Err(k) => r == Err::<(ScalarValue<'a>, usize), DeserializeError>(
            DeserializeError { kind: k },
        ),
    }
}

// ---------------------------------------------------------------------------------------------

/// Narrowing a number cut to 128 bits to fewer bits is cutting it to those
/// bits.
proof fn lemma_mod_narrow(x: nat, bits: nat)
    requires
        bits == 16 || bits == 32 || bits == 64 || bits == 128,
    ensures
        (x % width_bound(128)) % width_bound(bits) == x % width_bound(bits),
{
    let b = width_bound(bits) as int;
    let q = (width_bound(128) / width_bound(bits)) as int;
    assert(b * q == width_bound(128));
    lemma_mod_mod(x as int, b, q);
}

/// A variable-length integer of at most `max` bytes takes at most `max`
/// bytes.
proof fn lemma_var_read_len(s: Seq<u8>, max: nat, bits: nat)
    requires
        max >= 1,
    ensures
        var_read_width(s, max, bits) matches Some((v, n)) ==> n <= max,
{
    if crate::varint::var_end(s, 0, max) is Some {
        lemma_var_end_range(s, 0, max);
    }
}

/// The `bits`-bit integer that `v` carries.
fn narrow(v: u128, bits: u32) -> (r: u128)
    requires
        bits == 16 || bits == 32 || bits == 64 || bits == 128,
    ensures
        r == (v as nat) % width_bound(bits as nat),
{
    if bits == 16 {
        v % 0x1_0000
    } else if bits == 32 {
        v % 0x1_0000_0000
    } else if bits == 64 {
        v % 0x1_0000_0000_0000_0000
    } else {
        proof {
            lemma_small_mod(v as nat, width_bound(128));
        }
        v
    }
}

/// Reads a variable-length integer of at most `max` bytes, cut to `bits`
/// bits.
fn read_var_width(input: &[u8], max: usize, bits: u32) -> (r: Result<(u128, usize), DeserializeError>)
    requires
        bits == 16 || bits == 32 || bits == 64 || bits == 128,
        max == var_max_bytes(bits as nat),
    ensures
        match var_read_width(input@, max as nat, bits as nat) {
            Some((v, n)) => r == Ok::<(u128, usize), DeserializeError>((v as u128, n as usize)),
            None => r == Err::<(u128, usize), DeserializeError>(
                DeserializeError { kind: var_end_error() },
            ),
        },
{
    match read_var(input, max) {
        Some((v, n)) => {
            proof {
                let (sum, k) = crate::varint::var_read(input@, max as nat).unwrap();
                lemma_mod_narrow(sum, bits as nat);
            }
            Ok((narrow(v, bits), n))
        },
        None => Err(DeserializeError::new(
            DeserializeErrorKind::UnexpectedEndOfInput { expected: 1, found: 0 },
        )),
    }
}

/// Reads a variable-length `u16`: the number and how many bytes it takes.
pub fn var_u16(input: &[u8]) -> (r: Result<(u16, usize), DeserializeError>)
    ensures
        match var_read_width(input@, 3, 16) {
            Some((v, n)) => r == Ok::<(u16, usize), DeserializeError>((v as u16, n as usize)),
            None => r == Err::<(u16, usize), DeserializeError>(
                DeserializeError { kind: var_end_error() },
            ),
        },
{
    match read_var_width(input, 3, 16) {
        Ok((v, n)) => Ok((v as u16, n)),
        Err(e) => Err(e),
    }
}

/// Reads a variable-length `u32`: the number and how many bytes it takes.
pub fn var_u32(input: &[u8]) -> (r: Result<(u32, usize), DeserializeError>)
    ensures
        match var_read_width(input@, 5, 32) {
            Some((v, n)) => r == Ok::<(u32, usize), DeserializeError>((v as u32, n as usize)),
            None => r == Err::<(u32, usize), DeserializeError>(
                DeserializeError { kind: var_end_error() },
            ),
        },
{
    match read_var_width(input, 5, 32) {
        Ok((v, n)) => Ok((v as u32, n)),
        Err(e) => Err(e),
    }
}

/// Reads a variable-length `u64`: the number and how many bytes it takes.
pub fn var_u64(input: &[u8]) -> (r: Result<(u64, usize), DeserializeError>)
    ensures
        match var_read_width(input@, 10, 64) {
            Some((v, n)) => r == Ok::<(u64, usize), DeserializeError>((v as u64, n as usize)),
            None => r == Err::<(u64, usize), DeserializeError>(
                DeserializeError { kind: var_end_error() },
            ),
        },
{
    match read_var_width(input, 10, 64) {
        Ok((v, n)) => Ok((v as u64, n)),
        Err(e) => Err(e),
    }
}

/// Reads a variable-length `u128`: the number and how many bytes it takes.
pub fn var_u128(input: &[u8]) -> (r: Result<(u128, usize), DeserializeError>)
    ensures
        match var_read_width(input@, 19, 128) {
            Some((v, n)) => r == Ok::<(u128, usize), DeserializeError>((v as u128, n as usize)),
            None => r == Err::<(u128, usize), DeserializeError>(
                DeserializeError { kind: var_end_error() },
            ),
        },
{
    read_var_width(input, 19, 128)
}

/// The signed number whose two's complement in `bits` bits is `v`.
pub(crate) fn to_signed(v: u128, bits: u32) -> (r: i128)
    requires
        bits == 8 || bits == 16 || bits == 32 || bits == 64 || bits == 128,
        v < pow2_bits(bits as nat),
    ensures
        r == signed_of(v as nat, bits as nat),
{
    if bits == 128 {
        if v < 0x8000_0000_0000_0000_0000_0000_0000_0000 {
            v as i128
        } else {
            let below = (u128::MAX - v) as i128;
            -below - 1
        }
    } else {
        let bound: u128 = if bits == 8 {
            0x100
        } else if bits == 16 {
            0x1_0000
        } else if bits == 32 {
            0x1_0000_0000
        } else {
            0x1_0000_0000_0000_0000
        };
        if v * 2 < bound {
            v as i128
        } else {
            v as i128 - bound as i128
        }
    }
}

/// The first `n` bytes of `input` as a big-endian number, or the error for
/// an input that is too short.
fn read_fixed(input: &[u8], n: usize) -> (r: Result<u128, DeserializeError>)
    requires
        1 <= n <= 16,
    ensures
        input@.len() < n ==> r == Err::<u128, DeserializeError>(
            DeserializeError {
                kind: DeserializeErrorKind::UnexpectedEndOfInput {
                    expected: n,
                    found: input@.len() as usize,
                },
            },
        ),
        input@.len() >= n ==> r == Ok::<u128, DeserializeError>(
            be_value(input@.take(n as int)) as u128,
        ),
        input@.len() >= n ==> be_value(input@.take(n as int)) < pow(256, n as nat),
{
    if input.len() < n {
        return Err(DeserializeError::new(
            DeserializeErrorKind::UnexpectedEndOfInput { expected: n, found: input.len() },
        ));
    }
    proof {
        lemma_be_value_bound(input@.take(n as int));
    }
    Ok(read_be(input, n))
}

/// Reads a length-prefixed byte string from the start of `input`: the bytes
/// and how many bytes the whole takes.
fn parse_bytes(input: &[u8]) -> (r: Result<(&[u8], usize), DeserializeError>)
    ensures
        match bytes_parse(input@) {
            Ok((b, n)) => r matches Ok((x, m)) && x@ == b && m == n,
            Err(k) => r == Err::<(&[u8], usize), DeserializeError>(DeserializeError { kind: k }),
        },
{
    let (len, len_size) = match var_u32(input) {
        Ok(v) => v,
        Err(e) => return Err(e),
    };
    proof {
        lemma_var_end_range(input@, 0, 5);
    }
    let len = len as usize;
    if len > input.len() - len_size {
        let expected = len_size.saturating_add(len);
        return Err(DeserializeError::new(
            DeserializeErrorKind::UnexpectedEndOfInput { expected, found: input.len() },
        ));
    }
    Ok((&input[len_size..len_size + len], len_size + len))
}

/// Parse a [`ScalarValue`] of the given kind from the start of `input`: the
/// value and how many bytes it takes. Strings and bytes are borrowed from
/// `input`.
pub fn parse_scalar(input: &[u8], hint: ScalarTypeHint, variable: bool) -> (r: Result<
    (ScalarValue<'_>, usize),
    DeserializeError,
>)
    requires
        parse_supported(hint, variable),
    ensures
        parse_result_matches(r, scalar_parse(input@, hint, variable)),
        variable ==> (r matches Ok((v, _)) ==> v.is_owned()),
        !variable ==> (r matches Ok((v, _)) ==> !(v is OwnedStr) && !(v is OwnedBytes)),
{
    if variable {
        proof {
            lemma_var_read_len(input@, 3, 16);
            lemma_var_read_len(input@, 5, 32);
            lemma_var_read_len(input@, 10, 64);
            lemma_var_read_len(input@, 19, 128);
        }
        return match hint {
            ScalarTypeHint::U16 => match var_u16(input) {
                Ok((val, size)) => Ok((ScalarValue::U64(val as u64), size)),
                Err(e) => Err(e),
            },
            ScalarTypeHint::U32 | ScalarTypeHint::Usize => match var_u32(input) {
                Ok((val, size)) => Ok((ScalarValue::U64(val as u64), size)),
                Err(e) => Err(e),
            },
            ScalarTypeHint::U64 => match var_u64(input) {
                Ok((val, size)) => Ok((ScalarValue::U64(val), size)),
                Err(e) => Err(e),
            },
            ScalarTypeHint::U128 => match var_u128(input) {
                Ok((val, size)) => Ok((ScalarValue::U128(val), size)),
                Err(e) => Err(e),
            },
            ScalarTypeHint::I16 => match var_u16(input) {
                Ok((val, size)) => Ok((ScalarValue::I64(to_signed(val as u128, 16) as i64), size)),
                Err(e) => Err(e),
            },
            ScalarTypeHint::I32 | ScalarTypeHint::Isize => match var_u32(input) {
                Ok((val, size)) => Ok((ScalarValue::I64(to_signed(val as u128, 32) as i64), size)),
                Err(e) => Err(e),
            },
            ScalarTypeHint::I64 => match var_u64(input) {
                Ok((val, size)) => Ok((ScalarValue::I64(to_signed(val as u128, 64) as i64), size)),
                Err(e) => Err(e),
            },
            _ => match var_u128(input) {
                Ok((val, size)) => Ok((ScalarValue::I128(to_signed(val, 128)), size)),
                Err(e) => Err(e),
            },
        };
    }
    match hint {
        ScalarTypeHint::String => {
            let (bytes, size) = match parse_bytes(input) {
                Ok(x) => x,
                Err(e) => return Err(e),
            };
            match str_from_utf8(bytes) {
                Ok(content) => {
                    proof {
                        vstd::utf8::decode_utf8_encode_utf8(bytes@);
                    }
                    Ok((ScalarValue::Str(content), size))
                },
                Err(_) => Err(DeserializeError::new(DeserializeErrorKind::InvalidUtf8)),
            }
        },
        ScalarTypeHint::Bytes => {
            let (bytes, size) = match parse_bytes(input) {
                Ok(x) => x,
                Err(e) => return Err(e),
            };
            Ok((ScalarValue::Bytes(bytes), size))
        },
        ScalarTypeHint::Bool => {
            let byte = match read_fixed(input, 1) {
                Ok(v) => v,
                Err(e) => return Err(e),
            };
            proof {
                reveal_with_fuel(be_value, 2);
                assert(input@.take(1).drop_last() =~= Seq::<u8>::empty());
            }
            if byte == 0 {
                Ok((ScalarValue::Bool(false), 1))
            } else if byte == 1 {
                Ok((ScalarValue::Bool(true), 1))
            } else {
                Err(DeserializeError::new(DeserializeErrorKind::InvalidBool(byte as u8)))
            }
        },
        _ => {
            let size: usize = match hint {
                ScalarTypeHint::U8 | ScalarTypeHint::I8 => 1,
                ScalarTypeHint::U16 | ScalarTypeHint::I16 => 2,
                ScalarTypeHint::U32 | ScalarTypeHint::Usize | ScalarTypeHint::I32
                | ScalarTypeHint::Isize | ScalarTypeHint::F32 => 4,
                ScalarTypeHint::U64 | ScalarTypeHint::I64 | ScalarTypeHint::F64 => 8,
                _ => 16,
            };
            let v = match read_fixed(input, size) {
                Ok(v) => v,
                Err(e) => return Err(e),
            };
            proof {
                lemma_pow256_16();
                reveal_with_fuel(pow, 17);
            }
            let value = match hint {
                ScalarTypeHint::U128 => ScalarValue::U128(v),
                ScalarTypeHint::I8 => ScalarValue::I64(to_signed(v, 8) as i64),
                ScalarTypeHint::I16 => ScalarValue::I64(to_signed(v, 16) as i64),
                ScalarTypeHint::I32 | ScalarTypeHint::Isize => ScalarValue::I64(
                    to_signed(v, 32) as i64,
                ),
                ScalarTypeHint::I64 => ScalarValue::I64(to_signed(v, 64) as i64),
                ScalarTypeHint::I128 => ScalarValue::I128(to_signed(v, 128)),
                ScalarTypeHint::F32 => ScalarValue::F32(v as u32),
                ScalarTypeHint::F64 => ScalarValue::F64(v as u64),
                _ => ScalarValue::U64(v as u64),
            };
            Ok((value, size))
        },
    }
}

/// [`parse_scalar`], with strings and bytes copied out of the input.
pub fn parse_owned_scalar(input: &[u8], hint: ScalarTypeHint, variable: bool) -> (r: Result<
    (ScalarValue<'static>, usize),
    DeserializeError,
>)
    requires
        parse_supported(hint, variable),
    ensures
        parse_result_matches(r, scalar_parse(input@, hint, variable)),
        r matches Ok((v, _)) ==> v.is_owned(),
{
    let (value, size) = match parse_scalar(input, hint, variable) {
        Ok(x) => x,
        Err(e) => return Err(e),
    };
    let owned = match value {
        ScalarValue::Null => ScalarValue::Null,
        ScalarValue::Bool(v) => ScalarValue::Bool(v),
        ScalarValue::I64(v) => ScalarValue::I64(v),
        ScalarValue::U64(v) => ScalarValue::U64(v),
        ScalarValue::I128(v) => ScalarValue::I128(v),
        ScalarValue::U128(v) => ScalarValue::U128(v),
        ScalarValue::F32(v) => ScalarValue::F32(v),
        ScalarValue::F64(v) => ScalarValue::F64(v),
        ScalarValue::Str(s) => ScalarValue::OwnedStr(s.to_owned()),
        ScalarValue::Bytes(b) => {
            let mut copy: Vec<u8> = Vec::new();
            copy.extend_from_slice(b);
            assert(copy@ =~= b@);
            ScalarValue::OwnedBytes(copy)
        },
        ScalarValue::OwnedStr(s) => ScalarValue::OwnedStr(s),
        ScalarValue::OwnedBytes(b) => ScalarValue::OwnedBytes(b),
    };
    Ok((owned, size))
}

} // verus!
