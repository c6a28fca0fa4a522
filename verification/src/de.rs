//! Reading the protocol's little-endian scalars and variable-length integers
//! from the start of a byte slice, and the errors that reading reports.
use crate::bytes::{le_value, lemma_le_value_bound, lemma_pow256_16, read_le};
use crate::parse::{pow2_bits, signed_of, to_signed};
use crate::text::str_from_utf8;
use crate::text::{decimal, push_decimal, push_signed_decimal, signed_decimal};
use crate::varint::{lemma_var_end_range, read_var, var_end, var_read, var_read_width, width_bound};
use vstd::arithmetic::div_mod::*;
use vstd::arithmetic::power::*;
use vstd::prelude::*;
use vstd::utf8::{decode_utf8, valid_utf8};

verus! {

/// A reason for a [`DeserializeError`].
#[derive(Debug, Clone, Copy, PartialEq, Eq, Structural)]
#[non_exhaustive]
pub enum ErrorReason {
    /// The input ended before the value did.
    EndOfInput,
    /// A boolean was neither 0 nor 1.
    InvalidBool(u8),
    /// No variant of an enum has the discriminant read.
    InvalidVariant(i64),
    /// A string was not UTF-8; the number of bytes that were valid.
    InvalidUtf8(usize),
}

/// A step of the walk over a value's shape, recorded in an error.
#[derive(Debug, Clone, Copy, PartialEq, Eq, Structural)]
pub enum StepType {
    /// A sequence: its length and the item being read.
    Sequence(usize, usize),
    /// A struct: its number of fields and the field being read.
    Struct(usize, usize),
    /// An enum variant: its number of fields and the field being read.
    Enum(usize, usize),
}

/// An error that occurred during deserialization.
#[derive(Debug)]
pub struct DeserializeError<'input> {
    /// The whole input and the type being read, when known.
    pub origin: Option<(&'input [u8], String)>,
    /// The input from where the error occurred, and the type being read there.
    pub error: (&'input [u8], String),
    /// The number of bytes that caused the error.
    pub length: Option<usize>,
    /// Where in the value's shape the error occurred.
    pub state: Vec<StepType>,
    /// Why reading failed.
    pub reason: ErrorReason,
    /// The variants of the enum being read, with their discriminants, when
    /// the error is about its discriminant.
    pub variants: Option<Vec<(String, i64)>>,
}

/// Whether `e` is the error raised for `input` while reading a `name`,
/// blaming `length` bytes, for the given reason.
pub open spec fn error_is(
    e: DeserializeError,
    input: Seq<u8>,
    name: Seq<char>,
    reason: ErrorReason,
    length: Option<usize>,
) -> bool {
    &&& e.reason == reason
    &&& e.error.0@ == input
    &&& e.error.1@ == name
    &&& e.length == length
    &&& e.origin is None
    &&& e.state@.len() == 0
    &&& e.variants is None
}

impl<'input> DeserializeError<'input> {
    /// Create a new [`DeserializeError`] from the input and type that caused
    /// the error.
    pub fn new(input: &'input [u8], ty_name: String, reason: ErrorReason) -> (r: Self)
        ensures
            r.reason == reason,
            r.error.0 == input,
            r.error.1 == ty_name,
            r.length is None,
            r.origin is None,
            r.state@.len() == 0,
            r.variants is None,
    {
        Self {
            origin: None,
            error: (input, ty_name),
            length: None,
            state: Vec::new(),
            reason,
            variants: None,
        }
    }

    /// Set the number of bytes that caused the error.
    pub fn with_length(self, length: usize) -> (r: Self)
        ensures
            r.length == Some(length),
            r.variants == self.variants,
            r.reason == self.reason,
            r.error == self.error,
            r.origin == self.origin,
            r.state == self.state,
    {
        Self {
            origin: self.origin,
            error: self.error,
            length: Some(length),
            state: self.state,
            reason: self.reason,
            variants: self.variants,
        }
    }

    /// Add the original input and type to the error.
    pub fn with_origin(self, input: &'input [u8], ty_name: String) -> (r: Self)
        ensures
            r.origin == Some((input, ty_name)),
            r.variants == self.variants,
            r.length == self.length,
            r.reason == self.reason,
            r.error == self.error,
            r.state == self.state,
    {
        Self {
            origin: Some((input, ty_name)),
            error: self.error,
            length: self.length,
            state: self.state,
            reason: self.reason,
            variants: self.variants,
        }
    }

    /// Add the variants of the enum being read to the error.
    pub fn with_variants(self, variants: Option<Vec<(String, i64)>>) -> (r: Self)
        ensures
            r.variants == variants,
            r.state == self.state,
            r.origin == self.origin,
            r.length == self.length,
            r.reason == self.reason,
            r.error == self.error,
    {
        Self {
            origin: self.origin,
            error: self.error,
            length: self.length,
            state: self.state,
            reason: self.reason,
            variants,
        }
    }

    /// Add the current deserializer state to the error.
    pub fn with_state(self, state: Vec<StepType>) -> (r: Self)
        ensures
            r.state == state,
            r.variants == self.variants,
            r.origin == self.origin,
            r.length == self.length,
            r.reason == self.reason,
            r.error == self.error,
    {
        Self {
            origin: self.origin,
            error: self.error,
            length: self.length,
            state,
            reason: self.reason,
            variants: self.variants,
        }
    }

    /// Get the name of the type that caused the error: that of the origin
    /// when there is one.
    pub fn identifier(&self) -> (r: &str)
        ensures
            r@ == (match self.origin {
                Some((_, name)) => name@,
                None => self.error.1@,
            }),
    {
        match &self.origin {
            Some((_, name)) => name.as_str(),
            None => self.error.1.as_str(),
        }
    }

    /// Get the [`ErrorReason`] for the error.
    pub fn reason(&self) -> (r: &ErrorReason)
        ensures
            *r == self.reason,
    {
        &self.reason
    }
}

impl ErrorReason {
    /// Get a short description of the error.
    pub fn error_reason(&self) -> (r: &'static str)
        ensures
            r@ == (match *self {
                ErrorReason::EndOfInput => "Unexpected end of input"@,
                ErrorReason::InvalidBool(..) => "Invalid boolean value"@,
                ErrorReason::InvalidVariant(..) => "Invalid enum variant"@,
                ErrorReason::InvalidUtf8(..) => "Invalid UTF-8 string"@,
            }),
    {
        match self {
            ErrorReason::EndOfInput => "Unexpected end of input",
            ErrorReason::InvalidBool(..) => "Invalid boolean value",
            ErrorReason::InvalidVariant(..) => "Invalid enum variant",
            ErrorReason::InvalidUtf8(..) => "Invalid UTF-8 string",
        }
    }

    /// Get a label describing what caused the error.
    pub fn error_label(&self) -> (r: String)
        ensures
            r@ == (match *self {
                ErrorReason::EndOfInput => "The input ended unexpectedly while parsing data."@,
                ErrorReason::InvalidBool(byte) => "Expected either `true` (1) or `false` (0), but found `"@
                    + decimal(byte as nat) + "`."@,
                ErrorReason::InvalidVariant(var) => "Invalid enum variant `"@ + signed_decimal(var as int)
                    + "`"@,
                ErrorReason::InvalidUtf8(..) => "Strings must be valid UTF-8, but the input contained invalid bytes."@,
            }),
    {
        match self {
            ErrorReason::EndOfInput => String::from_str("The input ended unexpectedly while parsing data."),
            ErrorReason::InvalidBool(byte) => {
                let mut out = String::from_str("Expected either `true` (1) or `false` (0), but found `");
                push_decimal(&mut out, *byte as u64);
                out.append("`.");
                out
            },
            ErrorReason::InvalidVariant(var) => {
                let mut out = String::from_str("Invalid enum variant `");
                push_signed_decimal(&mut out, *var);
                out.append("`");
                out
            },
            ErrorReason::InvalidUtf8(..) => String::from_str(
                "Strings must be valid UTF-8, but the input contained invalid bytes.",
            ),
        }
    }
}

// ---------------------------------------------------------------------------------------------

/// The `n`-byte little-endian number at the start of `input`, with the rest
/// of `input`; or the error for an input that is too short.
fn read_le_fixed<'input>(input: &'input [u8], n: usize, name: &str) -> (r: Result<
    (u128, &'input [u8]),
    DeserializeError<'input>,
>)
    requires
        1 <= n <= 16,
    ensures
        input@.len() >= n ==> (r matches Ok((v, rest)) && v == le_value(input@.take(n as int))
            && rest@ == input@.skip(n as int)),
        input@.len() >= n ==> le_value(input@.take(n as int)) < pow(256, n as nat),
        input@.len() < n ==> (r matches Err(e) && error_is(
            e,
            input@,
            name@,
            ErrorReason::EndOfInput,
            Some(n),
        )),
{
    if input.len() < n {
        return Err(DeserializeError::new(input, name.to_owned(), ErrorReason::EndOfInput).with_length(n));
    }
    proof {
        lemma_le_value_bound(input@.take(n as int));
    }
    let v = read_le(input, n);
    let rest = &input[n..input.len()];
    assert(rest@ =~= input@.skip(n as int));
    Ok((v, rest))
}

/// Reads a variable-length integer of at most `max` bytes from the start of
/// `input`, cut to 128 bits, with the rest of `input`; or the error for an
/// input that ends too soon.
fn read_var_prefix<'input>(input: &'input [u8], max: usize, name: &str) -> (r: Result<
    (u128, &'input [u8]),
    DeserializeError<'input>,
>)
    requires
        1 <= max <= 19,
    ensures
        match var_read_width(input@, max as nat, 128) {
            Some((v, n)) => r matches Ok((x, rest)) && x == v && rest@ == input@.skip(n as int)
                && n <= max,
            None => r matches Err(e) && error_is(
                e,
                input@,
                name@,
                ErrorReason::EndOfInput,
                Some((input@.len() + 1) as usize),
            ),
        },
{
    match read_var(input, max) {
        Some((v, n)) => {
            proof {
                lemma_var_end_range(input@, 0, max as nat);
            }
            let rest = &input[n..input.len()];
            assert(rest@ =~= input@.skip(n as int));
            Ok((v, rest))
        },
        None => {
            proof {
                lemma_var_end_short(input@, 0, max as nat);
            }
            Err(DeserializeError::new(input, name.to_owned(), ErrorReason::EndOfInput).with_length(
                input.len() + 1,
            ))
        },
    }
}

/// A variable-length integer runs out only when the input is shorter than
/// the limit.
proof fn lemma_var_end_short(s: Seq<u8>, i: nat, max: nat)
    requires
        var_end(s, i, max) is None,
    ensures
        s.len() < max,
    decreases max - i,
{
    if i < max && i < s.len() && s[i as int] >= 128 {
        lemma_var_end_short(s, i + 1, max);
    }
}

/// Whether `r` is the result of reading a fixed-width number of `n` bytes
/// named `name` from `input`, the number being `f` of the bytes' value.
pub open spec fn fixed_read<T>(
    r: Result<(T, &[u8]), DeserializeError>,
    input: Seq<u8>,
    n: nat,
    name: Seq<char>,
    value: spec_fn(nat) -> T,
) -> bool {
    &&& input.len() >= n ==> (r matches Ok((v, rest)) && v == value(le_value(input.take(n as int)))
        && rest@ == input.skip(n as int))
    &&& input.len() < n ==> (r matches Err(e) && error_is(
        e,
        input,
        name,
        ErrorReason::EndOfInput,
        Some(n as usize),
    ))
}

/// Whether `r` is the result of reading a variable-length number of at most
/// `max` bytes named `name` from `input`, the number being `f` of what the
/// bytes carry.
pub open spec fn var_read_result<T>(
    r: Result<(T, &[u8]), DeserializeError>,
    input: Seq<u8>,
    max: nat,
    name: Seq<char>,
    value: spec_fn(nat) -> T,
) -> bool {
    match var_read(input, max) {
        Some((v, n)) => r matches Ok((x, rest)) && x == value(v) && rest@ == input.skip(n as int),
        None => r matches Err(e) && error_is(
            e,
            input,
            name,
            ErrorReason::EndOfInput,
            Some((input.len() + 1) as usize),
        ),
    }
}

/// Whether `r` is the result of reading a length-prefixed UTF-8 string from
/// `input`.
pub open spec fn str_read(r: Result<(&str, &[u8]), DeserializeError>, input: Seq<u8>) -> bool {
    match var_read(input, 10) {
        None => r matches Err(e) && error_is(
            e,
            input,
            "u64"@,
            ErrorReason::EndOfInput,
            Some((input.len() + 1) as usize),
        ),
        Some((v, k)) => {
            let len = ((v % width_bound(64)) as u64) as usize;
            let remainder = input.skip(k as int);
            if len > remainder.len() {
                r matches Err(e) && error_is(
                    e,
                    remainder,
                    "str"@,
                    ErrorReason::EndOfInput,
                    Some(len),
                )
            } else if valid_utf8(remainder.take(len as int)) {
                r matches Ok((s, rest)) && s@ == decode_utf8(remainder.take(len as int)) && rest@
                    == remainder.skip(len as int)
            } else {
                r matches Err(e) && e.reason matches ErrorReason::InvalidUtf8(p) && {
                    &&& p <= len
                    &&& valid_utf8(remainder.take(p as int))
                    &&& forall|j: int|
                        p < j <= len ==> !valid_utf8(#[trigger] remainder.take(len as int).take(j))
                    &&& error_is(
                        e,
                        remainder,
                        "str"@,
                        ErrorReason::InvalidUtf8(p),
                        Some((len - p) as usize),
                    )
                }
            }
        },
    }
}

/// A deserializer for Minecraft protocol data.
///
/// Each method reads a value from the start of its input and returns it
/// with the rest of the input. Floating-point numbers are read as their
/// IEEE 754 bits.
pub trait Deserializer {
    /// Deserialize a unit value `()`.
    fn deserialize_unit<'input>(&mut self, input: &'input [u8]) -> (r: Result<
        ((), &'input [u8]),
        DeserializeError<'input>,
    >)
        ensures
            r matches Ok((_, rest)) && rest@ == input@,
    ;

    /// Deserialize an unsigned 8-bit integer.
    fn deserialize_u8<'input>(&mut self, input: &'input [u8]) -> (r: Result<
        (u8, &'input [u8]),
        DeserializeError<'input>,
    >)
        ensures
            fixed_read(r, input@, 1, "u8"@, |x: nat| x as u8),
    ;

    /// Deserialize an unsigned 16-bit integer.
    fn deserialize_u16<'input>(&mut self, input: &'input [u8]) -> (r: Result<
        (u16, &'input [u8]),
        DeserializeError<'input>,
    >)
        ensures
            fixed_read(r, input@, 2, "u16"@, |x: nat| x as u16),
    ;

    /// Deserialize an unsigned 32-bit integer.
    fn deserialize_u32<'input>(&mut self, input: &'input [u8]) -> (r: Result<
        (u32, &'input [u8]),
        DeserializeError<'input>,
    >)
        ensures
            fixed_read(r, input@, 4, "u32"@, |x: nat| x as u32),
    ;

    /// Deserialize an unsigned 64-bit integer.
    fn deserialize_u64<'input>(&mut self, input: &'input [u8]) -> (r: Result<
        (u64, &'input [u8]),
        DeserializeError<'input>,
    >)
        ensures
            fixed_read(r, input@, 8, "u64"@, |x: nat| x as u64),
    ;

    /// Deserialize an unsigned 128-bit integer.
    fn deserialize_u128<'input>(&mut self, input: &'input [u8]) -> (r: Result<
        (u128, &'input [u8]),
        DeserializeError<'input>,
    >)
        ensures
            fixed_read(r, input@, 16, "u128"@, |x: nat| x as u128),
    ;

    /// Deserialize a `usize` integer, read as a `u64`.
    fn deserialize_usize<'input>(&mut self, input: &'input [u8]) -> (r: Result<
        (usize, &'input [u8]),
        DeserializeError<'input>,
    >)
        ensures
            fixed_read(r, input@, 8, "u64"@, |x: nat| (x as u64) as usize),
    {
        match self.deserialize_u64(input) {
            Ok((val, rem)) => Ok((val as usize, rem)),
            Err(e) => Err(e),
        }
    }

    /// Deserialize a signed 8-bit integer.
    fn deserialize_i8<'input>(&mut self, input: &'input [u8]) -> (r: Result<
        (i8, &'input [u8]),
        DeserializeError<'input>,
    >)
        ensures
            fixed_read(r, input@, 1, "i8"@, |x: nat| signed_of(x, 8) as i8),
    ;

    /// Deserialize a signed 16-bit integer.
    fn deserialize_i16<'input>(&mut self, input: &'input [u8]) -> (r: Result<
        (i16, &'input [u8]),
        DeserializeError<'input>,
    >)
        ensures
            fixed_read(r, input@, 2, "i16"@, |x: nat| signed_of(x, 16) as i16),
    ;

    /// Deserialize a signed 32-bit integer.
    fn deserialize_i32<'input>(&mut self, input: &'input [u8]) -> (r: Result<
        (i32, &'input [u8]),
        DeserializeError<'input>,
    >)
        ensures
            fixed_read(r, input@, 4, "i32"@, |x: nat| signed_of(x, 32) as i32),
    ;

    /// Deserialize a signed 64-bit integer.
    fn deserialize_i64<'input>(&mut self, input: &'input [u8]) -> (r: Result<
        (i64, &'input [u8]),
        DeserializeError<'input>,
    >)
        ensures
            fixed_read(r, input@, 8, "i64"@, |x: nat| signed_of(x, 64) as i64),
    ;

    /// Deserialize a signed 128-bit integer.
    fn deserialize_i128<'input>(&mut self, input: &'input [u8]) -> (r: Result<
        (i128, &'input [u8]),
        DeserializeError<'input>,
    >)
        ensures
            fixed_read(r, input@, 16, "i128"@, |x: nat| signed_of(x, 128) as i128),
    ;

    /// Deserialize an `isize` integer, read as an `i64`.
    fn deserialize_isize<'input>(&mut self, input: &'input [u8]) -> (r: Result<
        (isize, &'input [u8]),
        DeserializeError<'input>,
    >)
        ensures
            fixed_read(r, input@, 8, "i64"@, |x: nat| (signed_of(x, 64) as i64) as isize),
    {
        match self.deserialize_i64(input) {
            Ok((val, rem)) => Ok((val as isize, rem)),
            Err(e) => Err(e),
        }
    }

    /// Deserialize the bits of a single-precision floating-point value.
    fn deserialize_f32<'input>(&mut self, input: &'input [u8]) -> (r: Result<
        (u32, &'input [u8]),
        DeserializeError<'input>,
    >)
        ensures
            fixed_read(r, input@, 4, "f32"@, |x: nat| x as u32),
    ;

    /// Deserialize the bits of a double-precision floating-point value.
    fn deserialize_f64<'input>(&mut self, input: &'input [u8]) -> (r: Result<
        (u64, &'input [u8]),
        DeserializeError<'input>,
    >)
        ensures
            fixed_read(r, input@, 8, "f64"@, |x: nat| x as u64),
    ;

    /// Deserialize a boolean value: the byte 0 or 1.
    fn deserialize_bool<'input>(&mut self, input: &'input [u8]) -> (r: Result<
        (bool, &'input [u8]),
        DeserializeError<'input>,
    >)
        ensures
            input@.len() == 0 ==> (r matches Err(e) && error_is(
                e,
                input@,
                "bool"@,
                ErrorReason::EndOfInput,
                None,
            )),
            input@.len() > 0 && input@[0] <= 1 ==> (r matches Ok((b, rest)) && b == (input@[0]
                == 1) && rest@ == input@.skip(1)),
            input@.len() > 0 && input@[0] > 1 ==> (r matches Err(e) && error_is(
                e,
                input@,
                "bool"@,
                ErrorReason::InvalidBool(input@[0]),
                None,
            )),
    {
        if input.len() == 0 {
            return Err(DeserializeError::new(input, "bool".to_owned(), ErrorReason::EndOfInput));
        }
        let b = input[0];
        let remainder = &input[1..input.len()];
        assert(remainder@ =~= input@.skip(1));
        if b == 0 {
            Ok((false, remainder))
        } else if b == 1 {
            Ok((true, remainder))
        } else {
            Err(DeserializeError::new(input, "bool".to_owned(), ErrorReason::InvalidBool(b)))
        }
    }

    /// Deserialize a UTF-8 string slice: its length in bytes, then its bytes.
    fn deserialize_str<'input>(&mut self, input: &'input [u8]) -> (r: Result<
        (&'input str, &'input [u8]),
        DeserializeError<'input>,
    >)
        ensures
            str_read(r, input@),
    ;
}

/// An extension trait for [`Deserializer`] that provides variable-length
/// deserialization methods.
pub trait DeserializerExt: Deserializer {
    /// Deserialize a variable-length unsigned 16-bit integer.
    fn deserialize_var_u16<'input>(&mut self, input: &'input [u8]) -> (r: Result<
        (u16, &'input [u8]),
        DeserializeError<'input>,
    >)
        ensures
            var_read_result(r, input@, 3, "u16"@, |v: nat| (v % width_bound(16)) as u16),
    ;

    /// Deserialize a variable-length unsigned 32-bit integer.
    fn deserialize_var_u32<'input>(&mut self, input: &'input [u8]) -> (r: Result<
        (u32, &'input [u8]),
        DeserializeError<'input>,
    >)
        ensures
            var_read_result(r, input@, 5, "u32"@, |v: nat| (v % width_bound(32)) as u32),
    ;

    /// Deserialize a variable-length unsigned 64-bit integer.
    fn deserialize_var_u64<'input>(&mut self, input: &'input [u8]) -> (r: Result<
        (u64, &'input [u8]),
        DeserializeError<'input>,
    >)
        ensures
            var_read_result(r, input@, 10, "u64"@, |v: nat| (v % width_bound(64)) as u64),
    ;

    /// Deserialize a variable-length unsigned 128-bit integer.
    fn deserialize_var_u128<'input>(&mut self, input: &'input [u8]) -> (r: Result<
        (u128, &'input [u8]),
        DeserializeError<'input>,
    >)
        ensures
            var_read_result(r, input@, 19, "u128"@, |v: nat| (v % width_bound(128)) as u128),
    ;

    /// Deserialize a variable-length `usize` integer, read as a `u64`.
    fn deserialize_var_usize<'input>(&mut self, input: &'input [u8]) -> (r: Result<
        (usize, &'input [u8]),
        DeserializeError<'input>,
    >)
        ensures
            var_read_result(
                r,
                input@,
                10,
                "u64"@,
                |v: nat| ((v % width_bound(64)) as u64) as usize,
            ),
    {
        match self.deserialize_var_u64(input) {
            Ok((val, rem)) => Ok((val as usize, rem)),
            Err(e) => Err(e),
        }
    }

    /// Deserialize a variable-length signed 16-bit integer from its bits.
    fn deserialize_var_i16<'input>(&mut self, input: &'input [u8]) -> (r: Result<
        (i16, &'input [u8]),
        DeserializeError<'input>,
    >)
        ensures
            var_read_result(
                r,
                input@,
                3,
                "u16"@,
                |v: nat| signed_of(v % width_bound(16), 16) as i16,
            ),
    {
        match self.deserialize_var_u16(input) {
            Ok((val, rem)) => Ok((to_signed(val as u128, 16) as i16, rem)),
            Err(e) => Err(e),
        }
    }

    /// Deserialize a variable-length signed 32-bit integer from its bits.
    fn deserialize_var_i32<'input>(&mut self, input: &'input [u8]) -> (r: Result<
        (i32, &'input [u8]),
        DeserializeError<'input>,
    >)
        ensures
            var_read_result(
                r,
                input@,
                5,
                "u32"@,
                |v: nat| signed_of(v % width_bound(32), 32) as i32,
            ),
    {
        match self.deserialize_var_u32(input) {
            Ok((val, rem)) => Ok((to_signed(val as u128, 32) as i32, rem)),
            Err(e) => Err(e),
        }
    }

    /// Deserialize a variable-length signed 64-bit integer from its bits.
    fn deserialize_var_i64<'input>(&mut self, input: &'input [u8]) -> (r: Result<
        (i64, &'input [u8]),
        DeserializeError<'input>,
    >)
        ensures
            var_read_result(
                r,
                input@,
                10,
                "u64"@,
                |v: nat| signed_of(v % width_bound(64), 64) as i64,
            ),
    {
        match self.deserialize_var_u64(input) {
            Ok((val, rem)) => Ok((to_signed(val as u128, 64) as i64, rem)),
            Err(e) => Err(e),
        }
    }

    /// Deserialize a variable-length signed 128-bit integer from its bits.
    fn deserialize_var_i128<'input>(&mut self, input: &'input [u8]) -> (r: Result<
        (i128, &'input [u8]),
        DeserializeError<'input>,
    >)
        ensures
            var_read_result(
                r,
                input@,
                19,
                "u128"@,
                |v: nat| signed_of(v % width_bound(128), 128) as i128,
            ),
    {
        match self.deserialize_var_u128(input) {
            Ok((val, rem)) => Ok((to_signed(val, 128), rem)),
            Err(e) => Err(e),
        }
    }

    /// Deserialize a variable-length signed `isize` integer, read as an
    /// `i64`.
    fn deserialize_var_isize<'input>(&mut self, input: &'input [u8]) -> (r: Result<
        (isize, &'input [u8]),
        DeserializeError<'input>,
    >)
        ensures
            var_read_result(
                r,
                input@,
                10,
                "u64"@,
                |v: nat| (signed_of(v % width_bound(64), 64) as i64) as isize,
            ),
    {
        match self.deserialize_var_i64(input) {
            Ok((val, rem)) => Ok((val as isize, rem)),
            Err(e) => Err(e),
        }
    }
}

/// A deserializer for Minecraft protocol data.
#[derive(Debug, Default, Clone, Copy)]
pub struct McDeserializer;

impl Deserializer for McDeserializer {
    fn deserialize_unit<'input>(&mut self, input: &'input [u8]) -> (r: Result<
        ((), &'input [u8]),
        DeserializeError<'input>,
    >) {
        Ok(((), input))
    }

    fn deserialize_u8<'input>(&mut self, input: &'input [u8]) -> (r: Result<
        (u8, &'input [u8]),
        DeserializeError<'input>,
    >) {
        match read_le_fixed(input, 1, "u8") {
            Ok((v, rest)) => {
                proof {
                    reveal_with_fuel(pow, 2);
                }
                Ok((v as u8, rest))
            },
            Err(e) => Err(e),
        }
    }

    fn deserialize_u16<'input>(&mut self, input: &'input [u8]) -> (r: Result<
        (u16, &'input [u8]),
        DeserializeError<'input>,
    >) {
        match read_le_fixed(input, 2, "u16") {
            Ok((v, rest)) => {
                proof {
                    reveal_with_fuel(pow, 3);
                }
                Ok((v as u16, rest))
            },
            Err(e) => Err(e),
        }
    }

    fn deserialize_u32<'input>(&mut self, input: &'input [u8]) -> (r: Result<
        (u32, &'input [u8]),
        DeserializeError<'input>,
    >) {
        match read_le_fixed(input, 4, "u32") {
            Ok((v, rest)) => {
                proof {
                    reveal_with_fuel(pow, 5);
                }
                Ok((v as u32, rest))
            },
            Err(e) => Err(e),
        }
    }

    fn deserialize_u64<'input>(&mut self, input: &'input [u8]) -> (r: Result<
        (u64, &'input [u8]),
        DeserializeError<'input>,
    >) {
        match read_le_fixed(input, 8, "u64") {
            Ok((v, rest)) => {
                proof {
                    reveal_with_fuel(pow, 9);
                }
                Ok((v as u64, rest))
            },
            Err(e) => Err(e),
        }
    }

    fn deserialize_u128<'input>(&mut self, input: &'input [u8]) -> (r: Result<
        (u128, &'input [u8]),
        DeserializeError<'input>,
    >) {
        read_le_fixed(input, 16, "u128")
    }

    fn deserialize_i8<'input>(&mut self, input: &'input [u8]) -> (r: Result<
        (i8, &'input [u8]),
        DeserializeError<'input>,
    >) {
        match read_le_fixed(input, 1, "i8") {
            Ok((v, rest)) => {
                proof {
                    reveal_with_fuel(pow, 2);
                }
                Ok((to_signed(v, 8) as i8, rest))
            },
            Err(e) => Err(e),
        }
    }

    fn deserialize_i16<'input>(&mut self, input: &'input [u8]) -> (r: Result<
        (i16, &'input [u8]),
        DeserializeError<'input>,
    >) {
        match read_le_fixed(input, 2, "i16") {
            Ok((v, rest)) => {
                proof {
                    reveal_with_fuel(pow, 3);
                }
                Ok((to_signed(v, 16) as i16, rest))
            },
            Err(e) => Err(e),
        }
    }

    fn deserialize_i32<'input>(&mut self, input: &'input [u8]) -> (r: Result<
        (i32, &'input [u8]),
        DeserializeError<'input>,
    >) {
        match read_le_fixed(input, 4, "i32") {
            Ok((v, rest)) => {
                proof {
                    reveal_with_fuel(pow, 5);
                }
                Ok((to_signed(v, 32) as i32, rest))
            },
            Err(e) => Err(e),
        }
    }

    fn deserialize_i64<'input>(&mut self, input: &'input [u8]) -> (r: Result<
        (i64, &'input [u8]),
        DeserializeError<'input>,
    >) {
        match read_le_fixed(input, 8, "i64") {
            Ok((v, rest)) => {
                proof {
                    reveal_with_fuel(pow, 9);
                }
                Ok((to_signed(v, 64) as i64, rest))
            },
            Err(e) => Err(e),
        }
    }

    fn deserialize_i128<'input>(&mut self, input: &'input [u8]) -> (r: Result<
        (i128, &'input [u8]),
        DeserializeError<'input>,
    >) {
        match read_le_fixed(input, 16, "i128") {
            Ok((v, rest)) => {
                proof {
                    lemma_pow256_16();
                }
                Ok((to_signed(v, 128), rest))
            },
            Err(e) => Err(e),
        }
    }

    fn deserialize_f32<'input>(&mut self, input: &'input [u8]) -> (r: Result<
        (u32, &'input [u8]),
        DeserializeError<'input>,
    >) {
        match read_le_fixed(input, 4, "f32") {
            Ok((v, rest)) => {
                proof {
                    reveal_with_fuel(pow, 5);
                }
                Ok((v as u32, rest))
            },
            Err(e) => Err(e),
        }
    }

    fn deserialize_f64<'input>(&mut self, input: &'input [u8]) -> (r: Result<
        (u64, &'input [u8]),
        DeserializeError<'input>,
    >) {
        match read_le_fixed(input, 8, "f64") {
            Ok((v, rest)) => {
                proof {
                    reveal_with_fuel(pow, 9);
                }
                Ok((v as u64, rest))
            },
            Err(e) => Err(e),
        }
    }

    fn deserialize_str<'input>(&mut self, input: &'input [u8]) -> (r: Result<
        (&'input str, &'input [u8]),
        DeserializeError<'input>,
    >) {
        let (len, remainder) = match read_var_prefix(input, 10, "u64") {
            Ok((v, rest)) => {
                proof {
                    narrow_fact(input@, 10, 64);
                }
                (((v % 0x1_0000_0000_0000_0000) as u64) as usize, rest)
            },
            Err(e) => return Err(e),
        };
        if len > remainder.len() {
            return Err(
                DeserializeError::new(remainder, "str".to_owned(), ErrorReason::EndOfInput).with_length(
                    len,
                ),
            );
        }
        let str_bytes = &remainder[0..len];
        let rem_bytes = &remainder[len..remainder.len()];
        assert(str_bytes@ =~= remainder@.take(len as int));
        assert(rem_bytes@ =~= remainder@.skip(len as int));
        match str_from_utf8(str_bytes) {
            Ok(s) => Ok((s, rem_bytes)),
            Err(valid) => {
                proof {
                    assert forall|j: int| valid < j <= len implies !valid_utf8(
                        #[trigger] remainder@.take(len as int).take(j),
                    ) by {
                        assert(remainder@.take(len as int).take(j) == str_bytes@.take(j));
                    }
                    assert(str_bytes@.take(valid as int) =~= remainder@.take(valid as int));
                }
                Err(
                    DeserializeError::new(
                        remainder,
                        "str".to_owned(),
                        ErrorReason::InvalidUtf8(valid),
                    ).with_length(len - valid),
                )
            },
        }
    }
}

impl DeserializerExt for McDeserializer {
    fn deserialize_var_u16<'input>(&mut self, input: &'input [u8]) -> (r: Result<
        (u16, &'input [u8]),
        DeserializeError<'input>,
    >) {
        match read_var_prefix(input, 3, "u16") {
            Ok((v, rest)) => {
                proof {
                    narrow_fact(input@, 3, 16);
                }
                Ok(((v % 0x1_0000) as u16, rest))
            },
            Err(e) => Err(e),
        }
    }

    fn deserialize_var_u32<'input>(&mut self, input: &'input [u8]) -> (r: Result<
        (u32, &'input [u8]),
        DeserializeError<'input>,
    >) {
        match read_var_prefix(input, 5, "u32") {
            Ok((v, rest)) => {
                proof {
                    narrow_fact(input@, 5, 32);
                }
                Ok(((v % 0x1_0000_0000) as u32, rest))
            },
            Err(e) => Err(e),
        }
    }

    fn deserialize_var_u64<'input>(&mut self, input: &'input [u8]) -> (r: Result<
        (u64, &'input [u8]),
        DeserializeError<'input>,
    >) {
        match read_var_prefix(input, 10, "u64") {
            Ok((v, rest)) => {
                proof {
                    narrow_fact(input@, 10, 64);
                }
                Ok(((v % 0x1_0000_0000_0000_0000) as u64, rest))
            },
            Err(e) => Err(e),
        }
    }

    fn deserialize_var_u128<'input>(&mut self, input: &'input [u8]) -> (r: Result<
        (u128, &'input [u8]),
        DeserializeError<'input>,
    >) {
        read_var_prefix(input, 19, "u128")
    }
}

/// What a variable-length integer carries, cut to 128 bits and then to
/// `bits` bits, is what it carries cut to `bits` bits.
proof fn narrow_fact(s: Seq<u8>, max: nat, bits: nat)
    requires
        bits == 16 || bits == 32 || bits == 64,
    ensures
        var_read(s, max) matches Some((v, n)) ==> (v % width_bound(128)) % width_bound(bits) == v
            % width_bound(bits),
{
    if var_read(s, max) is Some {
        let v = var_read(s, max).unwrap().0;
        let b = width_bound(bits) as int;
        let q = (width_bound(128) / width_bound(bits)) as int;
        assert(b * q == width_bound(128));
        lemma_mod_mod(v as int, b, q);
    }
}

} // verus!
