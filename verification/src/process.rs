//! Filling in the parts of a value being read, one request at a time, from
//! a cursor over big-endian input.
use crate::bytes::{be_value, lemma_be_value_bound, lemma_pow256_16, read_be};
use crate::cursor::{bytes_to_variable, EndOfInput, InputCursor};
use crate::parse::{signed_of, to_signed};
use crate::schema::{is_valid_prefix_len, lemma_valid_prefix_len_unique, valid_prefix_len};
use crate::text::str_from_utf8;
use crate::varint::{lemma_var_end_range, lemma_var_read_extend, var_end, var_read_width, width_bound};
use vstd::arithmetic::power::*;
use vstd::prelude::*;
use vstd::utf8::{decode_utf8, valid_utf8};

verus! {

/// A part of a value that must be filled in: its type, and for integers
/// whether it is variable-length encoded.
#[derive(Debug, Clone, Copy, PartialEq, Eq, Structural)]
pub enum PartialValue {
    Bool,
    U8,
    U16(bool),
    U32(bool),
    U64(bool),
    U128(bool),
    Usize(bool),
    I8,
    I16(bool),
    I32(bool),
    I64(bool),
    I128(bool),
    Isize(bool),
    /// The bits of an `f32`.
    F32,
    /// The bits of an `f64`.
    F64,
    /// A string borrowed from the input.
    Str,
    /// A string of its own.
    String,
    /// Bytes borrowed from the input.
    Bytes,
    /// Bytes of their own.
    VecBytes,
    /// A variable-length encoded length.
    Length,
}

/// The name a part is shown by.
pub open spec fn partial_name(p: PartialValue) -> Seq<char> {
    match p {
        PartialValue::Bool => "Bool"@,
        PartialValue::U8 => "U8"@,
        PartialValue::U16(_) => "U16"@,
        PartialValue::U32(_) => "U32"@,
        PartialValue::U64(_) => "U64"@,
        PartialValue::U128(_) => "U128"@,
        PartialValue::Usize(_) => "Usize"@,
        PartialValue::I8 => "I8"@,
        PartialValue::I16(_) => "I16"@,
        PartialValue::I32(_) => "I32"@,
        PartialValue::I64(_) => "I64"@,
        PartialValue::I128(_) => "I128"@,
        PartialValue::Isize(_) => "Isize"@,
        PartialValue::F32 => "F32"@,
        PartialValue::F64 => "F64"@,
        PartialValue::Str => "Str"@,
        PartialValue::String => "String"@,
        PartialValue::Bytes => "Bytes"@,
        PartialValue::VecBytes => "VecBytes"@,
        PartialValue::Length => "Length"@,
    }
}

impl PartialValue {
    /// The name the part is shown by.
    pub fn name(&self) -> (r: &'static str)
        ensures
            r@ == partial_name(*self),
    {
        match self {
            PartialValue::Bool => "Bool",
            PartialValue::U8 => "U8",
            PartialValue::U16(_) => "U16",
            PartialValue::U32(_) => "U32",
            PartialValue::U64(_) => "U64",
            PartialValue::U128(_) => "U128",
            PartialValue::Usize(_) => "Usize",
            PartialValue::I8 => "I8",
            PartialValue::I16(_) => "I16",
            PartialValue::I32(_) => "I32",
            PartialValue::I64(_) => "I64",
            PartialValue::I128(_) => "I128",
            PartialValue::Isize(_) => "Isize",
            PartialValue::F32 => "F32",
            PartialValue::F64 => "F64",
            PartialValue::Str => "Str",
            PartialValue::String => "String",
            PartialValue::Bytes => "Bytes",
            PartialValue::VecBytes => "VecBytes",
            PartialValue::Length => "Length",
        }
    }
}

/// The value read for a [`PartialValue`].
#[derive(Debug)]
pub enum ProcessedValue<'input> {
    Bool(bool),
    U8(u8),
    U16(u16),
    U32(u32),
    U64(u64),
    U128(u128),
    Usize(usize),
    I8(i8),
    I16(i16),
    I32(i32),
    I64(i64),
    I128(i128),
    Isize(isize),
    F32(u32),
    F64(u64),
    Str(&'input str),
    String(String),
    Bytes(&'input [u8]),
    VecBytes(Vec<u8>),
    Length(usize),
}

/// An error that can occur while filling in a part of a value.
#[derive(Debug, Clone, Copy, PartialEq, Eq, Structural)]
pub enum DeserializeValueError {
    /// A boolean was neither 0 nor 1.
    Boolean(u8),
    /// Data was to be borrowed from input that does not live long enough.
    StaticBorrow,
    /// A string was not UTF-8; the number of bytes that were valid.
    Utf8(usize),
    /// The input ended before the value did.
    EndOfInput(EndOfInput),
}

/// What a read value holds, whether borrowed or owned.
pub enum ProcessedView {
    Bool(bool),
    Int(int),
    Str(Seq<char>),
    Bytes(Seq<u8>),
}

/// What a read value holds.
pub open spec fn processed_view(v: ProcessedValue) -> ProcessedView {
    match v {
        ProcessedValue::Bool(b) => ProcessedView::Bool(b),
        ProcessedValue::U8(x) => ProcessedView::Int(x as int),
        ProcessedValue::U16(x) => ProcessedView::Int(x as int),
        ProcessedValue::U32(x) => ProcessedView::Int(x as int),
        ProcessedValue::U64(x) => ProcessedView::Int(x as int),
        ProcessedValue::U128(x) => ProcessedView::Int(x as int),
        ProcessedValue::Usize(x) => ProcessedView::Int(x as int),
        ProcessedValue::I8(x) => ProcessedView::Int(x as int),
        ProcessedValue::I16(x) => ProcessedView::Int(x as int),
        ProcessedValue::I32(x) => ProcessedView::Int(x as int),
        ProcessedValue::I64(x) => ProcessedView::Int(x as int),
        ProcessedValue::I128(x) => ProcessedView::Int(x as int),
        ProcessedValue::Isize(x) => ProcessedView::Int(x as int),
        ProcessedValue::F32(x) => ProcessedView::Int(x as int),
        ProcessedValue::F64(x) => ProcessedView::Int(x as int),
        ProcessedValue::Str(s) => ProcessedView::Str(s@),
        ProcessedValue::String(s) => ProcessedView::Str(s@),
        ProcessedValue::Bytes(b) => ProcessedView::Bytes(b@),
        ProcessedValue::VecBytes(b) => ProcessedView::Bytes(b@),
        ProcessedValue::Length(x) => ProcessedView::Int(x as int),
    }
}

/// Whether the read value is of the kind the request asks for.
pub open spec fn answers(req: PartialValue, v: ProcessedValue) -> bool {
    match req {
        PartialValue::Bool => v is Bool,
        PartialValue::U8 => v is U8,
        PartialValue::U16(_) => v is U16,
        PartialValue::U32(_) => v is U32,
        PartialValue::U64(_) => v is U64,
        PartialValue::U128(_) => v is U128,
        PartialValue::Usize(_) => v is Usize,
        PartialValue::I8 => v is I8,
        PartialValue::I16(_) => v is I16,
        PartialValue::I32(_) => v is I32,
        PartialValue::I64(_) => v is I64,
        PartialValue::I128(_) => v is I128,
        PartialValue::Isize(_) => v is Isize,
        PartialValue::F32 => v is F32,
        PartialValue::F64 => v is F64,
        PartialValue::Str => v is Str,
        PartialValue::String => v is String,
        PartialValue::Bytes => v is Bytes,
        PartialValue::VecBytes => v is VecBytes,
        PartialValue::Length => v is Length,
    }
}

/// The outcome of filling in a part: what is read or why it is not, with
/// how far the cursor moves either way.
pub struct Step {
    pub result: Result<ProcessedView, DeserializeValueError>,
    pub advance: nat,
}

/// The running-out error for input that has `had` bytes left.
pub open spec fn end_of_input(had: nat, expected: nat) -> DeserializeValueError {
    DeserializeValueError::EndOfInput(EndOfInput { had: had as usize, expected: expected as usize })
}

/// The number of bytes a length-prefixed run takes, its length `n` and its
/// `len` bytes, as far as a `usize` counts.
pub open spec fn prefixed_len(n: nat, len: nat) -> nat {
    if n + len <= usize::MAX {
        n + len
    } else {
        usize::MAX as nat
    }
}

/// Reading a length-prefixed run of bytes, then turning it into `f` of the
/// bytes, which may fail with the given error and then still consumes them.
/// A run whose bytes are not all there is not started: the error counts the
/// bytes from its length on, and the cursor stays before it.
pub open spec fn prefixed_step(rest: Seq<u8>, text: bool) -> Step {
    match var_read_width(rest, 19, 128) {
        None => Step { result: Err(end_of_input(rest.len(), 1)), advance: 0 },
        Some((v, n)) => {
            let len = (v as u128) as usize;
            let after = rest.skip(n as int);
            if after.len() < len {
                Step { result: Err(end_of_input(rest.len(), prefixed_len(n, len as nat))), advance: 0 }
            } else {
                let b = after.take(len as int);
                if !text {
                    Step { result: Ok(ProcessedView::Bytes(b)), advance: n + (len as nat) }
                } else if valid_utf8(b) {
                    Step { result: Ok(ProcessedView::Str(decode_utf8(b))), advance: n + (len as nat) }
                } else {
                    Step {
                        result: Err(DeserializeValueError::Utf8(valid_prefix_len(b) as usize)),
                        advance: n + (len as nat),
                    }
                }
            }
        },
    }
}

/// Reading an integer as it comes: variable-length when `var` is set, and
/// otherwise as `n` big-endian bytes; with how far the cursor moves.
pub open spec fn raw_int(rest: Seq<u8>, var: bool, n: nat) -> (Result<nat, DeserializeValueError>, nat) {
    if var {
        match var_read_width(rest, 19, 128) {
            None => (Err(end_of_input(rest.len(), 1)), 0),
            Some((v, k)) => (Ok(v), k),
        }
    } else if rest.len() < n {
        (Err(end_of_input(rest.len(), n)), 0)
    } else {
        (Ok(be_value(rest.take(n as int))), n)
    }
}

/// Reading an integer as it comes, the part being `f` of the number read.
pub open spec fn int_step(rest: Seq<u8>, var: bool, n: nat, f: spec_fn(nat) -> int) -> Step {
    Step {
        result: match raw_int(rest, var, n).0 {
            Ok(v) => Ok(ProcessedView::Int(f(v))),
            Err(e) => Err(e),
        },
        advance: raw_int(rest, var, n).1,
    }
}

/// Filling in a part from the rest of the input; borrowing from the input
/// is allowed when `borrow` is set.
pub open spec fn process_step(rest: Seq<u8>, req: PartialValue, borrow: bool) -> Step {
    match req {
        PartialValue::Bool => if rest.len() < 1 {
            Step { result: Err(end_of_input(rest.len(), 1)), advance: 0 }
        } else if rest[0] <= 1 {
            Step { result: Ok(ProcessedView::Bool(rest[0] == 1)), advance: 1 }
        } else {
            Step { result: Err(DeserializeValueError::Boolean(rest[0])), advance: 1 }
        },
        PartialValue::U8 => int_step(rest, false, 1, |v: nat| (v % 0x100) as int),
        PartialValue::I8 => int_step(rest, false, 1, |v: nat| signed_of(v % 0x100, 8)),
        PartialValue::F32 => int_step(rest, false, 4, |v: nat| (v % 0x1_0000_0000) as int),
        PartialValue::F64 => int_step(
            rest,
            false,
            8,
            |v: nat| (v % 0x1_0000_0000_0000_0000) as int,
        ),
        PartialValue::U16(var) => int_step(rest, var, 2, |v: nat| (v % width_bound(16)) as int),
        PartialValue::U32(var) => int_step(rest, var, 4, |v: nat| (v % width_bound(32)) as int),
        PartialValue::U64(var) => int_step(rest, var, 8, |v: nat| (v % width_bound(64)) as int),
        PartialValue::U128(var) => int_step(rest, var, 16, |v: nat| (v % width_bound(128)) as int),
        PartialValue::Usize(var) => if var {
            int_step(rest, true, 8, |v: nat| ((v as u128) as usize) as int)
        } else {
            int_step(rest, false, 8, |v: nat| ((v as u64) as usize) as int)
        },
        PartialValue::I16(var) => int_step(
            rest,
            var,
            2,
            |v: nat| signed_of(v % width_bound(16), 16),
        ),
        PartialValue::I32(var) => int_step(
            rest,
            var,
            4,
            |v: nat| signed_of(v % width_bound(32), 32),
        ),
        PartialValue::I64(var) => int_step(
            rest,
            var,
            8,
            |v: nat| signed_of(v % width_bound(64), 64),
        ),
        PartialValue::I128(var) => int_step(
            rest,
            var,
            16,
            |v: nat| signed_of(v % width_bound(128), 128),
        ),
        PartialValue::Isize(var) => int_step(
            rest,
            var,
            8,
            |v: nat| ((signed_of(v % width_bound(64), 64) as i64) as isize) as int,
        ),
        PartialValue::Length => int_step(rest, true, 8, |v: nat| ((v as u128) as usize) as int),
        PartialValue::Str => if borrow {
            prefixed_step(rest, true)
        } else {
            Step { result: Err(DeserializeValueError::StaticBorrow), advance: 0 }
        },
        PartialValue::Bytes => if borrow {
            prefixed_step(rest, false)
        } else {
            Step { result: Err(DeserializeValueError::StaticBorrow), advance: 0 }
        },
        PartialValue::String => prefixed_step(rest, true),
        PartialValue::VecBytes => prefixed_step(rest, false),
    }
}

/// Whether filling in a part stopped because the input ran out.
pub open spec fn step_ran_out(s: Step) -> bool {
    s.result matches Err(DeserializeValueError::EndOfInput(_))
}

/// The first bytes of the input are the first bytes of any longer input.
proof fn lemma_prefix_extend(rest: Seq<u8>, more: Seq<u8>, k: int)
    requires
        0 <= k <= rest.len(),
    ensures
        (rest + more).take(k) == rest.take(k),
        (rest + more).skip(k) == rest.skip(k) + more,
{
    assert((rest + more).take(k) =~= rest.take(k));
    assert((rest + more).skip(k) =~= rest.skip(k) + more);
}

/// A part filled in without running out of input is filled in the same way,
/// moving the cursor as far, whatever follows the input.
pub proof fn lemma_step_extend(rest: Seq<u8>, more: Seq<u8>, req: PartialValue, borrow: bool)
    requires
        !step_ran_out(process_step(rest, req, borrow)),
    ensures
        process_step(rest + more, req, borrow) == process_step(rest, req, borrow),
{
    let r2 = rest + more;
    if var_read_width(rest, 19, 128) is Some {
        lemma_var_read_extend(rest, more, 19, 128);
        let n = var_read_width(rest, 19, 128).unwrap().1;
        lemma_var_width_in(rest);
        lemma_prefix_extend(rest, more, n as int);
        let len = (var_read_width(rest, 19, 128).unwrap().0 as u128) as usize;
        if len <= rest.skip(n as int).len() {
            lemma_prefix_extend(rest.skip(n as int), more, len as int);
        }
    }
    if rest.len() >= 1 {
        assert(r2[0] == rest[0]);
        lemma_prefix_extend(rest, more, 1);
    }
    if rest.len() >= 2 {
        lemma_prefix_extend(rest, more, 2);
    }
    if rest.len() >= 4 {
        lemma_prefix_extend(rest, more, 4);
    }
    if rest.len() >= 8 {
        lemma_prefix_extend(rest, more, 8);
    }
    if rest.len() >= 16 {
        lemma_prefix_extend(rest, more, 16);
    }
}

/// Running out of input leaves the cursor where it was.
pub proof fn lemma_ran_out_in_place(rest: Seq<u8>, req: PartialValue, borrow: bool)
    ensures
        step_ran_out(process_step(rest, req, borrow)) ==> process_step(rest, req, borrow).advance == 0,
{
}

/// A variable-length integer read whole ends inside the input.
proof fn lemma_var_width_in(rest: Seq<u8>)
    ensures
        var_read_width(rest, 19, 128) matches Some((_, n)) ==> n <= rest.len(),
{
    if var_end(rest, 0, 19) is Some {
        lemma_var_end_range(rest, 0, 19);
    }
}

/// Whether `r`, with the cursor moved from `before` to `after`, is the
/// outcome `s` describes.
pub open spec fn step_matches<'input>(
    r: Result<ProcessedValue<'input>, DeserializeValueError>,
    req: PartialValue,
    s: Step,
    before: InputCursor<'input>,
    after: InputCursor<'input>,
) -> bool {
    &&& after.data() == before.data()
    &&& after.pos() == before.pos() + s.advance
    &&& match s.result {
        Ok(v) => r matches Ok(x) && processed_view(x) == v && answers(req, x),
        Err(e) => r == Err::<ProcessedValue<'input>, DeserializeValueError>(e),
    }
}

/// Reads the next `n` bytes as a big-endian number.
fn read_fixed_be<'input>(cursor: &mut InputCursor<'input>, n: usize) -> (r: Result<
    u128,
    DeserializeValueError,
>)
    requires
        1 <= n <= 16,
    ensures
        final(cursor).data() == old(cursor).data(),
        old(cursor).rest().len() < n ==> r == Err::<u128, DeserializeValueError>(
            end_of_input(old(cursor).rest().len(), n as nat),
        ) && final(cursor).pos() == old(cursor).pos(),
        old(cursor).rest().len() >= n ==> r == Ok::<u128, DeserializeValueError>(
            be_value(old(cursor).rest().take(n as int)) as u128,
        ) && final(cursor).pos() == old(cursor).pos() + n && be_value(
            old(cursor).rest().take(n as int),
        ) < pow(256, n as nat),
{
    let ghost rest = cursor.rest();
    proof {
        use_type_invariant(&*cursor);
        cursor.lemma_rest_len();
    }
    match cursor.take(n) {
        Ok(bytes) => {
            proof {
                lemma_be_value_bound(bytes@);
                assert(bytes@ == rest.take(n as int));
                assert(bytes@.take(n as int) =~= bytes@);
                lemma_pow_increases(256, n as nat, 16);
                lemma_pow256_16();
            }
            Ok(read_be(bytes, n))
        },
        Err(e) => Err(DeserializeValueError::EndOfInput(e)),
    }
}

/// Reads the next variable-length number, cut to 128 bits.
fn read_variable<'input>(cursor: &mut InputCursor<'input>) -> (r: Result<
    u128,
    DeserializeValueError,
>)
    ensures
        final(cursor).data() == old(cursor).data(),
        match var_read_width(old(cursor).rest(), 19, 128) {
            None => r == Err::<u128, DeserializeValueError>(end_of_input(old(cursor).rest().len(), 1))
                && final(cursor).pos() == old(cursor).pos(),
            Some((v, n)) => r == Ok::<u128, DeserializeValueError>(v as u128) && final(cursor).pos()
                == old(cursor).pos() + n,
        },
{
    let ghost rest = cursor.rest();
    proof {
        use_type_invariant(&*cursor);
        cursor.lemma_rest_len();
    }
    match bytes_to_variable(cursor.as_slice()) {
        Ok((consumed, value)) => {
            proof {
                let (v, n) = var_read_width(rest, 19, 128).unwrap();
                let (w, m) = crate::varint::var_read(rest, 19).unwrap();
                crate::varint::lemma_var_end_range(rest, 0, 19);
            }
            match cursor.consume(consumed) {
                Ok(()) => Ok(value),
                Err(e) => Err(DeserializeValueError::EndOfInput(e)),
            }
        },
        Err(e) => Err(DeserializeValueError::EndOfInput(e)),
    }
}

/// Reads the next length-prefixed run of bytes.
fn read_prefixed<'input>(cursor: &mut InputCursor<'input>) -> (r: Result<
    &'input [u8],
    DeserializeValueError,
>)
    ensures
        final(cursor).data() == old(cursor).data(),
        ({
            let s = prefixed_step(old(cursor).rest(), false);
            &&& final(cursor).pos() == old(cursor).pos() + s.advance
            &&& match s.result {
                Ok(ProcessedView::Bytes(b)) => r matches Ok(x) && x@ == b,
                Err(e) => r == Err::<&[u8], DeserializeValueError>(e),
                _ => false,
            }
        }),
{
    let ghost rest = cursor.rest();
    proof {
        use_type_invariant(&*cursor);
        cursor.lemma_rest_len();
    }
    let left = cursor.as_slice().len();
    let (consumed, value) = match bytes_to_variable(cursor.as_slice()) {
        Ok(p) => p,
        Err(e) => return Err(DeserializeValueError::EndOfInput(e)),
    };
    proof {
        crate::varint::lemma_var_end_range(rest, 0, 19);
    }
    let len = value as usize;
    if len > left - consumed {
        let expected: usize = if len > usize::MAX - consumed {
            usize::MAX
        } else {
            consumed + len
        };
        return Err(DeserializeValueError::EndOfInput(EndOfInput { had: left, expected }));
    }
    match cursor.consume(consumed) {
        Ok(()) => {},
        Err(e) => return Err(DeserializeValueError::EndOfInput(e)),
    }
    let ghost mid = cursor.rest();
    proof {
        use_type_invariant(&*cursor);
        cursor.lemma_rest_len();
        assert(mid =~= rest.skip(consumed as int));
    }
    match cursor.take(len) {
        Ok(bytes) => Ok(bytes),
        Err(e) => Err(DeserializeValueError::EndOfInput(e)),
    }
}

/// Reads an integer as it comes: variable-length when `var` is set, and
/// otherwise as `n` big-endian bytes.
fn read_int<'input>(cursor: &mut InputCursor<'input>, var: bool, n: usize) -> (r: Result<
    u128,
    DeserializeValueError,
>)
    requires
        1 <= n <= 16,
    ensures
        final(cursor).data() == old(cursor).data(),
        final(cursor).pos() == old(cursor).pos() + raw_int(old(cursor).rest(), var, n as nat).1,
        match raw_int(old(cursor).rest(), var, n as nat).0 {
            Ok(v) => r == Ok::<u128, DeserializeValueError>(v as u128) && v < width_bound(128),
            Err(e) => r == Err::<u128, DeserializeValueError>(e),
        },
{
    if var {
        read_variable(cursor)
    } else {
        let r = read_fixed_be(cursor, n);
        proof {
            lemma_pow_increases(256, n as nat, 16);
            lemma_pow256_16();
        }
        r
    }
}

/// Fills in an integer part of a value.
fn process_int<'input>(cursor: &mut InputCursor<'input>, req: PartialValue) -> (r: Result<
    ProcessedValue<'input>,
    DeserializeValueError,
>)
    requires
        !(req is Bool || req is Str || req is String || req is Bytes || req is VecBytes),
    ensures
        step_matches(r, req, process_step(old(cursor).rest(), req, true), *old(cursor), *final(cursor)),
{
    match req {
        PartialValue::U8 => match read_int(cursor, false, 1) {
            Ok(v) => Ok(ProcessedValue::U8((v % 0x100) as u8)),
            Err(e) => Err(e),
        },
        PartialValue::I8 => match read_int(cursor, false, 1) {
            Ok(v) => Ok(ProcessedValue::I8(to_signed(v % 0x100, 8) as i8)),
            Err(e) => Err(e),
        },
        PartialValue::F32 => match read_int(cursor, false, 4) {
            Ok(v) => Ok(ProcessedValue::F32((v % 0x1_0000_0000) as u32)),
            Err(e) => Err(e),
        },
        PartialValue::F64 => match read_int(cursor, false, 8) {
            Ok(v) => Ok(ProcessedValue::F64((v % 0x1_0000_0000_0000_0000) as u64)),
            Err(e) => Err(e),
        },
        PartialValue::U16(var) => match read_int(cursor, var, 2) {
            Ok(v) => Ok(ProcessedValue::U16((v % 0x1_0000) as u16)),
            Err(e) => Err(e),
        },
        PartialValue::U32(var) => match read_int(cursor, var, 4) {
            Ok(v) => Ok(ProcessedValue::U32((v % 0x1_0000_0000) as u32)),
            Err(e) => Err(e),
        },
        PartialValue::U64(var) => match read_int(cursor, var, 8) {
            Ok(v) => Ok(ProcessedValue::U64((v % 0x1_0000_0000_0000_0000) as u64)),
            Err(e) => Err(e),
        },
        PartialValue::U128(var) => match read_int(cursor, var, 16) {
            Ok(v) => {
                proof {
                    vstd::arithmetic::div_mod::lemma_small_mod(v as nat, width_bound(128));
                }
                Ok(ProcessedValue::U128(v))
            },
            Err(e) => Err(e),
        },
        PartialValue::Usize(var) => match read_int(cursor, var, 8) {
            Ok(v) => {
                if var {
                    Ok(ProcessedValue::Usize(v as usize))
                } else {
                    Ok(ProcessedValue::Usize((v as u64) as usize))
                }
            },
            Err(e) => Err(e),
        },
        PartialValue::I16(var) => match read_int(cursor, var, 2) {
            Ok(v) => Ok(ProcessedValue::I16(to_signed(v % 0x1_0000, 16) as i16)),
            Err(e) => Err(e),
        },
        PartialValue::I32(var) => match read_int(cursor, var, 4) {
            Ok(v) => Ok(ProcessedValue::I32(to_signed(v % 0x1_0000_0000, 32) as i32)),
            Err(e) => Err(e),
        },
        PartialValue::I64(var) => match read_int(cursor, var, 8) {
            Ok(v) => Ok(ProcessedValue::I64(to_signed(v % 0x1_0000_0000_0000_0000, 64) as i64)),
            Err(e) => Err(e),
        },
        PartialValue::I128(var) => match read_int(cursor, var, 16) {
            Ok(v) => {
                proof {
                    vstd::arithmetic::div_mod::lemma_small_mod(v as nat, width_bound(128));
                }
                Ok(ProcessedValue::I128(to_signed(v, 128)))
            },
            Err(e) => Err(e),
        },
        PartialValue::Isize(var) => match read_int(cursor, var, 8) {
            Ok(v) => Ok(
                ProcessedValue::Isize((to_signed(v % 0x1_0000_0000_0000_0000, 64) as i64) as isize),
            ),
            Err(e) => Err(e),
        },
        _ => match read_int(cursor, true, 8) {
            Ok(v) => Ok(ProcessedValue::Length(v as usize)),
            Err(e) => Err(e),
        },
    }
}

/// Fills in a boolean part of a value.
fn process_bool<'input>(cursor: &mut InputCursor<'input>) -> (r: Result<
    ProcessedValue<'input>,
    DeserializeValueError,
>)
    ensures
        step_matches(
            r,
            PartialValue::Bool,
            process_step(old(cursor).rest(), PartialValue::Bool, true),
            *old(cursor),
            *final(cursor),
        ),
{
    let ghost rest = cursor.rest();
    let v = match read_fixed_be(cursor, 1) {
        Ok(v) => v,
        Err(e) => return Err(e),
    };
    proof {
        reveal_with_fuel(be_value, 2);
        assert(rest.take(1).drop_last() =~= Seq::<u8>::empty());
        assert(rest.take(1)[0] == rest[0]);
    }
    if v == 0 {
        Ok(ProcessedValue::Bool(false))
    } else if v == 1 {
        Ok(ProcessedValue::Bool(true))
    } else {
        Err(DeserializeValueError::Boolean(v as u8))
    }
}

/// Fills in a string or bytes part of a value; borrowing from the input is
/// allowed when `borrow` is set.
fn process_text<'input>(cursor: &mut InputCursor<'input>, req: PartialValue, borrow: bool) -> (r: Result<
    ProcessedValue<'input>,
    DeserializeValueError,
>)
    requires
        req is Str || req is String || req is Bytes || req is VecBytes,
    ensures
        step_matches(r, req, process_step(old(cursor).rest(), req, borrow), *old(cursor), *final(cursor)),
{
    let text = req == PartialValue::Str || req == PartialValue::String;
    if !borrow && (req == PartialValue::Str || req == PartialValue::Bytes) {
        return Err(DeserializeValueError::StaticBorrow);
    }
    let bytes = match read_prefixed(cursor) {
        Ok(b) => b,
        Err(e) => return Err(e),
    };
    if !text {
        if req == PartialValue::Bytes {
            Ok(ProcessedValue::Bytes(bytes))
        } else {
            let mut owned: Vec<u8> = Vec::new();
            owned.extend_from_slice(bytes);
            assert(owned@ =~= bytes@);
            Ok(ProcessedValue::VecBytes(owned))
        }
    } else {
        match str_from_utf8(bytes) {
            Ok(s) => {
                if req == PartialValue::Str {
                    Ok(ProcessedValue::Str(s))
                } else {
                    Ok(ProcessedValue::String(s.to_owned()))
                }
            },
            Err(valid) => {
                proof {
                    lemma_valid_prefix_len_unique(bytes@, valid as nat);
                }
                Err(DeserializeValueError::Utf8(valid))
            },
        }
    }
}

/// Fills in a part of a value from the cursor; borrowing from the input is
/// allowed when `borrow` is set.
fn process<'input>(cursor: &mut InputCursor<'input>, req: PartialValue, borrow: bool) -> (r: Result<
    ProcessedValue<'input>,
    DeserializeValueError,
>)
    ensures
        step_matches(r, req, process_step(old(cursor).rest(), req, borrow), *old(cursor), *final(cursor)),
{
    match req {
        PartialValue::Bool => process_bool(cursor),
        PartialValue::Str | PartialValue::String | PartialValue::Bytes | PartialValue::VecBytes => {
            process_text(cursor, req, borrow)
        },
        _ => process_int(cursor, req),
    }
}

/// Fills in a part of a value from the cursor, borrowing strings and bytes
/// from the input.
pub fn borrowed_processor<'input>(cursor: &mut InputCursor<'input>, req: PartialValue) -> (r: Result<
    ProcessedValue<'input>,
    DeserializeValueError,
>)
    ensures
        step_matches(r, req, process_step(old(cursor).rest(), req, true), *old(cursor), *final(cursor)),
{
    process(cursor, req, true)
}

/// Fills in a part of a value from the cursor, copying strings and bytes out
/// of the input: asking for borrowed data fails with
/// [`DeserializeValueError::StaticBorrow`].
pub fn owned_processor<'input>(cursor: &mut InputCursor<'input>, req: PartialValue) -> (r: Result<
    ProcessedValue<'input>,
    DeserializeValueError,
>)
    ensures
        step_matches(r, req, process_step(old(cursor).rest(), req, false), *old(cursor), *final(cursor)),
{
    process(cursor, req, false)
}

} // verus!
