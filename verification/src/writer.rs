//! Writing the protocol's little-endian scalars and variable-length integers
//! to a destination of bytes.
use crate::bytes::{le_bytes, write_le};
use crate::varint::{lemma_var_bytes_width, var_bytes, variable_to_bytes, width_bound};
use vstd::prelude::*;
use vstd::utf8::encode_utf8;

verus! {

/// A trait used for writing bytes to a destination.
pub trait WriteAdapter {
    /// A type of error that can occur when writing.
    type Error;

    /// Everything written to the destination so far.
    spec fn written(&self) -> Seq<u8>;

    /// Whether writing to the destination never fails.
    spec fn infallible(&self) -> bool;

    /// Writes a slice of bytes to the destination.
    ///
    /// On success the bytes follow what was written before.
    fn write(&mut self, buf: &[u8]) -> (r: Result<(), Self::Error>)
        ensures
            r is Ok ==> final(self).written() == old(self).written() + buf@,
            old(self).infallible() ==> r is Ok,
            final(self).infallible() == old(self).infallible(),
    ;

    /// Reserve capacity for `len` additional bytes.
    ///
    /// Optional, may or may not be implemented.
    fn reserve(&mut self, len: usize)
        ensures
            final(self).written() == old(self).written(),
            final(self).infallible() == old(self).infallible(),
    {
    }
}

impl WriteAdapter for Vec<u8> {
    type Error = core::convert::Infallible;

    open spec fn written(&self) -> Seq<u8> {
        self@
    }

    open spec fn infallible(&self) -> bool {
        true
    }

    fn write(&mut self, buf: &[u8]) -> (r: Result<(), Self::Error>) {
        let ghost before = self@;
        self.extend_from_slice(buf);
        assert(self@ =~= before + buf@);
        Ok(())
    }

    fn reserve(&mut self, len: usize) {
        Vec::reserve(self, len);
    }
}

impl<'v, W: WriteAdapter> WriteAdapter for &'v mut W {
    type Error = W::Error;

    open spec fn written(&self) -> Seq<u8> {
        (**self).written()
    }

    open spec fn infallible(&self) -> bool {
        (**self).infallible()
    }

    fn write(&mut self, buf: &[u8]) -> (r: Result<(), Self::Error>) {
        (**self).write(buf)
    }

    fn reserve(&mut self, len: usize) {
        (**self).reserve(len);
    }
}

// ---------------------------------------------------------------------------------------------

/// The unsigned number with the same `bits`-bit two's complement as `v`.
pub open spec fn twos(v: int, bits: nat) -> nat {
    (v % (pow2(bits) as int)) as nat
}

/// `2^bits` for the widths of the integer types.
pub open spec fn pow2(bits: nat) -> nat {
    if bits == 8 {
        0x100
    } else {
        width_bound(bits)
    }
}

/// A serializer for Minecraft protocol data.
///
/// Floating-point numbers are taken as their IEEE 754 bits.
pub trait Serializer: Sized {
    /// The error type returned by serialization methods.
    type Error;

    /// Everything written so far.
    spec fn written(&self) -> Seq<u8>;

    /// Whether writing never fails.
    spec fn infallible(&self) -> bool;

    /// Serialize a unit value `()`.
    fn serialize_unit(&mut self) -> (r: Result<(), Self::Error>)
        ensures
            r is Ok ==> final(self).written() == old(self).written() + (seq![]),
            old(self).infallible() ==> r is Ok,
            final(self).infallible() == old(self).infallible(),
    ;

    /// Serialize an unsigned 8-bit integer.
    fn serialize_u8(&mut self, value: u8) -> (r: Result<(), Self::Error>)
        ensures
            r is Ok ==> final(self).written() == old(self).written() + (seq![value]),
            old(self).infallible() ==> r is Ok,
            final(self).infallible() == old(self).infallible(),
    ;

    /// Serialize an unsigned 16-bit integer.
    fn serialize_u16(&mut self, value: u16) -> (r: Result<(), Self::Error>)
        ensures
            r is Ok ==> final(self).written() == old(self).written() + (le_bytes(value as nat, 2)),
            old(self).infallible() ==> r is Ok,
            final(self).infallible() == old(self).infallible(),
    ;

    /// Serialize an unsigned 32-bit integer.
    fn serialize_u32(&mut self, value: u32) -> (r: Result<(), Self::Error>)
        ensures
            r is Ok ==> final(self).written() == old(self).written() + (le_bytes(value as nat, 4)),
            old(self).infallible() ==> r is Ok,
            final(self).infallible() == old(self).infallible(),
    ;

    /// Serialize an unsigned 64-bit integer.
    fn serialize_u64(&mut self, value: u64) -> (r: Result<(), Self::Error>)
        ensures
            r is Ok ==> final(self).written() == old(self).written() + (le_bytes(value as nat, 8)),
            old(self).infallible() ==> r is Ok,
            final(self).infallible() == old(self).infallible(),
    ;

    /// Serialize an unsigned 128-bit integer.
    fn serialize_u128(&mut self, value: u128) -> (r: Result<(), Self::Error>)
        ensures
            r is Ok ==> final(self).written() == old(self).written() + (le_bytes(value as nat, 16)),
            old(self).infallible() ==> r is Ok,
            final(self).infallible() == old(self).infallible(),
    ;

    /// Serialize a `usize` integer, as a `u64`.
    fn serialize_usize(&mut self, value: usize) -> (r: Result<(), Self::Error>)
        ensures
            r is Ok ==> final(self).written() == old(self).written() + (le_bytes(value as nat, 8)),
            old(self).infallible() ==> r is Ok,
            final(self).infallible() == old(self).infallible(),
    {
        self.serialize_u64(value as u64)
    }

    /// Serialize a signed 8-bit integer.
    fn serialize_i8(&mut self, value: i8) -> (r: Result<(), Self::Error>)
        ensures
            r is Ok ==> final(self).written() == old(self).written() + (le_bytes(twos(value as int, 8), 1)),
            old(self).infallible() ==> r is Ok,
            final(self).infallible() == old(self).infallible(),
    ;

    /// Serialize a signed 16-bit integer.
    fn serialize_i16(&mut self, value: i16) -> (r: Result<(), Self::Error>)
        ensures
            r is Ok ==> final(self).written() == old(self).written() + (le_bytes(twos(value as int, 16), 2)),
            old(self).infallible() ==> r is Ok,
            final(self).infallible() == old(self).infallible(),
    ;

    /// Serialize a signed 32-bit integer.
    fn serialize_i32(&mut self, value: i32) -> (r: Result<(), Self::Error>)
        ensures
            r is Ok ==> final(self).written() == old(self).written() + (le_bytes(twos(value as int, 32), 4)),
            old(self).infallible() ==> r is Ok,
            final(self).infallible() == old(self).infallible(),
    ;

    /// Serialize a signed 64-bit integer.
    fn serialize_i64(&mut self, value: i64) -> (r: Result<(), Self::Error>)
        ensures
            r is Ok ==> final(self).written() == old(self).written() + (le_bytes(twos(value as int, 64), 8)),
            old(self).infallible() ==> r is Ok,
            final(self).infallible() == old(self).infallible(),
    ;

    /// Serialize a signed 128-bit integer.
    fn serialize_i128(&mut self, value: i128) -> (r: Result<(), Self::Error>)
        ensures
            r is Ok ==> final(self).written() == old(self).written() + (le_bytes(twos(value as int, 128), 16)),
            old(self).infallible() ==> r is Ok,
            final(self).infallible() == old(self).infallible(),
    ;

    /// Serialize an `isize` integer, as an `i64`.
    fn serialize_isize(&mut self, value: isize) -> (r: Result<(), Self::Error>)
        ensures
            r is Ok ==> final(self).written() == old(self).written() + (le_bytes(twos(value as int, 64), 8)),
            old(self).infallible() ==> r is Ok,
            final(self).infallible() == old(self).infallible(),
    {
        self.serialize_i64(value as i64)
    }

    /// Serialize a single-precision floating-point value, given its bits.
    fn serialize_f32(&mut self, bits: u32) -> (r: Result<(), Self::Error>)
        ensures
            r is Ok ==> final(self).written() == old(self).written() + (le_bytes(bits as nat, 4)),
            old(self).infallible() ==> r is Ok,
            final(self).infallible() == old(self).infallible(),
    ;

    /// Serialize a double-precision floating-point value, given its bits.
    fn serialize_f64(&mut self, bits: u64) -> (r: Result<(), Self::Error>)
        ensures
            r is Ok ==> final(self).written() == old(self).written() + (le_bytes(bits as nat, 8)),
            old(self).infallible() ==> r is Ok,
            final(self).infallible() == old(self).infallible(),
    ;

    /// Serialize a boolean value, as the byte 1 or 0.
    fn serialize_bool(&mut self, value: bool) -> (r: Result<(), Self::Error>)
        ensures
            r is Ok ==> final(self).written() == old(self).written() + (seq![if value { 1u8 } else { 0u8 }]),
            old(self).infallible() ==> r is Ok,
            final(self).infallible() == old(self).infallible(),
    {
        self.serialize_u8(if value {
            1u8
        } else {
            0u8
        })
    }

    /// Serialize a UTF-8 string slice: its length in bytes, then its bytes.
    fn serialize_str(&mut self, value: &str) -> (r: Result<(), Self::Error>)
        ensures
            r is Ok ==> final(self).written() == old(self).written() + (var_bytes(encode_utf8(value@).len()) + encode_utf8(value@)),
            old(self).infallible() ==> r is Ok,
            final(self).infallible() == old(self).infallible(),
    ;

    /// Serialize a raw byte slice, with no length before it.
    fn serialize_bytes(&mut self, value: &[u8]) -> (r: Result<(), Self::Error>)
        ensures
            r is Ok ==> final(self).written() == old(self).written() + (value@),
            old(self).infallible() ==> r is Ok,
            final(self).infallible() == old(self).infallible(),
    ;
}

/// An extension trait for [`Serializer`] that provides variable-length
/// serialization methods.
pub trait SerializerExt: Serializer {
    /// Serialize a variable-length unsigned 16-bit integer.
    fn serialize_var_u16(&mut self, val: u16) -> (r: Result<(), Self::Error>)
        ensures
            r is Ok ==> final(self).written() == old(self).written() + (var_bytes(val as nat)),
            old(self).infallible() ==> r is Ok,
            final(self).infallible() == old(self).infallible(),
    ;

    /// Serialize a variable-length unsigned 32-bit integer.
    fn serialize_var_u32(&mut self, val: u32) -> (r: Result<(), Self::Error>)
        ensures
            r is Ok ==> final(self).written() == old(self).written() + (var_bytes(val as nat)),
            old(self).infallible() ==> r is Ok,
            final(self).infallible() == old(self).infallible(),
    ;

    /// Serialize a variable-length unsigned 64-bit integer.
    fn serialize_var_u64(&mut self, val: u64) -> (r: Result<(), Self::Error>)
        ensures
            r is Ok ==> final(self).written() == old(self).written() + (var_bytes(val as nat)),
            old(self).infallible() ==> r is Ok,
            final(self).infallible() == old(self).infallible(),
    ;

    /// Serialize a variable-length unsigned 128-bit integer.
    fn serialize_var_u128(&mut self, val: u128) -> (r: Result<(), Self::Error>)
        ensures
            r is Ok ==> final(self).written() == old(self).written() + (var_bytes(val as nat)),
            old(self).infallible() ==> r is Ok,
            final(self).infallible() == old(self).infallible(),
    ;

    /// Serialize a variable-length `usize` integer, as a `u64`.
    fn serialize_var_usize(&mut self, val: usize) -> (r: Result<(), Self::Error>)
        ensures
            r is Ok ==> final(self).written() == old(self).written() + (var_bytes(val as nat)),
            old(self).infallible() ==> r is Ok,
            final(self).infallible() == old(self).infallible(),
    {
        self.serialize_var_u64(val as u64)
    }

    /// Serialize a variable-length signed 16-bit integer, as its bits.
    fn serialize_var_i16(&mut self, val: i16) -> (r: Result<(), Self::Error>)
        ensures
            r is Ok ==> final(self).written() == old(self).written() + (var_bytes(twos(val as int, 16))),
            old(self).infallible() ==> r is Ok,
            final(self).infallible() == old(self).infallible(),
    {
        self.serialize_var_u16(unsigned_bits(val as i128, 16) as u16)
    }

    /// Serialize a variable-length signed 32-bit integer, as its bits.
    fn serialize_var_i32(&mut self, val: i32) -> (r: Result<(), Self::Error>)
        ensures
            r is Ok ==> final(self).written() == old(self).written() + (var_bytes(twos(val as int, 32))),
            old(self).infallible() ==> r is Ok,
            final(self).infallible() == old(self).infallible(),
    {
        self.serialize_var_u32(unsigned_bits(val as i128, 32) as u32)
    }

    /// Serialize a variable-length signed 64-bit integer, as its bits.
    fn serialize_var_i64(&mut self, val: i64) -> (r: Result<(), Self::Error>)
        ensures
            r is Ok ==> final(self).written() == old(self).written() + (var_bytes(twos(val as int, 64))),
            old(self).infallible() ==> r is Ok,
            final(self).infallible() == old(self).infallible(),
    {
        self.serialize_var_u64(unsigned_bits(val as i128, 64) as u64)
    }

    /// Serialize a variable-length signed 128-bit integer, as its bits.
    fn serialize_var_i128(&mut self, val: i128) -> (r: Result<(), Self::Error>)
        ensures
            r is Ok ==> final(self).written() == old(self).written() + (var_bytes(twos(val as int, 128))),
            old(self).infallible() ==> r is Ok,
            final(self).infallible() == old(self).infallible(),
    {
        self.serialize_var_u128(unsigned_bits(val, 128))
    }

    /// Serialize a variable-length signed `isize` integer, as an `i64`.
    fn serialize_var_isize(&mut self, val: isize) -> (r: Result<(), Self::Error>)
        ensures
            r is Ok ==> final(self).written() == old(self).written() + (var_bytes(twos(val as int, 64))),
            old(self).infallible() ==> r is Ok,
            final(self).infallible() == old(self).infallible(),
    {
        self.serialize_var_i64(val as i64)
    }
}

/// The unsigned number with the same `bits`-bit two's complement as `v`.
pub fn unsigned_bits(v: i128, bits: u32) -> (r: u128)
    requires
        bits == 8 || bits == 16 || bits == 32 || bits == 64 || bits == 128,
        bits < 128 ==> -(pow2(bits as nat) as int) / 2 <= v < (pow2(bits as nat) as int) / 2,
    ensures
        r == twos(v as int, bits as nat),
        r < pow2(bits as nat),
{
    if v >= 0 {
        proof {
            vstd::arithmetic::div_mod::lemma_small_mod(v as nat, pow2(bits as nat));
        }
        v as u128
    } else if bits == 128 {
        let below = (-(v + 1)) as u128;
        proof {
            let m = pow2(128) as int;
            vstd::arithmetic::div_mod::lemma_mod_add_multiples_vanish(v as int, m);
            vstd::arithmetic::div_mod::lemma_small_mod((v + m) as nat, m as nat);
        }
        u128::MAX - below
    } else {
        let bound: u128 = if bits == 8 {
            0x100
        } else if bits == 16 {
            0x1_0000
        } else if bits == 32 {
            0x1_0000_0000
        } else {
            0x1_0000_0000_0000_0000
        };
        let below = (-(v + 1)) as u128;
        proof {
            let m = pow2(bits as nat) as int;
            vstd::arithmetic::div_mod::lemma_mod_add_multiples_vanish(v as int, m);
            vstd::arithmetic::div_mod::lemma_small_mod((v + m) as nat, m as nat);
        }
        bound - 1 - below
    }
}

// ---------------------------------------------------------------------------------------------

/// A serializer for Minecraft protocol data, writing to the adapter it holds.
pub struct McSerializer<W: WriteAdapter>(pub W);

impl<W: WriteAdapter> McSerializer<W> {
    /// Writes the variable-length encoding of `val`.
    fn write_var(&mut self, val: u128) -> (r: Result<(), W::Error>)
        ensures
            r is Ok ==> final(self).0.written() == old(self).0.written() + var_bytes(val as nat),
            old(self).0.infallible() ==> r is Ok,
            final(self).0.infallible() == old(self).0.infallible(),
    {
        let mut buffer = [0u8; 19];
        let length = variable_to_bytes(val, &mut buffer);
        proof {
            lemma_var_bytes_width(val as nat, 128);
        }
        let bytes = &buffer[0..length];
        assert(bytes@ =~= var_bytes(val as nat));
        self.0.write(bytes)
    }

    /// Writes the low `n` bytes of `v`, least significant first.
    fn write_le_bytes(&mut self, v: u128, n: usize) -> (r: Result<(), W::Error>)
        requires
            n <= 16,
        ensures
            r is Ok ==> final(self).0.written() == old(self).0.written() + le_bytes(v as nat, n as nat),
            old(self).0.infallible() ==> r is Ok,
            final(self).0.infallible() == old(self).0.infallible(),
    {
        let bytes = write_le(v, n);
        self.0.write(bytes.as_slice())
    }
}

impl<W: WriteAdapter> Serializer for McSerializer<W> {
    type Error = W::Error;

    open spec fn written(&self) -> Seq<u8> {
        self.0.written()
    }

    open spec fn infallible(&self) -> bool {
        self.0.infallible()
    }

    fn serialize_unit(&mut self) -> (r: Result<(), Self::Error>)
        ensures
            r is Ok,
            *final(self) == *old(self),
    {
        assert(self.0.written() + seq![] =~= self.0.written());
        Ok(())
    }

    fn serialize_u8(&mut self, value: u8) -> (r: Result<(), Self::Error>) {
        let bytes = [value];
        assert(bytes@ =~= seq![value]);
        self.0.write(&bytes)
    }

    fn serialize_u16(&mut self, value: u16) -> (r: Result<(), Self::Error>) {
        self.write_le_bytes(value as u128, 2)
    }

    fn serialize_u32(&mut self, value: u32) -> (r: Result<(), Self::Error>) {
        self.write_le_bytes(value as u128, 4)
    }

    fn serialize_u64(&mut self, value: u64) -> (r: Result<(), Self::Error>) {
        self.write_le_bytes(value as u128, 8)
    }

    fn serialize_u128(&mut self, value: u128) -> (r: Result<(), Self::Error>) {
        self.write_le_bytes(value, 16)
    }

    fn serialize_i8(&mut self, value: i8) -> (r: Result<(), Self::Error>) {
        self.write_le_bytes(unsigned_bits(value as i128, 8), 1)
    }

    fn serialize_i16(&mut self, value: i16) -> (r: Result<(), Self::Error>) {
        self.write_le_bytes(unsigned_bits(value as i128, 16), 2)
    }

    fn serialize_i32(&mut self, value: i32) -> (r: Result<(), Self::Error>) {
        self.write_le_bytes(unsigned_bits(value as i128, 32), 4)
    }

    fn serialize_i64(&mut self, value: i64) -> (r: Result<(), Self::Error>) {
        self.write_le_bytes(unsigned_bits(value as i128, 64), 8)
    }

    fn serialize_i128(&mut self, value: i128) -> (r: Result<(), Self::Error>) {
        self.write_le_bytes(unsigned_bits(value, 128), 16)
    }

    fn serialize_f32(&mut self, bits: u32) -> (r: Result<(), Self::Error>) {
        self.write_le_bytes(bits as u128, 4)
    }

    fn serialize_f64(&mut self, bits: u64) -> (r: Result<(), Self::Error>) {
        self.write_le_bytes(bits as u128, 8)
    }

    fn serialize_str(&mut self, value: &str) -> (r: Result<(), Self::Error>) {
        let bytes = value.as_bytes();
        match self.write_var(bytes.len() as u128) {
            Ok(()) => {},
            Err(e) => return Err(e),
        }
        let ghost mid = self.0.written();
        let r = self.serialize_bytes(bytes);
        proof {
            let vb = var_bytes(encode_utf8(value@).len());
            let eb = encode_utf8(value@);
            assert(bytes@ == eb);
            assert(mid == old(self).0.written() + vb);
            assert((old(self).0.written() + vb) + eb =~= old(self).0.written() + (vb + eb));
        }
        r
    }

    fn serialize_bytes(&mut self, value: &[u8]) -> (r: Result<(), Self::Error>) {
        self.0.write(value)
    }
}

impl<W: WriteAdapter> SerializerExt for McSerializer<W> {
    fn serialize_var_u16(&mut self, val: u16) -> (r: Result<(), Self::Error>) {
        self.write_var(val as u128)
    }

    fn serialize_var_u32(&mut self, val: u32) -> (r: Result<(), Self::Error>) {
        self.write_var(val as u128)
    }

    fn serialize_var_u64(&mut self, val: u64) -> (r: Result<(), Self::Error>) {
        self.write_var(val as u128)
    }

    fn serialize_var_u128(&mut self, val: u128) -> (r: Result<(), Self::Error>) {
        self.write_var(val)
    }
}

} // verus!
