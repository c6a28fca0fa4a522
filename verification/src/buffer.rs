//! Destinations for the big-endian format, and writing the scalars of a
//! value to them.
use crate::bytes::{be_bytes, write_be};
use crate::peek::{flat, parse_peek, PeekValue, PeekView, SerializeIterError};
use crate::value::Value;
use crate::varint::{lemma_var_bytes_width, var_bytes, variable_to_bytes};
use vstd::prelude::*;

verus! {

/// A writer that can be used for serialization.
pub trait SerializeWriter {
    /// Everything written so far.
    spec fn written(&self) -> Seq<u8>;

    /// Whether writing never fails.
    spec fn infallible(&self) -> bool;

    /// Write data to the writer.
    ///
    /// Returns `true` if the data was written successfully,
    /// or `false` if an error occurred.
    fn write_data(&mut self, data: &[u8]) -> (ok: bool)
        ensures
            ok ==> final(self).written() == old(self).written() + data@,
            old(self).infallible() ==> ok,
            final(self).infallible() == old(self).infallible(),
    ;
}

/// A buffer that can be used for serialization.
pub trait SerializeBuffer: SerializeWriter {
    /// Retrieve the contents written to the buffer.
    ///
    /// This only returns the data that has been written so far,
    /// not the entire capacity of the buffer.
    fn get_content(&self) -> (r: &[u8])
        ensures
            r@ == self.written(),
    ;
}

impl SerializeWriter for Vec<u8> {
    open spec fn written(&self) -> Seq<u8> {
        self@
    }

    open spec fn infallible(&self) -> bool {
        true
    }

    fn write_data(&mut self, data: &[u8]) -> (ok: bool) {
        let ghost before = self@;
        self.extend_from_slice(data);
        assert(self@ =~= before + data@);
        true
    }
}

impl SerializeBuffer for Vec<u8> {
    fn get_content(&self) -> (r: &[u8]) {
        self.as_slice()
    }
}

/// A wrapper around a writer that implements `futures_lite::AsyncWrite`.
#[derive(Debug, Default, Clone, Copy, PartialEq, Eq, Hash)]
pub struct FuturesLite<T>(pub T);

/// A wrapper around a writer that implements `tokio::io::AsyncWrite`.
#[derive(Debug, Default, Clone, Copy, PartialEq, Eq, Hash)]
pub struct Tokio<T>(pub T);

/// An error that can occur during serialization: the value has a part the
/// format cannot write, or the destination refused the bytes.
#[derive(Debug, Clone, Copy, PartialEq, Eq, Structural)]
pub struct SerializeError;

impl SerializeError {
    /// Create a new [`SerializeError`].
    pub fn new() -> (r: Self)
        ensures
            r == SerializeError,
    {
        SerializeError
    }
}

/// The bytes the format writes for one scalar: integers and floats big-endian,
/// variable-length integers seven bits at a time, bytes as they are.
pub open spec fn tok_bytes(t: PeekView) -> Seq<u8> {
    match t {
        PeekView::Unit => seq![],
        PeekView::Bool(b) => seq![if b { 1u8 } else { 0u8 }],
        PeekView::U8(x) => seq![x],
        PeekView::U16(x) => be_bytes(x as nat, 2),
        PeekView::U32(x) => be_bytes(x as nat, 4),
        PeekView::U64(x) => be_bytes(x as nat, 8),
        PeekView::U128(x) => be_bytes(x as nat, 16),
        PeekView::Variable(x) => var_bytes(x as nat),
        PeekView::F32(x) => be_bytes(x as nat, 4),
        PeekView::F64(x) => be_bytes(x as nat, 8),
        PeekView::Bytes(b) => b,
    }
}

/// The bytes of a sequence of scalars, one after the other.
pub open spec fn toks_bytes(s: Seq<PeekView>) -> Seq<u8>
    decreases s.len(),
{
    if s.len() == 0 {
        seq![]
    } else {
        toks_bytes(s.drop_last()) + tok_bytes(s.last())
    }
}

/// The bytes of a whole value in the big-endian format, when it can be
/// written.
pub open spec fn be_encoding(v: Value) -> Option<Seq<u8>> {
    if flat(v, false).error {
        None
    } else {
        Some(toks_bytes(flat(v, false).toks))
    }
}

/// Writes the bytes of one scalar.
fn write_peek<B: SerializeWriter>(buffer: &mut B, val: PeekValue) -> (ok: bool)
    ensures
        ok ==> final(buffer).written() == old(buffer).written() + tok_bytes(val@),
        old(buffer).infallible() ==> ok,
        final(buffer).infallible() == old(buffer).infallible(),
{
    match val {
        PeekValue::Unit => {
            assert(old(buffer).written() + seq![] =~= old(buffer).written());
            true
        },
        PeekValue::Bool(b) => {
            let bytes = [if b { 1u8 } else { 0u8 }];
            assert(bytes@ =~= tok_bytes(val@));
            buffer.write_data(&bytes)
        },
        PeekValue::U8(x) => {
            let bytes = [x];
            assert(bytes@ =~= tok_bytes(val@));
            buffer.write_data(&bytes)
        },
        PeekValue::U16(x) => buffer.write_data(write_be(x as u128, 2).as_slice()),
        PeekValue::U32(x) => buffer.write_data(write_be(x as u128, 4).as_slice()),
        PeekValue::U64(x) => buffer.write_data(write_be(x as u128, 8).as_slice()),
        PeekValue::U128(x) => buffer.write_data(write_be(x, 16).as_slice()),
        PeekValue::F32(x) => buffer.write_data(write_be(x as u128, 4).as_slice()),
        PeekValue::F64(x) => buffer.write_data(write_be(x as u128, 8).as_slice()),
        PeekValue::Bytes(b) => buffer.write_data(b),
        PeekValue::Variable(x) => {
            let mut scratch = [0u8; 19];
            let length = variable_to_bytes(x, &mut scratch);
            proof {
                lemma_var_bytes_width(x as nat, 128);
            }
            let bytes = &scratch[0..length];
            assert(bytes@ =~= var_bytes(x as nat));
            buffer.write_data(bytes)
        },
    }
}

/// Writes the scalars of a value to a buffer, big-endian.
///
/// # Errors
///
/// Returns a [`SerializeError`] when the value has a part the format cannot
/// write, before anything is written, or when the buffer refuses bytes.
pub fn to_buffer_inner<B: SerializeBuffer>(value: &Value, buffer: &mut B) -> (r: Result<(), SerializeError>)
    ensures
        be_encoding(*value) is None ==> r is Err && final(buffer).written() == old(buffer).written(),
        r is Ok ==> be_encoding(*value) == Some(final(buffer).written().skip(old(buffer).written().len() as int))
            && final(buffer).written().take(old(buffer).written().len() as int) == old(buffer).written(),
        be_encoding(*value) is Some && old(buffer).infallible() ==> r is Ok,
        final(buffer).infallible() == old(buffer).infallible(),
{
    let values = match parse_peek(value) {
        Ok(values) => values,
        Err(_) => return Err(SerializeError::new()),
    };
    let ghost start = buffer.written();
    let ghost toks = values@.map_values(|p: PeekValue| p@);
    let mut i: usize = 0;
    while i < values.len()
        invariant
            i <= values.len(),
            toks == values@.map_values(|p: PeekValue| p@),
            buffer.written() == start + toks_bytes(toks.take(i as int)),
            buffer.infallible() == old(buffer).infallible(),
            start == old(buffer).written(),
            !flat(*value, false).error,
            toks == flat(*value, false).toks,
        decreases values.len() - i,
    {
        let ok = write_peek(buffer, values[i]);
        if !ok {
            return Err(SerializeError::new());
        }
        proof {
            assert(toks.take(i + 1).drop_last() =~= toks.take(i as int));
            assert(start + toks_bytes(toks.take(i as int)) + tok_bytes(toks[i as int]) =~= start
                + toks_bytes(toks.take(i + 1)));
        }
        i = i + 1;
    }
    proof {
        assert(toks.take(i as int) =~= toks);
        let w = buffer.written();
        assert(w.skip(start.len() as int) =~= toks_bytes(toks));
        assert(w.take(start.len() as int) =~= start);
    }
    Ok(())
}

/// Serialize a value into a new `Vec<u8>`, big-endian.
///
/// # Errors
///
/// Returns a [`SerializeError`] when the value has a part the format cannot
/// write.
pub fn to_vec(value: &Value) -> (r: Result<Vec<u8>, SerializeError>)
    ensures
        r is Ok <==> be_encoding(*value) is Some,
        r matches Ok(v) ==> be_encoding(*value) == Some(v@),
{
    let mut buffer: Vec<u8> = Vec::new();
    match to_buffer_inner(value, &mut buffer) {
        Ok(()) => {
            assert(buffer@.skip(0) =~= buffer@);
            Ok(buffer)
        },
        Err(e) => Err(e),
    }
}

} // verus!
