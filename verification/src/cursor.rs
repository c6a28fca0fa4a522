//! A cursor over input bytes, and reading variable-length integers from them.
use crate::varint::{read_var, var_read_width};
use vstd::prelude::*;

verus! {

/// An error indicating that the end of the input was reached unexpectedly.
#[derive(Debug, Clone, Copy, PartialEq, Eq, Structural)]
pub struct EndOfInput {
    /// The number of bytes that were read.
    pub had: usize,
    /// The number of additional bytes that were expected.
    pub expected: usize,
}

/// A `no_std`-compatible cursor for deserialization.
pub struct InputCursor<'input> {
    slice: &'input [u8],
    offset: usize,
}

/// Splits the first `N` bytes off `s`, when it has that many.
#[verifier::external_body]
fn split_first_chunk_of<'a, const N: usize>(s: &'a [u8]) -> (r: Option<(&'a [u8; N], &'a [u8])>)
    ensures
        (r is Some) == (N <= s@.len()),
        r matches Some((head, tail)) ==> head@ == s@.take(N as int) && tail@ == s@.skip(N as int),
{
    s.split_first_chunk::<N>()
}

impl<'input> InputCursor<'input> {
    /// The cursor never points past the end of its input.
    #[verifier::type_invariant]
    pub closed spec fn inv(self) -> bool {
        self.offset <= self.slice@.len()
    }

    /// All the bytes the cursor was made over.
    pub closed spec fn data(self) -> Seq<u8> {
        self.slice@
    }

    /// How many bytes have been read.
    pub closed spec fn pos(self) -> nat {
        self.offset as nat
    }

    /// The bytes not read yet.
    pub open spec fn rest(self) -> Seq<u8> {
        self.data().skip(self.pos() as int)
    }

    /// The position never passes the end of the input.
    pub proof fn lemma_rest_len(self)
        requires
            self.inv(),
        ensures
            self.pos() <= self.data().len(),
            self.rest().len() == self.data().len() - self.pos(),
    {
    }

    /// Create a new [`InputCursor`] from a byte slice.
    pub fn new(slice: &'input [u8]) -> (c: Self)
        ensures
            c.data() == slice@,
            c.pos() == 0,
    {
        Self { slice, offset: 0 }
    }

    /// Get the remaining bytes in the cursor as a slice.
    pub fn as_slice(&self) -> (r: &'input [u8])
        ensures
            r@ == self.rest(),
    {
        proof {
            use_type_invariant(self);
        }
        &self.slice[self.offset..self.slice.len()]
    }

    /// Read bytes into the given buffer, advancing the cursor.
    ///
    /// Fails with [`EndOfInput`] when fewer bytes than the buffer holds are
    /// left; the cursor and the buffer are then left as they were.
    pub fn read(&mut self, buf: &mut [u8]) -> (r: Result<(), EndOfInput>)
        ensures
            final(self).data() == old(self).data(),
            old(self).pos() + old(buf)@.len() <= old(self).data().len() ==> {
                &&& r is Ok
                &&& final(buf)@ == old(self).rest().take(old(buf)@.len() as int)
                &&& final(self).pos() == old(self).pos() + old(buf)@.len()
            },
            old(self).pos() + old(buf)@.len() > old(self).data().len() ==> {
                &&& r == Err::<(), EndOfInput>(
                    EndOfInput {
                        had: (old(self).data().len() - old(self).pos()) as usize,
                        expected: old(buf)@.len() as usize,
                    },
                )
                &&& final(self).pos() == old(self).pos()
                &&& final(buf)@ == old(buf)@
            },
    {
        proof {
            use_type_invariant(&*self);
        }
        if buf.len() > self.slice.len() - self.offset {
            return Err(EndOfInput { had: self.slice.len() - self.offset, expected: buf.len() });
        }
        let start = self.offset;
        let total = self.slice.len();
        let len = buf.len();
        let mut i: usize = 0;
        while i < len
            invariant
                start == self.offset,
                len == buf@.len(),
                total == self.slice@.len(),
                start + len <= total,
                i <= len,
                buf@.len() == old(buf)@.len(),
                forall|j: int| 0 <= j < i ==> buf@[j] == self.slice@[start + j],
            decreases len - i,
        {
            buf[i] = self.slice[start + i];
            i += 1;
        }
        self.offset = start + buf.len();
        assert(buf@ =~= old(self).rest().take(old(buf)@.len() as int));
        Ok(())
    }

    /// Take the next `n` bytes from the cursor, advancing the cursor.
    ///
    /// Fails with [`EndOfInput`] when fewer than `n` bytes are left; the
    /// cursor is then left as it was.
    pub fn take(&mut self, n: usize) -> (r: Result<&'input [u8], EndOfInput>)
        ensures
            final(self).data() == old(self).data(),
            old(self).pos() + n <= old(self).data().len() ==> {
                &&& r matches Ok(bytes) && bytes@ == old(self).rest().take(n as int)
                &&& final(self).pos() == old(self).pos() + n
            },
            old(self).pos() + n > old(self).data().len() ==> {
                &&& r == Err::<&[u8], EndOfInput>(
                    EndOfInput { had: (old(self).data().len() - old(self).pos()) as usize, expected: n },
                )
                &&& final(self).pos() == old(self).pos()
            },
    {
        proof {
            use_type_invariant(&*self);
        }
        if n > self.slice.len() - self.offset {
            return Err(EndOfInput { had: self.slice.len() - self.offset, expected: n });
        }
        let result = &self.slice[self.offset..self.offset + n];
        self.offset += n;
        assert(result@ =~= old(self).rest().take(n as int));
        Ok(result)
    }

    /// Take the next `N` bytes from the cursor, advancing the cursor.
    ///
    /// Fails with [`EndOfInput`] when fewer than `N` bytes are left; the
    /// cursor is then left as it was.
    pub fn take_array<const N: usize>(&mut self) -> (r: Result<&'input [u8; N], EndOfInput>)
        ensures
            final(self).data() == old(self).data(),
            old(self).pos() + N <= old(self).data().len() ==> {
                &&& r matches Ok(bytes) && bytes@ == old(self).rest().take(N as int)
                &&& final(self).pos() == old(self).pos() + N
            },
            old(self).pos() + N > old(self).data().len() ==> {
                &&& r == Err::<&[u8; N], EndOfInput>(
                    EndOfInput { had: (old(self).data().len() - old(self).pos()) as usize, expected: N },
                )
                &&& final(self).pos() == old(self).pos()
            },
    {
        proof {
            use_type_invariant(&*self);
        }
        let remaining = &self.slice[self.offset..self.slice.len()];
        if let Some((start, _end)) = split_first_chunk_of::<N>(remaining) {
            self.offset += N;
            Ok(start)
        } else {
            Err(EndOfInput { had: remaining.len(), expected: N })
        }
    }

    /// Advance the cursor by `n` bytes.
    ///
    /// Fails with [`EndOfInput`] when fewer than `n` bytes are left; the
    /// cursor is then left as it was.
    pub fn consume(&mut self, n: usize) -> (r: Result<(), EndOfInput>)
        ensures
            final(self).data() == old(self).data(),
            old(self).pos() + n <= old(self).data().len() ==> {
                &&& r is Ok
                &&& final(self).pos() == old(self).pos() + n
            },
            old(self).pos() + n > old(self).data().len() ==> {
                &&& r == Err::<(), EndOfInput>(
                    EndOfInput { had: (old(self).data().len() - old(self).pos()) as usize, expected: n },
                )
                &&& final(self).pos() == old(self).pos()
            },
    {
        proof {
            use_type_invariant(&*self);
        }
        if n > self.slice.len() - self.offset {
            Err(EndOfInput { had: self.slice.len() - self.offset, expected: n })
        } else {
            self.offset += n;
            Ok(())
        }
    }
}

/// Read a variable-length integer of up to 128 bits from the start of
/// `bytes`: the number of bytes it takes and the integer.
///
/// Fails with [`EndOfInput`] when `bytes` ends before the integer does: all
/// of `bytes` was read, and at least one more byte is needed.
pub fn bytes_to_variable(bytes: &[u8]) -> (r: Result<(usize, u128), EndOfInput>)
    ensures
        match var_read_width(bytes@, 19, 128) {
            Some((v, n)) => r == Ok::<(usize, u128), EndOfInput>((n as usize, v as u128)),
            None => r == Err::<(usize, u128), EndOfInput>(
                EndOfInput { had: bytes@.len() as usize, expected: 1 },
            ),
        },
{
    match read_var(bytes, 19) {
        Some((value, consumed)) => Ok((consumed, value)),
        None => Err(EndOfInput { had: bytes.len(), expected: 1 }),
    }
}

} // verus!
