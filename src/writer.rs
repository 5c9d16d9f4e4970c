//! The write side of the bit cursor.
use crate::bits::{
    bits_of, byte_bit, int_bit, int_bits, lemma_bits_of_update, lemma_byte_bits, lemma_byte_write,
    lemma_u64_bit, pad_len, splice, zeros,
};
use crate::BitPackError;
use vstd::prelude::*;

verus! {

/// A cursor that writes bits, least significant first, into a buffer of fixed
/// length that it owns.
///
/// It never panics; a write that does not fit fails with
/// [`BitPackError::OutOfBounds`], after which the writer should not be used
/// again.
pub struct BitPackWriter {
    /// The buffer written to.
    buffer: Vec<u8>,
    /// The position of the writer, in bits.
    position: usize,
}

impl BitPackWriter {
    /// The position stays inside the buffer, and every bit position fits in a `usize`.
    pub closed spec fn wf(&self) -> bool {
        self.position <= self.buffer@.len() * 8 <= usize::MAX
    }

    /// The bytes under the cursor.
    pub closed spec fn buffer(&self) -> Seq<u8> {
        self.buffer@
    }

    /// The bit position of the cursor.
    pub closed spec fn pos(&self) -> nat {
        self.position as nat
    }

    /// A well-formed writer stands inside its buffer.
    pub proof fn lemma_pos_in_bounds(&self)
        requires
            self.wf(),
        ensures
            self.pos() <= self.stream().len(),
    {
    }

    /// The bits under the cursor, in wire order.
    pub open spec fn stream(&self) -> Seq<bool> {
        bits_of(self.buffer())
    }

    /// Whether `n` more bits fit.
    pub open spec fn has(&self, n: nat) -> bool {
        self.pos() + n <= self.stream().len()
    }

    /// `self` is `prev` with `w` written at its position.
    pub open spec fn wrote(&self, prev: &Self, w: Seq<bool>) -> bool {
        &&& self.buffer().len() == prev.buffer().len()
        &&& self.stream() == splice(prev.stream(), prev.pos() as int, w)
        &&& self.pos() == prev.pos() + w.len()
    }

    pub fn new(buffer: Vec<u8>) -> (r: Self)
        requires
            buffer@.len() <= usize::MAX / 8,
        ensures
            r.wf(),
            r.buffer() == buffer@,
            r.pos() == 0,
    {
        BitPackWriter { buffer, position: 0 }
    }

    /// A writer that starts at bit `position`, for instance past a header
    /// that the caller writes on its own.
    pub fn with_position(buffer: Vec<u8>, position: usize) -> (r: Self)
        requires
            buffer@.len() <= usize::MAX / 8,
            position <= buffer@.len() * 8,
        ensures
            r.wf(),
            r.buffer() == buffer@,
            r.pos() == position,
    {
        BitPackWriter { buffer, position }
    }

    /// The current position of the writer, in bits.
    pub fn position(&self) -> (r: usize)
        requires
            self.wf(),
        ensures
            r == self.pos(),
            self.pos() <= self.stream().len(),
    {
        self.position
    }

    /// The bytes written so far, and those not yet reached.
    pub fn as_bytes(&self) -> (r: &[u8])
        ensures
            r@ == self.buffer(),
    {
        self.buffer.as_slice()
    }

    /// Gives the buffer back.
    pub fn into_bytes(self) -> (r: Vec<u8>)
        ensures
            r@ == self.buffer(),
    {
        self.buffer
    }

    pub fn write_bit(&mut self, bit: bool) -> (r: Result<(), BitPackError>)
        requires
            old(self).wf(),
        ensures
            final(self).wf(),
            old(self).has(1) ==> r is Ok && final(self).wrote(old(self), seq![bit]),
            !old(self).has(1) ==> r == Err::<(), BitPackError>(BitPackError::OutOfBounds)
                && *final(self) == *old(self),
    {
        let pos_in_buffer = self.position / 8;
        let pos_in_byte = self.position % 8;
        assert((pos_in_buffer < self.buffer@.len()) == (self.pos() < self.stream().len()));
        if pos_in_buffer < self.buffer.len() {
            let byte = self.buffer[pos_in_buffer];
            let rhs = 1u8 << (pos_in_byte as u8);
            let nb = if bit {
                byte | rhs
            } else {
                byte & !rhs
            };
            proof {
                lemma_byte_write(byte, pos_in_byte as u8, bit);
                lemma_bits_of_update(
                    self.buffer@,
                    pos_in_buffer as int,
                    pos_in_byte as int,
                    nb,
                    bit,
                );
                assert(self.stream().update(self.pos() as int, bit) =~= splice(
                    self.stream(),
                    self.pos() as int,
                    seq![bit],
                ));
            }
            self.buffer.set(pos_in_buffer, nb);
            self.position = self.position + 1;
            Ok(())
        } else {
            Err(BitPackError::OutOfBounds)
        }
    }

    /// Writes the lowest `bits` bits of `value`, least significant bit first.
    pub fn write_u64(&mut self, value: u64, bits: usize) -> (r: Result<(), BitPackError>)
        requires
            old(self).wf(),
            bits <= 64,
        ensures
            final(self).wf(),
            final(self).buffer().len() == old(self).buffer().len(),
            old(self).has(bits as nat) ==> r is Ok && final(self).wrote(
                old(self),
                int_bits(value as nat, bits as nat),
            ),
            !old(self).has(bits as nat) ==> r == Err::<(), BitPackError>(BitPackError::OutOfBounds),
    {
        let ghost start = self.pos();
        let ghost stream = self.stream();
        let mut i: usize = 0;
        while i < bits
            invariant
                i <= bits <= 64,
                self.buffer().len() == old(self).buffer().len(),
                start == old(self).pos(),
                stream == old(self).stream(),
                self.pos() == start + i,
                self.wf(),
                self.pos() <= self.stream().len(),
                self.stream() == splice(stream, start as int, int_bits(value as nat, i as nat)),
            decreases bits - i,
        {
            let bit = (value >> (i as u64)) & 1 != 0;
            proof {
                lemma_u64_bit(value, i as u64);
            }
            let ghost before = self.stream();
            match self.write_bit(bit) {
                Ok(()) => {},
                Err(e) => {
                    return Err(e);
                },
            }
            proof {
                assert(splice(before, self.pos() - 1, seq![bit]) =~= splice(
                    stream,
                    start as int,
                    int_bits(value as nat, (i + 1) as nat),
                ));
            }
            i = i + 1;
        }
        Ok(())
    }

    /// Fills the rest of the current byte with zero bits.
    pub fn align(&mut self) -> (r: Result<(), BitPackError>)
        requires
            old(self).wf(),
        ensures
            final(self).wf(),
            final(self).buffer().len() == old(self).buffer().len(),
            old(self).has(pad_len(old(self).pos() as int)) ==> r is Ok && final(self).wrote(
                old(self),
                zeros(pad_len(old(self).pos() as int)),
            ),
            !old(self).has(pad_len(old(self).pos() as int)) ==> r == Err::<(), BitPackError>(
                BitPackError::OutOfBounds,
            ),
    {
        let ghost start = self.pos();
        let ghost stream = self.stream();
        let ghost pad = pad_len(start as int);
        while self.position % 8 != 0
            invariant
                self.buffer().len() == old(self).buffer().len(),
                start == old(self).pos(),
                stream == old(self).stream(),
                pad == pad_len(start as int),
                start <= self.pos() <= start + pad,
                self.pos() % 8 == 0 ==> self.pos() == start + pad,
                self.wf(),
                self.pos() <= self.stream().len(),
                self.stream() == splice(stream, start as int, zeros((self.pos() - start) as nat)),
            decreases start + pad - self.pos(),
        {
            let ghost before = self.stream();
            match self.write_bit(false) {
                Ok(()) => {},
                Err(e) => {
                    return Err(e);
                },
            }
            proof {
                assert(splice(before, self.pos() - 1, seq![false]) =~= splice(
                    stream,
                    start as int,
                    zeros((self.pos() - start) as nat),
                ));
            }
        }
        Ok(())
    }

    /// Writes each byte as an 8-bit integer.
    pub fn write_bytes(&mut self, bytes: &[u8]) -> (r: Result<(), BitPackError>)
        requires
            old(self).wf(),
        ensures
            final(self).wf(),
            final(self).buffer().len() == old(self).buffer().len(),
            old(self).has(8 * bytes@.len()) ==> r is Ok && final(self).wrote(
                old(self),
                bits_of(bytes@),
            ),
            !old(self).has(8 * bytes@.len()) ==> r == Err::<(), BitPackError>(
                BitPackError::OutOfBounds,
            ),
    {
        let ghost start = self.pos();
        let ghost stream = self.stream();
        let n = bytes.len();
        let mut i: usize = 0;
        while i < n
            invariant
                n == bytes@.len(),
                i <= n,
                self.buffer().len() == old(self).buffer().len(),
                start == old(self).pos(),
                stream == old(self).stream(),
                self.pos() == start + 8 * i,
                self.wf(),
                self.pos() <= self.stream().len(),
                self.stream() == splice(stream, start as int, bits_of(bytes@.subrange(0, i as int))),
            decreases n - i,
        {
            let ghost before = self.stream();
            match self.write_u64(bytes[i] as u64, 8) {
                Ok(()) => {},
                Err(e) => {
                    return Err(e);
                },
            }
            proof {
                let b = bytes@[i as int];
                let prefix = bytes@.subrange(0, i as int);
                let next = bytes@.subrange(0, i + 1);
                assert forall|k: int| 0 <= k < 8 implies #[trigger] int_bit(b as nat, k as nat)
                    == byte_bit(b, k) by {
                    lemma_byte_bits(b, k);
                }
                assert(bits_of(next) =~= bits_of(prefix) + int_bits(b as nat, 8)) by {
                    assert forall|j: int| 0 <= j < 8 * (i + 1) implies bits_of(next)[j] == (
                    bits_of(prefix) + int_bits(b as nat, 8))[j] by {
                        if j >= 8 * i {
                            assert(j / 8 == i);
                            assert(int_bit(b as nat, (j - 8 * i) as nat) == byte_bit(
                                b,
                                j - 8 * i,
                            ));
                        } else {
                            assert(j / 8 < i);
                        }
                    }
                }
                assert(splice(before, start + 8 * i, int_bits(b as nat, 8)) =~= splice(
                    stream,
                    start as int,
                    bits_of(next),
                ));
            }
            i = i + 1;
        }
        proof {
            assert(bytes@.subrange(0, n as int) =~= bytes@);
        }
        Ok(())
    }
}

} // verus!
