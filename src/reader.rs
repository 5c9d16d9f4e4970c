//! The read side of the bit cursor.
use crate::bits::{bits_of, lemma_u64_set_bit, lemma_uint_of_bound, pad_len, uint_of};
use crate::BitPackError;
use vstd::arithmetic::power2::*;
use vstd::prelude::*;

verus! {

/// A cursor that reads bits, least significant first, from a borrowed buffer.
///
/// It never panics, but after any of its methods returns an error the stream
/// may be left mid-value and the reader should not be used again.
pub struct BitPackReader<'a> {
    /// The buffer read from.
    buffer: &'a [u8],
    /// The position of the reader, in bits.
    position: usize,
}

impl<'a> BitPackReader<'a> {
    /// Every bit position of the buffer fits in a `usize`.
    #[verifier::type_invariant]
    spec fn inv(&self) -> bool {
        self.position <= self.buffer@.len() * 8 <= usize::MAX
    }

    /// The bytes under the cursor.
    pub closed spec fn buffer(&self) -> Seq<u8> {
        self.buffer@
    }

    /// The bit position of the cursor.
    pub closed spec fn pos(&self) -> nat {
        self.position as nat
    }

    /// The bits under the cursor, in wire order.
    pub open spec fn stream(&self) -> Seq<bool> {
        bits_of(self.buffer())
    }

    /// Whether `n` more bits can be read.
    pub open spec fn has(&self, n: nat) -> bool {
        self.pos() + n <= self.stream().len()
    }

    /// The `n` bits that come next.
    pub open spec fn next_bits(&self, n: nat) -> Seq<bool> {
        self.stream().subrange(self.pos() as int, (self.pos() + n) as int)
    }

    /// `self` is `prev` advanced by `n` bits over the same buffer.
    pub open spec fn advanced(&self, prev: &Self, n: nat) -> bool {
        &&& self.buffer() == prev.buffer()
        &&& self.pos() == prev.pos() + n
    }

    pub fn new(buffer: &'a [u8]) -> (r: Self)
        requires
            buffer@.len() <= usize::MAX / 8,
        ensures
            r.buffer() == buffer@,
            r.pos() == 0,
    {
        BitPackReader { buffer, position: 0 }
    }

    /// A reader that starts at bit `position`, for instance past a header
    /// that the caller has already consumed.
    pub fn with_position(buffer: &'a [u8], position: usize) -> (r: Self)
        requires
            buffer@.len() <= usize::MAX / 8,
            position <= buffer@.len() * 8,
        ensures
            r.buffer() == buffer@,
            r.pos() == position,
    {
        BitPackReader { buffer, position }
    }

    /// The current position of the reader, in bits.
    pub fn position(&self) -> (r: usize)
        ensures
            r == self.pos(),
            self.pos() <= self.stream().len(),
    {
        proof {
            use_type_invariant(self);
        }
        self.position
    }

    pub fn read_bit(&mut self) -> (r: Result<bool, BitPackError>)
        ensures
            final(self).buffer() == old(self).buffer(),
            old(self).has(1) ==> r == Ok::<bool, BitPackError>(old(self).stream()[old(self).pos() as int])
                && final(self).pos() == old(self).pos() + 1,
            !old(self).has(1) ==> r == Err::<bool, BitPackError>(BitPackError::OutOfBounds),
    {
        proof {
            use_type_invariant(&*self);
        }
        let pos_in_buffer = self.position / 8;
        let pos_in_byte = self.position % 8;
        assert((pos_in_buffer < self.buffer@.len()) == (self.pos() < self.stream().len()));
        if pos_in_buffer < self.buffer.len() {
            let byte = self.buffer[pos_in_buffer];
            let value = (byte >> (pos_in_byte as u8)) & 1 != 0;
            proof {
                let x = byte >> (pos_in_byte as u8);
                assert((x & 1u8 != 0) == (x & 1u8 == 1u8)) by (bit_vector);
            }
            self.position = self.position + 1;
            Ok(value)
        } else {
            Err(BitPackError::OutOfBounds)
        }
    }

    /// Reads `bits` bits as an unsigned integer, least significant bit first.
    pub fn read_u64(&mut self, bits: usize) -> (r: Result<u64, BitPackError>)
        requires
            bits <= 64,
        ensures
            final(self).buffer() == old(self).buffer(),
            old(self).has(bits as nat) ==> r == Ok::<u64, BitPackError>(
                uint_of(old(self).next_bits(bits as nat)) as u64,
            ) && final(self).pos() == old(self).pos() + bits,
            !old(self).has(bits as nat) ==> r == Err::<u64, BitPackError>(BitPackError::OutOfBounds),
            r is Ok ==> uint_of(old(self).next_bits(bits as nat)) <= u64::MAX,
    {
        proof {
            use_type_invariant(&*self);
            lemma2_to64();
        }
        let ghost start = self.pos();
        let ghost stream = self.stream();
        let mut value: u64 = 0;
        let mut i: usize = 0;
        while i < bits
            invariant
                i <= bits <= 64,
                self.buffer() == old(self).buffer(),
                stream == self.stream(),
                start == old(self).pos(),
                self.pos() == start + i,
                self.pos() <= stream.len(),
                value as nat == uint_of(stream.subrange(start as int, start + i)),
                (value as nat) < pow2(i as nat),
            decreases bits - i,
        {
            let bit = match self.read_bit() {
                Ok(b) => b,
                Err(e) => {
                    return Err(e);
                },
            };
            proof {
                let prev = stream.subrange(start as int, start + i);
                let next = stream.subrange(start as int, start + i + 1);
                assert(next.drop_last() =~= prev);
                lemma_pow2_unfold((i + 1) as nat);
            }
            if bit {
                proof {
                    lemma_u64_set_bit(value, i as u64);
                }
                value = value | (1u64 << (i as u64));
            }
            i = i + 1;
        }
        proof {
            lemma_uint_of_bound(stream.subrange(start as int, start + bits));
        }
        Ok(value)
    }

    /// Skips to the next byte boundary; the padding bits are not checked.
    pub fn align(&mut self) -> (r: Result<(), BitPackError>)
        ensures
            final(self).buffer() == old(self).buffer(),
            old(self).has(pad_len(old(self).pos() as int)) ==> r is Ok
                && final(self).pos() == old(self).pos() + pad_len(old(self).pos() as int),
            !old(self).has(pad_len(old(self).pos() as int)) ==> r == Err::<(), BitPackError>(BitPackError::OutOfBounds),
    {
        proof {
            use_type_invariant(&*self);
        }
        let ghost start = self.pos();
        while self.position % 8 != 0
            invariant
                self.buffer() == old(self).buffer(),
                start == old(self).pos(),
                start <= self.pos() <= start + pad_len(start as int),
                self.pos() % 8 == 0 ==> self.pos() == start + pad_len(start as int),
                self.pos() <= self.stream().len(),
            decreases start + pad_len(start as int) - self.pos(),
        {
            match self.read_bit() {
                Ok(_) => {},
                Err(e) => {
                    return Err(e);
                },
            }
        }
        Ok(())
    }

    /// Fills `buf`, each byte read as an 8-bit integer.
    pub fn read_bytes(&mut self, buf: &mut [u8]) -> (r: Result<(), BitPackError>)
        ensures
            final(self).buffer() == old(self).buffer(),
            final(buf)@.len() == old(buf)@.len(),
            old(self).has(8 * old(buf)@.len()) ==> r is Ok && final(self).pos() == old(self).pos() + 8
                * old(buf)@.len() && forall|k: int|
                0 <= k < old(buf)@.len() ==> #[trigger] final(buf)@[k] as nat == uint_of(
                    old(self).stream().subrange(old(self).pos() + 8 * k, old(self).pos() + 8 * k + 8),
                ),
            !old(self).has(8 * old(buf)@.len()) ==> r == Err::<(), BitPackError>(BitPackError::OutOfBounds),
    {
        proof {
            use_type_invariant(&*self);
        }
        let ghost start = self.pos();
        let ghost stream = self.stream();
        let n = buf.len();
        let mut i: usize = 0;
        while i < n
            invariant
                n == buf@.len() == old(buf)@.len(),
                i <= n,
                self.buffer() == old(self).buffer(),
                stream == self.stream(),
                start == old(self).pos(),
                self.pos() == start + 8 * i,
                self.pos() <= stream.len(),
                forall|k: int|
                    0 <= k < i ==> #[trigger] buf@[k] as nat == uint_of(
                        stream.subrange(start + 8 * k, start + 8 * k + 8),
                    ),
            decreases n - i,
        {
            let v = match self.read_u64(8) {
                Ok(v) => v,
                Err(e) => {
                    return Err(e);
                },
            };
            proof {
                let w = stream.subrange(start + 8 * i, start + 8 * i + 8);
                assert(w == self.stream().subrange(start + 8 * i, start + 8 * i + 8));
                lemma_uint_of_bound(w);
                lemma2_to64();
            }
            buf[i] = v as u8;
            i = i + 1;
        }
        Ok(())
    }
}

} // verus!
