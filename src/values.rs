//! Typed values over the bit cursor: plain values in their natural width,
//! packed integers in a given width, and arrays of either.
use crate::bits::int_bits;
use crate::decode::native_of;
use crate::encode::to_wire;
use crate::reader::BitPackReader;
use crate::schema::{in_range, native, parse_uint, wire_u64, IntKind, Parsed};
use crate::writer::BitPackWriter;
use crate::BitPackError;
use vstd::arithmetic::power2::{lemma2_to64, lemma2_to64_rest};
use vstd::prelude::*;

verus! {

/// A value that can be read in its natural encoding.
pub trait ReadValue: Sized {
    /// What reading at bit `p` of `s` yields: the value and the position
    /// after it, or the error.
    spec fn parse(s: Seq<bool>, p: int) -> Parsed<Self>;

    fn read(reader: &mut BitPackReader) -> (r: Result<Self, BitPackError>)
        ensures
            final(reader).buffer() == old(reader).buffer(),
            match Self::parse(old(reader).stream(), old(reader).pos() as int) {
                Ok((v, q)) => r == Ok::<Self, BitPackError>(v) && final(reader).pos() == q,
                Err(e) => r == Err::<Self, BitPackError>(e),
            },
    ;
}

/// A value that can be written in its natural encoding.
pub trait WriteValue {
    /// The bits this value is written as.
    spec fn wire(&self) -> Seq<bool>;

    fn write(&self, writer: &mut BitPackWriter) -> (r: Result<(), BitPackError>)
        requires
            old(writer).wf(),
        ensures
            final(writer).wf(),
            final(writer).buffer().len() == old(writer).buffer().len(),
            old(writer).has(self.wire().len()) ==> r is Ok && final(writer).wrote(
                old(writer),
                self.wire(),
            ),
            !old(writer).has(self.wire().len()) ==> r == Err::<(), BitPackError>(
                BitPackError::OutOfBounds,
            ),
    ;

    /// The number of bits this value is written as.
    fn bits(&self) -> (r: usize)
        ensures
            r == self.wire().len(),
    ;
}

/// An integer that can be read in a given number of bits.
pub trait ReadPackedValue: Sized {
    /// What reading `bits` bits at bit `p` of `s` yields: the bits as an
    /// unsigned number, cut to the type's width and taken as the type.
    spec fn parse_packed(s: Seq<bool>, p: int, bits: nat) -> Parsed<Self>;

    fn read_packed(reader: &mut BitPackReader, bits: usize) -> (r: Result<Self, BitPackError>)
        requires
            bits <= 64,
        ensures
            final(reader).buffer() == old(reader).buffer(),
            match Self::parse_packed(old(reader).stream(), old(reader).pos() as int, bits as nat) {
                Ok((v, q)) => r == Ok::<Self, BitPackError>(v) && final(reader).pos() == q,
                Err(e) => r == Err::<Self, BitPackError>(e),
            },
    ;
}

/// An integer that can be written in a given number of bits.
pub trait WritePackedValue {
    /// The bits this value is written as in `bits` bits: the lowest bits of
    /// its 64-bit two's-complement pattern.
    spec fn packed_wire(&self, bits: nat) -> Seq<bool>;

    fn write_packed(&self, writer: &mut BitPackWriter, bits: usize) -> (r: Result<(), BitPackError>)
        requires
            old(writer).wf(),
            bits <= 64,
        ensures
            final(writer).wf(),
            final(writer).buffer().len() == old(writer).buffer().len(),
            old(writer).has(self.packed_wire(bits as nat).len()) ==> r is Ok && final(writer).wrote(
                old(writer),
                self.packed_wire(bits as nat),
            ),
            !old(writer).has(self.packed_wire(bits as nat).len()) ==> r == Err::<(), BitPackError>(
                BitPackError::OutOfBounds,
            ),
    ;

    /// The number of bits this value takes packed in `bits` bits.
    fn bits_packed(&self, bits: usize) -> (r: usize)
        ensures
            r == bits,
            r == self.packed_wire(bits as nat).len(),
    ;
}

/// What an integer field holds once `bits` bits were read at `p`.
pub open spec fn parse_native(k: IntKind, s: Seq<bool>, p: int, bits: nat) -> Parsed<int> {
    match parse_uint(s, p, bits) {
        Ok((u, q)) => Ok((native(k, u), q)),
        Err(e) => Err(e),
    }
}

proof fn lemma_native_in_range(k: IntKind, u: nat)
    ensures
        in_range(k, native(k, u)),
{
    lemma2_to64();
    lemma2_to64_rest();
}

/// Reads `bits` bits as an integer of native type `k`.
fn read_native(reader: &mut BitPackReader, k: IntKind, bits: usize) -> (r: Result<i128, BitPackError>)
    requires
        bits <= 64,
    ensures
        final(reader).buffer() == old(reader).buffer(),
        match parse_native(k, old(reader).stream(), old(reader).pos() as int, bits as nat) {
            Ok((v, q)) => r == Ok::<i128, BitPackError>(v as i128) && final(reader).pos() == q,
            Err(e) => r == Err::<i128, BitPackError>(e),
        },
        r matches Ok(v) ==> in_range(k, v as int),
{
    match reader.read_u64(bits) {
        Ok(u) => {
            proof {
                lemma_native_in_range(k, u as nat);
            }
            Ok(native_of(k, u))
        },
        Err(e) => Err(e),
    }
}

impl ReadValue for bool {
    open spec fn parse(s: Seq<bool>, p: int) -> Parsed<bool> {
        if 0 <= p && p + 1 <= s.len() {
            Ok((s[p], p + 1))
        } else {
            Err(BitPackError::OutOfBounds)
        }
    }

    fn read(reader: &mut BitPackReader) -> (r: Result<bool, BitPackError>) {
        reader.read_bit()
    }
}

impl WriteValue for bool {
    open spec fn wire(&self) -> Seq<bool> {
        seq![*self]
    }

    fn write(&self, writer: &mut BitPackWriter) -> (r: Result<(), BitPackError>) {
        writer.write_bit(*self)
    }

    fn bits(&self) -> (r: usize) {
        1
    }
}

impl ReadValue for u8 {
    open spec fn parse(s: Seq<bool>, p: int) -> Parsed<u8> {
        match parse_native(IntKind::U8, s, p, 8) {
            Ok((v, q)) => Ok((v as u8, q)),
            Err(e) => Err(e),
        }
    }

    fn read(reader: &mut BitPackReader) -> (r: Result<u8, BitPackError>) {
        match read_native(reader, IntKind::U8, 8) {
            Ok(v) => {
                proof {
                    lemma2_to64();
                    lemma2_to64_rest();
                }
                Ok(v as u8)
            },
            Err(e) => Err(e),
        }
    }
}

impl ReadPackedValue for u8 {
    open spec fn parse_packed(s: Seq<bool>, p: int, bits: nat) -> Parsed<u8> {
        match parse_native(IntKind::U8, s, p, bits) {
            Ok((v, q)) => Ok((v as u8, q)),
            Err(e) => Err(e),
        }
    }

    fn read_packed(reader: &mut BitPackReader, bits: usize) -> (r: Result<u8, BitPackError>) {
        match read_native(reader, IntKind::U8, bits) {
            Ok(v) => {
                proof {
                    lemma2_to64();
                    lemma2_to64_rest();
                }
                Ok(v as u8)
            },
            Err(e) => Err(e),
        }
    }
}

impl WriteValue for u8 {
    open spec fn wire(&self) -> Seq<bool> {
        int_bits(wire_u64(*self as int), 8)
    }

    fn write(&self, writer: &mut BitPackWriter) -> (r: Result<(), BitPackError>) {
        proof {
            lemma2_to64();
            lemma2_to64_rest();
        }
        writer.write_u64(to_wire(*self as i128), 8)
    }

    fn bits(&self) -> (r: usize) {
        8
    }
}

impl WritePackedValue for u8 {
    open spec fn packed_wire(&self, bits: nat) -> Seq<bool> {
        int_bits(wire_u64(*self as int), bits)
    }

    fn write_packed(&self, writer: &mut BitPackWriter, bits: usize) -> (r: Result<(), BitPackError>) {
        proof {
            lemma2_to64();
            lemma2_to64_rest();
        }
        writer.write_u64(to_wire(*self as i128), bits)
    }

    fn bits_packed(&self, bits: usize) -> (r: usize) {
        bits
    }
}

impl ReadValue for i8 {
    open spec fn parse(s: Seq<bool>, p: int) -> Parsed<i8> {
        match parse_native(IntKind::I8, s, p, 8) {
            Ok((v, q)) => Ok((v as i8, q)),
            Err(e) => Err(e),
        }
    }

    fn read(reader: &mut BitPackReader) -> (r: Result<i8, BitPackError>) {
        match read_native(reader, IntKind::I8, 8) {
            Ok(v) => {
                proof {
                    lemma2_to64();
                    lemma2_to64_rest();
                }
                Ok(v as i8)
            },
            Err(e) => Err(e),
        }
    }
}

impl ReadPackedValue for i8 {
    open spec fn parse_packed(s: Seq<bool>, p: int, bits: nat) -> Parsed<i8> {
        match parse_native(IntKind::I8, s, p, bits) {
            Ok((v, q)) => Ok((v as i8, q)),
            Err(e) => Err(e),
        }
    }

    fn read_packed(reader: &mut BitPackReader, bits: usize) -> (r: Result<i8, BitPackError>) {
        match read_native(reader, IntKind::I8, bits) {
            Ok(v) => {
                proof {
                    lemma2_to64();
                    lemma2_to64_rest();
                }
                Ok(v as i8)
            },
            Err(e) => Err(e),
        }
    }
}

impl WriteValue for i8 {
    open spec fn wire(&self) -> Seq<bool> {
        int_bits(wire_u64(*self as int), 8)
    }

    fn write(&self, writer: &mut BitPackWriter) -> (r: Result<(), BitPackError>) {
        proof {
            lemma2_to64();
            lemma2_to64_rest();
        }
        writer.write_u64(to_wire(*self as i128), 8)
    }

    fn bits(&self) -> (r: usize) {
        8
    }
}

impl WritePackedValue for i8 {
    open spec fn packed_wire(&self, bits: nat) -> Seq<bool> {
        int_bits(wire_u64(*self as int), bits)
    }

    fn write_packed(&self, writer: &mut BitPackWriter, bits: usize) -> (r: Result<(), BitPackError>) {
        proof {
            lemma2_to64();
            lemma2_to64_rest();
        }
        writer.write_u64(to_wire(*self as i128), bits)
    }

    fn bits_packed(&self, bits: usize) -> (r: usize) {
        bits
    }
}

impl ReadValue for u16 {
    open spec fn parse(s: Seq<bool>, p: int) -> Parsed<u16> {
        match parse_native(IntKind::U16, s, p, 16) {
            Ok((v, q)) => Ok((v as u16, q)),
            Err(e) => Err(e),
        }
    }

    fn read(reader: &mut BitPackReader) -> (r: Result<u16, BitPackError>) {
        match read_native(reader, IntKind::U16, 16) {
            Ok(v) => {
                proof {
                    lemma2_to64();
                    lemma2_to64_rest();
                }
                Ok(v as u16)
            },
            Err(e) => Err(e),
        }
    }
}

impl ReadPackedValue for u16 {
    open spec fn parse_packed(s: Seq<bool>, p: int, bits: nat) -> Parsed<u16> {
        match parse_native(IntKind::U16, s, p, bits) {
            Ok((v, q)) => Ok((v as u16, q)),
            Err(e) => Err(e),
        }
    }

    fn read_packed(reader: &mut BitPackReader, bits: usize) -> (r: Result<u16, BitPackError>) {
        match read_native(reader, IntKind::U16, bits) {
            Ok(v) => {
                proof {
                    lemma2_to64();
                    lemma2_to64_rest();
                }
                Ok(v as u16)
            },
            Err(e) => Err(e),
        }
    }
}

impl WriteValue for u16 {
    open spec fn wire(&self) -> Seq<bool> {
        int_bits(wire_u64(*self as int), 16)
    }

    fn write(&self, writer: &mut BitPackWriter) -> (r: Result<(), BitPackError>) {
        proof {
            lemma2_to64();
            lemma2_to64_rest();
        }
        writer.write_u64(to_wire(*self as i128), 16)
    }

    fn bits(&self) -> (r: usize) {
        16
    }
}

impl WritePackedValue for u16 {
    open spec fn packed_wire(&self, bits: nat) -> Seq<bool> {
        int_bits(wire_u64(*self as int), bits)
    }

    fn write_packed(&self, writer: &mut BitPackWriter, bits: usize) -> (r: Result<(), BitPackError>) {
        proof {
            lemma2_to64();
            lemma2_to64_rest();
        }
        writer.write_u64(to_wire(*self as i128), bits)
    }

    fn bits_packed(&self, bits: usize) -> (r: usize) {
        bits
    }
}

impl ReadValue for i16 {
    open spec fn parse(s: Seq<bool>, p: int) -> Parsed<i16> {
        match parse_native(IntKind::I16, s, p, 16) {
            Ok((v, q)) => Ok((v as i16, q)),
            Err(e) => Err(e),
        }
    }

    fn read(reader: &mut BitPackReader) -> (r: Result<i16, BitPackError>) {
        match read_native(reader, IntKind::I16, 16) {
            Ok(v) => {
                proof {
                    lemma2_to64();
                    lemma2_to64_rest();
                }
                Ok(v as i16)
            },
            Err(e) => Err(e),
        }
    }
}

impl ReadPackedValue for i16 {
    open spec fn parse_packed(s: Seq<bool>, p: int, bits: nat) -> Parsed<i16> {
        match parse_native(IntKind::I16, s, p, bits) {
            Ok((v, q)) => Ok((v as i16, q)),
            Err(e) => Err(e),
        }
    }

    fn read_packed(reader: &mut BitPackReader, bits: usize) -> (r: Result<i16, BitPackError>) {
        match read_native(reader, IntKind::I16, bits) {
            Ok(v) => {
                proof {
                    lemma2_to64();
                    lemma2_to64_rest();
                }
                Ok(v as i16)
            },
            Err(e) => Err(e),
        }
    }
}

impl WriteValue for i16 {
    open spec fn wire(&self) -> Seq<bool> {
        int_bits(wire_u64(*self as int), 16)
    }

    fn write(&self, writer: &mut BitPackWriter) -> (r: Result<(), BitPackError>) {
        proof {
            lemma2_to64();
            lemma2_to64_rest();
        }
        writer.write_u64(to_wire(*self as i128), 16)
    }

    fn bits(&self) -> (r: usize) {
        16
    }
}

impl WritePackedValue for i16 {
    open spec fn packed_wire(&self, bits: nat) -> Seq<bool> {
        int_bits(wire_u64(*self as int), bits)
    }

    fn write_packed(&self, writer: &mut BitPackWriter, bits: usize) -> (r: Result<(), BitPackError>) {
        proof {
            lemma2_to64();
            lemma2_to64_rest();
        }
        writer.write_u64(to_wire(*self as i128), bits)
    }

    fn bits_packed(&self, bits: usize) -> (r: usize) {
        bits
    }
}

impl ReadValue for u32 {
    open spec fn parse(s: Seq<bool>, p: int) -> Parsed<u32> {
        match parse_native(IntKind::U32, s, p, 32) {
            Ok((v, q)) => Ok((v as u32, q)),
            Err(e) => Err(e),
        }
    }

    fn read(reader: &mut BitPackReader) -> (r: Result<u32, BitPackError>) {
        match read_native(reader, IntKind::U32, 32) {
            Ok(v) => {
                proof {
                    lemma2_to64();
                    lemma2_to64_rest();
                }
                Ok(v as u32)
            },
            Err(e) => Err(e),
        }
    }
}

impl ReadPackedValue for u32 {
    open spec fn parse_packed(s: Seq<bool>, p: int, bits: nat) -> Parsed<u32> {
        match parse_native(IntKind::U32, s, p, bits) {
            Ok((v, q)) => Ok((v as u32, q)),
            Err(e) => Err(e),
        }
    }

    fn read_packed(reader: &mut BitPackReader, bits: usize) -> (r: Result<u32, BitPackError>) {
        match read_native(reader, IntKind::U32, bits) {
            Ok(v) => {
                proof {
                    lemma2_to64();
                    lemma2_to64_rest();
                }
                Ok(v as u32)
            },
            Err(e) => Err(e),
        }
    }
}

impl WriteValue for u32 {
    open spec fn wire(&self) -> Seq<bool> {
        int_bits(wire_u64(*self as int), 32)
    }

    fn write(&self, writer: &mut BitPackWriter) -> (r: Result<(), BitPackError>) {
        proof {
            lemma2_to64();
            lemma2_to64_rest();
        }
        writer.write_u64(to_wire(*self as i128), 32)
    }

    fn bits(&self) -> (r: usize) {
        32
    }
}

impl WritePackedValue for u32 {
    open spec fn packed_wire(&self, bits: nat) -> Seq<bool> {
        int_bits(wire_u64(*self as int), bits)
    }

    fn write_packed(&self, writer: &mut BitPackWriter, bits: usize) -> (r: Result<(), BitPackError>) {
        proof {
            lemma2_to64();
            lemma2_to64_rest();
        }
        writer.write_u64(to_wire(*self as i128), bits)
    }

    fn bits_packed(&self, bits: usize) -> (r: usize) {
        bits
    }
}

impl ReadValue for i32 {
    open spec fn parse(s: Seq<bool>, p: int) -> Parsed<i32> {
        match parse_native(IntKind::I32, s, p, 32) {
            Ok((v, q)) => Ok((v as i32, q)),
            Err(e) => Err(e),
        }
    }

    fn read(reader: &mut BitPackReader) -> (r: Result<i32, BitPackError>) {
        match read_native(reader, IntKind::I32, 32) {
            Ok(v) => {
                proof {
                    lemma2_to64();
                    lemma2_to64_rest();
                }
                Ok(v as i32)
            },
            Err(e) => Err(e),
        }
    }
}

impl ReadPackedValue for i32 {
    open spec fn parse_packed(s: Seq<bool>, p: int, bits: nat) -> Parsed<i32> {
        match parse_native(IntKind::I32, s, p, bits) {
            Ok((v, q)) => Ok((v as i32, q)),
            Err(e) => Err(e),
        }
    }

    fn read_packed(reader: &mut BitPackReader, bits: usize) -> (r: Result<i32, BitPackError>) {
        match read_native(reader, IntKind::I32, bits) {
            Ok(v) => {
                proof {
                    lemma2_to64();
                    lemma2_to64_rest();
                }
                Ok(v as i32)
            },
            Err(e) => Err(e),
        }
    }
}

impl WriteValue for i32 {
    open spec fn wire(&self) -> Seq<bool> {
        int_bits(wire_u64(*self as int), 32)
    }

    fn write(&self, writer: &mut BitPackWriter) -> (r: Result<(), BitPackError>) {
        proof {
            lemma2_to64();
            lemma2_to64_rest();
        }
        writer.write_u64(to_wire(*self as i128), 32)
    }

    fn bits(&self) -> (r: usize) {
        32
    }
}

impl WritePackedValue for i32 {
    open spec fn packed_wire(&self, bits: nat) -> Seq<bool> {
        int_bits(wire_u64(*self as int), bits)
    }

    fn write_packed(&self, writer: &mut BitPackWriter, bits: usize) -> (r: Result<(), BitPackError>) {
        proof {
            lemma2_to64();
            lemma2_to64_rest();
        }
        writer.write_u64(to_wire(*self as i128), bits)
    }

    fn bits_packed(&self, bits: usize) -> (r: usize) {
        bits
    }
}

impl ReadValue for u64 {
    open spec fn parse(s: Seq<bool>, p: int) -> Parsed<u64> {
        match parse_native(IntKind::U64, s, p, 64) {
            Ok((v, q)) => Ok((v as u64, q)),
            Err(e) => Err(e),
        }
    }

    fn read(reader: &mut BitPackReader) -> (r: Result<u64, BitPackError>) {
        match read_native(reader, IntKind::U64, 64) {
            Ok(v) => {
                proof {
                    lemma2_to64();
                    lemma2_to64_rest();
                }
                Ok(v as u64)
            },
            Err(e) => Err(e),
        }
    }
}

impl ReadPackedValue for u64 {
    open spec fn parse_packed(s: Seq<bool>, p: int, bits: nat) -> Parsed<u64> {
        match parse_native(IntKind::U64, s, p, bits) {
            Ok((v, q)) => Ok((v as u64, q)),
            Err(e) => Err(e),
        }
    }

    fn read_packed(reader: &mut BitPackReader, bits: usize) -> (r: Result<u64, BitPackError>) {
        match read_native(reader, IntKind::U64, bits) {
            Ok(v) => {
                proof {
                    lemma2_to64();
                    lemma2_to64_rest();
                }
                Ok(v as u64)
            },
            Err(e) => Err(e),
        }
    }
}

impl WriteValue for u64 {
    open spec fn wire(&self) -> Seq<bool> {
        int_bits(wire_u64(*self as int), 64)
    }

    fn write(&self, writer: &mut BitPackWriter) -> (r: Result<(), BitPackError>) {
        proof {
            lemma2_to64();
            lemma2_to64_rest();
        }
        writer.write_u64(to_wire(*self as i128), 64)
    }

    fn bits(&self) -> (r: usize) {
        64
    }
}

impl WritePackedValue for u64 {
    open spec fn packed_wire(&self, bits: nat) -> Seq<bool> {
        int_bits(wire_u64(*self as int), bits)
    }

    fn write_packed(&self, writer: &mut BitPackWriter, bits: usize) -> (r: Result<(), BitPackError>) {
        proof {
            lemma2_to64();
            lemma2_to64_rest();
        }
        writer.write_u64(to_wire(*self as i128), bits)
    }

    fn bits_packed(&self, bits: usize) -> (r: usize) {
        bits
    }
}

impl ReadValue for i64 {
    open spec fn parse(s: Seq<bool>, p: int) -> Parsed<i64> {
        match parse_native(IntKind::I64, s, p, 64) {
            Ok((v, q)) => Ok((v as i64, q)),
            Err(e) => Err(e),
        }
    }

    fn read(reader: &mut BitPackReader) -> (r: Result<i64, BitPackError>) {
        match read_native(reader, IntKind::I64, 64) {
            Ok(v) => {
                proof {
                    lemma2_to64();
                    lemma2_to64_rest();
                }
                Ok(v as i64)
            },
            Err(e) => Err(e),
        }
    }
}

impl ReadPackedValue for i64 {
    open spec fn parse_packed(s: Seq<bool>, p: int, bits: nat) -> Parsed<i64> {
        match parse_native(IntKind::I64, s, p, bits) {
            Ok((v, q)) => Ok((v as i64, q)),
            Err(e) => Err(e),
        }
    }

    fn read_packed(reader: &mut BitPackReader, bits: usize) -> (r: Result<i64, BitPackError>) {
        match read_native(reader, IntKind::I64, bits) {
            Ok(v) => {
                proof {
                    lemma2_to64();
                    lemma2_to64_rest();
                }
                Ok(v as i64)
            },
            Err(e) => Err(e),
        }
    }
}

impl WriteValue for i64 {
    open spec fn wire(&self) -> Seq<bool> {
        int_bits(wire_u64(*self as int), 64)
    }

    fn write(&self, writer: &mut BitPackWriter) -> (r: Result<(), BitPackError>) {
        proof {
            lemma2_to64();
            lemma2_to64_rest();
        }
        writer.write_u64(to_wire(*self as i128), 64)
    }

    fn bits(&self) -> (r: usize) {
        64
    }
}

impl WritePackedValue for i64 {
    open spec fn packed_wire(&self, bits: nat) -> Seq<bool> {
        int_bits(wire_u64(*self as int), bits)
    }

    fn write_packed(&self, writer: &mut BitPackWriter, bits: usize) -> (r: Result<(), BitPackError>) {
        proof {
            lemma2_to64();
            lemma2_to64_rest();
        }
        writer.write_u64(to_wire(*self as i128), bits)
    }

    fn bits_packed(&self, bits: usize) -> (r: usize) {
        bits
    }
}

} // verus!
