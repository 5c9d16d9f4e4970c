//! Length-prefixed strings: `[extended:1][length:7 or 15][content]`, with
//! the content in 16-bit UTF-16 code units, or in one byte per character for
//! ASCII strings.
use crate::bits::{int_bits, lemma_splice_twice, lemma_uint_of_bound, splice};
use crate::reader::BitPackReader;
use crate::schema::{
    item_framable, len_bits, len_prefix, parse_len, parse_scalar, parse_uint, parse_units,
    scalar_wire, units_bits, ItemV, Scalar,
};
use crate::utf16::{
    ascii_chars, decode_utf16, encode_utf16, lemma_ascii_utf16, lemma_text_of_utf16,
    lemma_utf16_injective, utf16_of,
};
use crate::writer::BitPackWriter;
use crate::BitPackError;
use vstd::arithmetic::mul::lemma_mul_inequality;
use vstd::arithmetic::power2::{lemma2_to64, lemma_pow2_strictly_increases};
use vstd::prelude::*;

verus! {

/// The element encoding of a string: wide (UTF-16) or ASCII.
pub open spec fn string_scalar(wide: bool) -> Scalar {
    if wide {
        Scalar::Text
    } else {
        Scalar::Ascii
    }
}

/// Once decoding code units fails, decoding more of them fails the same way.
pub proof fn lemma_parse_units_err(s: Seq<bool>, p: int, k: nat, n: nat, w: nat)
    requires
        k <= n,
        parse_units(s, p, k, w) is Err,
    ensures
        parse_units(s, p, n, w) == parse_units(s, p, k, w),
    decreases n,
{
    if n > k {
        lemma_parse_units_err(s, p, k, (n - 1) as nat, w);
    }
}

/// `n` code units of `w` bits take `w * n` bits.
pub proof fn lemma_units_bits_len(u: Seq<u16>, w: nat)
    ensures
        units_bits(u, w).len() == w * u.len(),
    decreases u.len(),
{
    if u.len() > 0 {
        lemma_units_bits_len(u.drop_last(), w);
        assert(w * (u.len() - 1) + w == w * u.len()) by (nonlinear_arith);
    }
}

/// Whether every code unit is below `0x80`.
pub(crate) fn all_ascii(units: &Vec<u16>) -> (r: bool)
    ensures
        r == forall|k: int| 0 <= k < units@.len() ==> #[trigger] units@[k] < 0x80,
{
    let mut j: usize = 0;
    while j < units.len()
        invariant
            j <= units@.len(),
            forall|k: int| 0 <= k < j ==> #[trigger] units@[k] < 0x80,
        decreases units@.len() - j,
    {
        if units[j] >= 0x80 {
            return false;
        }
        j = j + 1;
    }
    true
}

impl<'a> BitPackReader<'a> {
    /// Reads a length-prefixed string: UTF-16 code units when `wide`, one
    /// byte per character otherwise.
    pub fn read_string(&mut self, wide: bool) -> (r: Result<String, BitPackError>)
        ensures
            final(self).buffer() == old(self).buffer(),
            match parse_scalar(string_scalar(wide), old(self).stream(), old(self).pos() as int) {
                Ok((it, q)) => r matches Ok(s) && it == ItemV::Text(s@) && final(self).pos() == q,
                Err(e) => r == Err::<String, BitPackError>(e),
            },
    {
        let ghost s0 = self.stream();
        let ghost p0 = self.pos() as int;
        let extended = match self.read_bit() {
            Ok(b) => b,
            Err(e) => {
                return Err(e);
            },
        };
        let length_bits: usize = if extended {
            15
        } else {
            7
        };
        let n = match self.read_u64(length_bits) {
            Ok(n) => n,
            Err(e) => {
                return Err(e);
            },
        };
        assert(parse_len(s0, p0) == Ok::<(nat, int), BitPackError>((n as nat, self.pos() as int)));
        let w: usize = if wide {
            16
        } else {
            8
        };
        let ghost q = self.pos() as int;
        let mut units: Vec<u16> = Vec::new();
        let mut i: u64 = 0;
        while i < n
            invariant
                self.buffer() == old(self).buffer(),
                s0 == self.stream(),
                i <= n,
                w == (if wide {
                    16usize
                } else {
                    8usize
                }),
                p0 == old(self).pos(),
                parse_len(s0, p0) == Ok::<(nat, int), BitPackError>((n as nat, q)),
                parse_units(s0, q, i as nat, w as nat) == Ok::<(Seq<u16>, int), BitPackError>(
                    (units@, self.pos() as int),
                ),
            decreases n - i,
        {
            let ghost before = self.pos() as int;
            let u = match self.read_u64(w) {
                Ok(u) => u,
                Err(e) => {
                    proof {
                        assert(e == BitPackError::OutOfBounds);
                        assert(parse_uint(s0, before, w as nat) is Err);
                        assert(parse_units(s0, q, (i + 1) as nat, w as nat) == Err::<
                            (Seq<u16>, int),
                            BitPackError,
                        >(BitPackError::OutOfBounds));
                        lemma_parse_units_err(s0, q, (i + 1) as nat, n as nat, w as nat);
                        assert(parse_scalar(string_scalar(wide), s0, p0) == Err::<
                            (ItemV, int),
                            BitPackError,
                        >(BitPackError::OutOfBounds));
                    }
                    return Err(e);
                },
            };
            proof {
                lemma_uint_of_bound(s0.subrange(before, before + w));
                lemma2_to64();
                if w == 8 {
                    lemma_pow2_strictly_increases(8, 16);
                }
            }
            units.push(u as u16);
            i = i + 1;
        }
        let ghost u = units@;
        if wide {
            match decode_utf16(units.as_slice()) {
                Some(s) => {
                    proof {
                        lemma_text_of_utf16(s@);
                    }
                    Ok(s)
                },
                None => Err(BitPackError::InvalidStringEncoding),
            }
        } else {
            if !all_ascii(&units) {
                return Err(BitPackError::InvalidStringEncoding);
            }
            proof {
                lemma_ascii_utf16(u);
            }
            match decode_utf16(units.as_slice()) {
                Some(s) => {
                    proof {
                        lemma_utf16_injective(s@, ascii_chars(u));
                    }
                    Ok(s)
                },
                None => Err(BitPackError::InvalidStringEncoding),
            }
        }
    }
}

impl BitPackWriter {
    /// Writes a length-prefixed string: UTF-16 code units when `wide`, one
    /// byte per character otherwise. A string of `2^15` code units or more,
    /// or a non-ASCII string in ASCII form, cannot be framed and is refused
    /// before anything is written.
    pub fn write_string(&mut self, s: &str, wide: bool) -> (r: Result<(), BitPackError>)
        requires
            old(self).wf(),
        ensures
            final(self).wf(),
            final(self).buffer().len() == old(self).buffer().len(),
            !item_framable(string_scalar(wide), ItemV::Text(s@)) ==> r == Err::<(), BitPackError>(
                BitPackError::InvalidStringEncoding,
            ) && *final(self) == *old(self),
            item_framable(string_scalar(wide), ItemV::Text(s@)) ==> {
                let w = scalar_wire(string_scalar(wide), ItemV::Text(s@));
                &&& old(self).has(w.len()) ==> r is Ok && final(self).wrote(old(self), w)
                &&& !old(self).has(w.len()) ==> r == Err::<(), BitPackError>(
                    BitPackError::OutOfBounds,
                )
            },
    {
        let units = encode_utf16(s);
        let n = units.len();
        if n >= 0x8000 {
            return Err(BitPackError::InvalidStringEncoding);
        }
        if !wide && !all_ascii(&units) {
            return Err(BitPackError::InvalidStringEncoding);
        }
        let ghost u = units@;
        let w: usize = if wide {
            16
        } else {
            8
        };
        let ghost s0 = self.stream();
        let ghost p0 = self.pos() as int;
        let ghost whole = len_prefix(n as nat) + units_bits(u, w as nat);
        proof {
            lemma_units_bits_len(u, w as nat);
            assert(whole == scalar_wire(string_scalar(wide), ItemV::Text(s@)));
        }
        let extended = n > 127;
        let length_bits: usize = if extended {
            15
        } else {
            7
        };
        match self.write_bit(extended) {
            Ok(()) => {},
            Err(e) => {
                return Err(e);
            },
        }
        match self.write_u64(n as u64, length_bits) {
            Ok(()) => {},
            Err(e) => {
                return Err(e);
            },
        }
        proof {
            lemma_splice_twice(s0, p0, seq![extended], int_bits(n as nat, length_bits as nat));
            assert(units_bits(u.take(0), w as nat) =~= Seq::<bool>::empty());
            assert(len_prefix(n as nat) + units_bits(u.take(0), w as nat) =~= len_prefix(n as nat));
        }
        let mut i: usize = 0;
        while i < n
            invariant
                n == units@.len(),
                u == units@,
                u == utf16_of(s@),
                n < 0x8000,
                !wide ==> forall|k: int| 0 <= k < u.len() ==> #[trigger] u[k] < 0x80,
                w == (if wide {
                    16usize
                } else {
                    8usize
                }),
                i <= n,
                self.wf(),
                self.buffer().len() == old(self).buffer().len(),
                s0 == old(self).stream(),
                p0 == old(self).pos(),
                whole == len_prefix(n as nat) + units_bits(u, w as nat),
                whole == scalar_wire(string_scalar(wide), ItemV::Text(s@)),
                whole.len() == 1 + len_bits(n as nat) + w * n,
                self.pos() == p0 + 1 + len_bits(n as nat) + w * i,
                old(self).has(whole.len()) ==> self.stream() == splice(
                    s0,
                    p0,
                    len_prefix(n as nat) + units_bits(u.take(i as int), w as nat),
                ),
            decreases n - i,
        {
            proof {
                assert(w * i + w == w * (i + 1)) by (nonlinear_arith);
                lemma_mul_inequality((i + 1) as int, n as int, w as int);
            }
            let ghost before = self.stream();
            assert(self.stream().len() == s0.len());
            assert(old(self).has(whole.len()) ==> self.has(w as nat));
            match self.write_u64(units[i] as u64, w) {
                Ok(()) => {},
                Err(e) => {
                    return Err(e);
                },
            }
            proof {
                if old(self).has(whole.len()) {
                    let pre = len_prefix(n as nat) + units_bits(u.take(i as int), w as nat);
                    lemma_units_bits_len(u.take(i as int), w as nat);
                    lemma_splice_twice(s0, p0, pre, int_bits(u[i as int] as nat, w as nat));
                    assert(u.take(i + 1).drop_last() =~= u.take(i as int));
                    assert(pre + int_bits(u[i as int] as nat, w as nat) =~= len_prefix(n as nat)
                        + units_bits(u.take(i + 1), w as nat));
                }
            }
            i = i + 1;
        }
        proof {
            assert(u.take(n as int) =~= u);
            self.lemma_pos_in_bounds();
        }
        Ok(())
    }
}

} // verus!
