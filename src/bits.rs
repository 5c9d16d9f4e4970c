//! The bit-level model of a byte buffer: bits are numbered from the least
//! significant bit of the first byte, and multi-bit integers travel least
//! significant bit first.
use vstd::arithmetic::div_mod::*;
use vstd::arithmetic::mul::*;
use vstd::arithmetic::power2::*;
use vstd::bits::*;
use vstd::prelude::*;

verus! {

/// Bit `k` (0 = least significant) of a byte.
pub open spec fn byte_bit(b: u8, k: int) -> bool {
    (b >> (k as u8)) & 1u8 == 1u8
}

/// The bits of a byte buffer, in wire order.
pub open spec fn bits_of(bytes: Seq<u8>) -> Seq<bool> {
    Seq::new(8 * bytes.len(), |i: int| byte_bit(bytes[i / 8], i % 8))
}

/// The unsigned number that a run of bits encodes, first bit least significant.
pub open spec fn uint_of(s: Seq<bool>) -> nat
    decreases s.len(),
{
    if s.len() == 0 {
        0
    } else {
        uint_of(s.drop_last()) + if s.last() {
            pow2((s.len() - 1) as nat)
        } else {
            0
        }
    }
}

/// Bit `i` of the two's-complement form of `v`.
pub open spec fn int_bit(v: nat, i: nat) -> bool {
    (v / pow2(i)) % 2 == 1
}

/// The lowest `n` bits of `v`, least significant first.
pub open spec fn int_bits(v: nat, n: nat) -> Seq<bool> {
    Seq::new(n, |i: int| int_bit(v, i as nat))
}

/// `s` with the bits from `pos` on replaced by `w`.
pub open spec fn splice(s: Seq<bool>, pos: int, w: Seq<bool>) -> Seq<bool> {
    s.subrange(0, pos) + w + s.subrange(pos + w.len(), s.len() as int)
}

/// A run of zero bits.
pub open spec fn zeros(n: nat) -> Seq<bool> {
    Seq::new(n, |i: int| false)
}

/// The number of padding bits that bring `pos` to a byte boundary.
pub open spec fn pad_len(pos: int) -> nat {
    if pos % 8 == 0 {
        0
    } else {
        (8 - pos % 8) as nat
    }
}

/// A run of `n` bits encodes a number below `2^n`.
pub proof fn lemma_uint_of_bound(s: Seq<bool>)
    ensures
        uint_of(s) < pow2(s.len()),
    decreases s.len(),
{
    if s.len() == 0 {
        lemma2_to64();
    } else {
        lemma_uint_of_bound(s.drop_last());
        lemma_pow2_unfold(s.len());
    }
}

/// Reading back the lowest `n` bits of `v` gives `v` modulo `2^n`.
pub proof fn lemma_uint_of_int_bits(v: nat, n: nat)
    ensures
        uint_of(int_bits(v, n)) == v % pow2(n),
    decreases n,
{
    lemma_pow2_pos(n);
    if n == 0 {
        lemma2_to64();
        assert(int_bits(v, 0) =~= Seq::<bool>::empty());
    } else {
        let m = (n - 1) as nat;
        assert(int_bits(v, n).drop_last() =~= int_bits(v, m));
        lemma_uint_of_int_bits(v, m);
        lemma_pow2_pos(m);
        lemma_pow2_unfold(n);
        // v % 2^n == 2^m * ((v / 2^m) % 2) + v % 2^m
        lemma_mod_breakdown(v as int, pow2(m) as int, 2);
        lemma_mul_is_commutative(pow2(m) as int, 2);
        let d = (v as int / pow2(m) as int) % 2;
        lemma_mod_pos_bound(v as int / pow2(m) as int, 2);
        if int_bit(v, m) {
            assert(d == 1);
        } else {
            assert(d == 0);
        }
    }
}

/// Writing one bit into a byte buffer changes that bit of its stream alone.
pub proof fn lemma_bits_of_update(bytes: Seq<u8>, j: int, k: int, nb: u8, bit: bool)
    requires
        0 <= j < bytes.len(),
        0 <= k < 8,
        byte_bit(nb, k) == bit,
        forall|m: int| 0 <= m < 8 && m != k ==> byte_bit(nb, m) == byte_bit(bytes[j], m),
    ensures
        bits_of(bytes.update(j, nb)) == bits_of(bytes).update(8 * j + k, bit),
{
    let a = bits_of(bytes.update(j, nb));
    let b = bits_of(bytes).update(8 * j + k, bit);
    assert forall|i: int| 0 <= i < a.len() implies a[i] == b[i] by {
        if i / 8 == j {
            if i % 8 == k {
                assert(i == 8 * j + k);
            } else {
                assert(i != 8 * j + k);
            }
        } else {
            assert(i != 8 * j + k);
        }
    }
    assert(a =~= b);
}

/// A `u64` shifted and masked reads the same bit as the arithmetic model.
pub proof fn lemma_u64_bit(v: u64, i: u64)
    requires
        i < 64,
    ensures
        ((v >> i) & 1u64 != 0) == int_bit(v as nat, i as nat),
{
    lemma_u64_shr_is_div(v, i);
    let s = v >> i;
    assert(s & 1u64 == s % 2) by (bit_vector);
}

/// Setting bit `i` of a number below `2^i` adds `2^i`.
pub proof fn lemma_u64_set_bit(v: u64, i: u64)
    requires
        i < 64,
        (v as nat) < pow2(i as nat),
    ensures
        (v | (1u64 << i)) as nat == v as nat + pow2(i as nat),
{
    lemma_u64_pow2_no_overflow(i as nat);
    lemma_u64_shl_is_mul(1u64, i);
    let m = 1u64 << i;
    assert(v < m ==> (v | m) == v + m) by (bit_vector)
        requires
            m == 1u64 << i,
            i < 64,
    ;
}

/// Two writes in a row are one write of both runs.
pub proof fn lemma_splice_twice(s: Seq<bool>, p: int, a: Seq<bool>, b: Seq<bool>)
    requires
        0 <= p,
        p + a.len() + b.len() <= s.len(),
    ensures
        splice(splice(s, p, a), p + a.len(), b) == splice(s, p, a + b),
        splice(s, p, a + b).len() == s.len(),
{
    assert(splice(splice(s, p, a), p + a.len(), b) =~= splice(s, p, a + b));
}

/// Setting or clearing bit `k` of a byte leaves its other bits alone.
pub proof fn lemma_byte_write(b: u8, k: u8, bit: bool)
    requires
        k < 8,
    ensures
        ({
            let nb = if bit {
                b | (1u8 << k)
            } else {
                b & !(1u8 << k)
            };
            &&& byte_bit(nb, k as int) == bit
            &&& forall|m: int| 0 <= m < 8 && m != k ==> byte_bit(nb, m) == byte_bit(b, m)
        }),
{
    let set = b | (1u8 << k);
    let clear = b & !(1u8 << k);
    assert((set >> k) & 1u8 == 1u8 && (clear >> k) & 1u8 == 0u8) by (bit_vector)
        requires
            k < 8,
            set == b | (1u8 << k),
            clear == b & !(1u8 << k),
    ;
    assert forall|m: int| 0 <= m < 8 && m != k implies byte_bit(set, m) == byte_bit(b, m)
        && byte_bit(clear, m) == byte_bit(b, m) by {
        let mm = m as u8;
        assert((set >> mm) & 1u8 == (b >> mm) & 1u8 && (clear >> mm) & 1u8 == (b >> mm) & 1u8)
            by (bit_vector)
            requires
                k < 8,
                mm < 8,
                mm != k,
                set == b | (1u8 << k),
                clear == b & !(1u8 << k),
        ;
    }
}

/// The bits of a byte, in wire order, are its lowest eight bits as a number.
pub proof fn lemma_byte_bits(b: u8, k: int)
    requires
        0 <= k < 8,
    ensures
        byte_bit(b, k) == int_bit(b as nat, k as nat),
{
    let kk = k as u8;
    lemma_u8_shr_is_div(b, kk);
    let s = b >> kk;
    assert(s & 1u8 == s % 2) by (bit_vector);
}

} // verus!
