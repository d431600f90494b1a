//! Numbers in bytes, padding and the checksum.

use vstd::prelude::*;

use crate::bytes::{le16, le32, le64, lemma_rounded, padded, rounded, u16_at, u32_at, u64_at, units,
    zeros};
use crate::image::{crc32c, crc32c_upto, crc_step, crc_steps};

verus! {

/// The number that the two bytes at offset `o` stand for, low byte first.
pub open spec fn num2(b: Seq<u8>, o: int) -> int {
    b[o] + 256 * b[o + 1]
}

/// The number that the four bytes at offset `o` stand for, low byte first.
pub open spec fn num4(b: Seq<u8>, o: int) -> int {
    b[o] + 256 * b[o + 1] + 65536 * b[o + 2] + 16777216 * b[o + 3]
}

/// The number that the eight bytes at offset `o` stand for, low byte first.
pub open spec fn num8(b: Seq<u8>, o: int) -> int {
    num4(b, o) + 4294967296 * num4(b, o + 4)
}

/// The bytes of a number, low byte first, stand for it, as far as they have
/// room for it.
pub proof fn numbers_stand_for_themselves(v: int)
    requires
        0 <= v,
    ensures
        le16(v).len() == 2,
        num2(le16(v), 0) == v % 65536,
        le32(v).len() == 4,
        num4(le32(v), 0) == v % 4294967296,
        le64(v).len() == 8,
        num8(le64(v), 0) == v % 18446744073709551616,
{
    lemma_two_bytes(v);
    lemma_four_bytes(v);
    lemma_eight_bytes(v);
}

proof fn lemma_two_bytes(v: int)
    requires
        0 <= v,
    ensures
        le16(v).len() == 2,
        num2(le16(v), 0) == v % 65536,
{
    reveal(le16);
}

proof fn lemma_eight_bytes(v: int)
    requires
        0 <= v,
    ensures
        le64(v).len() == 8,
        num8(le64(v), 0) == v % 18446744073709551616,
{
    lemma_four_bytes(v % 4294967296);
    lemma_four_bytes(v / 4294967296);
    let (lo, hi) = (le32(v % 4294967296), le32(v / 4294967296));
    let b = le64(v);
    assert(b == lo + hi) by {
        reveal(le64);
    }
    assert(num4(b, 0) == num4(lo, 0));
    assert(num4(b, 4) == num4(hi, 0));
}

proof fn lemma_four_bytes(v: int)
    requires
        0 <= v,
    ensures
        le32(v).len() == 4,
        num4(le32(v), 0) == v % 4294967296,
{
    reveal(le32);
}

/// What is read at an offset is the number that the bytes there stand for.
pub proof fn numbers_are_read_low_byte_first(b: Seq<u8>, o: int)
    ensures
        u16_at(b, o) == num2(b, o),
        u32_at(b, o) == num4(b, o),
        u64_at(b, o) == num8(b, o),
{
}

/// Zeros are zeros.
pub proof fn zeros_are_zero(n: int, i: int)
    requires
        0 <= i < n,
    ensures
        zeros(n).len() == n,
        zeros(n)[i] == 0,
{
}

/// Rounding up gives a multiple that is not below the number, and no multiple
/// is closer; and so many units hold the number, but one fewer does not.
pub proof fn rounding_up(v: int, a: int, m: int)
    requires
        0 <= v,
        0 < a,
    ensures
        rounded(v, a) >= v,
        rounded(v, a) == a * units(v, a),
        v <= a * m ==> rounded(v, a) <= a * m && units(v, a) <= m,
        a * units(v, a) - v < a,
{
    lemma_rounded(v, a);
    let u = units(v, a);
    if v <= a * m && u > m {
        assert(a * u >= a * (m + 1)) by (nonlinear_arith)
            requires
                u >= m + 1,
                a > 0,
        ;
        assert(a * (m + 1) == a * m + a) by (nonlinear_arith);
    }
    if v <= a * m {
        assert(a * u <= a * m) by (nonlinear_arith)
            requires
                u <= m,
                a > 0,
        ;
    }
}

/// Padding keeps the bytes, puts zeros behind them, and ends at the first
/// multiple of the block size.
pub proof fn padding_adds_zeros(b: Seq<u8>, bs: int, i: int)
    requires
        0 < bs,
    ensures
        padded(b, bs).len() >= b.len(),
        padded(b, bs).len() < b.len() + bs,
        padded(b, bs).len() % (bs as nat) == 0,
        0 <= i < b.len() ==> padded(b, bs)[i] == b[i],
        b.len() <= i < padded(b, bs).len() ==> padded(b, bs)[i] == 0,
{
    lemma_rounded(b.len() as int, bs);
}

/// A shift register of 32 bits that is fed one bit: the bit that leaves it at
/// the low end is compared with the bit fed in, and where they differ, the
/// Castagnoli polynomial is mixed in.
pub open spec fn fed_bit(c: u32, bit: bool) -> u32 {
    if (c % 2 == 1) != bit {
        (c >> 1) ^ 0x82F6_3B78u32
    } else {
        c >> 1
    }
}

/// The register after the lowest `n` bits of a byte, the lowest first.
pub open spec fn fed_bits(c: u32, byte: u8, n: int) -> u32
    decreases n,
{
    if n <= 0 {
        c
    } else {
        fed_bit(fed_bits(c, byte, n - 1), (byte >> ((n - 1) as u8)) % 2 == 1)
    }
}

/// The register after some bytes, starting from all ones.
pub open spec fn fed_bytes(s: Seq<u8>) -> u32
    decreases s.len(),
{
    if s.len() == 0 {
        0xFFFF_FFFFu32
    } else {
        fed_bits(fed_bytes(s.drop_last()), s.last(), 8)
    }
}

/// The checksum is what a shift register holds that is fed the bytes bit by
/// bit, lowest bit first.
pub proof fn checksum_is_a_shift_register(s: Seq<u8>)
    ensures
        crc32c(s) == fed_bytes(s),
    decreases s.len(),
{
    if s.len() > 0 {
        let t = s.drop_last();
        checksum_is_a_shift_register(t);
        lemma_crc_prefix(s, t, t.len() as int);
        lemma_crc_byte(fed_bytes(t), s.last());
    }
}

proof fn lemma_crc_prefix(s: Seq<u8>, t: Seq<u8>, n: int)
    requires
        s.len() > 0,
        t == s.drop_last(),
        0 <= n <= t.len(),
    ensures
        crc32c_upto(s, n) == crc32c_upto(t, n),
    decreases n,
{
    if n > 0 {
        lemma_crc_prefix(s, t, n - 1);
    }
}

/// Mixing in a byte at once comes to the same as feeding its bits.
proof fn lemma_crc_byte(c: u32, byte: u8)
    ensures
        crc_steps(c ^ (byte as u32), 8) == fed_bits(c, byte, 8),
{
    reveal_with_fuel(crc_steps, 9);
    reveal_with_fuel(fed_bits, 9);
    lemma_crc_bits(c, byte, 8);
}

/// After `n` bits the two registers differ by the bits that are still to come.
proof fn lemma_crc_bits(c: u32, byte: u8, n: int)
    requires
        0 <= n <= 8,
    ensures
        crc_steps(c ^ (byte as u32), n) == fed_bits(c, byte, n) ^ ((byte >> (n as u8)) as u32),
        n == 8 ==> crc_steps(c ^ (byte as u32), n) == fed_bits(c, byte, n),
    decreases n,
{
    if n == 0 {
        assert(byte >> 0u8 == byte) by (bit_vector);
    } else {
        lemma_crc_bits(c, byte, n - 1);
        let x = crc_steps(c ^ (byte as u32), n - 1);
        let y = fed_bits(c, byte, n - 1);
        let k = (n - 1) as u8;
        let l = n as u8;
        lemma_crc_one(x, y, byte, k, l);
    }
    if n == 8 {
        let y = fed_bits(c, byte, n);
        assert(y ^ ((byte >> 8u8) as u32) == y) by (bit_vector);
    }
}

proof fn lemma_crc_one(x: u32, y: u32, byte: u8, k: u8, l: u8)
    requires
        x == y ^ ((byte >> k) as u32),
        k < 8,
        l == k + 1,
    ensures
        crc_step(x) == fed_bit(y, (byte >> k) % 2 == 1) ^ ((byte >> l) as u32),
{
    assert(((y ^ ((byte >> k) as u32)) >> 1) ^ (if (y ^ ((byte >> k) as u32)) & 1 != 0 {
        0x82F63B78
    } else {
        0u32
    }) == (if (y % 2 == 1) != ((byte >> k) % 2 == 1) {
        (y >> 1) ^ 0x82F6_3B78u32
    } else {
        y >> 1
    }) ^ ((byte >> l) as u32)) by (bit_vector)
        requires
            k < 8,
            l == k + 1,
    ;
}

} // verus!
