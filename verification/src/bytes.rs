//! Little-endian integers, runs of zeros, and rounding.

use vstd::arithmetic::div_mod::{lemma_div_is_ordered, lemma_fundamental_div_mod,
    lemma_fundamental_div_mod_converse, lemma_mod_multiples_basic};
use vstd::arithmetic::mul::{lemma_mul_inequality, lemma_mul_is_commutative,
    lemma_mul_is_distributive_add};
use vstd::prelude::*;

verus! {

/// The two bytes of `v`, low byte first; what does not fit is dropped.
#[verifier::opaque]
pub open spec fn le16(v: int) -> Seq<u8> {
    seq![(v % 0x100) as u8, (v / 0x100 % 0x100) as u8]
}

/// The four bytes of `v`, low byte first; what does not fit is dropped.
#[verifier::opaque]
pub open spec fn le32(v: int) -> Seq<u8> {
    seq![
        (v % 0x100) as u8,
        (v / 0x100 % 0x100) as u8,
        (v / 0x1_0000 % 0x100) as u8,
        (v / 0x100_0000 % 0x100) as u8,
    ]
}

/// The eight bytes of `v`, low byte first; what does not fit is dropped.
#[verifier::opaque]
pub open spec fn le64(v: int) -> Seq<u8> {
    le32(v % 0x1_0000_0000) + le32(v / 0x1_0000_0000)
}

/// The lengths of the encodings.
pub broadcast proof fn le16_len(v: int)
    ensures
        #[trigger] le16(v).len() == 2,
{
    reveal(le16);
}

pub broadcast proof fn le32_len(v: int)
    ensures
        #[trigger] le32(v).len() == 4,
{
    reveal(le32);
}

pub broadcast proof fn le64_len(v: int)
    ensures
        #[trigger] le64(v).len() == 8,
{
    reveal(le32);
    reveal(le64);
}

pub broadcast group group_le_len {
    le16_len,
    le32_len,
    le64_len,
}

/// The integer that the two bytes at offset `o` stand for.
pub open spec fn u16_at(b: Seq<u8>, o: int) -> int {
    b[o] + 0x100 * b[o + 1]
}

/// The integer that the four bytes at offset `o` stand for.
pub open spec fn u32_at(b: Seq<u8>, o: int) -> int {
    b[o] + 0x100 * b[o + 1] + 0x1_0000 * b[o + 2] + 0x100_0000 * b[o + 3]
}

/// The integer that the eight bytes at offset `o` stand for.
pub open spec fn u64_at(b: Seq<u8>, o: int) -> int {
    u32_at(b, o) + 0x1_0000_0000 * u32_at(b, o + 4)
}

/// `n` zero bytes.
pub open spec fn zeros(n: int) -> Seq<u8> {
    Seq::new(
        if n > 0 {
            n as nat
        } else {
            0
        },
        |i: int| 0u8,
    )
}

/// How many units of `unit` it takes to hold `v`.
pub open spec fn units(v: int, unit: int) -> int {
    (v + unit - 1) / unit
}

/// The least multiple of `align` that is not below `v`.
pub open spec fn rounded(v: int, align: int) -> int {
    units(v, align) * align
}

/// `b` followed by the zeros that fill its last block of `bs` bytes.
pub open spec fn padded(b: Seq<u8>, bs: int) -> Seq<u8> {
    b + zeros(rounded(b.len() as int, bs) - b.len())
}

/// `b` holds `part` at offset `o`.
pub open spec fn holds(b: Seq<u8>, o: int, part: Seq<u8>) -> bool {
    &&& 0 <= o
    &&& o + part.len() <= b.len()
    &&& b.subrange(o, o + part.len()) == part
}

/// An integer of two bytes reads back from its encoding.
pub proof fn le16_round_trip(b: Seq<u8>, o: int, v: int)
    requires
        holds(b, o, le16(v)),
        0 <= v < 0x1_0000,
    ensures
        u16_at(b, o) == v,
{
    reveal(le16);
    let s = b.subrange(o, o + 2);
    assert(b[o] == s[0] && b[o + 1] == s[1]);
}

/// An integer of four bytes reads back from its encoding.
pub proof fn le32_round_trip(b: Seq<u8>, o: int, v: int)
    requires
        holds(b, o, le32(v)),
        0 <= v < 0x1_0000_0000,
    ensures
        u32_at(b, o) == v,
{
    reveal(le32);
    let s = b.subrange(o, o + 4);
    assert(b[o] == s[0] && b[o + 1] == s[1] && b[o + 2] == s[2] && b[o + 3] == s[3]);
}

/// An integer of eight bytes reads back from its encoding.
pub proof fn le64_round_trip(b: Seq<u8>, o: int, v: int)
    requires
        holds(b, o, le64(v)),
        0 <= v < 0x1_0000_0000_0000_0000,
    ensures
        u64_at(b, o) == v,
{
    let lo = le32(v % 0x1_0000_0000);
    let hi = le32(v / 0x1_0000_0000);
    broadcast use group_le_len;

    reveal(le64);
    assert(lo.len() == 4 && hi.len() == 4);
    let s = b.subrange(o, o + 8);
    assert(b.subrange(o, o + 4) =~= s.subrange(0, 4));
    assert(s.subrange(0, 4) =~= lo);
    assert(b.subrange(o + 4, o + 8) =~= s.subrange(4, 8));
    assert(s.subrange(4, 8) =~= hi);
    le32_round_trip(b, o, v % 0x1_0000_0000);
    le32_round_trip(b, o + 4, v / 0x1_0000_0000);
}

/// What a part holds, the whole holds at the part's offset plus its own.
pub proof fn lemma_holds_within(b: Seq<u8>, o: int, part: Seq<u8>, p: int, inner: Seq<u8>)
    requires
        holds(b, o, part),
        holds(part, p, inner),
    ensures
        holds(b, o + p, inner),
{
    assert(b.subrange(o + p, o + p + inner.len()) =~= b.subrange(o, o + part.len()).subrange(
        p,
        p + inner.len(),
    ));
}

/// Bytes put before a sequence move what it holds; bytes put behind it do not.
pub proof fn lemma_holds_concat(a: Seq<u8>, b: Seq<u8>, c: Seq<u8>)
    ensures
        holds(a + b + c, a.len() as int, b),
        holds(a + b, a.len() as int, b),
        holds(a + b, 0, a),
{
    assert((a + b + c).subrange(a.len() as int, (a.len() + b.len()) as int) =~= b);
    assert((a + b).subrange(a.len() as int, (a.len() + b.len()) as int) =~= b);
    assert((a + b).subrange(0, a.len() as int) =~= a);
}

/// The defining facts about rounding up.
pub proof fn lemma_rounded(v: int, align: int)
    requires
        0 <= v,
        0 < align,
    ensures
        v <= rounded(v, align) < v + align,
        rounded(v, align) % align == 0,
        rounded(v, align) == align * units(v, align),
        0 <= units(v, align),
        v > 0 ==> units(v, align) > 0,
{
    let q = units(v, align);
    lemma_fundamental_div_mod(v + align - 1, align);
    lemma_mul_is_commutative(align, q);
    lemma_mod_multiples_basic(q, align);
    lemma_div_is_ordered(0, v + align - 1, align);
    assert(0int / align == 0) by {
        vstd::arithmetic::div_mod::lemma_basic_div(0, align);
    }
    if v > 0 {
        lemma_div_is_ordered(align, v + align - 1, align);
        vstd::arithmetic::div_mod::lemma_div_by_self(align);
    }
}

/// A multiple of the alignment is not changed by rounding.
pub proof fn lemma_rounded_multiple(q: int, align: int)
    requires
        0 < align,
    ensures
        units(q * align, align) == q,
        rounded(q * align, align) == q * align,
{
    lemma_fundamental_div_mod_converse(q * align + align - 1, align, q, align - 1);
}

/// Rounding keeps order.
pub proof fn lemma_rounded_ordered(v: int, w: int, align: int)
    requires
        v <= w,
        0 < align,
    ensures
        units(v, align) <= units(w, align),
        rounded(v, align) <= rounded(w, align),
{
    lemma_div_is_ordered(v + align - 1, w + align - 1, align);
    lemma_mul_inequality(units(v, align), units(w, align), align);
}

pub fn le16_get(b: &[u8], o: usize) -> (v: u16)
    requires
        o + 2 <= b@.len(),
    ensures
        v == u16_at(b@, o as int),
{
    b[o] as u16 + 0x100 * (b[o + 1] as u16)
}

pub fn le32_get(b: &[u8], o: usize) -> (v: u32)
    requires
        o + 4 <= b@.len(),
    ensures
        v == u32_at(b@, o as int),
{
    b[o] as u32 + 0x100 * (b[o + 1] as u32) + 0x1_0000 * (b[o + 2] as u32) + 0x100_0000 * (b[o
        + 3] as u32)
}

pub fn le64_get(b: &[u8], o: usize) -> (v: u64)
    requires
        o + 8 <= b@.len(),
    ensures
        v == u64_at(b@, o as int),
{
    assert(b@.len() == b.len());
    let lo: u64 = le32_get(b, o) as u64;
    let hi: u64 = le32_get(b, o + 4) as u64;
    lo + 0x1_0000_0000 * hi
}

pub fn push_le16(buf: &mut Vec<u8>, v: u16)
    ensures
        final(buf)@ == old(buf)@ + le16(v as int),
{
    buf.push((v % 0x100) as u8);
    buf.push((v / 0x100) as u8);
    reveal(le16);
    assert(buf@ =~= old(buf)@ + le16(v as int));
}

pub fn push_le32(buf: &mut Vec<u8>, v: u32)
    ensures
        final(buf)@ == old(buf)@ + le32(v as int),
{
    buf.push((v % 0x100) as u8);
    buf.push((v / 0x100 % 0x100) as u8);
    buf.push((v / 0x1_0000 % 0x100) as u8);
    buf.push((v / 0x100_0000) as u8);
    reveal(le32);
    assert(buf@ =~= old(buf)@ + le32(v as int));
}

/// Appends the two low bytes of `v`.
pub fn push_low16(buf: &mut Vec<u8>, v: u64)
    ensures
        final(buf)@ == old(buf)@ + le16(v as int),
{
    buf.push((v % 0x100) as u8);
    buf.push((v / 0x100 % 0x100) as u8);
    reveal(le16);
    assert(buf@ =~= old(buf)@ + le16(v as int));
}

/// Appends the four low bytes of `v`.
pub fn push_low32(buf: &mut Vec<u8>, v: u64)
    ensures
        final(buf)@ == old(buf)@ + le32(v as int),
{
    buf.push((v % 0x100) as u8);
    buf.push((v / 0x100 % 0x100) as u8);
    buf.push((v / 0x1_0000 % 0x100) as u8);
    buf.push((v / 0x100_0000 % 0x100) as u8);
    reveal(le32);
    assert(buf@ =~= old(buf)@ + le32(v as int));
}

pub fn push_le64(buf: &mut Vec<u8>, v: u64)
    ensures
        final(buf)@ == old(buf)@ + le64(v as int),
{
    push_le32(buf, (v % 0x1_0000_0000) as u32);
    push_le32(buf, (v / 0x1_0000_0000) as u32);
    reveal(le64);
    assert(buf@ =~= old(buf)@ + le64(v as int));
}

pub fn push_byte(buf: &mut Vec<u8>, b: u8)
    ensures
        final(buf)@ == old(buf)@ + seq![b],
{
    buf.push(b);
    assert(buf@ =~= old(buf)@ + seq![b]);
}

pub fn push_slice(buf: &mut Vec<u8>, s: &[u8])
    ensures
        final(buf)@ == old(buf)@ + s@,
{
    buf.extend_from_slice(s);
    assert(buf@ =~= old(buf)@ + s@);
}

pub fn push_zeros(buf: &mut Vec<u8>, n: usize)
    ensures
        final(buf)@ == old(buf)@ + zeros(n as int),
{
    let mut k: usize = 0;
    while k < n
        invariant
            k <= n,
            buf@ == old(buf)@ + zeros(k as int),
        decreases n - k,
    {
        buf.push(0);
        k = k + 1;
        assert(buf@ =~= old(buf)@ + zeros(k as int));
    }
    assert(buf@ =~= old(buf)@ + zeros(n as int));
}

/// How many units of `unit` it takes to hold `v`.
pub fn div_ceil(v: usize, unit: usize) -> (r: usize)
    requires
        unit > 0,
    ensures
        r == units(v as int, unit as int),
{
    let q: usize = v / unit;
    let m: usize = v % unit;
    proof {
        lemma_fundamental_div_mod(v as int, unit as int);
        lemma_mul_is_commutative(unit as int, q as int);
        lemma_mul_is_distributive_add(unit as int, q as int, 1);
        lemma_mul_is_commutative(unit as int, q + 1);
        if m == 0 {
            lemma_fundamental_div_mod_converse(v + unit - 1, unit as int, q as int, unit - 1);
        } else {
            lemma_fundamental_div_mod_converse(v + unit - 1, unit as int, q + 1, m - 1);
            if q == usize::MAX {
                lemma_mul_inequality(1, unit as int, q as int);
                assert(false);
            }
        }
    }
    if m == 0 {
        q
    } else {
        q + 1
    }
}

/// The least multiple of `align` that is not below `v`.
pub fn round_up(v: usize, align: usize) -> (r: usize)
    requires
        align > 0,
        rounded(v as int, align as int) <= usize::MAX,
    ensures
        r == rounded(v as int, align as int),
{
    div_ceil(v, align) * align
}

/// Fills the last block of `bs` bytes with zeros.
pub fn pad_to_block(buf: &mut Vec<u8>, bs: usize)
    requires
        bs > 0,
    ensures
        final(buf)@ == padded(old(buf)@, bs as int),
{
    let m: usize = buf.len() % bs;
    proof {
        let v = buf@.len() as int;
        lemma_fundamental_div_mod(v, bs as int);
        let q = v / (bs as int);
        lemma_mul_is_commutative(bs as int, q);
        lemma_mul_is_distributive_add(bs as int, q, 1);
        lemma_mul_is_commutative(bs as int, q + 1);
        if m == 0 {
            lemma_rounded_multiple(q, bs as int);
        } else {
            lemma_fundamental_div_mod_converse(v + bs - 1, bs as int, q + 1, m - 1);
        }
    }
    if m != 0 {
        push_zeros(buf, bs - m);
    } else {
        assert(buf@ =~= padded(old(buf)@, bs as int));
    }
}

} // verus!
