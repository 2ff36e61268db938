//! Little-endian fields and byte patterns of on-disk structures.

use vstd::arithmetic::power2::pow2;
use vstd::bits::lemma_u64_shl_is_mul;
use vstd::prelude::*;

verus! {

/// The 16-bit little-endian field at `o`.
pub open spec fn le16(b: Seq<u8>, o: int) -> u16 {
    (b[o] + 256 * b[o + 1]) as u16
}

/// The 32-bit little-endian field at `o`.
pub open spec fn le32(b: Seq<u8>, o: int) -> u32 {
    (b[o] + 0x100 * b[o + 1] + 0x1_0000 * b[o + 2] + 0x100_0000 * b[o + 3]) as u32
}

/// The 64-bit little-endian field at `o`.
pub open spec fn le64(b: Seq<u8>, o: int) -> u64 {
    (le32(b, o) + 0x1_0000_0000 * le32(b, o + 4)) as u64
}

/// Whether the bytes of `m` stand in `b` at `o`.
pub open spec fn stands_at(b: Seq<u8>, o: int, m: Seq<u8>) -> bool {
    &&& 0 <= o
    &&& o + m.len() <= b.len()
    &&& b.subrange(o, o + m.len()) == m
}

/// The 16-bit little-endian number in `b` at `o`.
pub fn u16le(b: &[u8], o: usize) -> (r: u16)
    requires
        o + 2 <= b@.len(),
    ensures
        r == le16(b@, o as int),
{
    b[o] as u16 + 256 * (b[o + 1] as u16)
}

/// The 32-bit little-endian number in `b` at `o`.
pub fn u32le(b: &[u8], o: usize) -> (r: u32)
    requires
        o + 4 <= b@.len(),
    ensures
        r == le32(b@, o as int),
{
    b[o] as u32 + 0x100 * (b[o + 1] as u32) + 0x1_0000 * (b[o + 2] as u32) + 0x100_0000 * (b[o + 3] as u32)
}

/// The 64-bit little-endian number in `b` at `o`.
pub fn u64le(b: &[u8], o: usize) -> (r: u64)
    requires
        o + 8 <= b@.len(),
    ensures
        r == le64(b@, o as int),
{
    assert(b@.len() == b.len());
    u32le(b, o) as u64 + 0x1_0000_0000 * (u32le(b, o + 4) as u64)
}

/// Whether the bytes of `m` stand in `b` at `o`.
pub fn has_at(b: &[u8], o: usize, m: &[u8]) -> (r: bool)
    ensures
        r == stands_at(b@, o as int, m@),
{
    if m.len() > b.len() || o > b.len() - m.len() {
        return false;
    }
    let mut i: usize = 0;
    while i < m.len()
        invariant
            i <= m@.len(),
            o + m@.len() <= b@.len() == b.len(),
            forall|k: int| 0 <= k < i ==> b@[o + k] == m@[k],
        decreases m@.len() - i,
    {
        if b[o + i] != m[i] {
            assert(b@.subrange(o as int, o + m@.len())[i as int] == b@[o + i]);
            return false;
        }
        i += 1;
    }
    assert(b@.subrange(o as int, o + m@.len()) =~= m@);
    true
}

/// The bytes of `b` from `i` up to `j`, copied.
pub fn copy_range(b: &[u8], i: usize, j: usize) -> (r: Vec<u8>)
    requires
        i <= j <= b@.len(),
    ensures
        r@ == b@.subrange(i as int, j as int),
{
    vstd::slice::slice_to_vec(vstd::slice::slice_subrange(b, i, j))
}

/// `n` zero bytes.
pub open spec fn zeros(n: nat) -> Seq<u8> {
    Seq::new(n, |i: int| 0u8)
}

/// `n` zero bytes.
pub fn zero_bytes(n: usize) -> (r: Vec<u8>)
    ensures
        r@ == zeros(n as nat),
{
    let r: Vec<u8> = vec![0u8; n];
    assert(r@ =~= zeros(n as nat));
    r
}

/// `b` without what stands behind its first `n` bytes.
pub open spec fn first_bytes(b: Seq<u8>, n: nat) -> Seq<u8> {
    if n <= b.len() {
        b.take(n as int)
    } else {
        b
    }
}

/// The 32-bit little-endian words of `b`; a rest of fewer than four bytes is left out.
pub open spec fn words(b: Seq<u8>) -> Seq<u32> {
    Seq::new(b.len() / 4, |i: int| le32(b, 4 * i))
}

/// The 32-bit words of `b`.
pub fn u32_words(b: &[u8]) -> (r: Vec<u32>)
    ensures
        r@ == words(b@),
{
    let n = b.len() / 4;
    let mut r: Vec<u32> = Vec::new();
    let mut i: usize = 0;
    while i < n
        invariant
            i <= n,
            n == b@.len() / 4,
            b@.len() == b.len(),
            r@.len() == i,
            forall|k: int| 0 <= k < i ==> r@[k] == le32(b@, 4 * k),
        decreases n - i,
    {
        r.push(u32le(b, 4 * i));
        i += 1;
    }
    assert(r@ =~= words(b@));
    r
}

/// The 16-bit little-endian units of `b`; an odd last byte is left out.
pub open spec fn units(b: Seq<u8>) -> Seq<u16> {
    Seq::new(b.len() / 2, |i: int| le16(b, 2 * i))
}

/// The 16-bit units of `b`.
pub fn u16_units(b: &[u8]) -> (r: Vec<u16>)
    ensures
        r@ == units(b@),
{
    let n = b.len() / 2;
    let mut r: Vec<u16> = Vec::new();
    let mut i: usize = 0;
    while i < n
        invariant
            i <= n,
            n == b@.len() / 2,
            b@.len() == b.len(),
            r@.len() == i,
            forall|k: int| 0 <= k < i ==> r@[k] == le16(b@, 2 * k),
        decreases n - i,
    {
        r.push(u16le(b, 2 * i));
        i += 1;
    }
    assert(r@ =~= units(b@));
    r
}

/// `a / b`, rounded up.
pub open spec fn ceil_div(a: nat, b: nat) -> nat {
    if a % b == 0 {
        a / b
    } else {
        a / b + 1
    }
}

/// `a / b`, rounded up.
pub fn div_up(a: u64, b: u64) -> (r: u64)
    requires
        b > 0,
    ensures
        r == ceil_div(a as nat, b as nat),
        r <= a,
{
    assert(a / b <= a) by (nonlinear_arith)
        requires
            b > 0,
    ;
    if a % b == 0 {
        a / b
    } else {
        assert(a / b + 1 <= a) by (nonlinear_arith)
            requires
                b > 0,
                a % b != 0,
        ;
        a / b + 1
    }
}

/// `x << k`, where only the low six bits of `k` count.
pub open spec fn shifted(x: u64, k: u8) -> u64 {
    x << ((k & 63) as u64)
}

/// `x << k`, where only the low six bits of `k` count.
pub fn shift(x: u64, k: u8) -> (r: u64)
    ensures
        r == shifted(x, k),
{
    assert(k & 63 < 64) by (bit_vector);
    x << ((k & 63) as u64)
}

/// A field holds its lowest byte first: each byte counts 256 times as much as the one before.
pub proof fn fields_are_little_endian(b: Seq<u8>, o: int)
    ensures
        le16(b, o) == b[o] + 256 * b[o + 1],
        le32(b, o) == b[o] + 256 * (b[o + 1] + 256 * (b[o + 2] + 256 * b[o + 3])),
        le64(b, o) == b[o] + 256 * (b[o + 1] + 256 * (b[o + 2] + 256 * (b[o + 3] + 256 * (b[o + 4] + 256 * (b[o + 5] + 256
            * (b[o + 6] + 256 * b[o + 7])))))),
{
    assert(le32(b, o) == b[o] + 0x100 * b[o + 1] + 0x1_0000 * b[o + 2] + 0x100_0000 * b[o + 3]);
    assert(le32(b, o + 4) == b[o + 4] + 0x100 * b[o + 5] + 0x1_0000 * b[o + 6] + 0x100_0000 * b[o + 7]);
}

/// The words of a table are its groups of four bytes, all that are whole.
pub proof fn words_are_groups_of_four(b: Seq<u8>, i: int)
    requires
        0 <= i,
        4 * i + 4 <= b.len(),
    ensures
        4 * words(b).len() <= b.len() < 4 * words(b).len() + 4,
        words(b)[i] == b[4 * i] + 256 * (b[4 * i + 1] + 256 * (b[4 * i + 2] + 256 * b[4 * i + 3])),
{
    fields_are_little_endian(b, 4 * i);
}

/// The units of a text are its groups of two bytes, all that are whole.
pub proof fn units_are_groups_of_two(b: Seq<u8>, i: int)
    requires
        0 <= i,
        2 * i + 2 <= b.len(),
    ensures
        2 * units(b).len() <= b.len() < 2 * units(b).len() + 2,
        units(b)[i] == b[2 * i] + 256 * b[2 * i + 1],
{
    fields_are_little_endian(b, 2 * i);
}

/// Rounding up gives the least number of pieces of `b` that reach `a`.
pub proof fn ceil_div_reaches(a: nat, b: nat)
    requires
        b > 0,
    ensures
        ceil_div(a, b) * b >= a,
        ceil_div(a, b) > 0 ==> (ceil_div(a, b) - 1) * b < a,
        a == 0 ==> ceil_div(a, b) == 0,
{
    let n = ceil_div(a, b);
    assert(n * b >= a && (n > 0 ==> (n - 1) * b < a)) by (nonlinear_arith)
        requires
            b > 0,
            n == if a % b == 0 {
                a / b
            } else {
                a / b + 1
            },
    ;
}

/// Shifting doubles as often as it says, as long as the result fits.
pub proof fn shifting_doubles(x: u64, k: u8)
    requires
        k < 64,
        x * pow2(k as nat) <= u64::MAX,
    ensures
        shifted(x, k) == x * pow2(k as nat),
{
    assert(k & 63 == k) by (bit_vector)
        requires
            k < 64,
    ;
    lemma_u64_shl_is_mul(x, k as u64);
}

} // verus!
