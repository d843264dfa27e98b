//! Byte sequences: patching, comparing, and little-endian integers.

use vstd::prelude::*;

verus! {

/// `s` with the bytes from position `at` on replaced by `t`.
pub open spec fn splice(s: Seq<u8>, at: int, t: Seq<u8>) -> Seq<u8> {
    Seq::new(s.len(), |i: int| if at <= i < at + t.len() { t[i - at] } else { s[i] })
}

/// `n` zero bytes.
pub open spec fn zeros(n: nat) -> Seq<u8> {
    Seq::new(n, |i: int| 0u8)
}

/// Writes `src` over the bytes of `dst` that begin at position `at`.
pub fn copy_into(dst: &mut [u8], at: usize, src: &[u8])
    requires
        at + src@.len() <= old(dst).len(),
    ensures
        final(dst)@ == splice(old(dst)@, at as int, src@),
{
    let total: usize = dst.len();
    let n: usize = src.len();
    let mut i: usize = 0;
    while i < n
        invariant
            i <= n,
            n == src@.len(),
            at + n <= total,
            total == dst@.len(),
            total == old(dst)@.len(),
            dst@ =~= splice(old(dst)@, at as int, src@.subrange(0, i as int)),
        decreases n - i,
    {
        dst[at + i] = src[i];
        i = i + 1;
    }
    assert(src@.subrange(0, n as int) =~= src@);
}

/// Whether two byte slices hold the same bytes.
pub fn same_bytes(a: &[u8], b: &[u8]) -> (r: bool)
    ensures
        r == (a@ == b@),
{
    if a.len() != b.len() {
        return false;
    }
    let n: usize = a.len();
    let mut i: usize = 0;
    while i < n
        invariant
            i <= n,
            n == a@.len(),
            n == b@.len(),
            forall|k: int| 0 <= k < i ==> a@[k] == b@[k],
        decreases n - i,
    {
        if a[i] != b[i] {
            return false;
        }
        i = i + 1;
    }
    assert(a@ =~= b@);
    true
}

/// The two bytes of `x`, least significant first.
pub open spec fn u16_le(x: u16) -> Seq<u8> {
    seq![(x % 256) as u8, (x / 256) as u8]
}

/// The number whose two bytes, least significant first, begin at `at`.
pub open spec fn u16_at(s: Seq<u8>, at: int) -> u16 {
    (s[at] + 256 * s[at + 1]) as u16
}

/// The four bytes of `x`, least significant first.
pub open spec fn u32_le(x: u32) -> Seq<u8> {
    seq![
        (x % 256) as u8,
        (x / 256 % 256) as u8,
        (x / 65536 % 256) as u8,
        (x / 16777216) as u8,
    ]
}

/// The number whose four bytes, least significant first, begin at `at`.
pub open spec fn u32_at(s: Seq<u8>, at: int) -> u32 {
    (s[at] + 256 * s[at + 1] + 65536 * s[at + 2] + 16777216 * s[at + 3]) as u32
}

/// The eight bytes of the two's complement form of `x`, least significant first.
pub open spec fn i64_le(x: i64) -> Seq<u8> {
    u32_le((x as u64 % 0x1_0000_0000) as u32) + u32_le((x as u64 / 0x1_0000_0000) as u32)
}

/// The number whose eight two's complement bytes, least significant first, begin at `at`.
pub open spec fn i64_at(s: Seq<u8>, at: int) -> i64 {
    ((u32_at(s, at) + 0x1_0000_0000 * u32_at(s, at + 4)) as u64) as i64
}

/// Writes the two bytes of `x` at position `at`.
pub fn put_u16(buf: &mut [u8], at: usize, x: u16)
    requires
        at + 2 <= old(buf).len(),
    ensures
        final(buf)@ == splice(old(buf)@, at as int, u16_le(x)),
{
    let b: [u8; 2] = [(x % 256) as u8, (x / 256) as u8];
    assert(b@ =~= u16_le(x));
    copy_into(buf, at, &b);
}

/// Writes the four bytes of `x` at position `at`.
pub fn put_u32(buf: &mut [u8], at: usize, x: u32)
    requires
        at + 4 <= old(buf).len(),
    ensures
        final(buf)@ == splice(old(buf)@, at as int, u32_le(x)),
{
    let b: [u8; 4] = [
        (x % 256) as u8,
        (x / 256 % 256) as u8,
        (x / 65536 % 256) as u8,
        (x / 16777216) as u8,
    ];
    assert(b@ =~= u32_le(x));
    copy_into(buf, at, &b);
}

/// Writes the eight bytes of `x` at position `at`.
pub fn put_i64(buf: &mut [u8], at: usize, x: i64)
    requires
        at + 8 <= old(buf).len(),
    ensures
        final(buf)@ == splice(old(buf)@, at as int, i64_le(x)),
{
    let u: u64 = x as u64;
    put_u32(buf, at, (u % 0x1_0000_0000) as u32);
    put_u32(buf, at + 4, (u / 0x1_0000_0000) as u32);
    assert(buf@ =~= splice(old(buf)@, at as int, i64_le(x)));
}

/// Reads the number whose two bytes begin at position `at`.
pub fn get_u16(buf: &[u8], at: usize) -> (r: u16)
    requires
        at + 2 <= buf.len(),
    ensures
        r == u16_at(buf@, at as int),
{
    buf[at] as u16 + 256 * (buf[at + 1] as u16)
}

/// Reads the number whose four bytes begin at position `at`.
pub fn get_u32(buf: &[u8], at: usize) -> (r: u32)
    requires
        at + 4 <= buf.len(),
    ensures
        r == u32_at(buf@, at as int),
{
    buf[at] as u32 + 256 * (buf[at + 1] as u32) + 65536 * (buf[at + 2] as u32) + 16777216 * (
    buf[at + 3] as u32)
}

/// Reads the number whose eight bytes begin at position `at`.
pub fn get_i64(buf: &[u8], at: usize) -> (r: i64)
    requires
        at + 8 <= buf.len(),
    ensures
        r == i64_at(buf@, at as int),
{
    let u: u64 = get_u32(buf, at) as u64 + 0x1_0000_0000 * (get_u32(buf, at + 4) as u64);
    u as i64
}

/// The bytes `t` stand in `s` at position `at`.
#[verifier::opaque]
pub open spec fn stands_at(s: Seq<u8>, at: int, t: Seq<u8>) -> bool {
    forall|k: int| 0 <= k < t.len() ==> s[at + k] == #[trigger] t[k]
}

/// What stands in the front part of `s` stands in `s`.
pub proof fn lemma_stands_in_front(s: Seq<u8>, n: int, at: int, t: Seq<u8>)
    requires
        0 <= at,
        at + t.len() <= n <= s.len(),
        stands_at(s.subrange(0, n), at, t),
    ensures
        stands_at(s, at, t),
{
    reveal(stands_at);
    assert forall|k: int| 0 <= k < t.len() implies s[at + k] == #[trigger] t[k] by {
        assert(s.subrange(0, n)[at + k] == t[k]);
    }
}

/// Where the two bytes of a number stand, the number is read.
pub proof fn lemma_u16_read(s: Seq<u8>, at: int, x: u16)
    requires
        stands_at(s, at, u16_le(x)),
    ensures
        u16_at(s, at) == x,
{
    reveal(stands_at);
    let t = u16_le(x);
    assert(s[at + 0] == t[0] && s[at + 1] == t[1]);
}

/// Where the four bytes of a number stand, the number is read.
pub proof fn lemma_u32_read(s: Seq<u8>, at: int, x: u32)
    requires
        stands_at(s, at, u32_le(x)),
    ensures
        u32_at(s, at) == x,
{
    reveal(stands_at);
    let t = u32_le(x);
    assert(s[at + 0] == t[0] && s[at + 1] == t[1] && s[at + 2] == t[2] && s[at + 3] == t[3]);
}

/// Where the eight bytes of a number stand, the number is read.
pub proof fn lemma_i64_read(s: Seq<u8>, at: int, x: i64)
    requires
        stands_at(s, at, i64_le(x)),
    ensures
        i64_at(s, at) == x,
{
    let u: u64 = x as u64;
    let lo: u32 = (u % 0x1_0000_0000) as u32;
    let hi: u32 = (u / 0x1_0000_0000) as u32;
    let t = i64_le(x);
    assert(stands_at(s, at, u32_le(lo)) && stands_at(s, at + 4, u32_le(hi))) by {
        reveal(stands_at);
        assert forall|k: int| 0 <= k < 4 implies s[at + k] == #[trigger] u32_le(lo)[k] by {
            assert(t[k] == u32_le(lo)[k]);
        }
        assert forall|k: int| 0 <= k < 4 implies s[at + 4 + k] == #[trigger] u32_le(hi)[k] by {
            assert(t[k + 4] == u32_le(hi)[k]);
        }
    }
    lemma_u32_read(s, at, lo);
    lemma_u32_read(s, at + 4, hi);
    assert((x as u64) as i64 == x) by (bit_vector);
}

} // verus!
