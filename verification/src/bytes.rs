//! Bytes: little-endian integers in them, and parts laid over them.

use vstd::arithmetic::div_mod::lemma_fundamental_div_mod_converse;
use vstd::bytes::{
    lemma_auto_spec_u64_to_from_le_bytes, spec_u64_from_le_bytes, spec_u64_to_le_bytes,
    spec_u64_to_le_bytes_to_open, u64_from_le_bytes, u64_to_le_bytes,
};
use vstd::prelude::*;
use vstd::slice::slice_subrange;

verus! {

/// The integer that four bytes hold, the lowest byte first.
#[verifier::opaque]
pub open spec fn le_u32(s: Seq<u8>) -> u32 {
    (s[0] + 0x100 * s[1] + 0x1_0000 * s[2] + 0x100_0000 * s[3]) as u32
}

/// The four bytes of an integer, the lowest byte first.
#[verifier::opaque]
pub open spec fn u32_bytes(x: u32) -> Seq<u8> {
    seq![
        (x % 0x100) as u8,
        (x / 0x100 % 0x100) as u8,
        (x / 0x1_0000 % 0x100) as u8,
        (x / 0x100_0000) as u8,
    ]
}

/// The 16-bit integer at byte `off`.
pub open spec fn u16_at(bytes: Seq<u8>, off: int) -> u16 {
    (bytes[off] + 0x100 * bytes[off + 1]) as u16
}

/// The 32-bit integer at byte `off`.
pub open spec fn u32_at(bytes: Seq<u8>, off: int) -> u32 {
    le_u32(bytes.subrange(off, off + 4))
}

/// The 64-bit integer at byte `off`.
pub open spec fn u64_at(bytes: Seq<u8>, off: int) -> u64 {
    spec_u64_from_le_bytes(bytes.subrange(off, off + 8))
}

/// `bytes` with `src` laid over it from `off` on.
pub open spec fn splice(bytes: Seq<u8>, off: int, src: Seq<u8>) -> Seq<u8> {
    Seq::new(
        bytes.len(),
        |i: int|
            if off <= i < off + src.len() {
                src[i - off]
            } else {
                bytes[i]
            },
    )
}

/// The bytes from `k` on are zero.
pub open spec fn zero_from(bytes: Seq<u8>, k: int) -> bool {
    forall|i: int| k <= i < bytes.len() ==> #[trigger] bytes[i] == 0
}

/// Reads the 16-bit integer at byte `off`.
pub fn read_u16(bytes: &[u8], off: usize) -> (r: u16)
    requires
        off + 2 <= bytes@.len(),
    ensures
        r == u16_at(bytes@, off as int),
{
    let len: usize = bytes.len();
    assert(off + 2 <= len);
    bytes[off] as u16 + 0x100 * bytes[off + 1] as u16
}

/// Reads the 32-bit integer at byte `off`.
pub fn read_u32(bytes: &[u8], off: usize) -> (r: u32)
    requires
        off + 4 <= bytes@.len(),
    ensures
        r == u32_at(bytes@, off as int),
{
    let len: usize = bytes.len();
    assert(off + 4 <= len);
    proof {
        reveal(le_u32);
    }
    bytes[off] as u32 + 0x100 * bytes[off + 1] as u32 + 0x1_0000 * bytes[off + 2] as u32
        + 0x100_0000 * bytes[off + 3] as u32
}

/// Reads the 64-bit integer at byte `off`.
pub fn read_u64(bytes: &[u8], off: usize) -> (r: u64)
    requires
        off + 8 <= bytes@.len(),
    ensures
        r == u64_at(bytes@, off as int),
{
    let len: usize = bytes.len();
    assert(off + 8 <= len);
    u64_from_le_bytes(slice_subrange(bytes, off, off + 8))
}

/// Lays `src` over `bytes` from `off` on.
pub fn write_bytes(bytes: &mut [u8], off: usize, src: &[u8])
    requires
        off + src@.len() <= old(bytes)@.len(),
    ensures
        final(bytes)@ == splice(old(bytes)@, off as int, src@),
{
    let ghost before = bytes@;
    let len: usize = bytes.len();
    let mut i: usize = 0;
    while i < src.len()
        invariant
            i <= src@.len(),
            before.len() == bytes@.len() == len,
            off + src@.len() <= bytes@.len(),
            bytes@ == splice(before, off as int, src@.take(i as int)),
        decreases src@.len() - i,
    {
        bytes[off + i] = src[i];
        i += 1;
    }
    assert(src@.take(i as int) == src@);
}

/// Stores a 32-bit integer at byte `off`.
pub fn write_u32(bytes: &mut [u8], off: usize, value: u32)
    requires
        off + 4 <= old(bytes)@.len(),
    ensures
        final(bytes)@ == splice(old(bytes)@, off as int, u32_bytes(value)),
        u32_at(final(bytes)@, off as int) == value,
        same_outside(old(bytes)@, final(bytes)@, off as int, off + 4),
{
    let le: [u8; 4] = [
        (value % 0x100) as u8,
        (value / 0x100 % 0x100) as u8,
        (value / 0x1_0000 % 0x100) as u8,
        (value / 0x100_0000) as u8,
    ];
    proof {
        reveal(u32_bytes);
        assert(le@ =~= u32_bytes(value));
    }
    write_bytes(bytes, off, &le);
    proof {
        lemma_u32_bytes();
        assert(bytes@.subrange(off as int, off + 4) == le@);
    }
}

/// Stores a 64-bit integer at byte `off`.
pub fn write_u64(bytes: &mut [u8], off: usize, value: u64)
    requires
        off + 8 <= old(bytes)@.len(),
    ensures
        final(bytes)@ == splice(old(bytes)@, off as int, spec_u64_to_le_bytes(value)),
        u64_at(final(bytes)@, off as int) == value,
        same_outside(old(bytes)@, final(bytes)@, off as int, off + 8),
{
    let le: Vec<u8> = u64_to_le_bytes(value);
    write_bytes(bytes, off, le.as_slice());
    proof {
        lemma_auto_spec_u64_to_from_le_bytes();
        assert(bytes@.subrange(off as int, off + 8) == le@);
    }
}

/// Two byte sequences of one length agree everywhere but in `[from, to)`.
pub open spec fn same_outside(a: Seq<u8>, b: Seq<u8>, from: int, to: int) -> bool {
    &&& a.len() == b.len()
    &&& forall|i: int| 0 <= i < a.len() && !(from <= i < to) ==> #[trigger] b[i] == a[i]
}

/// The digits of a number of four bytes.
proof fn lemma_digits(a: int, b: int, c: int, d: int)
    requires
        0 <= a < 0x100,
        0 <= b < 0x100,
        0 <= c < 0x100,
        0 <= d < 0x100,
    ensures
        ({
            let n = a + 0x100 * b + 0x1_0000 * c + 0x100_0000 * d;
            &&& n % 0x100 == a
            &&& n / 0x100 % 0x100 == b
            &&& n / 0x1_0000 % 0x100 == c
            &&& n / 0x100_0000 == d
        }),
{
    let n = a + 0x100 * b + 0x1_0000 * c + 0x100_0000 * d;
    lemma_fundamental_div_mod_converse(n, 0x100, b + 0x100 * c + 0x1_0000 * d, a);
    lemma_fundamental_div_mod_converse(b + 0x100 * c + 0x1_0000 * d, 0x100, c + 0x100 * d, b);
    lemma_fundamental_div_mod_converse(n, 0x1_0000, c + 0x100 * d, a + 0x100 * b);
    lemma_fundamental_div_mod_converse(c + 0x100 * d, 0x100, d, c);
    lemma_fundamental_div_mod_converse(n, 0x100_0000, d, a + 0x100 * b + 0x1_0000 * c);
}

/// An integer is that of its bytes.
proof fn lemma_from_bytes(x: u32)
    ensures
        u32_bytes(x).len() == 4,
        le_u32(u32_bytes(x)) == x,
{
    reveal(le_u32);
    reveal(u32_bytes);
    let n = x as int;
    assert(n / 0x100 / 0x100 == n / 0x1_0000);
    assert(n / 0x1_0000 / 0x100 == n / 0x100_0000);
    assert(n == n % 0x100 + 0x100 * (n / 0x100));
    assert(n / 0x100 == n / 0x100 % 0x100 + 0x100 * (n / 0x1_0000));
    assert(n / 0x1_0000 == n / 0x1_0000 % 0x100 + 0x100 * (n / 0x100_0000));
}

/// Bytes are those of their integer.
proof fn lemma_to_bytes(s: Seq<u8>)
    requires
        s.len() == 4,
    ensures
        u32_bytes(le_u32(s)) == s,
{
    reveal(le_u32);
    reveal(u32_bytes);
    lemma_digits(s[0] as int, s[1] as int, s[2] as int, s[3] as int);
    assert(u32_bytes(le_u32(s)) =~= s);
}

/// An integer is that of its bytes, and bytes are those of their integer.
pub proof fn lemma_u32_bytes()
    ensures
        forall|x: u32| (#[trigger] u32_bytes(x)).len() == 4 && le_u32(u32_bytes(x)) == x,
        forall|s: Seq<u8>| s.len() == 4 ==> #[trigger] u32_bytes(le_u32(s)) == s,
{
    assert forall|x: u32| (#[trigger] u32_bytes(x)).len() == 4 && le_u32(u32_bytes(x)) == x by {
        lemma_from_bytes(x);
    }
    assert forall|s: Seq<u8>| s.len() == 4 implies #[trigger] u32_bytes(le_u32(s)) == s by {
        lemma_to_bytes(s);
    }
}

/// Four zeros are the integer zero.
pub proof fn lemma_zero_u32(bytes: Seq<u8>, off: int)
    requires
        0 <= off,
        off + 4 <= bytes.len(),
        forall|i: int| off <= i < off + 4 ==> #[trigger] bytes[i] == 0,
    ensures
        u32_at(bytes, off) == 0,
{
    reveal(le_u32);
}

/// Zeros are the integer zero.
pub proof fn lemma_zero_u64(bytes: Seq<u8>, off: int)
    requires
        0 <= off,
        off + 8 <= bytes.len(),
        forall|i: int| off <= i < off + 8 ==> #[trigger] bytes[i] == 0,
    ensures
        u64_at(bytes, off) == 0,
{
    lemma_auto_spec_u64_to_from_le_bytes();
    assert(spec_u64_to_le_bytes(0u64) =~= bytes.subrange(off, off + 8)) by {
        spec_u64_to_le_bytes_to_open(0u64);
        assert((0u64 & 0xff) as u8 == 0 && ((0u64 >> 8) & 0xff) as u8 == 0 && ((0u64 >> 16) & 0xff)
            as u8 == 0 && ((0u64 >> 24) & 0xff) as u8 == 0 && ((0u64 >> 32) & 0xff) as u8 == 0 && ((
        0u64 >> 40) & 0xff) as u8 == 0 && ((0u64 >> 48) & 0xff) as u8 == 0 && ((0u64 >> 56) & 0xff)
            as u8 == 0) by (bit_vector);
    }
}

/// Numbers lie in memory and on the disk with their lowest byte first.
pub proof fn law_lowest_byte_first(bytes: Seq<u8>, off: int, x: u32)
    requires
        0 <= off,
        off + 4 <= bytes.len(),
    ensures
        u16_at(bytes, off) == bytes[off] + 0x100 * bytes[off + 1],
        u32_at(bytes, off) == bytes[off] + 0x100 * bytes[off + 1] + 0x1_0000 * bytes[off + 2]
            + 0x100_0000 * bytes[off + 3],
        u32_bytes(x).len() == 4,
        u32_bytes(x)[0] == x % 0x100,
        u32_bytes(x)[1] == x / 0x100 % 0x100,
        u32_bytes(x)[2] == x / 0x1_0000 % 0x100,
        u32_bytes(x)[3] == x / 0x100_0000,
{
    reveal(u32_bytes);
    reveal(le_u32);
}

} // verus!
