//! Little-endian integer views of byte sequences.
//!
//! The on-disk record format stores every multi-byte integer little-endian;
//! these are the spec-level readings and the verified exec readers.

use vstd::prelude::*;

verus! {

/// The little-endian value of the 4 bytes of `s` starting at `off`.
pub open spec fn le_u32_at(s: Seq<u8>, off: int) -> int {
    s[off] + s[off + 1] * 0x100 + s[off + 2] * 0x1_0000 + s[off + 3] * 0x100_0000
}

/// The little-endian value of the 8 bytes of `s` starting at `off`.
pub open spec fn le_u64_at(s: Seq<u8>, off: int) -> int {
    s[off] + s[off + 1] * 0x100 + s[off + 2] * 0x1_0000 + s[off + 3] * 0x100_0000
        + s[off + 4] * 0x1_0000_0000 + s[off + 5] * 0x100_0000_0000
        + s[off + 6] * 0x1_0000_0000_0000 + s[off + 7] * 0x100_0000_0000_0000
}

/// The 4 little-endian bytes of a value `n` with `0 <= n < 2^32`.
pub open spec fn u32_le_bytes(n: int) -> Seq<u8> {
    seq![
        (n % 0x100) as u8,
        ((n / 0x100) % 0x100) as u8,
        ((n / 0x1_0000) % 0x100) as u8,
        ((n / 0x100_0000) % 0x100) as u8,
    ]
}

/// Each little-endian byte of a 4-byte value is recovered by shifting and
/// reducing the value.
proof fn lemma_le_u32_digits(b0: int, b1: int, b2: int, b3: int, n: int)
    by (nonlinear_arith)
    requires
        n == b0 + b1 * 0x100 + b2 * 0x1_0000 + b3 * 0x100_0000,
        0 <= b0 < 0x100,
        0 <= b1 < 0x100,
        0 <= b2 < 0x100,
        0 <= b3 < 0x100,
    ensures
        n % 0x100 == b0,
        (n / 0x100) % 0x100 == b1,
        (n / 0x1_0000) % 0x100 == b2,
        (n / 0x100_0000) % 0x100 == b3,
        (n / 0x100_0000) % 0x100 == n / 0x100_0000,
{
}

/// Reads a `u32` stored little-endian at `off`.
pub fn read_le_u32(b: &[u8], off: usize) -> (r: u32)
    requires
        off + 4 <= b@.len(),
    ensures
        r as int == le_u32_at(b@, off as int),
{
    let x0 = b[off] as u32;
    let x1 = b[off + 1] as u32;
    let x2 = b[off + 2] as u32;
    let x3 = b[off + 3] as u32;
    x0 + x1 * 0x100 + x2 * 0x1_0000 + x3 * 0x100_0000
}

/// Reads a `u64` stored little-endian at `off`.
pub fn read_le_u64(b: &[u8], off: usize) -> (r: u64)
    requires
        off + 8 <= b@.len(),
    ensures
        r as int == le_u64_at(b@, off as int),
{
    let x0 = b[off] as u64;
    let x1 = b[off + 1] as u64;
    let x2 = b[off + 2] as u64;
    let x3 = b[off + 3] as u64;
    let x4 = b[off + 4] as u64;
    let x5 = b[off + 5] as u64;
    let x6 = b[off + 6] as u64;
    let x7 = b[off + 7] as u64;
    x0 + x1 * 0x100 + x2 * 0x1_0000 + x3 * 0x100_0000 + x4 * 0x1_0000_0000
        + x5 * 0x100_0000_0000 + x6 * 0x1_0000_0000_0000 + x7 * 0x100_0000_0000_0000
}

/// Writes `n` as 4 little-endian bytes onto the end of `out`.
pub fn push_le_u32(out: &mut Vec<u8>, n: u32)
    ensures
        final(out)@ == old(out)@ + u32_le_bytes(n as int),
{
    out.push((n % 0x100) as u8);
    out.push(((n / 0x100) % 0x100) as u8);
    out.push(((n / 0x1_0000) % 0x100) as u8);
    out.push((n / 0x100_0000) as u8);
    proof {
        lemma_le_u32_digits(
            (n as int) % 0x100,
            ((n as int) / 0x100) % 0x100,
            ((n as int) / 0x1_0000) % 0x100,
            (n as int) / 0x100_0000,
            n as int,
        );
        assert(out@ =~= old(out)@ + u32_le_bytes(n as int));
    }
}

/// Encoding then decoding 4 bytes gives them back: the little-endian bytes of
/// `le_u32_at(s, off)` are exactly `s[off .. off + 4]`.
pub proof fn lemma_le_u32_round_trip(s: Seq<u8>, off: int)
    requires
        0 <= off,
        off + 4 <= s.len(),
    ensures
        u32_le_bytes(le_u32_at(s, off)) =~= s.subrange(off, off + 4),
{
    lemma_le_u32_digits(
        s[off] as int,
        s[off + 1] as int,
        s[off + 2] as int,
        s[off + 3] as int,
        le_u32_at(s, off),
    );
}

} // verus!
