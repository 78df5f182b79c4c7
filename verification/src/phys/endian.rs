//! Integers as they stand in a block, in either byte order.

use vstd::prelude::*;

verus! {

/// Byte order of the integers of a block.
#[derive(Debug, Clone, Copy, PartialEq, Eq, Structural)]
pub enum EndianOrder {
    /// Most significant byte first.
    Big,
    /// Least significant byte first.
    Little,
}

/// The 16 bit number at `p`.
#[verifier::opaque]
pub open spec fn u16_at(s: Seq<u8>, p: int, order: EndianOrder) -> u16 {
    match order {
        EndianOrder::Big => (s[p] * 0x100 + s[p + 1]) as u16,
        EndianOrder::Little => (s[p + 1] * 0x100 + s[p]) as u16,
    }
}

/// The 32 bit number at `p`.
#[verifier::opaque]
pub open spec fn u32_at(s: Seq<u8>, p: int, order: EndianOrder) -> u32 {
    match order {
        EndianOrder::Big => (s[p] * 0x100_0000 + s[p + 1] * 0x1_0000 + s[p + 2] * 0x100 + s[p
            + 3]) as u32,
        EndianOrder::Little => (s[p + 3] * 0x100_0000 + s[p + 2] * 0x1_0000 + s[p + 1] * 0x100
            + s[p]) as u32,
    }
}

/// The 64 bit number at `p`.
#[verifier::opaque]
pub open spec fn u64_at(s: Seq<u8>, p: int, order: EndianOrder) -> u64 {
    match order {
        EndianOrder::Big => (u32_at(s, p, order) * 0x1_0000_0000 + u32_at(
            s,
            p + 4,
            order,
        )) as u64,
        EndianOrder::Little => (u32_at(s, p + 4, order) * 0x1_0000_0000 + u32_at(
            s,
            p,
            order,
        )) as u64,
    }
}

/// Byte `i`, counted from the most significant, of a 64 bit number.
pub open spec fn big_endian_byte(x: u64, i: int) -> u8 {
    if i == 0 {
        (x / 0x100_0000_0000_0000) as u8
    } else if i == 1 {
        (x / 0x1_0000_0000_0000 % 0x100) as u8
    } else if i == 2 {
        (x / 0x100_0000_0000 % 0x100) as u8
    } else if i == 3 {
        (x / 0x1_0000_0000 % 0x100) as u8
    } else if i == 4 {
        (x / 0x100_0000 % 0x100) as u8
    } else if i == 5 {
        (x / 0x1_0000 % 0x100) as u8
    } else if i == 6 {
        (x / 0x100 % 0x100) as u8
    } else {
        (x % 0x100) as u8
    }
}

/// The bytes of a 64 bit number.
pub open spec fn u64_bytes(x: u64, order: EndianOrder) -> Seq<u8> {
    match order {
        EndianOrder::Big => Seq::new(8, |i: int| big_endian_byte(x, i)),
        EndianOrder::Little => Seq::new(8, |i: int| big_endian_byte(x, 7 - i)),
    }
}

/// Equal bytes are equal numbers.
pub proof fn lemma_same_u64(s1: Seq<u8>, p1: int, s2: Seq<u8>, p2: int, order: EndianOrder)
    requires
        forall|i: int| p1 <= i < p1 + 8 ==> #[trigger] s1[i] == s2[p2 - p1 + i],
    ensures
        u64_at(s1, p1, order) == u64_at(s2, p2, order),
{
    reveal(u64_at);
    reveal(u32_at);
}

/// Equal bytes are equal numbers.
pub proof fn lemma_same_u32(s1: Seq<u8>, p1: int, s2: Seq<u8>, p2: int, order: EndianOrder)
    requires
        forall|i: int| p1 <= i < p1 + 4 ==> #[trigger] s1[i] == s2[p2 - p1 + i],
    ensures
        u32_at(s1, p1, order) == u32_at(s2, p2, order),
{
    reveal(u32_at);
}

/// Reads the 16 bit number at `pos`.
pub fn read_u16(bytes: &[u8], pos: usize, order: EndianOrder) -> (r: u16)
    requires
        pos + 2 <= bytes@.len(),
    ensures
        r == u16_at(bytes@, pos as int, order),
{
    reveal(u16_at);
    let (a, b) = (bytes[pos] as u16, bytes[pos + 1] as u16);
    match order {
        EndianOrder::Big => a * 0x100 + b,
        EndianOrder::Little => b * 0x100 + a,
    }
}

/// Reads the 32 bit number at `pos`.
pub fn read_u32(bytes: &[u8], pos: usize, order: EndianOrder) -> (r: u32)
    requires
        pos + 4 <= bytes@.len(),
    ensures
        r == u32_at(bytes@, pos as int, order),
{
    reveal(u32_at);
    let (a, b) = (bytes[pos] as u32, bytes[pos + 1] as u32);
    let (c, d) = (bytes[pos + 2] as u32, bytes[pos + 3] as u32);
    match order {
        EndianOrder::Big => a * 0x100_0000 + b * 0x1_0000 + c * 0x100 + d,
        EndianOrder::Little => d * 0x100_0000 + c * 0x1_0000 + b * 0x100 + a,
    }
}

/// Reads the 64 bit number at `pos`.
pub fn read_u64(bytes: &[u8], pos: usize, order: EndianOrder) -> (r: u64)
    requires
        pos + 8 <= bytes@.len(),
    ensures
        r == u64_at(bytes@, pos as int, order),
{
    reveal(u64_at);
    assert(bytes@.len() == bytes.len());
    let a = read_u32(bytes, pos, order) as u64;
    let b = read_u32(bytes, pos + 4, order) as u64;
    match order {
        EndianOrder::Big => a * 0x1_0000_0000 + b,
        EndianOrder::Little => b * 0x1_0000_0000 + a,
    }
}

/// Splits a 64 bit number into its bytes.
pub fn split_u64(x: u64, order: EndianOrder) -> (r: [u8; 8])
    ensures
        r@ == u64_bytes(x, order),
{
    let (a, b): (u8, u8) = (
        (x / 0x100_0000_0000_0000) as u8,
        (x / 0x1_0000_0000_0000 % 0x100) as u8,
    );
    let (c, d): (u8, u8) = ((x / 0x100_0000_0000 % 0x100) as u8, (x / 0x1_0000_0000 % 0x100) as u8);
    let (e, f): (u8, u8) = ((x / 0x100_0000 % 0x100) as u8, (x / 0x1_0000 % 0x100) as u8);
    let (g, h): (u8, u8) = ((x / 0x100 % 0x100) as u8, (x % 0x100) as u8);
    let bytes: [u8; 8] = match order {
        EndianOrder::Big => [a, b, c, d, e, f, g, h],
        EndianOrder::Little => [h, g, f, e, d, c, b, a],
    };
    assert(bytes@ =~= u64_bytes(x, order));
    bytes
}

/// A number is the sum of its halves, and a half the sum of its bytes.
proof fn lemma_sum_of_bytes(x: u64)
    by (bit_vector)
    ensures
        x == (x / 0x1_0000_0000) * 0x1_0000_0000 + x % 0x1_0000_0000,
        x / 0x1_0000_0000 == (x / 0x100_0000_0000_0000) * 0x100_0000 + (x / 0x1_0000_0000_0000
            % 0x100) * 0x1_0000 + (x / 0x100_0000_0000 % 0x100) * 0x100 + (x / 0x1_0000_0000
            % 0x100),
        x % 0x1_0000_0000 == (x / 0x100_0000 % 0x100) * 0x100_0000 + (x / 0x1_0000 % 0x100)
            * 0x1_0000 + (x / 0x100 % 0x100) * 0x100 + x % 0x100,
{
}

/// The bytes of a number are read back as that number.
pub proof fn law_split_then_read(x: u64, order: EndianOrder)
    ensures
        u64_bytes(x, order).len() == 8,
        u64_at(u64_bytes(x, order), 0, order) == x,
{
    let s = u64_bytes(x, order);
    lemma_sum_of_bytes(x);
    let (high, low) = match order {
        EndianOrder::Big => (0int, 4int),
        EndianOrder::Little => (4int, 0int),
    };
    assert(u32_at(s, high, order) == x / 0x1_0000_0000) by {
        reveal(u32_at);
    }
    assert(u32_at(s, low, order) == x % 0x1_0000_0000) by {
        reveal(u32_at);
    }
    reveal(u64_at);
}

/// Every byte of a number weighs 256 times as much as the next less significant one, which
/// comes after it or before it.
pub proof fn law_weight_of_bytes(s: Seq<u8>, p: int)
    ensures
        u16_at(s, p, EndianOrder::Big) == 256 * s[p] + s[p + 1],
        u16_at(s, p, EndianOrder::Little) == s[p] + 256 * s[p + 1],
        u32_at(s, p, EndianOrder::Big) == 256 * (256 * (256 * s[p] + s[p + 1]) + s[p + 2]) + s[p
            + 3],
        u32_at(s, p, EndianOrder::Little) == s[p] + 256 * (s[p + 1] + 256 * (s[p + 2] + 256 * s[p
            + 3])),
        u64_at(s, p, EndianOrder::Big) == 256 * (256 * (256 * (256 * (256 * (256 * (256 * s[p] + s[p
            + 1]) + s[p + 2]) + s[p + 3]) + s[p + 4]) + s[p + 5]) + s[p + 6]) + s[p + 7],
        u64_at(s, p, EndianOrder::Little) == s[p] + 256 * (s[p + 1] + 256 * (s[p + 2] + 256 * (s[p
            + 3] + 256 * (s[p + 4] + 256 * (s[p + 5] + 256 * (s[p + 6] + 256 * s[p + 7])))))),
{
    reveal(u16_at);
    reveal(u32_at);
    reveal(u64_at);
}

proof fn lemma_last_byte(a: int, b: u8, c: int, d: u8)
    requires
        256 * a + b == 256 * c + d,
    ensures
        a == c,
        b == d,
{
}

/// Equal numbers have equal bytes.
pub proof fn lemma_bytes_of_same_u64(
    s1: Seq<u8>,
    p1: int,
    s2: Seq<u8>,
    p2: int,
    order: EndianOrder,
    i: int,
)
    requires
        u64_at(s1, p1, order) == u64_at(s2, p2, order),
        0 <= i < 8,
    ensures
        s1[p1 + i] == s2[p2 + i],
{
    law_weight_of_bytes(s1, p1);
    law_weight_of_bytes(s2, p2);
    let at = |k: int|
        match order {
            EndianOrder::Big => k,
            EndianOrder::Little => 7 - k,
        };
    let (a, b) = (|k: int| s1[p1 + at(k)], |k: int| s2[p2 + at(k)]);
    let (a1, b1) = (256 * a(0) + a(1), 256 * b(0) + b(1));
    let (a2, b2) = (256 * a1 + a(2), 256 * b1 + b(2));
    let (a3, b3) = (256 * a2 + a(3), 256 * b2 + b(3));
    let (a4, b4) = (256 * a3 + a(4), 256 * b3 + b(4));
    let (a5, b5) = (256 * a4 + a(5), 256 * b4 + b(5));
    let (a6, b6) = (256 * a5 + a(6), 256 * b5 + b(6));
    lemma_last_byte(a6, a(7), b6, b(7));
    lemma_last_byte(a5, a(6), b5, b(6));
    lemma_last_byte(a4, a(5), b4, b(5));
    lemma_last_byte(a3, a(4), b3, b(4));
    lemma_last_byte(a2, a(3), b2, b(3));
    lemma_last_byte(a1, a(2), b1, b(2));
    lemma_last_byte(a(0) as int, a(1), b(0) as int, b(1));
    assert(a(at(i)) == b(at(i)));
}

} // verus!
