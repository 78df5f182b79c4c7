//! SHA-256, as FIPS 180-4 defines it.

use crate::checksum::{Checksum, ChecksumError};
use crate::phys::endian::{
    big_endian_byte, law_split_then_read, lemma_same_u32, lemma_same_u64, read_u32, u32_at, u64_at,
    u64_bytes, EndianOrder,
};
use vstd::prelude::*;

verus! {

/// Implementations, which differ in speed only.
#[derive(Debug, Clone, Copy, PartialEq, Eq, Structural)]
pub enum Sha256Implementation {
    /// One round at a time.
    Generic,
}

/// The first 32 bits of the fractional parts of the cube roots of the first 64 primes.
pub const ROUND_CONSTANTS: [u32; 64] = [
    0x428a_2f98,
    0x7137_4491,
    0xb5c0_fbcf,
    0xe9b5_dba5,
    0x3956_c25b,
    0x59f1_11f1,
    0x923f_82a4,
    0xab1c_5ed5,
    0xd807_aa98,
    0x1283_5b01,
    0x2431_85be,
    0x550c_7dc3,
    0x72be_5d74,
    0x80de_b1fe,
    0x9bdc_06a7,
    0xc19b_f174,
    0xe49b_69c1,
    0xefbe_4786,
    0x0fc1_9dc6,
    0x240c_a1cc,
    0x2de9_2c6f,
    0x4a74_84aa,
    0x5cb0_a9dc,
    0x76f9_88da,
    0x983e_5152,
    0xa831_c66d,
    0xb003_27c8,
    0xbf59_7fc7,
    0xc6e0_0bf3,
    0xd5a7_9147,
    0x06ca_6351,
    0x1429_2967,
    0x27b7_0a85,
    0x2e1b_2138,
    0x4d2c_6dfc,
    0x5338_0d13,
    0x650a_7354,
    0x766a_0abb,
    0x81c2_c92e,
    0x9272_2c85,
    0xa2bf_e8a1,
    0xa81a_664b,
    0xc24b_8b70,
    0xc76c_51a3,
    0xd192_e819,
    0xd699_0624,
    0xf40e_3585,
    0x106a_a070,
    0x19a4_c116,
    0x1e37_6c08,
    0x2748_774c,
    0x34b0_bcb5,
    0x391c_0cb3,
    0x4ed8_aa4a,
    0x5b9c_ca4f,
    0x682e_6ff3,
    0x748f_82ee,
    0x78a5_636f,
    0x84c8_7814,
    0x8cc7_0208,
    0x90be_fffa,
    0xa450_6ceb,
    0xbef9_a3f7,
    0xc671_78f2,
];

/// The eight words of a hash value.
#[derive(Debug, Clone, Copy, PartialEq, Eq, Structural)]
pub struct Words {
    pub a: u32,
    pub b: u32,
    pub c: u32,
    pub d: u32,
    pub e: u32,
    pub f: u32,
    pub g: u32,
    pub h: u32,
}

/// The initial hash value.
pub open spec fn initial() -> Words {
    Words {
        a: 0x6a09_e667,
        b: 0xbb67_ae85,
        c: 0x3c6e_f372,
        d: 0xa54f_f53a,
        e: 0x510e_527f,
        f: 0x9b05_688c,
        g: 0x1f83_d9ab,
        h: 0x5be0_cd19,
    }
}

/// Rotation to the right by `n` bits.
pub open spec fn rotr(x: u32, n: u32) -> u32 {
    (x >> n) | (x << ((32 - n) as u32))
}

/// The sum of five words, modulo two to the 32.
pub open spec fn sum5(u: u32, v: u32, w: u32, x: u32, y: u32) -> u32 {
    u.wrapping_add(v).wrapping_add(w).wrapping_add(x).wrapping_add(y)
}

/// The sum of rotations that makes schedule words from the word 15 before.
pub open spec fn small_sigma0(x: u32) -> u32 {
    rotr(x, 7) ^ rotr(x, 18) ^ (x >> 3u32)
}

/// The sum of rotations that makes schedule words from the word 2 before.
pub open spec fn small_sigma1(x: u32) -> u32 {
    rotr(x, 17) ^ rotr(x, 19) ^ (x >> 10u32)
}

/// Word `t` of the message schedule of the block at `at`.
pub open spec fn schedule(data: Seq<u8>, at: int, t: nat) -> u32
    decreases t,
{
    if t < 16 {
        u32_at(data, at + 4 * t, EndianOrder::Big)
    } else {
        small_sigma1(schedule(data, at, (t - 2) as nat)).wrapping_add(
            schedule(data, at, (t - 7) as nat),
        ).wrapping_add(small_sigma0(schedule(data, at, (t - 15) as nat))).wrapping_add(
            schedule(data, at, (t - 16) as nat),
        )
    }
}

/// One round, with a round constant and a schedule word.
pub open spec fn round(s: Words, k: u32, w: u32) -> Words {
    let sigma1 = rotr(s.e, 6) ^ rotr(s.e, 11) ^ rotr(s.e, 25);
    let choice = (s.e & s.f) ^ (!s.e & s.g);
    let t1 = sum5(s.h, sigma1, choice, k, w);
    let sigma0 = rotr(s.a, 2) ^ rotr(s.a, 13) ^ rotr(s.a, 22);
    let majority = (s.a & s.b) ^ (s.a & s.c) ^ (s.b & s.c);
    Words {
        a: t1.wrapping_add(sigma0.wrapping_add(majority)),
        b: s.a,
        c: s.b,
        d: s.c,
        e: s.d.wrapping_add(t1),
        f: s.e,
        g: s.f,
        h: s.g,
    }
}

/// The words after the first `n` rounds over the block at `at`.
pub open spec fn rounds(s: Words, data: Seq<u8>, at: int, n: nat) -> Words
    decreases n,
{
    if n == 0 {
        s
    } else {
        round(
            rounds(s, data, at, (n - 1) as nat),
            ROUND_CONSTANTS[n - 1],
            schedule(data, at, (n - 1) as nat),
        )
    }
}

/// Word by word sums, modulo two to the 32.
pub open spec fn add_words(s: Words, t: Words) -> Words {
    Words {
        a: s.a.wrapping_add(t.a),
        b: s.b.wrapping_add(t.b),
        c: s.c.wrapping_add(t.c),
        d: s.d.wrapping_add(t.d),
        e: s.e.wrapping_add(t.e),
        f: s.f.wrapping_add(t.f),
        g: s.g.wrapping_add(t.g),
        h: s.h.wrapping_add(t.h),
    }
}

/// The hash value after the block at `at`.
#[verifier::opaque]
pub open spec fn compress(s: Words, data: Seq<u8>, at: int) -> Words {
    add_words(s, rounds(s, data, at, 64))
}

/// The hash value after the first `n` blocks.
pub open spec fn blocks(data: Seq<u8>, n: nat) -> Words
    decreases n,
{
    if n == 0 {
        initial()
    } else {
        compress(blocks(data, (n - 1) as nat), data, 64 * (n - 1))
    }
}

/// The number of bits of `n` bytes, modulo two to the 64.
pub open spec fn bit_length(n: nat) -> u64 {
    (8 * n % 0x1_0000_0000_0000_0000) as u64
}

/// The message with its padding: a one bit, as many zero bits as it takes to end
/// 64 bits before the end of a block, and the length of the message in bits.
pub open spec fn padded(data: Seq<u8>) -> Seq<u8> {
    let zeros = (119 - data.len() % 64) % 64;
    data + Seq::new(
        (1 + zeros + 8) as nat,
        |i: int|
            if i == 0 {
                0x80u8
            } else if i <= zeros {
                0u8
            } else {
                big_endian_byte(bit_length(data.len()), i - 1 - zeros)
            },
    )
}

/// Two words as one big endian number.
pub open spec fn join(hi: u32, lo: u32) -> u64 {
    (hi * 0x1_0000_0000 + lo) as u64
}

/// The SHA-256 hash as four big endian numbers.
pub open spec fn sha256(data: Seq<u8>) -> [u64; 4] {
    let p = padded(data);
    let s = blocks(p, p.len() / 64);
    [join(s.a, s.b), join(s.c, s.d), join(s.e, s.f), join(s.g, s.h)]
}

/// Rotates to the right.
fn rotate(x: u32, n: u32) -> (r: u32)
    requires
        0 < n < 32,
    ensures
        r == rotr(x, n),
{
    (x >> n) | (x << (32 - n))
}

/// Does one round.
fn do_round(s: Words, k: u32, w: u32) -> (r: Words)
    ensures
        r == round(s, k, w),
{
    let sigma1 = rotate(s.e, 6) ^ rotate(s.e, 11) ^ rotate(s.e, 25);
    let choice = (s.e & s.f) ^ (!s.e & s.g);
    let t1 = s.h.wrapping_add(sigma1).wrapping_add(choice).wrapping_add(k).wrapping_add(w);
    let sigma0 = rotate(s.a, 2) ^ rotate(s.a, 13) ^ rotate(s.a, 22);
    let majority = (s.a & s.b) ^ (s.a & s.c) ^ (s.b & s.c);
    Words {
        a: t1.wrapping_add(sigma0.wrapping_add(majority)),
        b: s.a,
        c: s.b,
        d: s.c,
        e: s.d.wrapping_add(t1),
        f: s.e,
        g: s.f,
        h: s.g,
    }
}

/// Adds the block at the start of `block` to a hash value.
fn add_block(s: Words, block: &[u8]) -> (r: Words)
    requires
        block@.len() == 64,
    ensures
        r == compress(s, block@, 0),
{
    let mut w: [u32; 64] = [0; 64];
    let mut t: usize = 0;
    while t < 64
        invariant
            t <= 64,
            block@.len() == 64,
            forall|i: int| 0 <= i < t ==> #[trigger] w@[i] == schedule(block@, 0, i as nat),
        decreases 64 - t,
    {
        if t < 16 {
            w[t] = read_u32(block, 4 * t, EndianOrder::Big);
        } else {
            let x = w[t - 2];
            let y = w[t - 15];
            assert(x == schedule(block@, 0, (t - 2) as nat));
            assert(w@[t - 7] == schedule(block@, 0, (t - 7) as nat));
            assert(y == schedule(block@, 0, (t - 15) as nat));
            assert(w@[t - 16] == schedule(block@, 0, (t - 16) as nat));
            let s1 = rotate(x, 17) ^ rotate(x, 19) ^ (x >> 10u32);
            let s0 = rotate(y, 7) ^ rotate(y, 18) ^ (y >> 3u32);
            w[t] = s1.wrapping_add(w[t - 7]).wrapping_add(s0).wrapping_add(w[t - 16]);
        }
        t += 1;
    }
    reveal(compress);
    let mut v = s;
    let mut n: usize = 0;
    while n < 64
        invariant
            n <= 64,
            forall|i: int| 0 <= i < 64 ==> #[trigger] w@[i] == schedule(block@, 0, i as nat),
            v == rounds(s, block@, 0, n as nat),
        decreases 64 - n,
    {
        v = do_round(v, ROUND_CONSTANTS[n], w[n]);
        n += 1;
    }
    Words {
        a: s.a.wrapping_add(v.a),
        b: s.b.wrapping_add(v.b),
        c: s.c.wrapping_add(v.c),
        d: s.d.wrapping_add(v.d),
        e: s.e.wrapping_add(v.e),
        f: s.f.wrapping_add(v.f),
        g: s.g.wrapping_add(v.g),
        h: s.h.wrapping_add(v.h),
    }
}

/// Equal blocks have equal schedules.
proof fn lemma_same_schedule(d1: Seq<u8>, at1: int, d2: Seq<u8>, at2: int, t: nat)
    requires
        forall|i: int| at1 <= i < at1 + 64 ==> #[trigger] d1[i] == d2[at2 - at1 + i],
        t < 64,
    ensures
        schedule(d1, at1, t) == schedule(d2, at2, t),
    decreases t,
{
    if t < 16 {
        lemma_same_u32(d1, at1 + 4 * t, d2, at2 + 4 * t, EndianOrder::Big);
    } else {
        lemma_same_schedule(d1, at1, d2, at2, (t - 2) as nat);
        lemma_same_schedule(d1, at1, d2, at2, (t - 7) as nat);
        lemma_same_schedule(d1, at1, d2, at2, (t - 15) as nat);
        lemma_same_schedule(d1, at1, d2, at2, (t - 16) as nat);
    }
}

/// Equal blocks do the same to a hash value.
proof fn lemma_same_rounds(s: Words, d1: Seq<u8>, at1: int, d2: Seq<u8>, at2: int, n: nat)
    requires
        forall|i: int| at1 <= i < at1 + 64 ==> #[trigger] d1[i] == d2[at2 - at1 + i],
        n <= 64,
    ensures
        rounds(s, d1, at1, n) == rounds(s, d2, at2, n),
    decreases n,
{
    if n > 0 {
        lemma_same_rounds(s, d1, at1, d2, at2, (n - 1) as nat);
        lemma_same_schedule(d1, at1, d2, at2, (n - 1) as nat);
    }
}

/// The hash value of the first blocks depends on nothing that follows.
proof fn lemma_blocks_prefix(data: Seq<u8>, more: Seq<u8>, n: nat)
    requires
        64 * n <= data.len() <= more.len(),
        forall|i: int| 0 <= i < data.len() ==> data[i] == more[i],
    ensures
        blocks(data, n) == blocks(more, n),
    decreases n,
{
    if n > 0 {
        let m = (n - 1) as nat;
        reveal(compress);
        lemma_blocks_prefix(data, more, m);
        lemma_same_rounds(blocks(data, m), data, 64 * (n - 1), more, 64 * (n - 1), 64);
    }
}

/// One block more.
proof fn lemma_blocks_step(data: Seq<u8>, block: Seq<u8>, n: nat)
    requires
        64 * n + 64 <= data.len(),
        block.len() == 64,
        forall|i: int| 0 <= i < 64 ==> #[trigger] block[i] == data[64 * n + i],
    ensures
        blocks(data, n + 1) == compress(blocks(data, n), block, 0),
{
    reveal(compress);
    lemma_same_rounds(blocks(data, n), block, 0, data, 64 * (n as int), 64);
}

/// A running SHA-256 hash.
pub struct Sha256 {
    buffer_fill: usize,
    buffer: [u8; 64],
    state: Words,
    bits: u64,
    order: EndianOrder,
    seen: Ghost<Seq<u8>>,
}

impl Sha256 {
    /// A hash of no data.
    pub fn new(implementation: Sha256Implementation) -> (r: Result<Sha256, ChecksumError>)
        ensures
            r matches Ok(f) && f.wf() && f.data() == Seq::<u8>::empty() && f.order()
                == EndianOrder::Little,
    {
        let _ = implementation;
        Ok(
            Sha256 {
                buffer_fill: 0,
                buffer: [0; 64],
                state: Self::start(),
                bits: 0,
                order: EndianOrder::Little,
                seen: Ghost(Seq::empty()),
            },
        )
    }

    fn start() -> (r: Words)
        ensures
            r == initial(),
    {
        Words {
            a: 0x6a09_e667,
            b: 0xbb67_ae85,
            c: 0x3c6e_f372,
            d: 0xa54f_f53a,
            e: 0x510e_527f,
            f: 0x9b05_688c,
            g: 0x1f83_d9ab,
            h: 0x5be0_cd19,
        }
    }

    spec fn inv(self) -> bool {
        let n = self.seen@.len();
        &&& self.buffer_fill == n % 64
        &&& forall|i: int|
            0 <= i < self.buffer_fill ==> #[trigger] self.buffer@[i] == self.seen@[n
                - self.buffer_fill + i]
        &&& self.state == blocks(self.seen@, n / 64)
        &&& self.bits == bit_length(n)
    }

    /// Adds one byte.
    fn push(&mut self, byte: u8)
        requires
            old(self).inv(),
        ensures
            final(self).inv(),
            final(self).seen@ == old(self).seen@.push(byte),
            final(self).order == old(self).order,
    {
        let ghost seen = self.seen@;
        let ghost n = seen.len();
        let ghost more = seen.push(byte);
        self.buffer[self.buffer_fill] = byte;
        self.buffer_fill = self.buffer_fill + 1;
        self.bits = self.bits.wrapping_add(8);
        self.seen = Ghost(more);
        proof {
            lemma_blocks_prefix(seen, more, n / 64);
        }
        if self.buffer_fill == 64 {
            self.state = add_block(self.state, &self.buffer);
            self.buffer_fill = 0;
            proof {
                assert((n + 1) / 64 == n / 64 + 1);
                assert(64 * (n / 64) == n - 63);
                lemma_blocks_step(more, self.buffer@, n / 64);
            }
        } else {
            assert((n + 1) / 64 == n / 64);
        }
    }

    /// The last bytes of the padded message: what is in the buffer, and the padding.
    fn tail(&self) -> (r: ([u8; 128], usize))
        requires
            self.inv(),
        ensures
            r.1 == 64 || r.1 == 128,
            self.seen@.take(self.seen@.len() - self.buffer_fill) + r.0@.take(r.1 as int) == padded(
                self.seen@,
            ),
    {
        let mut tail: [u8; 128] = [0; 128];
        let fill: usize = self.buffer_fill;
        let mut i: usize = 0;
        while i < fill
            invariant
                i <= fill < 64,
                fill == self.buffer_fill,
                forall|k: int| 0 <= k < i ==> #[trigger] tail@[k] == self.buffer@[k],
                forall|k: int| i <= k < 128 ==> #[trigger] tail@[k] == 0,
            decreases fill - i,
        {
            tail[i] = self.buffer[i];
            i += 1;
        }
        tail[fill] = 0x80;
        let end: usize = if fill < 56 {
            64
        } else {
            128
        };
        tail[end - 8] = (self.bits / 0x100_0000_0000_0000) as u8;
        tail[end - 7] = (self.bits / 0x1_0000_0000_0000 % 0x100) as u8;
        tail[end - 6] = (self.bits / 0x100_0000_0000 % 0x100) as u8;
        tail[end - 5] = (self.bits / 0x1_0000_0000 % 0x100) as u8;
        tail[end - 4] = (self.bits / 0x100_0000 % 0x100) as u8;
        tail[end - 3] = (self.bits / 0x1_0000 % 0x100) as u8;
        tail[end - 2] = (self.bits / 0x100 % 0x100) as u8;
        tail[end - 1] = (self.bits % 0x100) as u8;
        proof {
            let seen = self.seen@;
            let n = seen.len();
            let p = padded(seen);
            let head = seen.take(n - fill);
            let zeros = (119 - n % 64) % 64;
            assert(zeros == end - fill - 9);
            assert(p.len() == n - fill + end);
            assert forall|k: int| 0 <= k < p.len() implies (head + tail@.take(end as int))[k]
                == #[trigger] p[k] by {
                let j = k - (n - fill);
                if j >= fill {
                    let q = j - fill;
                    assert(p[k] == p[n + q]);
                } else if j >= 0 {
                    assert(tail@[j] == self.buffer@[j]);
                }
            }
            assert(head + tail@.take(end as int) =~= p);
        }
        (tail, end)
    }
}

impl Checksum for Sha256 {
    open spec fn checksum(data: Seq<u8>, order: EndianOrder) -> [u64; 4] {
        sha256(data)
    }

    closed spec fn wf(&self) -> bool {
        self.inv()
    }

    closed spec fn data(&self) -> Seq<u8> {
        self.seen@
    }

    closed spec fn order(&self) -> EndianOrder {
        self.order
    }

    fn reset(&mut self, order: EndianOrder) -> (r: Result<(), ChecksumError>) {
        self.buffer_fill = 0;
        self.state = Self::start();
        self.bits = 0;
        self.order = order;
        self.seen = Ghost(Seq::empty());
        Ok(())
    }

    fn update(&mut self, data: &[u8]) -> (r: Result<(), ChecksumError>) {
        let mut i: usize = 0;
        while i < data.len()
            invariant
                i <= data@.len(),
                self.inv(),
                self.order == old(self).order,
                self.seen@ == old(self).seen@ + data@.take(i as int),
            decreases data@.len() - i,
        {
            self.push(data[i]);
            i += 1;
            assert(self.seen@ =~= old(self).seen@ + data@.take(i as int));
        }
        assert(data@.take(i as int) =~= data@);
        Ok(())
    }

    fn finalize(&mut self) -> (r: Result<[u64; 4], ChecksumError>) {
        let (tail, end) = self.tail();
        let ghost n = self.seen@.len();
        let ghost p = padded(self.seen@);
        let first = &tail[0..64];
        let mut s = add_block(self.state, first);
        proof {
            let head = self.seen@.take(n - self.buffer_fill);
            assert(p == head + tail@.take(end as int));
            lemma_blocks_prefix(head, p, n / 64);
            lemma_blocks_prefix(head, self.seen@, n / 64);
            assert forall|i: int| 0 <= i < 64 implies #[trigger] first@[i] == p[64 * (n / 64) + i] by {
                assert(tail@.take(end as int)[i] == tail@[i]);
            }
            lemma_blocks_step(p, first@, n / 64);
            assert(p.len() / 64 == n / 64 + end as nat / 64);
        }
        if end == 128 {
            let second = &tail[64..128];
            s = add_block(s, second);
            proof {
                assert forall|i: int| 0 <= i < 64 implies #[trigger] second@[i] == p[64 * (n / 64 + 1)
                    + i] by {
                    assert(tail@.take(end as int)[64 + i] == tail@[64 + i]);
                }
                lemma_blocks_step(p, second@, n / 64 + 1);
            }
        }
        let words: [u64; 4] = [
            (s.a as u64) * 0x1_0000_0000 + s.b as u64,
            (s.c as u64) * 0x1_0000_0000 + s.d as u64,
            (s.e as u64) * 0x1_0000_0000 + s.f as u64,
            (s.g as u64) * 0x1_0000_0000 + s.h as u64,
        ];
        assert(words =~= sha256(self.seen@));
        Ok(words)
    }

    fn hash(&mut self, data: &[u8], order: EndianOrder) -> (r: Result<[u64; 4], ChecksumError>) {
        let _ = self.reset(order);
        let _ = self.update(data);
        assert(self.data() =~= data@);
        self.finalize()
    }
}

/// A message is padded to full blocks of 64 bytes with as little as possible: a byte 0x80,
/// zeros, and the length of the message in bits as a big endian 64 bit number.
pub proof fn law_padding(data: Seq<u8>)
    requires
        data.len() < 0x2000_0000_0000_0000,
    ensures
        ({
            let m = padded(data);
            &&& m.len() % 64 == 0
            &&& data.len() + 9 <= m.len() < data.len() + 73
            &&& forall|i: int| 0 <= i < data.len() ==> #[trigger] m[i] == data[i]
            &&& m[data.len() as int] == 0x80
            &&& forall|i: int| data.len() < i < m.len() - 8 ==> #[trigger] m[i] == 0
            &&& u64_at(m, m.len() - 8, EndianOrder::Big) == 8 * data.len()
        }),
{
    let m = padded(data);
    let n = bit_length(data.len());
    let bytes = u64_bytes(n, EndianOrder::Big);
    law_split_then_read(n, EndianOrder::Big);
    lemma_same_u64(m, m.len() - 8, bytes, 0, EndianOrder::Big);
}

/// The hash value is made block by block from the padded message, and each step depends on
/// nothing but the value so far and the 64 bytes of its block.
pub proof fn law_blocks_go_on(data: Seq<u8>, k: nat, block: Seq<u8>)
    requires
        64 * k + 64 <= data.len(),
        block == data.subrange(64 * (k as int), 64 * (k as int) + 64),
    ensures
        blocks(data, k + 1) == compress(blocks(data, k), block, 0),
{
    lemma_blocks_step(data, block, k);
}

/// The words of the checksum are the words of the hash value of the padded message, two to
/// each.
pub proof fn law_words_of_the_hash(data: Seq<u8>)
    ensures
        ({
            let h = blocks(padded(data), padded(data).len() / 64);
            let words = sha256(data);
            &&& words[0] == h.a * 0x1_0000_0000 + h.b
            &&& words[1] == h.c * 0x1_0000_0000 + h.d
            &&& words[2] == h.e * 0x1_0000_0000 + h.f
            &&& words[3] == h.g * 0x1_0000_0000 + h.h
        }),
{
}

} // verus!
