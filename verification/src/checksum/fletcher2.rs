//! Fletcher-2: running sums, and sums of the running sums, of the 64 bit numbers
//! of the data, in two interleaved lanes.

use crate::checksum::{Checksum, ChecksumError};
use crate::phys::endian::{lemma_same_u64, read_u64, u64_at, EndianOrder};
use crate::phys::property::ChecksumType;
use vstd::arithmetic::div_mod::{
    lemma_add_mod_noop, lemma_mul_mod_noop_left, lemma_sub_mod_noop,
};
use vstd::prelude::*;

verus! {

/// Bytes that one step takes: one number for each lane.
pub const FLETCHER_2_BLOCK_SIZE: usize = 16;

/// Implementations, which differ in speed only.
#[derive(Debug, Clone, Copy, PartialEq, Eq, Structural)]
pub enum Fletcher2Implementation {
    /// One stream.
    Generic,
    /// Two streams.
    SuperScalar2,
    /// Four streams.
    SuperScalar4,
    /// SSE2 128 bit SIMD.
    SSE2,
    /// SSSE3 128 bit SIMD.
    SSSE3,
    /// AVX2 256 bit SIMD.
    AVX2,
    /// AVX512F 512 bit SIMD.
    AVX512F,
    /// AVX512BW 512 bit SIMD.
    AVX512BW,
}

/// A number modulo two to the 64.
#[verifier::opaque]
pub open spec fn wrap(x: int) -> u64 {
    (x % 0x1_0000_0000_0000_0000) as u64
}

/// A number that fits is its own remainder.
proof fn lemma_wrap_id(x: u64)
    ensures
        wrap(x as int) == x,
{
    reveal(wrap);
}

/// Wrapping arithmetic on remainders is arithmetic on the numbers.
proof fn lemma_wrap_add(x: int, y: int)
    ensures
        wrap(x).wrapping_add(wrap(y)) == wrap(x + y),
{
    reveal(wrap);
    lemma_add_mod_noop(x, y, 0x1_0000_0000_0000_0000);
}

proof fn lemma_wrap_sub(x: int, y: int)
    ensures
        wrap(x).wrapping_sub(wrap(y)) == wrap(x - y),
{
    reveal(wrap);
    lemma_sub_mod_noop(x, y, 0x1_0000_0000_0000_0000);
}

proof fn lemma_wrap_mul(x: int, y: u64)
    ensures
        wrap(x).wrapping_mul(y) == wrap(x * y),
{
    reveal(wrap);
    lemma_mul_mod_noop_left(x, y as int, 0x1_0000_0000_0000_0000);
}

/// One lane: the sum of its numbers, and the sum of the sums after each of them.
pub ghost struct Lane {
    pub sum: int,
    pub sum_of_sums: int,
}

/// The lane `from`, after the `n` numbers at `start`, `start + stride`, and so on.
pub open spec fn lane(
    from: Lane,
    data: Seq<u8>,
    order: EndianOrder,
    start: int,
    stride: int,
    n: nat,
) -> Lane
    decreases n,
{
    if n == 0 {
        from
    } else {
        let before = lane(from, data, order, start, stride, (n - 1) as nat);
        let sum = before.sum + u64_at(data, start + stride * (n - 1), order);
        Lane { sum, sum_of_sums: before.sum_of_sums + sum }
    }
}

/// A lane with no numbers.
pub open spec fn empty_lane() -> Lane {
    Lane { sum: 0, sum_of_sums: 0 }
}

/// The Fletcher-2 checksum. Bytes after the last full block do not count.
pub open spec fn fletcher2(data: Seq<u8>, order: EndianOrder) -> [u64; 4] {
    let n = data.len() / 16;
    let v = lane(empty_lane(), data, order, 0, 16, n);
    let w = lane(empty_lane(), data, order, 8, 16, n);
    [wrap(v.sum), wrap(w.sum), wrap(v.sum_of_sums), wrap(w.sum_of_sums)]
}

/// The name of an implementation.
pub open spec fn implementation_name(i: Fletcher2Implementation) -> &'static str {
    match i {
        Fletcher2Implementation::Generic => "generic",
        Fletcher2Implementation::SuperScalar2 => "superscalar2",
        Fletcher2Implementation::SuperScalar4 => "superscalar4",
        Fletcher2Implementation::SSE2 => "sse2",
        Fletcher2Implementation::SSSE3 => "ssse3",
        Fletcher2Implementation::AVX2 => "avx2",
        Fletcher2Implementation::AVX512F => "avx512f",
        Fletcher2Implementation::AVX512BW => "avx512bw",
    }
}

/// How many blocks are summed side by side.
#[derive(Debug, Clone, Copy, PartialEq, Eq, Structural)]
pub enum Streams {
    One,
    Two,
    Four,
}

/// The streams of an implementation. The SIMD ones are not part of this build.
pub open spec fn implementation_streams(i: Fletcher2Implementation) -> Result<
    Streams,
    ChecksumError,
> {
    match i {
        Fletcher2Implementation::Generic => Ok(Streams::One),
        Fletcher2Implementation::SuperScalar2 => Ok(Streams::Two),
        Fletcher2Implementation::SuperScalar4 => Ok(Streams::Four),
        _ => Err(
            ChecksumError::Unsupported {
                checksum: ChecksumType::Fletcher2,
                implementation: implementation_name(i),
            },
        ),
    }
}

impl Fletcher2Implementation {
    /// All implementations. [`Fletcher2::new`] may still refuse one.
    pub fn all() -> (r: &'static [Fletcher2Implementation])
        ensures
            r@ == seq![
                Fletcher2Implementation::Generic,
                Fletcher2Implementation::SuperScalar2,
                Fletcher2Implementation::SuperScalar4,
                Fletcher2Implementation::SSE2,
                Fletcher2Implementation::SSSE3,
                Fletcher2Implementation::AVX2,
                Fletcher2Implementation::AVX512F,
                Fletcher2Implementation::AVX512BW,
            ],
    {
        &[
            Fletcher2Implementation::Generic,
            Fletcher2Implementation::SuperScalar2,
            Fletcher2Implementation::SuperScalar4,
            Fletcher2Implementation::SSE2,
            Fletcher2Implementation::SSSE3,
            Fletcher2Implementation::AVX2,
            Fletcher2Implementation::AVX512F,
            Fletcher2Implementation::AVX512BW,
        ]
    }

    /// The streams of the implementation, if it is part of this build.
    fn get_implementation_ctx(&self) -> (r: Result<Streams, ChecksumError>)
        ensures
            r == implementation_streams(*self),
    {
        match self {
            Fletcher2Implementation::Generic => Ok(Streams::One),
            Fletcher2Implementation::SuperScalar2 => Ok(Streams::Two),
            Fletcher2Implementation::SuperScalar4 => Ok(Streams::Four),
            _ => Err(
                ChecksumError::Unsupported {
                    checksum: ChecksumType::Fletcher2,
                    implementation: self.to_str(),
                },
            ),
        }
    }

    /// Name of the implementation.
    pub fn to_str(&self) -> (r: &'static str)
        ensures
            r == implementation_name(*self),
    {
        match self {
            Fletcher2Implementation::Generic => "generic",
            Fletcher2Implementation::SuperScalar2 => "superscalar2",
            Fletcher2Implementation::SuperScalar4 => "superscalar4",
            Fletcher2Implementation::SSE2 => "sse2",
            Fletcher2Implementation::SSSE3 => "ssse3",
            Fletcher2Implementation::AVX2 => "avx2",
            Fletcher2Implementation::AVX512F => "avx512f",
            Fletcher2Implementation::AVX512BW => "avx512bw",
        }
    }
}

impl Streams {
    /// Number of streams.
    pub open spec fn count(self) -> int {
        match self {
            Streams::One => 1,
            Streams::Two => 2,
            Streams::Four => 4,
        }
    }

    /// Bytes that one step over all streams takes.
    fn block_size(self) -> (r: usize)
        ensures
            r == 16 * self.count(),
    {
        match self {
            Streams::One => FLETCHER_2_BLOCK_SIZE,
            Streams::Two => 2 * FLETCHER_2_BLOCK_SIZE,
            Streams::Four => 4 * FLETCHER_2_BLOCK_SIZE,
        }
    }
}

/// Lane `j` of a state of `w` streams, after the full steps of `data`. A state
/// holds the sums of its `2 * w` lanes, then their sums of sums.
pub open spec fn state_lane(
    state: Seq<u64>,
    data: Seq<u8>,
    order: EndianOrder,
    w: int,
    j: int,
) -> Lane {
    lane(
        Lane { sum: state[j] as int, sum_of_sums: state[2 * w + j] as int },
        data,
        order,
        8 * j,
        16 * w,
        (data.len() as int / (16 * w)) as nat,
    )
}

/// A state of `w` streams, after the full steps of `data`.
pub open spec fn advance(state: Seq<u64>, data: Seq<u8>, order: EndianOrder, w: int) -> Seq<u64> {
    Seq::new(
        state.len(),
        |i: int|
            if i < 2 * w {
                wrap(state_lane(state, data, order, w, i).sum)
            } else if i < 4 * w {
                wrap(state_lane(state, data, order, w, i - 2 * w).sum_of_sums)
            } else {
                state[i]
            },
    )
}

/// The checksum that a state of `w` streams stands for.
pub open spec fn merge(state: Seq<u64>, w: int) -> [u64; 4] {
    if w == 1 {
        [state[0], state[1], state[2], state[3]]
    } else if w == 2 {
        [
            wrap(state[0] + state[2]),
            wrap(state[1] + state[3]),
            wrap(2 * (state[4] + state[6]) - state[2]),
            wrap(2 * (state[5] + state[7]) - state[3]),
        ]
    } else {
        [
            wrap(state[0] + state[2] + state[4] + state[6]),
            wrap(state[1] + state[3] + state[5] + state[7]),
            wrap(
                4 * (state[8] + state[10] + state[12] + state[14]) - (state[2] + 2 * state[4] + 3
                    * state[6]),
            ),
            wrap(
                4 * (state[9] + state[11] + state[13] + state[15]) - (state[3] + 2 * state[5] + 3
                    * state[7]),
            ),
        ]
    }
}

/// A Fletcher-2 checksum in progress.
pub struct Fletcher2 {
    /// Bytes in use of `buffer`.
    buffer_fill: usize,
    /// Data that does not fill a step yet.
    buffer: [u8; 64],
    /// The lanes of all streams.
    state: [u64; 16],
    /// Byte order of the data.
    order: EndianOrder,
    /// Streams of the implementation.
    impl_ctx: Streams,
    /// All data since the last reset.
    seen: Ghost<Seq<u8>>,
}

impl Fletcher2 {
    /// Creates an instance for little endian data.
    pub fn new(implementation: Fletcher2Implementation) -> (r: Result<Fletcher2, ChecksumError>)
        ensures
            r is Ok <==> implementation_streams(implementation) is Ok,
            r matches Ok(f) ==> f.wf() && f.data() == Seq::<u8>::empty() && f.order()
                == EndianOrder::Little,
            r matches Err(e) ==> implementation_streams(implementation) == Err::<
                Streams,
                ChecksumError,
            >(e),
    {
        let impl_ctx = match implementation.get_implementation_ctx() {
            Ok(ctx) => ctx,
            Err(e) => {
                return Err(e);
            },
        };
        let f = Fletcher2 {
            buffer_fill: 0,
            buffer: [0; 64],
            state: [0; 16],
            order: EndianOrder::Little,
            impl_ctx,
            seen: Ghost(Seq::empty()),
        };
        proof {
            f.lemma_fresh();
        }
        Ok(f)
    }

    /// One stream needs no merging.
    fn finish_blocks_single_stream(state: &[u64]) -> (r: [u64; 4])
        requires
            state@.len() >= 4,
        ensures
            r == merge(state@, 1),
    {
        let r = [state[0], state[1], state[2], state[3]];
        assert(r@ =~= merge(state@, 1)@);
        r
    }

    /// Merges two streams.
    fn finish_blocks_dual_stream(state: &[u64]) -> (r: [u64; 4])
        requires
            state@.len() >= 8,
        ensures
            r == merge(state@, 2),
    {
        let (a0, b0, a1, b1) = (state[0], state[1], state[2], state[3]);
        let (c0, d0, c1, d1) = (state[4], state[5], state[6], state[7]);
        let ra = a0.wrapping_add(a1);
        let rb = b0.wrapping_add(b1);
        let rc = c0.wrapping_add(c1).wrapping_mul(2).wrapping_sub(a1);
        let rd = d0.wrapping_add(d1).wrapping_mul(2).wrapping_sub(b1);
        proof {
            lemma_merge_two(a0, a1, c0, c1);
            lemma_merge_two(b0, b1, d0, d1);
        }
        let r = [ra, rb, rc, rd];
        assert(r@ =~= merge(state@, 2)@);
        r
    }

    /// Merges four streams.
    fn finish_blocks_quad_stream(state: &[u64]) -> (r: [u64; 4])
        requires
            state@.len() >= 16,
        ensures
            r == merge(state@, 4),
    {
        let (a0, b0, a1, b1) = (state[0], state[1], state[2], state[3]);
        let (a2, b2, a3, b3) = (state[4], state[5], state[6], state[7]);
        let (c0, d0, c1, d1) = (state[8], state[9], state[10], state[11]);
        let (c2, d2, c3, d3) = (state[12], state[13], state[14], state[15]);
        let ra = a0.wrapping_add(a1).wrapping_add(a2).wrapping_add(a3);
        let rb = b0.wrapping_add(b1).wrapping_add(b2).wrapping_add(b3);
        let rc = c0.wrapping_add(c1).wrapping_add(c2).wrapping_add(c3).wrapping_mul(4).wrapping_sub(
            a1.wrapping_add(a2.wrapping_mul(2)).wrapping_add(a3.wrapping_mul(3)),
        );
        let rd = d0.wrapping_add(d1).wrapping_add(d2).wrapping_add(d3).wrapping_mul(4).wrapping_sub(
            b1.wrapping_add(b2.wrapping_mul(2)).wrapping_add(b3.wrapping_mul(3)),
        );
        proof {
            lemma_merge_four(a0, a1, a2, a3, c0, c1, c2, c3);
            lemma_merge_four(b0, b1, b2, b3, d0, d1, d2, d3);
        }
        let r = [ra, rb, rc, rd];
        assert(r@ =~= merge(state@, 4)@);
        r
    }
}

proof fn lemma_merge_two(a0: u64, a1: u64, c0: u64, c1: u64)
    ensures
        a0.wrapping_add(a1) == wrap(a0 + a1),
        c0.wrapping_add(c1).wrapping_mul(2).wrapping_sub(a1) == wrap(2 * (c0 + c1) - a1),
{
    lemma_wrap_id(a0);
    lemma_wrap_id(a1);
    lemma_wrap_id(c0);
    lemma_wrap_id(c1);
    lemma_wrap_add(a0 as int, a1 as int);
    lemma_wrap_add(c0 as int, c1 as int);
    lemma_wrap_mul(c0 + c1, 2);
    lemma_wrap_sub((c0 + c1) * 2, a1 as int);
}

proof fn lemma_merge_four(
    a0: u64,
    a1: u64,
    a2: u64,
    a3: u64,
    c0: u64,
    c1: u64,
    c2: u64,
    c3: u64,
)
    ensures
        a0.wrapping_add(a1).wrapping_add(a2).wrapping_add(a3) == wrap(a0 + a1 + a2 + a3),
        c0.wrapping_add(c1).wrapping_add(c2).wrapping_add(c3).wrapping_mul(4).wrapping_sub(
            a1.wrapping_add(a2.wrapping_mul(2)).wrapping_add(a3.wrapping_mul(3)),
        ) == wrap(4 * (c0 + c1 + c2 + c3) - (a1 + 2 * a2 + 3 * a3)),
{
    lemma_wrap_id(a0);
    lemma_wrap_id(a1);
    lemma_wrap_id(a2);
    lemma_wrap_id(a3);
    lemma_wrap_id(c0);
    lemma_wrap_id(c1);
    lemma_wrap_id(c2);
    lemma_wrap_id(c3);
    lemma_wrap_add(a0 as int, a1 as int);
    lemma_wrap_add(a0 + a1, a2 as int);
    lemma_wrap_add(a0 + a1 + a2, a3 as int);
    lemma_wrap_add(c0 as int, c1 as int);
    lemma_wrap_add(c0 + c1, c2 as int);
    lemma_wrap_add(c0 + c1 + c2, c3 as int);
    lemma_wrap_mul(c0 + c1 + c2 + c3, 4);
    lemma_wrap_mul(a2 as int, 2);
    lemma_wrap_mul(a3 as int, 3);
    lemma_wrap_add(a1 as int, a2 * 2);
    lemma_wrap_add(a1 + a2 * 2, a3 * 3);
    lemma_wrap_sub((c0 + c1 + c2 + c3) * 4, a1 + a2 * 2 + a3 * 3);
}

spec fn zeros() -> Seq<u64> {
    Seq::new(16, |i: int| 0u64)
}

proof fn lemma_advance_nothing(state: Seq<u64>, order: EndianOrder, w: int)
    requires
        w == 1 || w == 2 || w == 4,
        state.len() >= 4 * w,
    ensures
        advance(state, Seq::empty(), order, w) == state,
{
    assert(0int / (16 * w) == 0);
    assert forall|i: int| 0 <= i < 4 * w implies wrap(#[trigger] state[i] as int) == state[i] by {
        lemma_wrap_id(state[i]);
    }
    assert(advance(state, Seq::empty(), order, w) =~= state);
}

/// A lane only depends on the bytes that it reads, and on where it starts from
/// modulo two to the 64.
proof fn lemma_lane_prefix(
    from: Lane,
    d1: Seq<u8>,
    d2: Seq<u8>,
    order: EndianOrder,
    start: int,
    stride: int,
    n: nat,
)
    requires
        0 <= start,
        start + 8 <= stride,
        stride * n <= d1.len(),
        d1.len() <= d2.len(),
        forall|i: int| 0 <= i < d1.len() ==> #[trigger] d2[i] == d1[i],
    ensures
        lane(from, d1, order, start, stride, n) == lane(from, d2, order, start, stride, n),
    decreases n,
{
    if n > 0 {
        assert(stride * (n - 1) + stride == stride * n) by (nonlinear_arith);
        assert(0 <= stride * (n - 1)) by (nonlinear_arith)
            requires
                stride >= 0,
                n > 0,
        ;
        lemma_lane_prefix(from, d1, d2, order, start, stride, (n - 1) as nat);
        let p = start + stride * (n - 1);
        lemma_same_u64(d2, p, d1, p, order);
    }
}

proof fn lemma_lane_congruent(
    f1: Lane,
    f2: Lane,
    data: Seq<u8>,
    order: EndianOrder,
    start: int,
    stride: int,
    n: nat,
)
    requires
        wrap(f1.sum) == wrap(f2.sum),
        wrap(f1.sum_of_sums) == wrap(f2.sum_of_sums),
    ensures
        wrap(lane(f1, data, order, start, stride, n).sum) == wrap(
            lane(f2, data, order, start, stride, n).sum,
        ),
        wrap(lane(f1, data, order, start, stride, n).sum_of_sums) == wrap(
            lane(f2, data, order, start, stride, n).sum_of_sums,
        ),
    decreases n,
{
    if n > 0 {
        let m = (n - 1) as nat;
        lemma_lane_congruent(f1, f2, data, order, start, stride, m);
        let l1 = lane(f1, data, order, start, stride, m);
        let l2 = lane(f2, data, order, start, stride, m);
        let v = u64_at(data, start + stride * (n - 1), order) as int;
        lemma_wrap_add(l1.sum, v);
        lemma_wrap_add(l2.sum, v);
        lemma_wrap_add(l1.sum_of_sums, l1.sum + v);
        lemma_wrap_add(l2.sum_of_sums, l2.sum + v);
    }
}

/// A lane over two pieces of data goes on over the second from where the first
/// left it.
proof fn lemma_lane_append(
    from: Lane,
    d1: Seq<u8>,
    d2: Seq<u8>,
    order: EndianOrder,
    start: int,
    stride: int,
    n1: nat,
    n2: nat,
)
    requires
        0 <= start,
        start + 8 <= stride,
        stride * n1 == d1.len(),
        stride * n2 <= d2.len(),
    ensures
        lane(lane(from, d1, order, start, stride, n1), d2, order, start, stride, n2) == lane(
            from,
            d1 + d2,
            order,
            start,
            stride,
            n1 + n2,
        ),
    decreases n2,
{
    if n2 == 0 {
        lemma_lane_prefix(from, d1, d1 + d2, order, start, stride, n1);
    } else {
        assert(stride * (n2 - 1) + stride == stride * n2) by (nonlinear_arith);
        assert(0 <= stride * (n2 - 1)) by (nonlinear_arith)
            requires
                stride >= 0,
                n2 > 0,
        ;
        assert(stride * (n1 + n2 - 1) == stride * n1 + stride * (n2 - 1)) by (nonlinear_arith);
        lemma_lane_append(from, d1, d2, order, start, stride, n1, (n2 - 1) as nat);
        let d = d1 + d2;
        let p = start + stride * (n2 - 1);
        lemma_same_u64(d, d1.len() + p, d2, p, order);
    }
}

/// Steps of `w` blocks each in `l1` bytes, and in `l2` more.
proof fn lemma_steps(l1: nat, l2: nat, w: int)
    requires
        w == 1 || w == 2 || w == 4,
        l1 as int % (16 * w) == 0,
    ensures
        16 * w * (l1 as int / (16 * w)) == l1,
        16 * w * (l2 as int / (16 * w)) <= l2,
        (l1 + l2) as int / (16 * w) == l1 as int / (16 * w) + l2 as int / (16 * w),
        l1 / 16 == w * (l1 as int / (16 * w)),
        l1 % 16 == 0,
{
    if w == 1 {
        assert(16 * w == 16);
    } else if w == 2 {
        assert(16 * w == 32);
    } else {
        assert(16 * w == 64);
    }
}

proof fn lemma_state_lane_append(
    state: Seq<u64>,
    d1: Seq<u8>,
    d2: Seq<u8>,
    order: EndianOrder,
    w: int,
    j: int,
)
    requires
        w == 1 || w == 2 || w == 4,
        state.len() >= 4 * w,
        d1.len() as int % (16 * w) == 0,
        0 <= j < 2 * w,
    ensures
        ({
            let l = state_lane(advance(state, d1, order, w), d2, order, w, j);
            let r = state_lane(state, d1 + d2, order, w, j);
            wrap(l.sum) == wrap(r.sum) && wrap(l.sum_of_sums) == wrap(r.sum_of_sums)
        }),
{
    let mid = advance(state, d1, order, w);
    let n1 = (d1.len() as int / (16 * w)) as nat;
    let n2 = (d2.len() as int / (16 * w)) as nat;
    lemma_steps(d1.len(), d2.len(), w);
    let from = Lane { sum: state[j] as int, sum_of_sums: state[2 * w + j] as int };
    let after = state_lane(state, d1, order, w, j);
    let cut = Lane { sum: mid[j] as int, sum_of_sums: mid[2 * w + j] as int };
    assert(mid[j] == wrap(after.sum));
    assert(mid[2 * w + j] == wrap(after.sum_of_sums));
    lemma_wrap_id(mid[j]);
    lemma_wrap_id(mid[2 * w + j]);
    lemma_lane_congruent(cut, after, d2, order, 8 * j, 16 * w, n2);
    lemma_lane_append(from, d1, d2, order, 8 * j, 16 * w, n1, n2);
}

proof fn lemma_advance_append(
    state: Seq<u64>,
    d1: Seq<u8>,
    d2: Seq<u8>,
    order: EndianOrder,
    w: int,
)
    requires
        w == 1 || w == 2 || w == 4,
        state.len() >= 4 * w,
        d1.len() as int % (16 * w) == 0,
    ensures
        advance(advance(state, d1, order, w), d2, order, w) == advance(state, d1 + d2, order, w),
{
    let l = advance(advance(state, d1, order, w), d2, order, w);
    let r = advance(state, d1 + d2, order, w);
    assert forall|i: int| 0 <= i < l.len() implies l[i] == r[i] by {
        if i < 2 * w {
            lemma_state_lane_append(state, d1, d2, order, w, i);
        } else if i < 4 * w {
            lemma_state_lane_append(state, d1, d2, order, w, i - 2 * w);
        }
    }
    assert(l =~= r);
}

/// A lane is the merger of the two that take turns in it.
proof fn lemma_lane_two(data: Seq<u8>, order: EndianOrder, start: int, k: nat)
    ensures
        ({
            let l = lane(empty_lane(), data, order, start, 16, 2 * k);
            let l0 = lane(empty_lane(), data, order, start, 32, k);
            let l1 = lane(empty_lane(), data, order, start + 16, 32, k);
            &&& l.sum == l0.sum + l1.sum
            &&& l.sum_of_sums == 2 * (l0.sum_of_sums + l1.sum_of_sums) - l1.sum
        }),
    decreases k,
{
    if k > 0 {
        lemma_lane_two(data, order, start, (k - 1) as nat);
        reveal_with_fuel(lane, 3);
    }
}

/// A lane is the merger of the four that take turns in it.
proof fn lemma_lane_four(data: Seq<u8>, order: EndianOrder, start: int, k: nat)
    ensures
        ({
            let l = lane(empty_lane(), data, order, start, 16, 4 * k);
            let l0 = lane(empty_lane(), data, order, start, 64, k);
            let l1 = lane(empty_lane(), data, order, start + 16, 64, k);
            let l2 = lane(empty_lane(), data, order, start + 32, 64, k);
            let l3 = lane(empty_lane(), data, order, start + 48, 64, k);
            &&& l.sum == l0.sum + l1.sum + l2.sum + l3.sum
            &&& l.sum_of_sums == 4 * (l0.sum_of_sums + l1.sum_of_sums + l2.sum_of_sums
                + l3.sum_of_sums) - (l1.sum + 2 * l2.sum + 3 * l3.sum)
        }),
    decreases k,
{
    if k > 0 {
        lemma_lane_four(data, order, start, (k - 1) as nat);
        reveal_with_fuel(lane, 5);
    }
}

proof fn lemma_wrap_two(a0: int, a1: int, c0: int, c1: int)
    ensures
        wrap(wrap(a0) + wrap(a1)) == wrap(a0 + a1),
        wrap(2 * (wrap(c0) + wrap(c1)) - wrap(a1)) == wrap(2 * (c0 + c1) - a1),
{
    lemma_merge_two(wrap(a0), wrap(a1), wrap(c0), wrap(c1));
    lemma_wrap_add(a0, a1);
    lemma_wrap_add(c0, c1);
    lemma_wrap_mul(c0 + c1, 2);
    lemma_wrap_sub((c0 + c1) * 2, a1);
}

proof fn lemma_wrap_four(
    a0: int,
    a1: int,
    a2: int,
    a3: int,
    c0: int,
    c1: int,
    c2: int,
    c3: int,
)
    ensures
        wrap(wrap(a0) + wrap(a1) + wrap(a2) + wrap(a3)) == wrap(a0 + a1 + a2 + a3),
        wrap(
            4 * (wrap(c0) + wrap(c1) + wrap(c2) + wrap(c3)) - (wrap(a1) + 2 * wrap(a2) + 3 * wrap(
                a3,
            )),
        ) == wrap(4 * (c0 + c1 + c2 + c3) - (a1 + 2 * a2 + 3 * a3)),
{
    lemma_merge_four(
        wrap(a0),
        wrap(a1),
        wrap(a2),
        wrap(a3),
        wrap(c0),
        wrap(c1),
        wrap(c2),
        wrap(c3),
    );
    lemma_wrap_add(a0, a1);
    lemma_wrap_add(a0 + a1, a2);
    lemma_wrap_add(a0 + a1 + a2, a3);
    lemma_wrap_add(c0, c1);
    lemma_wrap_add(c0 + c1, c2);
    lemma_wrap_add(c0 + c1 + c2, c3);
    lemma_wrap_mul(c0 + c1 + c2 + c3, 4);
    lemma_wrap_mul(a2, 2);
    lemma_wrap_mul(a3, 3);
    lemma_wrap_add(a1, a2 * 2);
    lemma_wrap_add(a1 + a2 * 2, a3 * 3);
    lemma_wrap_sub((c0 + c1 + c2 + c3) * 4, a1 + a2 * 2 + a3 * 3);
}

/// Merging the streams gives the checksum, however many there are.
pub proof fn law_streams_agree(data: Seq<u8>, order: EndianOrder, w: int)
    requires
        w == 1 || w == 2 || w == 4,
        data.len() as int % (16 * w) == 0,
    ensures
        merge(advance(Seq::new(16, |i: int| 0u64), data, order, w), w) == fletcher2(data, order),
{
    let zero = Seq::new(16, |i: int| 0u64);
    let s = advance(zero, data, order, w);
    let n = (data.len() as int / (16 * w)) as nat;
    lemma_steps(data.len(), 0, w);
    if w == 1 {
    } else if w == 2 {
        lemma_lane_two(data, order, 0, n);
        lemma_lane_two(data, order, 8, n);
        let l = |j: int| lane(empty_lane(), data, order, 8 * j, 32, n);
        lemma_wrap_two(l(0).sum, l(2).sum, l(0).sum_of_sums, l(2).sum_of_sums);
        lemma_wrap_two(l(1).sum, l(3).sum, l(1).sum_of_sums, l(3).sum_of_sums);
    } else {
        lemma_lane_four(data, order, 0, n);
        lemma_lane_four(data, order, 8, n);
        let l = |j: int| lane(empty_lane(), data, order, 8 * j, 64, n);
        lemma_wrap_four(
            l(0).sum,
            l(2).sum,
            l(4).sum,
            l(6).sum,
            l(0).sum_of_sums,
            l(2).sum_of_sums,
            l(4).sum_of_sums,
            l(6).sum_of_sums,
        );
        lemma_wrap_four(
            l(1).sum,
            l(3).sum,
            l(5).sum,
            l(7).sum,
            l(1).sum_of_sums,
            l(3).sum_of_sums,
            l(5).sum_of_sums,
            l(7).sum_of_sums,
        );
    }
    assert(merge(s, w)@ =~= fletcher2(data, order)@);
}

/// The data of stream `j` of `w`: the blocks at `j`, `j + w` and so on of the full steps.
pub open spec fn stream_data(data: Seq<u8>, w: int, j: int) -> Seq<u8> {
    Seq::new(
        (16 * (data.len() as int / (16 * w))) as nat,
        |i: int| data[16 * w * (i / 16) + 16 * j + i % 16],
    )
}

/// The state of stream `j` in a state of `w` streams.
pub open spec fn stream_state(state: Seq<u64>, w: int, j: int) -> Seq<u64> {
    seq![state[2 * j], state[2 * j + 1], state[2 * w + 2 * j], state[2 * w + 2 * j + 1]]
}

/// A lane of a stream is that lane of the stream's own data.
proof fn lemma_lane_of_stream(
    from: Lane,
    data: Seq<u8>,
    order: EndianOrder,
    w: int,
    j: int,
    b: int,
    n: nat,
)
    requires
        w == 1 || w == 2 || w == 4,
        0 <= j < w,
        b == 0 || b == 1,
        n <= data.len() as int / (16 * w),
    ensures
        lane(from, data, order, 8 * (2 * j + b), 16 * w, n) == lane(
            from,
            stream_data(data, w, j),
            order,
            8 * b,
            16,
            n,
        ),
    decreases n,
{
    if n > 0 {
        let m = n - 1;
        lemma_lane_of_stream(from, data, order, w, j, b, m as nat);
        let own = stream_data(data, w, j);
        let (p, q) = (8 * b + 16 * m, 8 * (2 * j + b) + 16 * w * m);
        assert forall|i: int| p <= i < p + 8 implies #[trigger] own[i] == data[q - p + i] by {
            assert(i / 16 == m && i % 16 == i - 16 * m);
        }
        lemma_same_u64(own, p, data, q, order);
    }
}

/// The streams of a state do not mix: each goes on over its own blocks of the data, as if
/// it were the only one.
pub proof fn law_streams_are_independent(
    state: Seq<u64>,
    data: Seq<u8>,
    order: EndianOrder,
    w: int,
    j: int,
)
    requires
        w == 1 || w == 2 || w == 4,
        0 <= j < w,
        state.len() >= 4 * w,
    ensures
        stream_state(advance(state, data, order, w), w, j) == advance(
            stream_state(state, w, j),
            stream_data(data, w, j),
            order,
            1,
        ),
{
    let n = (data.len() as int / (16 * w)) as nat;
    let own = stream_data(data, w, j);
    let mine = stream_state(state, w, j);
    assert(own.len() as int / 16 == n);
    assert forall|b: int| b == 0 || b == 1 implies #[trigger] state_lane(mine, own, order, 1, b)
        == state_lane(state, data, order, w, 2 * j + b) by {
        let from = Lane { sum: mine[b] as int, sum_of_sums: mine[2 + b] as int };
        lemma_lane_of_stream(from, data, order, w, j, b, n);
    }
    assert(stream_state(advance(state, data, order, w), w, j) =~= advance(mine, own, order, 1));
}

/// Lane `j` of a state of `w` streams, after `n` steps of `data`.
spec fn part(
    state: Seq<u64>,
    data: Seq<u8>,
    order: EndianOrder,
    w: int,
    j: int,
    n: nat,
) -> Lane {
    lane(
        Lane { sum: state[j] as int, sum_of_sums: state[2 * w + j] as int },
        data,
        order,
        8 * j,
        16 * w,
        n,
    )
}

proof fn lemma_part_step(
    state: Seq<u64>,
    data: Seq<u8>,
    order: EndianOrder,
    w: int,
    j: int,
    n: nat,
)
    ensures
        ({
            let l = part(state, data, order, w, j, n);
            let r = part(state, data, order, w, j, n + 1);
            let v = u64_at(data, 8 * j + 16 * w * n, order);
            &&& wrap(l.sum).wrapping_add(v) == wrap(r.sum)
            &&& wrap(l.sum_of_sums).wrapping_add(wrap(r.sum)) == wrap(r.sum_of_sums)
        }),
{
    let l = part(state, data, order, w, j, n);
    let r = part(state, data, order, w, j, n + 1);
    let v = u64_at(data, 8 * j + 16 * w * n, order);
    assert(((n + 1) as nat - 1) as nat == n);
    lemma_wrap_id(v);
    lemma_wrap_add(l.sum, v as int);
    lemma_wrap_add(l.sum_of_sums, r.sum);
}

impl Fletcher2 {
    /// Sums one block at a time.
    fn update_blocks_generic(state: &mut [u64], data: &[u8], order: EndianOrder)
        requires
            old(state)@.len() >= 4,
        ensures
            final(state)@ == advance(old(state)@, data@, order, 1),
    {
        let ghost start = state@;
        let mut a: u64 = state[0];
        let mut b: u64 = state[1];
        let mut c: u64 = state[2];
        let mut d: u64 = state[3];
        let n: usize = data.len() / 16;
        let mut i: usize = 0;
        proof {
            lemma_wrap_id(start[0]);
            lemma_wrap_id(start[1]);
            lemma_wrap_id(start[2]);
            lemma_wrap_id(start[3]);
        }
        while i < n
            invariant
                i <= n,
                16 * n <= data@.len() <= usize::MAX,
                a == wrap(part(start, data@, order, 1, 0, i as nat).sum),
                c == wrap(part(start, data@, order, 1, 0, i as nat).sum_of_sums),
                b == wrap(part(start, data@, order, 1, 1, i as nat).sum),
                d == wrap(part(start, data@, order, 1, 1, i as nat).sum_of_sums),
            decreases n - i,
        {
            let p: usize = i * 16;
            let v = read_u64(data, p, order);
            let w = read_u64(data, p + 8, order);
            proof {
                lemma_part_step(start, data@, order, 1, 0, i as nat);
                lemma_part_step(start, data@, order, 1, 1, i as nat);
            }
            a = a.wrapping_add(v);
            b = b.wrapping_add(w);
            c = c.wrapping_add(a);
            d = d.wrapping_add(b);
            i += 1;
        }
        state[0] = a;
        state[1] = b;
        state[2] = c;
        state[3] = d;
        assert(state@ =~= advance(start, data@, order, 1));
    }

    /// Sums two blocks at a time, one for each stream.
    fn update_blocks_superscalar2(state: &mut [u64], data: &[u8], order: EndianOrder)
        requires
            old(state)@.len() >= 8,
        ensures
            final(state)@ == advance(old(state)@, data@, order, 2),
    {
        let ghost start = state@;
        let mut a0: u64 = state[0];
        let mut b0: u64 = state[1];
        let mut a1: u64 = state[2];
        let mut b1: u64 = state[3];
        let mut c0: u64 = state[4];
        let mut d0: u64 = state[5];
        let mut c1: u64 = state[6];
        let mut d1: u64 = state[7];
        let n: usize = data.len() / 32;
        let mut i: usize = 0;
        proof {
            lemma_wrap_id(start[0]);
            lemma_wrap_id(start[1]);
            lemma_wrap_id(start[2]);
            lemma_wrap_id(start[3]);
            lemma_wrap_id(start[4]);
            lemma_wrap_id(start[5]);
            lemma_wrap_id(start[6]);
            lemma_wrap_id(start[7]);
        }
        while i < n
            invariant
                i <= n,
                32 * n <= data@.len() <= usize::MAX,
                a0 == wrap(part(start, data@, order, 2, 0, i as nat).sum),
                c0 == wrap(part(start, data@, order, 2, 0, i as nat).sum_of_sums),
                b0 == wrap(part(start, data@, order, 2, 1, i as nat).sum),
                d0 == wrap(part(start, data@, order, 2, 1, i as nat).sum_of_sums),
                a1 == wrap(part(start, data@, order, 2, 2, i as nat).sum),
                c1 == wrap(part(start, data@, order, 2, 2, i as nat).sum_of_sums),
                b1 == wrap(part(start, data@, order, 2, 3, i as nat).sum),
                d1 == wrap(part(start, data@, order, 2, 3, i as nat).sum_of_sums),
            decreases n - i,
        {
            let p: usize = i * 32;
            let v = read_u64(data, p, order);
            let w = read_u64(data, p + 8, order);
            let x = read_u64(data, p + 16, order);
            let y = read_u64(data, p + 24, order);
            proof {
                lemma_part_step(start, data@, order, 2, 0, i as nat);
                lemma_part_step(start, data@, order, 2, 1, i as nat);
                lemma_part_step(start, data@, order, 2, 2, i as nat);
                lemma_part_step(start, data@, order, 2, 3, i as nat);
            }
            a0 = a0.wrapping_add(v);
            b0 = b0.wrapping_add(w);
            a1 = a1.wrapping_add(x);
            b1 = b1.wrapping_add(y);
            c0 = c0.wrapping_add(a0);
            d0 = d0.wrapping_add(b0);
            c1 = c1.wrapping_add(a1);
            d1 = d1.wrapping_add(b1);
            i += 1;
        }
        state[0] = a0;
        state[1] = b0;
        state[2] = a1;
        state[3] = b1;
        state[4] = c0;
        state[5] = d0;
        state[6] = c1;
        state[7] = d1;
        assert(state@ =~= advance(start, data@, order, 2));
    }

    /// Sums four blocks at a time, one for each stream.
    fn update_blocks_superscalar4(state: &mut [u64], data: &[u8], order: EndianOrder)
        requires
            old(state)@.len() >= 16,
        ensures
            final(state)@ == advance(old(state)@, data@, order, 4),
    {
        let ghost start = state@;
        let mut a0: u64 = state[0];
        let mut b0: u64 = state[1];
        let mut a1: u64 = state[2];
        let mut b1: u64 = state[3];
        let mut a2: u64 = state[4];
        let mut b2: u64 = state[5];
        let mut a3: u64 = state[6];
        let mut b3: u64 = state[7];
        let mut c0: u64 = state[8];
        let mut d0: u64 = state[9];
        let mut c1: u64 = state[10];
        let mut d1: u64 = state[11];
        let mut c2: u64 = state[12];
        let mut d2: u64 = state[13];
        let mut c3: u64 = state[14];
        let mut d3: u64 = state[15];
        let n: usize = data.len() / 64;
        let mut i: usize = 0;
        proof {
            lemma_wrap_id(start[0]);
            lemma_wrap_id(start[1]);
            lemma_wrap_id(start[2]);
            lemma_wrap_id(start[3]);
            lemma_wrap_id(start[4]);
            lemma_wrap_id(start[5]);
            lemma_wrap_id(start[6]);
            lemma_wrap_id(start[7]);
            lemma_wrap_id(start[8]);
            lemma_wrap_id(start[9]);
            lemma_wrap_id(start[10]);
            lemma_wrap_id(start[11]);
            lemma_wrap_id(start[12]);
            lemma_wrap_id(start[13]);
            lemma_wrap_id(start[14]);
            lemma_wrap_id(start[15]);
        }
        while i < n
            invariant
                i <= n,
                64 * n <= data@.len() <= usize::MAX,
                a0 == wrap(part(start, data@, order, 4, 0, i as nat).sum),
                c0 == wrap(part(start, data@, order, 4, 0, i as nat).sum_of_sums),
                b0 == wrap(part(start, data@, order, 4, 1, i as nat).sum),
                d0 == wrap(part(start, data@, order, 4, 1, i as nat).sum_of_sums),
                a1 == wrap(part(start, data@, order, 4, 2, i as nat).sum),
                c1 == wrap(part(start, data@, order, 4, 2, i as nat).sum_of_sums),
                b1 == wrap(part(start, data@, order, 4, 3, i as nat).sum),
                d1 == wrap(part(start, data@, order, 4, 3, i as nat).sum_of_sums),
                a2 == wrap(part(start, data@, order, 4, 4, i as nat).sum),
                c2 == wrap(part(start, data@, order, 4, 4, i as nat).sum_of_sums),
                b2 == wrap(part(start, data@, order, 4, 5, i as nat).sum),
                d2 == wrap(part(start, data@, order, 4, 5, i as nat).sum_of_sums),
                a3 == wrap(part(start, data@, order, 4, 6, i as nat).sum),
                c3 == wrap(part(start, data@, order, 4, 6, i as nat).sum_of_sums),
                b3 == wrap(part(start, data@, order, 4, 7, i as nat).sum),
                d3 == wrap(part(start, data@, order, 4, 7, i as nat).sum_of_sums),
            decreases n - i,
        {
            let p: usize = i * 64;
            let v = read_u64(data, p, order);
            let w = read_u64(data, p + 8, order);
            let x = read_u64(data, p + 16, order);
            let y = read_u64(data, p + 24, order);
            let vv = read_u64(data, p + 32, order);
            let ww = read_u64(data, p + 40, order);
            let xx = read_u64(data, p + 48, order);
            let yy = read_u64(data, p + 56, order);
            proof {
                lemma_part_step(start, data@, order, 4, 0, i as nat);
                lemma_part_step(start, data@, order, 4, 1, i as nat);
                lemma_part_step(start, data@, order, 4, 2, i as nat);
                lemma_part_step(start, data@, order, 4, 3, i as nat);
                lemma_part_step(start, data@, order, 4, 4, i as nat);
                lemma_part_step(start, data@, order, 4, 5, i as nat);
                lemma_part_step(start, data@, order, 4, 6, i as nat);
                lemma_part_step(start, data@, order, 4, 7, i as nat);
            }
            a0 = a0.wrapping_add(v);
            b0 = b0.wrapping_add(w);
            a1 = a1.wrapping_add(x);
            b1 = b1.wrapping_add(y);
            a2 = a2.wrapping_add(vv);
            b2 = b2.wrapping_add(ww);
            a3 = a3.wrapping_add(xx);
            b3 = b3.wrapping_add(yy);
            c0 = c0.wrapping_add(a0);
            d0 = d0.wrapping_add(b0);
            c1 = c1.wrapping_add(a1);
            d1 = d1.wrapping_add(b1);
            c2 = c2.wrapping_add(a2);
            d2 = d2.wrapping_add(b2);
            c3 = c3.wrapping_add(a3);
            d3 = d3.wrapping_add(b3);
            i += 1;
        }
        state[0] = a0;
        state[1] = b0;
        state[2] = a1;
        state[3] = b1;
        state[4] = a2;
        state[5] = b2;
        state[6] = a3;
        state[7] = b3;
        state[8] = c0;
        state[9] = d0;
        state[10] = c1;
        state[11] = d1;
        state[12] = c2;
        state[13] = d2;
        state[14] = c3;
        state[15] = d3;
        assert(state@ =~= advance(start, data@, order, 4));
    }

    /// Sums the full steps of `data`.
    fn update_blocks(streams: Streams, state: &mut [u64], data: &[u8], order: EndianOrder)
        requires
            old(state)@.len() >= 16,
        ensures
            final(state)@ == advance(old(state)@, data@, order, streams.count()),
    {
        match streams {
            Streams::One => Self::update_blocks_generic(state, data, order),
            Streams::Two => Self::update_blocks_superscalar2(state, data, order),
            Streams::Four => Self::update_blocks_superscalar4(state, data, order),
        }
    }

    /// All but the bytes in the buffer has gone into the state.
    spec fn inv(self) -> bool {
        let w = self.impl_ctx.count();
        let n = self.seen@.len() - self.buffer_fill;
        &&& 0 <= n
        &&& self.buffer_fill < 16 * w
        &&& n % (16 * w) == 0
        &&& self.buffer@.take(self.buffer_fill as int) == self.seen@.skip(n)
        &&& self.state@ == advance(zeros(), self.seen@.take(n), self.order, w)
    }

    /// Copies `data` into the buffer at `at`.
    fn fill_buffer(&mut self, at: usize, data: &[u8])
        requires
            at + data@.len() <= 64,
        ensures
            *final(self) == (Fletcher2 { buffer: final(self).buffer, ..*old(self) }),
            final(self).buffer@.take(at + data@.len()) == old(self).buffer@.take(at as int) + data@,
    {
        let ghost before = self.buffer@;
        let mut i: usize = 0;
        while i < data.len()
            invariant
                i <= data@.len(),
                at + data@.len() <= 64,
                before == old(self).buffer@,
                *self == (Fletcher2 { buffer: self.buffer, ..*old(self) }),
                forall|k: int| 0 <= k < at ==> self.buffer@[k] == before[k],
                forall|k: int| at <= k < at + i ==> self.buffer@[k] == data@[k - at],
            decreases data@.len() - i,
        {
            self.buffer[at + i] = data[i];
            i += 1;
        }
        assert(self.buffer@.take(at + i) =~= before.take(at as int) + data@);
    }

    /// Adds the full steps of `data` to an empty buffer, and buffers the rest.
    fn update_steps(&mut self, data: &[u8])
        requires
            old(self).inv(),
            old(self).buffer_fill == 0,
        ensures
            final(self).inv(),
            final(self).seen@ == old(self).seen@ + data@,
            final(self).order == old(self).order,
    {
        let ghost w = self.impl_ctx.count();
        let ghost seen = self.seen@;
        let step: usize = self.impl_ctx.block_size();
        let remainder: usize = data.len() % step;
        assert(remainder <= data.len()) by {
            lemma_remainder(data@.len(), seen.len(), w);
            assert(data@.len() == data.len());
        }
        let n: usize = data.len() - remainder;
        let full = &data[0..n];
        let rest = &data[n..data.len()];
        proof {
            lemma_remainder(data@.len(), seen.len(), w);
            assert(seen.take(seen.len() as int) =~= seen);
            lemma_advance_append(zeros(), seen, full@, self.order, w);
        }
        Self::update_blocks(self.impl_ctx, &mut self.state, full, self.order);
        self.fill_buffer(0, rest);
        self.buffer_fill = remainder;
        self.seen = Ghost(seen + data@);
        proof {
            let m = self.seen@.len() - remainder;
            assert(self.seen@.take(m) =~= seen + full@);
            assert(self.seen@.skip(m) =~= rest@);
            assert(self.buffer@.take(remainder as int) =~= rest@);
        }
    }
}

proof fn lemma_remainder(l: nat, k: nat, w: int)
    requires
        w == 1 || w == 2 || w == 4,
        k as int % (16 * w) == 0,
    ensures
        0 <= l as int % (16 * w) < 16 * w,
        l as int % (16 * w) <= l,
        (l - l as int % (16 * w)) % (16 * w) == 0,
        (k + l - l as int % (16 * w)) % (16 * w) == 0,
{
    if w == 1 {
        assert(16 * w == 16);
        assert(k + l - l as int % 16 == 16 * (k as int / 16 + l as int / 16));
    } else if w == 2 {
        assert(16 * w == 32);
        assert(k + l - l as int % 32 == 32 * (k as int / 32 + l as int / 32));
    } else {
        assert(16 * w == 64);
        assert(k + l - l as int % 64 == 64 * (k as int / 64 + l as int / 64));
    }
}

impl Checksum for Fletcher2 {
    open spec fn checksum(data: Seq<u8>, order: EndianOrder) -> [u64; 4] {
        fletcher2(data, order)
    }

    closed spec fn wf(&self) -> bool {
        self.inv()
    }

    closed spec fn data(&self) -> Seq<u8> {
        self.seen@
    }

    closed spec fn order(&self) -> EndianOrder {
        self.order
    }

    fn reset(&mut self, order: EndianOrder) -> (r: Result<(), ChecksumError>) {
        self.buffer_fill = 0;
        self.buffer = [0; 64];
        self.state = [0; 16];
        self.order = order;
        self.seen = Ghost(Seq::empty());
        proof {
            self.lemma_fresh();
        }
        Ok(())
    }

    fn update(&mut self, data: &[u8]) -> (r: Result<(), ChecksumError>) {
        let mut from: usize = 0;
        if self.buffer_fill > 0 {
            let ghost w = self.impl_ctx.count();
            let ghost seen = self.seen@;
            let ghost n = seen.len() - self.buffer_fill;
            let step: usize = self.impl_ctx.block_size();
            let room: usize = step - self.buffer_fill;
            let todo: usize = if room <= data.len() {
                room
            } else {
                data.len()
            };
            let head = &data[0..todo];
            self.fill_buffer(self.buffer_fill, head);
            self.buffer_fill = self.buffer_fill + todo;
            self.seen = Ghost(seen + head@);
            from = todo;
            assert(self.buffer@.take(self.buffer_fill as int) =~= self.seen@.skip(n));
            assert(self.seen@.take(n) =~= seen.take(n));
            if self.buffer_fill == step {
                let block = &self.buffer[0..step];
                assert(block@ =~= self.seen@.skip(n));
                proof {
                    lemma_advance_append(zeros(), seen.take(n), block@, self.order, w);
                    lemma_remainder(step as nat, n as nat, w);
                    assert(seen.take(n) + block@ =~= self.seen@.take(self.seen@.len() as int));
                    assert(self.seen@.skip(self.seen@.len() as int) =~= Seq::empty());
                    assert(self.buffer@.take(0) =~= Seq::empty());
                }
                Self::update_blocks(self.impl_ctx, &mut self.state, block, self.order);
                self.buffer_fill = 0;
            }
        }
        let tail = &data[from..data.len()];
        if self.buffer_fill == 0 {
            self.update_steps(tail);
        }
        assert(self.seen@ =~= old(self).seen@ + data@);
        Ok(())
    }

    fn finalize(&mut self) -> (r: Result<[u64; 4], ChecksumError>) {
        let mut result: [u64; 4] = match self.impl_ctx {
            Streams::One => Self::finish_blocks_single_stream(&self.state),
            Streams::Two => Self::finish_blocks_dual_stream(&self.state),
            Streams::Four => Self::finish_blocks_quad_stream(&self.state),
        };
        let full: usize = self.buffer_fill - self.buffer_fill % FLETCHER_2_BLOCK_SIZE;
        if full > 0 {
            let rest = &self.buffer[0..full];
            assert(rest@ =~= self.buffer@.take(full as int));
            Self::update_blocks_generic(&mut result, rest, self.order);
        }
        proof {
            self.lemma_finalize(full as int);
        }
        assert(result =~= fletcher2(self.seen@, self.order));
        Ok(result)
    }

    fn hash(&mut self, data: &[u8], order: EndianOrder) -> (r: Result<[u64; 4], ChecksumError>) {
        let _ = self.reset(order);
        let _ = self.update(data);
        assert(self.data() =~= data@);
        self.finalize()
    }
}

impl Fletcher2 {
    /// The merged streams, and the blocks that are still in the buffer.
    proof fn lemma_finalize(self, full: int)
        requires
            self.inv(),
            full == self.buffer_fill - self.buffer_fill % 16,
        ensures
            full == 0 ==> merge(self.state@, self.impl_ctx.count())@ == fletcher2(
                self.seen@,
                self.order,
            )@,
            advance(
                merge(self.state@, self.impl_ctx.count())@,
                self.buffer@.take(full),
                self.order,
                1,
            ) == fletcher2(self.seen@, self.order)@,
    {
        let w = self.impl_ctx.count();
        let order = self.order;
        let seen = self.seen@;
        let n = seen.len() - self.buffer_fill;
        let head = seen.take(n);
        let rest = self.buffer@.take(full);
        let zero = Seq::new(4, |i: int| 0u64);
        let merged = merge(self.state@, w);
        assert(zeros() =~= Seq::new(16, |i: int| 0u64));
        law_streams_agree(head, order, w);
        lemma_steps(n as nat, 0, w);
        assert(fletcher2(head, order)@ =~= advance(zero, head, order, 1));
        lemma_advance_append(zero, head, rest, order, 1);
        assert(self.buffer@.take(self.buffer_fill as int) == seen.skip(n));
        assert(forall|i: int| 0 <= i < full ==> rest[i] == #[trigger] seen.skip(n)[i]) by {
            assert forall|i: int| 0 <= i < full implies rest[i] == #[trigger] seen.skip(n)[i] by {
                assert(self.buffer@.take(self.buffer_fill as int)[i] == self.buffer@[i]);
            }
        }
        let whole = head + rest;
        assert(whole =~= seen.take(n + full)) by {
            assert forall|i: int| 0 <= i < whole.len() implies whole[i] == seen[i] by {
                if i >= n {
                    assert(seen.skip(n)[i - n] == seen[i]);
                }
            }
        }
        let k = seen.len() / 16;
        assert(whole.len() / 16 == k);
        lemma_lane_prefix(empty_lane(), whole, seen, order, 0, 16, k);
        lemma_lane_prefix(empty_lane(), whole, seen, order, 8, 16, k);
        assert(advance(zero, whole, order, 1) =~= fletcher2(seen, order)@);
        if full == 0 {
            assert(whole =~= head);
        }
    }

    proof fn lemma_fresh(self)
        requires
            self.buffer_fill == 0,
            forall|i: int| 0 <= i < 16 ==> self.state@[i] == 0,
            self.seen@ == Seq::<u8>::empty(),
        ensures
            self.inv(),
    {
        let w = self.impl_ctx.count();
        assert(self.state@ =~= zeros());
        lemma_advance_nothing(zeros(), self.order, w);
        assert(self.seen@.take(0) =~= Seq::empty());
        assert(self.seen@.skip(0) =~= self.buffer@.take(0));
        assert(0int % (16 * w) == 0);
    }
}

/// The checksum of no data is zero, bytes behind the last full block do not count, and a
/// block of two numbers more adds each of them to one of the first two words, and what comes
/// of that to one of the last two, all of them modulo two to the 64.
pub proof fn law_fletcher2_goes_on(data: Seq<u8>, block: Seq<u8>, rest: Seq<u8>, order: EndianOrder)
    requires
        data.len() % 16 == 0,
        block.len() == 16,
        rest.len() < 16,
    ensures
        fletcher2(Seq::empty(), order)@ == seq![0u64, 0, 0, 0],
        fletcher2(data + rest, order) == fletcher2(data, order),
        ({
            let (old, new) = (fletcher2(data, order), fletcher2(data + block, order));
            &&& new[0] == (old[0] + u64_at(block, 0, order)) % 0x1_0000_0000_0000_0000
            &&& new[1] == (old[1] + u64_at(block, 8, order)) % 0x1_0000_0000_0000_0000
            &&& new[2] == (old[2] + new[0]) % 0x1_0000_0000_0000_0000
            &&& new[3] == (old[3] + new[1]) % 0x1_0000_0000_0000_0000
        }),
{
    let n = data.len() / 16;
    let all = data + block;
    let longer = data + rest;
    let none = Seq::<u8>::empty();
    lemma_wrap_id(0);
    assert(fletcher2(none, order)@ =~= seq![0u64, 0, 0, 0]);
    assert(all.len() / 16 == n + 1);
    assert(longer.len() / 16 == n);
    assert forall|start: int| start == 0 || start == 8 implies {
        &&& #[trigger] lane(empty_lane(), longer, order, start, 16, n) == lane(
            empty_lane(),
            data,
            order,
            start,
            16,
            n,
        )
        &&& lane(empty_lane(), all, order, start, 16, n) == lane(
            empty_lane(),
            data,
            order,
            start,
            16,
            n,
        )
        &&& u64_at(all, start + 16 * n, order) == u64_at(block, start, order)
    } by {
        lemma_lane_prefix(empty_lane(), data, longer, order, start, 16, n);
        lemma_lane_prefix(empty_lane(), data, all, order, start, 16, n);
        lemma_same_u64(all, start + 16 * n, block, start, order);
    }
    assert(fletcher2(longer, order)@ =~= fletcher2(data, order)@);
    let v = lane(empty_lane(), longer, order, 0, 16, n);
    let w = lane(empty_lane(), longer, order, 8, 16, n);
    let (x, y) = (u64_at(block, 0, order), u64_at(block, 8, order));
    lemma_wrap_id(x);
    lemma_wrap_id(y);
    lemma_wrap_add(v.sum, x as int);
    lemma_wrap_add(w.sum, y as int);
    lemma_wrap_add(v.sum_of_sums, v.sum + x);
    lemma_wrap_add(w.sum_of_sums, w.sum + y);
}

} // verus!
