//! LZJB, the oldest of the block compressions.
//!
//! Compressed data is a sequence of groups: one map byte, then up to eight
//! blocks. Bit `i` of the map, counted from the least significant, tells how
//! block `i` reads. A clear bit is one byte to be copied as it is. A set bit is
//! a big endian 16 bit number whose top six bits are a length less three, and
//! whose low ten bits say how far back in the output the bytes to repeat start.

use crate::compression::{
    overwrite, Compression, CompressionError, Decoded, Decompression, DecompressionError, Encoded,
};
use vstd::arithmetic::power2::pow2;
use vstd::prelude::*;

verus! {

/// A match is at least this long, to be shorter in its encoded form.
pub const LENGTH_MIN: usize = 3;

/// The longest match: six bits of length on top of [`LENGTH_MIN`].
pub const LENGTH_MAX: usize = 66;

/// Offsets are ten bits wide.
pub const OFFSET_RANGE: usize = 1024;

/// Entries of the hash table. Other sizes find other matches, and the encoded
/// form of a given input has to stay the same.
pub const TABLE_LENGTH: usize = 1024;

/// Entries that [`LzjbEncoder::compress_pre_v21`] uses.
pub const TABLE_LENGTH_PRE_V21: usize = 256;

/// Largest size of a group: the map byte and eight blocks of two bytes.
pub const GROUP_MAX: usize = 17;

/// Which of the two match finders of the encoder is meant.
pub ghost enum Finder {
    /// The one in use since pool version 21.
    Current,
    /// The one of older pools.
    PreV21,
}

/// Slot of the hash table for the three bytes at the front of `s`.
pub open spec fn slot(finder: Finder, s: Seq<u8>) -> int {
    match finder {
        Finder::Current => {
            let h0 = s[0] * 65536 + s[1] * 256 + s[2];
            let h1 = h0 + h0 / 512;
            let h2 = h1 + h1 / 32;
            h2 % 1024
        },
        Finder::PreV21 => (s[0].wrapping_add(13) ^ s[1].wrapping_sub(13) ^ s[2]) as int,
    }
}

/// Length of the match between positions `pos` and `from` of `src`, of which
/// `len` bytes are known, up to [`LENGTH_MAX`].
pub open spec fn match_length(src: Seq<u8>, pos: int, from: int, len: int) -> int
    decreases LENGTH_MAX - len,
{
    if len < LENGTH_MAX && src[pos + len] == src[from + len] {
        match_length(src, pos, from, len + 1)
    } else {
        len
    }
}

/// Between two blocks of the encoder.
pub ghost struct EncoderState {
    /// Source position last seen for each hash slot, modulo 65536.
    pub table: Seq<u16>,
    /// Source bytes that are encoded.
    pub pos: int,
    /// Output so far.
    pub out: Seq<u8>,
    /// Where in `out` the map of the current group is.
    pub map_idx: int,
    /// Blocks in the current group.
    pub bit: u8,
}

impl EncoderState {
    /// Before the first block.
    pub open spec fn start() -> EncoderState {
        EncoderState {
            table: Seq::new(TABLE_LENGTH as nat, |i: int| 0u16),
            pos: 0,
            out: Seq::empty(),
            map_idx: 0,
            bit: 8,
        }
    }

    /// With room for another block in the current group: a full group is
    /// followed by a new one.
    pub open spec fn open_group(self) -> EncoderState {
        if self.bit == 8 {
            EncoderState {
                out: self.out.push(0),
                map_idx: self.out.len() as int,
                bit: 0,
                ..self
            }
        } else {
            self
        }
    }

    /// How far back the match finder looks.
    pub open spec fn offset(self, finder: Finder, src: Seq<u8>) -> int {
        (self.pos - self.table[slot(finder, src.skip(self.pos))]) % (OFFSET_RANGE as int)
    }

    /// Whether the match finder is worth a copy block.
    pub open spec fn matches(self, finder: Finder, src: Seq<u8>) -> bool {
        let from = self.pos - self.offset(finder, src);
        &&& from != self.pos
        &&& src[self.pos] == src[from]
        &&& src[self.pos + 1] == src[from + 1]
        &&& src[self.pos + 2] == src[from + 2]
    }

    /// After a block of one byte.
    pub open spec fn literal(self, src: Seq<u8>) -> EncoderState {
        EncoderState {
            pos: self.pos + 1,
            out: self.out.push(src[self.pos]),
            bit: (self.bit + 1) as u8,
            ..self
        }
    }

    /// After a block that repeats `len` bytes from `offset` back.
    pub open spec fn copy(self, len: int, offset: int) -> EncoderState {
        let v = (len - LENGTH_MIN) * OFFSET_RANGE + offset;
        EncoderState {
            pos: self.pos + len,
            out: self.out.update(
                self.map_idx,
                self.out[self.map_idx] | (1u8 << self.bit),
            ).push((v / 256) as u8).push((v % 256) as u8),
            bit: (self.bit + 1) as u8,
            ..self
        }
    }

    /// After the position is entered in the hash table.
    pub open spec fn remember(self, finder: Finder, src: Seq<u8>) -> EncoderState {
        EncoderState {
            table: self.table.update(
                slot(finder, src.skip(self.pos)),
                (self.pos % 65536) as u16,
            ),
            ..self
        }
    }

    /// After the next block, in a group that has room for it. Fewer than
    /// [`LENGTH_MAX`] remaining bytes are copied one by one.
    pub open spec fn block(self, finder: Finder, src: Seq<u8>) -> EncoderState {
        if src.len() - self.pos < LENGTH_MAX {
            self.literal(src)
        } else {
            let offset = self.offset(finder, src);
            if self.matches(finder, src) {
                let len = match_length(src, self.pos, self.pos - offset, LENGTH_MIN as int);
                self.remember(finder, src).copy(len, offset)
            } else {
                self.remember(finder, src).literal(src)
            }
        }
    }

    /// The whole run from here. A group is only started where the output has
    /// room for the largest one.
    pub open spec fn run(self, finder: Finder, src: Seq<u8>, capacity: nat) -> Encoded
        decreases src.len() - self.pos,
        via Self::run_decreases
    {
        if self.pos >= src.len() {
            Encoded { out: self.out, result: Ok(self.out.len() as usize) }
        } else if self.bit == 8 && capacity - self.out.len() < GROUP_MAX {
            Encoded { out: self.out, result: Err(CompressionError::NotCompressable {  }) }
        } else {
            self.open_group().block(finder, src).run(finder, src, capacity)
        }
    }

    #[via_fn]
    proof fn run_decreases(self, finder: Finder, src: Seq<u8>, capacity: nat) {
        let s = self.open_group();
        if self.pos < src.len() && src.len() - s.pos >= LENGTH_MAX && s.matches(finder, src) {
            lemma_match_length(src, s.pos, s.pos - s.offset(finder, src), LENGTH_MIN as int);
        }
    }
}

spec fn finder(pre_v21: bool) -> Finder {
    if pre_v21 {
        Finder::PreV21
    } else {
        Finder::Current
    }
}

spec fn table_limit(pre_v21: bool) -> int {
    if pre_v21 {
        TABLE_LENGTH_PRE_V21 as int
    } else {
        TABLE_LENGTH as int
    }
}

/// What compressing `src` into `capacity` bytes leaves.
pub open spec fn encode(finder: Finder, src: Seq<u8>, capacity: nat) -> Encoded {
    EncoderState::start().run(finder, src, capacity)
}

/// A match is no shorter than what is known of it, no longer than
/// [`LENGTH_MAX`], and its bytes are equal.
proof fn lemma_match_length(src: Seq<u8>, pos: int, from: int, len: int)
    requires
        0 <= len <= LENGTH_MAX,
    ensures
        len <= match_length(src, pos, from, len) <= LENGTH_MAX,
        forall|k: int|
            pos + len <= k < pos + match_length(src, pos, from, len) ==> #[trigger] src[k]
                == src[k - pos + from],
    decreases LENGTH_MAX - len,
{
    if len < LENGTH_MAX && src[pos + len] == src[from + len] {
        lemma_match_length(src, pos, from, len + 1);
    }
}

/// LZJB compression.
pub struct LzjbEncoder {
    /// Source position last seen for each hash slot, modulo 65536.
    table: [u16; TABLE_LENGTH],
}

impl Default for LzjbEncoder {
    fn default() -> (r: Self)
        ensures
            r@ == Seq::new(TABLE_LENGTH as nat, |i: int| 0u16),
    {
        Self::new()
    }
}

impl LzjbEncoder {
    /// Creates an encoder. Nothing carries over from one run of it to the next.
    pub fn new() -> (r: LzjbEncoder)
        ensures
            r@ == Seq::new(TABLE_LENGTH as nat, |i: int| 0u16),
    {
        let r = LzjbEncoder { table: [0; TABLE_LENGTH] };
        assert(r@ =~= Seq::new(TABLE_LENGTH as nat, |i: int| 0u16));
        r
    }

    /// The hash table.
    pub closed spec fn view(&self) -> Seq<u16> {
        self.table@
    }

    /// Compresses as pools before version 21 did, with a smaller hash table.
    pub fn compress_pre_v21(&mut self, dst: &mut [u8], src: &[u8], level: u32) -> (r: Result<
        usize,
        CompressionError,
    >)
        ensures
            final(dst)@.len() == old(dst)@.len(),
            r == encode(Finder::PreV21, src@, old(dst)@.len()).result,
            final(dst)@ == overwrite(
                old(dst)@,
                encode(Finder::PreV21, src@, old(dst)@.len()).out,
            ),
    {
        self.encode(dst, src, true)
    }

    /// The part of the table that is in use is that of `st`, and no position in
    /// it is ahead of `st`.
    #[verifier::opaque]
    closed spec fn tracks(self, st: EncoderState, pre_v21: bool) -> bool {
        &&& st.table.len() == TABLE_LENGTH
        &&& forall|j: int|
            0 <= j < table_limit(pre_v21) ==> #[trigger] self.table@[j] == st.table[j]
                && st.table[j] <= st.pos
    }

    proof fn lemma_tracks_ahead(self, st: EncoderState, next: EncoderState, pre_v21: bool)
        requires
            self.tracks(st, pre_v21),
            next.table == st.table,
            next.pos >= st.pos,
        ensures
            self.tracks(next, pre_v21),
    {
        reveal(LzjbEncoder::tracks);
        assert forall|j: int| 0 <= j < table_limit(pre_v21) implies #[trigger] self.table@[j]
            == next.table[j] && next.table[j] <= next.pos by {
            assert(self.table@[j] == st.table[j]);
        }
    }

    /// Slot of the hash table for the three bytes at `pos`.
    fn slot_at(src: &[u8], pos: usize, pre_v21: bool) -> (r: usize)
        requires
            pos + 2 < src@.len(),
        ensures
            r == slot(finder(pre_v21), src@.skip(pos as int)),
            r < table_limit(pre_v21),
    {
        let (a, b, c) = (src[pos], src[pos + 1], src[pos + 2]);
        if pre_v21 {
            (a.wrapping_add(13) ^ b.wrapping_sub(13) ^ c) as usize
        } else {
            let h0: u32 = a as u32 * 65536 + b as u32 * 256 + c as u32;
            let h1: u32 = h0 + h0 / 512;
            let h2: u32 = h1 + h1 / 32;
            (h2 % 1024) as usize
        }
    }

    /// Looks for an earlier occurrence of the bytes at `pos`, and enters `pos`
    /// in the hash table. Returns the match's length and how far back it is.
    fn find(
        &mut self,
        src: &[u8],
        pos: usize,
        pre_v21: bool,
        Ghost(st): Ghost<EncoderState>,
    ) -> (r: Option<(usize, usize)>)
        requires
            pos + LENGTH_MAX <= src@.len(),
            st.pos == pos,
            old(self).tracks(st, pre_v21),
        ensures
            final(self).tracks(st.remember(finder(pre_v21), src@), pre_v21),
            r is Some <==> st.matches(finder(pre_v21), src@),
            r matches Some(m) ==> {
                let offset = st.offset(finder(pre_v21), src@);
                &&& m.0 == match_length(src@, pos as int, pos - offset, LENGTH_MIN as int)
                &&& m.1 == offset
                &&& LENGTH_MIN <= m.0 <= LENGTH_MAX
                &&& 0 < m.1 < OFFSET_RANGE
            },
    {
        reveal(LzjbEncoder::tracks);
        let ghost h = slot(finder(pre_v21), src@.skip(pos as int));
        let ghost table = self.table@;
        assert(table[h] == st.table[h]);
        let hash: usize = Self::slot_at(src, pos, pre_v21);
        let offset: usize = (pos - self.table[hash] as usize) % OFFSET_RANGE;
        self.table[hash] = (pos % 65536) as u16;
        proof {
            let next = st.remember(finder(pre_v21), src@);
            assert forall|j: int| 0 <= j < table_limit(pre_v21) implies #[trigger] self.table@[j]
                == next.table[j] && next.table[j] <= next.pos by {
                assert(table[j] == st.table[j]);
            }
        }
        let from: usize = pos - offset;
        if from != pos && src[pos] == src[from] && src[pos + 1] == src[from + 1] && src[pos + 2]
            == src[from + 2] {
            let mut length: usize = LENGTH_MIN;
            let ghost total = match_length(src@, pos as int, from as int, LENGTH_MIN as int);
            while length < LENGTH_MAX && src[pos + length] == src[from + length]
                invariant
                    LENGTH_MIN <= length <= LENGTH_MAX,
                    pos + LENGTH_MAX <= src@.len() <= usize::MAX,
                    from <= pos,
                    match_length(src@, pos as int, from as int, length as int) == total,
                decreases LENGTH_MAX - length,
            {
                length += 1;
            }
            proof {
                lemma_match_length(src@, pos as int, from as int, LENGTH_MIN as int);
            }
            Some((length, offset))
        } else {
            None
        }
    }

    fn encode(&mut self, dst: &mut [u8], src: &[u8], pre_v21: bool) -> (r: Result<
        usize,
        CompressionError,
    >)
        ensures
            final(dst)@.len() == old(dst)@.len(),
            r == encode(finder(pre_v21), src@, old(dst)@.len()).result,
            final(dst)@ == overwrite(
                old(dst)@,
                encode(finder(pre_v21), src@, old(dst)@.len()).out,
            ),
    {
        let limit: usize = if pre_v21 {
            TABLE_LENGTH_PRE_V21
        } else {
            TABLE_LENGTH
        };
        let mut i: usize = 0;
        while i < limit
            invariant
                i <= limit <= TABLE_LENGTH,
                forall|j: int| 0 <= j < i ==> self.table@[j] == 0,
            decreases limit - i,
        {
            self.table[i] = 0;
            i += 1;
        }

        let ghost init = dst@;
        let ghost find = finder(pre_v21);
        let mut src_idx: usize = 0;
        let mut dst_idx: usize = 0;
        let mut map_idx: usize = 0;
        let mut bit: u8 = 8;
        let ghost mut st = EncoderState::start();
        assert(dst@ =~= overwrite(init, st.out));
        assert(self.tracks(st, pre_v21)) by {
            reveal(LzjbEncoder::tracks);
        }
        while src_idx < src.len()
            invariant
                init == old(dst)@,
                find == finder(pre_v21),
                dst@.len() == init.len(),
                src_idx <= src@.len(),
                bit <= 8,
                dst_idx + 2 * (8 - bit) <= init.len(),
                bit < 8 ==> map_idx < dst_idx,
                st == (EncoderState {
                    table: st.table,
                    pos: src_idx as int,
                    out: st.out,
                    map_idx: map_idx as int,
                    bit,
                }),
                st.out.len() == dst_idx,
                self.tracks(st, pre_v21),
                dst@ == overwrite(init, st.out),
                st.run(find, src@, init.len()) == encode(find, src@, init.len()),
            decreases src@.len() - src_idx,
        {
            if bit == 8 {
                if dst.len() - dst_idx < GROUP_MAX {
                    return Err(CompressionError::NotCompressable {  });
                }
                map_idx = dst_idx;
                proof {
                    lemma_overwrite_push(init, st.out, 0);
                }
                dst[map_idx] = 0;
                dst_idx += 1;
                bit = 0;
            }
            let ghost open = st.open_group();
            let ghost next = open.block(find, src@);
            if src.len() - src_idx < LENGTH_MAX {
                proof {
                    lemma_overwrite_push(init, open.out, src@[src_idx as int]);
                }
                dst[dst_idx] = src[src_idx];
                dst_idx += 1;
                src_idx += 1;
                proof {
                    self.lemma_tracks_ahead(st, next, pre_v21);
                }
            } else {
                let ghost seen = open.remember(find, src@);
                proof {
                    self.lemma_tracks_ahead(st, open, pre_v21);
                }
                match self.find(src, src_idx, pre_v21, Ghost(open)) {
                    Some((length, old_offset)) => {
                        let length_offset: usize = (length - LENGTH_MIN) * OFFSET_RANGE
                            + old_offset;
                        let map: u8 = dst[map_idx] | (1u8 << bit);
                        let hi: u8 = (length_offset / 256) as u8;
                        let lo: u8 = (length_offset % 256) as u8;
                        proof {
                            let out1 = open.out.update(map_idx as int, map);
                            lemma_overwrite_update(init, open.out, map_idx as int, map);
                            lemma_overwrite_push(init, out1, hi);
                            lemma_overwrite_push(init, out1.push(hi), lo);
                        }
                        dst[map_idx] = map;
                        dst[dst_idx] = hi;
                        dst[dst_idx + 1] = lo;
                        src_idx += length;
                        dst_idx += 2;
                        proof {
                            self.lemma_tracks_ahead(seen, next, pre_v21);
                        }
                    },
                    None => {
                        proof {
                            lemma_overwrite_push(init, open.out, src@[src_idx as int]);
                        }
                        dst[dst_idx] = src[src_idx];
                        dst_idx += 1;
                        src_idx += 1;
                        proof {
                            self.lemma_tracks_ahead(seen, next, pre_v21);
                        }
                    },
                }
            }
            bit += 1;
            proof {
                st = next;
            }
        }
        Ok(dst_idx)
    }
}

impl Compression for LzjbEncoder {
    open spec fn encoded(src: Seq<u8>, capacity: nat, level: u32) -> Encoded {
        encode(Finder::Current, src, capacity)
    }

    fn compress(&mut self, dst: &mut [u8], src: &[u8], level: u32) -> (r: Result<
        usize,
        CompressionError,
    >) {
        self.encode(dst, src, false)
    }
}

/// Between two blocks of the decoder.
pub ghost struct DecoderState {
    /// Source bytes that are consumed.
    pub pos: int,
    /// Output so far.
    pub out: Seq<u8>,
    /// Map of the current group.
    pub map: u8,
    /// Blocks of the current group that are consumed.
    pub bit: u8,
}

/// `out`, extended by `len` bytes that repeat those `offset` back. An offset of
/// zero leaves the bytes that the output buffer held before, which are `init`.
pub open spec fn repeat(out: Seq<u8>, init: Seq<u8>, offset: int, len: nat) -> Seq<u8>
    decreases len,
{
    if len == 0 {
        out
    } else {
        let b = if offset == 0 {
            init[out.len() as int]
        } else {
            out[out.len() - offset]
        };
        repeat(out.push(b), init, offset, (len - 1) as nat)
    }
}

impl DecoderState {
    /// Before the first block.
    pub open spec fn start() -> DecoderState {
        DecoderState { pos: 0, out: Seq::empty(), map: 0, bit: 8 }
    }

    /// With an unread block in the current group: a consumed group is followed
    /// by the map of the next one.
    pub open spec fn open_group(self, src: Seq<u8>) -> Result<DecoderState, DecompressionError> {
        if self.bit < 8 {
            Ok(self)
        } else if self.pos < src.len() {
            Ok(DecoderState { pos: self.pos + 1, map: src[self.pos], bit: 0, ..self })
        } else {
            Err(end_of_input(src, self.pos, 1))
        }
    }

    /// After the next block of an open group. A copy that would overfill the
    /// output is cut short.
    pub open spec fn block(self, src: Seq<u8>, init: Seq<u8>) -> Result<
        DecoderState,
        DecompressionError,
    > {
        if self.map & (1u8 << self.bit) == 0 {
            if self.pos < src.len() {
                Ok(
                    DecoderState {
                        pos: self.pos + 1,
                        out: self.out.push(src[self.pos]),
                        bit: (self.bit + 1) as u8,
                        ..self
                    },
                )
            } else {
                Err(end_of_input(src, self.pos, 1))
            }
        } else if src.len() - self.pos < 2 {
            Err(end_of_input(src, self.pos, 2))
        } else {
            let v = src[self.pos] * 256 + src[self.pos + 1];
            let len = v / (OFFSET_RANGE as int) + LENGTH_MIN;
            let offset = v % (OFFSET_RANGE as int);
            let room = init.len() - self.out.len();
            if offset > self.out.len() {
                Err(DecompressionError::InvalidInput { offset: self.pos as usize })
            } else {
                Ok(
                    DecoderState {
                        pos: self.pos + 2,
                        out: repeat(
                            self.out,
                            init,
                            offset,
                            if len <= room {
                                len as nat
                            } else {
                                room as nat
                            },
                        ),
                        bit: (self.bit + 1) as u8,
                        ..self
                    },
                )
            }
        }
    }

    /// The whole run from here.
    pub open spec fn run(self, src: Seq<u8>, init: Seq<u8>) -> Decoded
        decreases init.len() - self.out.len(),
        via Self::run_decreases
    {
        if self.out.len() >= init.len() {
            Decoded { out: self.out, result: Ok(()) }
        } else {
            match self.open_group(src) {
                Err(e) => Decoded { out: self.out, result: Err(e) },
                Ok(s) => match s.block(src, init) {
                    Err(e) => Decoded { out: self.out, result: Err(e) },
                    Ok(next) => next.run(src, init),
                },
            }
        }
    }

    #[via_fn]
    proof fn run_decreases(self, src: Seq<u8>, init: Seq<u8>) {
        if self.out.len() < init.len() {
            if let Ok(s) = self.open_group(src) {
                let v = src[s.pos] * 256 + src[s.pos + 1];
                let offset = v % (OFFSET_RANGE as int);
                let len = v / (OFFSET_RANGE as int) + LENGTH_MIN;
                let room = init.len() - s.out.len();
                lemma_repeat_len(s.out, init, offset, len as nat);
                lemma_repeat_len(s.out, init, offset, room as nat);
            }
        }
    }
}

/// The error for `count` bytes that are not there at `pos`.
pub open spec fn end_of_input(src: Seq<u8>, pos: int, count: usize) -> DecompressionError {
    DecompressionError::EndOfInput { offset: pos as usize, capacity: src.len() as usize, count }
}

/// What decompressing `src` over `init` leaves.
pub open spec fn decode(src: Seq<u8>, init: Seq<u8>) -> Decoded {
    DecoderState::start().run(src, init)
}

proof fn lemma_overwrite_push(old: Seq<u8>, out: Seq<u8>, b: u8)
    requires
        out.len() < old.len(),
    ensures
        overwrite(old, out).update(out.len() as int, b) == overwrite(old, out.push(b)),
{
    assert(overwrite(old, out).update(out.len() as int, b) =~= overwrite(old, out.push(b)));
}

proof fn lemma_overwrite_update(old: Seq<u8>, out: Seq<u8>, i: int, b: u8)
    requires
        0 <= i < out.len() <= old.len(),
    ensures
        overwrite(old, out)[i] == out[i],
        overwrite(old, out).update(i, b) == overwrite(old, out.update(i, b)),
{
    assert(overwrite(old, out).update(i, b) =~= overwrite(old, out.update(i, b)));
}

proof fn lemma_repeat_len(out: Seq<u8>, init: Seq<u8>, offset: int, len: nat)
    ensures
        repeat(out, init, offset, len).len() == out.len() + len,
        forall|i: int|
            0 <= i < out.len() ==> #[trigger] repeat(out, init, offset, len)[i] == out[i],
    decreases len,
{
    if len > 0 {
        let b = if offset == 0 {
            init[out.len() as int]
        } else {
            out[out.len() - offset]
        };
        lemma_repeat_len(out.push(b), init, offset, (len - 1) as nat);
    }
}

/// LZJB decompression.
pub struct LzjbDecoder {}

impl Decompression for LzjbDecoder {
    open spec fn decoded(src: Seq<u8>, init: Seq<u8>, level: u32) -> Decoded {
        decode(src, init)
    }

    fn decompress(&mut self, dst: &mut [u8], src: &[u8], level: u32) -> (r: Result<
        (),
        DecompressionError,
    >) {
        let ghost init = dst@;
        let mut src_idx: usize = 0;
        let mut dst_idx: usize = 0;
        let mut copy_map: u8 = 0;
        let mut bit: u8 = 8;
        let ghost mut st = DecoderState::start();
        assert(dst@ =~= overwrite(init, st.out));
        while dst_idx < dst.len()
            invariant
                init == old(dst)@,
                dst@.len() == init.len(),
                dst_idx <= init.len(),
                src_idx <= src@.len(),
                bit <= 8,
                st == (DecoderState {
                    pos: src_idx as int,
                    out: st.out,
                    map: copy_map,
                    bit,
                }),
                st.out.len() == dst_idx,
                dst@ == overwrite(init, st.out),
                st.run(src@, init) == decode(src@, init),
            decreases init.len() - dst_idx,
        {
            if bit == 8 {
                if src_idx >= src.len() {
                    return Err(
                        DecompressionError::EndOfInput {
                            offset: src_idx,
                            capacity: src.len(),
                            count: 1,
                        },
                    );
                }
                copy_map = src[src_idx];
                src_idx += 1;
                bit = 0;
            }
            let ghost open = DecoderState {
                pos: src_idx as int,
                out: st.out,
                map: copy_map,
                bit,
            };
            assert(st.open_group(src@) == Ok::<_, DecompressionError>(open));
            if copy_map & (1u8 << bit) != 0 {
                if src.len() - src_idx < 2 {
                    return Err(
                        DecompressionError::EndOfInput {
                            offset: src_idx,
                            capacity: src.len(),
                            count: 2,
                        },
                    );
                }
                let length_offset: usize = src[src_idx] as usize * 256 + src[src_idx + 1] as usize;
                let length: usize = length_offset / OFFSET_RANGE + LENGTH_MIN;
                let offset: usize = length_offset % OFFSET_RANGE;
                if offset > dst_idx {
                    return Err(DecompressionError::InvalidInput { offset: src_idx });
                }
                src_idx += 2;
                let room: usize = dst.len() - dst_idx;
                let length: usize = if length <= room {
                    length
                } else {
                    room
                };
                // One byte at a time: the copy may run into its own output.
                let mut left: usize = length;
                let ghost mut out = st.out;
                let ghost total = repeat(st.out, init, offset as int, length as nat);
                while left > 0
                    invariant
                        dst@.len() == init.len(),
                        dst_idx + left <= init.len(),
                        offset <= dst_idx,
                        out.len() == dst_idx,
                        dst@ == overwrite(init, out),
                        repeat(out, init, offset as int, left as nat) == total,
                    decreases left,
                {
                    let b = dst[dst_idx - offset];
                    dst[dst_idx] = b;
                    proof {
                        out = out.push(b);
                        assert(dst@ =~= overwrite(init, out));
                    }
                    dst_idx += 1;
                    left -= 1;
                }
                bit += 1;
                proof {
                    st = DecoderState { pos: src_idx as int, out, map: copy_map, bit };
                    lemma_repeat_len(open.out, init, offset as int, length as nat);
                    assert(open.block(src@, init) == Ok::<_, DecompressionError>(st));
                }
            } else {
                if src_idx >= src.len() {
                    return Err(
                        DecompressionError::EndOfInput {
                            offset: src_idx,
                            capacity: src.len(),
                            count: 1,
                        },
                    );
                }
                dst[dst_idx] = src[src_idx];
                proof {
                    st = DecoderState {
                        pos: src_idx + 1,
                        out: st.out.push(src@[src_idx as int]),
                        map: copy_map,
                        bit: (bit + 1) as u8,
                    };
                    assert(dst@ =~= overwrite(init, st.out));
                    assert(open.block(src@, init) == Ok::<_, DecompressionError>(st));
                }
                dst_idx += 1;
                src_idx += 1;
                bit += 1;
            }
        }
        Ok(())
    }
}

/// Setting one bit sets that bit and no other.
proof fn lemma_set_bit(x: u8, b: u8, c: u8)
    by (bit_vector)
    requires
        b < 8,
        c < 8,
    ensures
        (x | (1u8 << b)) & (1u8 << b) != 0,
        b != c ==> (x | (1u8 << b)) & (1u8 << c) == x & (1u8 << c),
        0u8 & (1u8 << c) == 0,
{
}

impl EncoderState {
    /// Positions are in range, and the unused bits of an open group's map are
    /// clear.
    spec fn wf(self, src: Seq<u8>) -> bool {
        &&& 0 <= self.pos <= src.len()
        &&& self.bit <= 8
        &&& self.table.len() == TABLE_LENGTH
        &&& forall|j: int| 0 <= j < TABLE_LENGTH ==> #[trigger] self.table[j] <= self.pos
        &&& self.bit < 8 ==> {
            &&& 0 <= self.map_idx < self.out.len()
            &&& forall|c: u8|
                self.bit <= c < 8 ==> self.out[self.map_idx] & (#[trigger] (1u8 << c)) == 0
        }
    }

    /// A decoder that has read exactly the output so far.
    spec fn decoder(self, src: Seq<u8>, map: u8) -> DecoderState {
        DecoderState { pos: self.out.len() as int, out: src.take(self.pos), map, bit: self.bit }
    }

    /// `full` extends the output so far: only the map of an open group may still
    /// change, and only in its unused bits.
    spec fn leads_to(self, full: Seq<u8>) -> bool {
        &&& full.len() >= self.out.len()
        &&& forall|i: int|
            0 <= i < self.out.len() && (self.bit == 8 || i != self.map_idx) ==> #[trigger] full[i]
                == self.out[i]
        &&& self.bit < 8 ==> forall|c: u8|
            c < self.bit ==> full[self.map_idx] & (#[trigger] (1u8 << c)) == self.out[self.map_idx]
                & (1u8 << c)
    }
}

/// Where the match finder looks is ahead of the start, and the slot is in range.
proof fn lemma_offset(st: EncoderState, finder: Finder, src: Seq<u8>)
    requires
        st.wf(src),
    ensures
        0 <= slot(finder, src.skip(st.pos)) < TABLE_LENGTH,
        0 <= st.offset(finder, src) < OFFSET_RANGE,
        st.offset(finder, src) <= st.pos,
{
    let h = slot(finder, src.skip(st.pos));
    assert(0 <= h < TABLE_LENGTH);
    assert(st.table[h] <= st.pos);
}

/// A block keeps the encoder well formed.
proof fn lemma_block_wf(st: EncoderState, finder: Finder, src: Seq<u8>)
    requires
        st.wf(src),
        st.bit < 8,
        st.pos < src.len(),
    ensures
        st.block(finder, src).wf(src),
        st.block(finder, src).pos > st.pos,
        st.block(finder, src).map_idx == st.map_idx,
        st.block(finder, src).bit == st.bit + 1,
{
    let next = st.block(finder, src);
    lemma_offset(st, finder, src);
    let offset = st.offset(finder, src);
    lemma_match_length(src, st.pos, st.pos - offset, LENGTH_MIN as int);
    assert forall|c: u8| next.bit <= c < 8 implies next.out[next.map_idx] & (#[trigger] (1u8 << c))
        == 0 by {
        lemma_set_bit(st.out[st.map_idx], st.bit, c);
        assert(st.out[st.map_idx] & (1u8 << c) == 0);
    }
}

/// A decoder that reads a block repeats what the encoder consumed for it.
proof fn lemma_block(
    st: EncoderState,
    finder: Finder,
    src: Seq<u8>,
    data: Seq<u8>,
    full: Seq<u8>,
    init: Seq<u8>,
)
    requires
        st.wf(src),
        st.bit < 8,
        st.pos < src.len(),
        init.len() == src.len(),
        st.block(finder, src).leads_to(full),
        full.len() <= data.len(),
        forall|i: int| 0 <= i < full.len() ==> #[trigger] data[i] == full[i],
    ensures
        st.decoder(src, full[st.map_idx]).block(data, init) == Ok::<_, DecompressionError>(
            st.block(finder, src).decoder(src, full[st.map_idx]),
        ),
{
    let next = st.block(finder, src);
    let map = full[st.map_idx];
    let d = st.decoder(src, map);
    let n = st.out.len() as int;
    lemma_block_wf(st, finder, src);
    lemma_set_bit(st.out[st.map_idx], st.bit, st.bit);
    assert(map & (1u8 << st.bit) == next.out[st.map_idx] & (1u8 << st.bit));
    assert(full[n] == data[n]);
    if src.len() - st.pos >= LENGTH_MAX && st.matches(finder, src) {
        lemma_offset(st, finder, src);
        let offset = st.offset(finder, src);
        let len = match_length(src, st.pos, st.pos - offset, LENGTH_MIN as int);
        lemma_match_length(src, st.pos, st.pos - offset, LENGTH_MIN as int);
        assert(forall|k: int|
            st.pos <= k < st.pos + len ==> #[trigger] src[k] == src[k - offset]) by {
            assert(src[st.pos] == src[st.pos - offset]);
            assert(src[st.pos + 1] == src[st.pos + 1 - offset]);
            assert(src[st.pos + 2] == src[st.pos + 2 - offset]);
        }
        let v = (len - LENGTH_MIN) * OFFSET_RANGE + offset;
        assert(next.out[n] == (v / 256) as u8);
        assert(next.out[n + 1] == (v % 256) as u8);
        assert(full[n] == next.out[n]);
        assert(full[n + 1] == next.out[n + 1]);
        assert(data[n + 1] == full[n + 1]);
        assert(data[n] * 256 + data[n + 1] == v);
        lemma_repeat(src, init, st.pos, offset, len as nat);
    } else {
        assert(next.out[n] == src[st.pos]);
        assert(full[n] == next.out[n]);
        assert(src.take(st.pos).push(src[st.pos]) =~= src.take(st.pos + 1));
    }
}

/// Repeating bytes that are equal to the ones `offset` back reproduces them.
proof fn lemma_repeat(src: Seq<u8>, init: Seq<u8>, pos: int, offset: int, len: nat)
    requires
        0 < offset <= pos,
        pos + len <= src.len(),
        forall|k: int| pos <= k < pos + len ==> #[trigger] src[k] == src[k - offset],
    ensures
        repeat(src.take(pos), init, offset, len) == src.take(pos + len),
    decreases len,
{
    if len > 0 {
        assert(src[pos] == src[pos - offset]);
        assert(src.take(pos).push(src[pos - offset]) =~= src.take(pos + 1));
        lemma_repeat(src, init, pos + 1, offset, (len - 1) as nat);
    }
}

/// From any point of a run that succeeds, the decoder that has read the output
/// so far goes on to reproduce the source.
proof fn lemma_run(
    st: EncoderState,
    finder: Finder,
    src: Seq<u8>,
    capacity: nat,
    pad: Seq<u8>,
    init: Seq<u8>,
    map: u8,
)
    requires
        st.wf(src),
        init.len() == src.len(),
        st.run(finder, src, capacity).result is Ok,
        st.out.len() + 2 * (8 - st.bit) <= capacity,
        st.bit < 8 ==> map == st.run(finder, src, capacity).out[st.map_idx],
    ensures
        ({
            let full = st.run(finder, src, capacity).out;
            &&& st.leads_to(full)
            &&& full.len() <= capacity
            &&& st.run(finder, src, capacity).result == Ok::<usize, CompressionError>(
                full.len() as usize,
            )
            &&& st.decoder(src, map).run(full + pad, init) == (Decoded {
                out: src,
                result: Ok(()),
            })
        }),
    decreases src.len() - st.pos,
{
    let full = st.run(finder, src, capacity).out;
    let data = full + pad;
    if st.pos >= src.len() {
        assert(src.take(st.pos) =~= src);
    } else {
        let open = st.open_group();
        assert(open.wf(src)) by {
            assert forall|c: u8| open.bit <= c < 8 implies open.out[open.map_idx] & (#[trigger] (
            1u8 << c)) == 0 by {
                lemma_set_bit(0, 0, c);
            }
        }
        let next = open.block(finder, src);
        lemma_block_wf(open, finder, src);
        let m = full[open.map_idx];
        lemma_run(next, finder, src, capacity, pad, init, m);
        lemma_block(open, finder, src, data, full, init);
        assert(open.leads_to(full)) by {
            assert forall|i: int| 0 <= i < open.out.len() && i != open.map_idx implies #[trigger] full[i]
                == open.out[i] by {
                assert(full[i] == next.out[i]);
            }
            assert forall|c: u8| c < open.bit implies full[open.map_idx] & (#[trigger] (1u8 << c))
                == open.out[open.map_idx] & (1u8 << c) by {
                lemma_set_bit(open.out[open.map_idx], open.bit, c);
                assert(full[open.map_idx] & (1u8 << c) == next.out[open.map_idx] & (1u8 << c));
            }
        }
        assert(st.leads_to(full)) by {
            if st.bit == 8 {
                assert forall|i: int| 0 <= i < st.out.len() implies #[trigger] full[i] == st.out[i] by {
                    assert(full[i] == open.out[i]);
                }
            }
        }
        let d = st.decoder(src, map);
        assert(d.open_group(data) == Ok::<_, DecompressionError>(open.decoder(src, m)));
    }
}

/// Decompressing what was compressed gives back the source, whatever follows
/// the compressed bytes and whatever the output buffer held.
pub proof fn law_round_trip(
    finder: Finder,
    src: Seq<u8>,
    capacity: nat,
    pad: Seq<u8>,
    init: Seq<u8>,
)
    requires
        init.len() == src.len(),
        encode(finder, src, capacity).result is Ok,
    ensures
        encode(finder, src, capacity).result == Ok::<usize, CompressionError>(
            encode(finder, src, capacity).out.len() as usize,
        ),
        encode(finder, src, capacity).out.len() <= capacity,
        decode(encode(finder, src, capacity).out + pad, init) == (Decoded {
            out: src,
            result: Ok(()),
        }),
{
    lemma_run(EncoderState::start(), finder, src, capacity, pad, init, 0);
    assert(src.take(0) =~= Seq::empty());
}

/// What a block of compressed data stands for.
pub ghost enum Item {
    /// A byte.
    Literal(u8),
    /// As many bytes as `len`, each equal to the one `offset` before it. An offset of zero
    /// leaves the bytes that the output buffer held before.
    Copy { len: int, offset: int },
}

/// Whether `src` holds the given items from `at` on, the first of them at place `bit` of a
/// group with the given map. Eight items follow a map, a byte that tells which of them are
/// copies, from its lowest bit on. A byte stands for itself. A copy has two bytes: the first
/// is four times the length less three, and the highest two bits of the offset; the second
/// is the rest of the offset.
pub open spec fn is_written(src: Seq<u8>, at: int, map: u8, bit: nat, items: Seq<Item>) -> bool
    decreases items.len(), bit,
{
    if items.len() == 0 {
        true
    } else if bit >= 8 {
        &&& at < src.len()
        &&& is_written(src, at + 1, src[at], 0, items)
    } else {
        let is_copy = map as nat / pow2(bit) % 2 == 1;
        match items[0] {
            Item::Literal(b) => {
                &&& !is_copy
                &&& at < src.len()
                &&& src[at] == b
                &&& is_written(src, at + 1, map, bit + 1, items.drop_first())
            },
            Item::Copy { len, offset } => {
                &&& is_copy
                &&& at + 2 <= src.len()
                &&& 3 <= len <= 66
                &&& 0 <= offset < 1024
                &&& src[at] == 4 * (len - 3) + offset / 256
                &&& src[at + 1] == offset % 256
                &&& is_written(src, at + 2, map, bit + 1, items.drop_first())
            },
        }
    }
}

/// Whether the given items spell `out` from byte `n` on, over a buffer that held `init`. A copy
/// at the end may be longer than what is left.
pub open spec fn spells(items: Seq<Item>, n: int, out: Seq<u8>, init: Seq<u8>) -> bool
    decreases items.len(),
{
    if n >= out.len() {
        true
    } else if items.len() == 0 {
        false
    } else {
        match items[0] {
            Item::Literal(b) => out[n] == b && spells(items.drop_first(), n + 1, out, init),
            Item::Copy { len, offset } => {
                &&& offset <= n
                &&& forall|k: int|
                    n <= k < n + len && k < out.len() ==> #[trigger] out[k] == (if offset == 0 {
                        init[k]
                    } else {
                        out[k - offset]
                    })
                &&& spells(items.drop_first(), n + len, out, init)
            },
        }
    }
}

/// A bit of a map, as a digit.
proof fn lemma_map_bit(map: u8, bit: u8)
    requires
        bit < 8,
    ensures
        (map & (1u8 << bit) == 0) == (map as nat / pow2(bit as nat) % 2 == 0),
{
    assert((map & (1u8 << bit) == 0) == ((map >> bit) % 2 == 0)) by (bit_vector)
        requires
            bit < 8,
    ;
    vstd::bits::lemma_u8_shr_is_div(map, bit);
}

/// Leaving bytes as they are.
proof fn lemma_leave(out: Seq<u8>, init: Seq<u8>, pos: int, len: nat)
    requires
        0 <= pos,
        pos + len <= out.len(),
        forall|k: int| pos <= k < pos + len ==> #[trigger] out[k] == init[k],
    ensures
        repeat(out.take(pos), init, 0, len) == out.take(pos + len),
    decreases len,
{
    if len > 0 {
        assert(out[pos] == init[pos]);
        assert(out.take(pos).push(init[pos]) =~= out.take(pos + 1));
        lemma_leave(out, init, pos + 1, (len - 1) as nat);
    }
}

proof fn lemma_items(d: DecoderState, src: Seq<u8>, init: Seq<u8>, items: Seq<Item>, out: Seq<u8>)
    requires
        d.bit <= 8,
        0 <= d.pos,
        d.out.len() <= out.len() == init.len(),
        d.out == out.take(d.out.len() as int),
        is_written(src, d.pos, d.map, d.bit as nat, items),
        spells(items, d.out.len() as int, out, init),
    ensures
        d.run(src, init) == (Decoded { out, result: Ok(()) }),
    decreases items.len(), d.bit,
{
    let n = d.out.len() as int;
    if n >= out.len() {
        assert(out.take(n) =~= out);
    } else if d.bit == 8 {
        let open = DecoderState { pos: d.pos + 1, map: src[d.pos], bit: 0, ..d };
        assert(d.open_group(src) == Ok::<_, DecompressionError>(open));
        lemma_items(open, src, init, items, out);
        assert(open.open_group(src) == Ok::<_, DecompressionError>(open));
    } else {
        lemma_map_bit(d.map, d.bit);
        assert(d.open_group(src) == Ok::<_, DecompressionError>(d));
        let next = d.block(src, init)->Ok_0;
        match items[0] {
            Item::Literal(b) => {
                assert(next.out =~= out.take(n + 1));
            },
            Item::Copy { len, offset } => {
                let v = src[d.pos] * 256 + src[d.pos + 1];
                assert(v == (len - 3) * 1024 + offset);
                assert(v / 1024 == len - 3 && v % 1024 == offset);
                let count = if len <= out.len() - n {
                    len
                } else {
                    out.len() - n
                };
                if offset == 0 {
                    lemma_leave(out, init, n, count as nat);
                } else {
                    lemma_repeat(out, init, n, offset, count as nat);
                }
                if n + len > out.len() {
                    assert(spells(items.drop_first(), out.len() as int, out, init));
                }
            },
        }
        lemma_items(next, src, init, items.drop_first(), out);
    }
}

/// Compressed data means what its layout says: data that holds certain items decompresses to
/// what these spell.
pub proof fn law_items_are_decoded(
    src: Seq<u8>,
    init: Seq<u8>,
    items: Seq<Item>,
    out: Seq<u8>,
)
    requires
        is_written(src, 0, 0, 8, items),
        spells(items, 0, out, init),
        init.len() == out.len(),
    ensures
        decode(src, init) == (Decoded { out, result: Ok(()) }),
{
    assert(out.take(0) =~= Seq::empty());
    lemma_items(DecoderState::start(), src, init, items, out);
}

/// What the encoder does with a position that has at least 66 bytes behind it. The three bytes
/// there are hashed, and the position that was last seen with that hash tells how far to look
/// back, modulo 1024. If the same three bytes are there, the longest match of up to 66 bytes
/// is written as a copy, and else a byte as it is.
pub proof fn law_steps_of_the_encoder(
    st: EncoderState,
    finder: Finder,
    src: Seq<u8>,
    hash: int,
    offset: int,
)
    requires
        st.bit < 8,
        0 <= st.pos,
        st.pos + 66 <= src.len(),
        st.table.len() == 1024,
        0 <= st.map_idx < st.out.len(),
        ({
            let (a, b, c) = (src[st.pos], src[st.pos + 1], src[st.pos + 2]);
            match finder {
                Finder::Current => {
                    let h = a * 0x1_0000 + b * 0x100 + c;
                    let i = h + h / 0x200;
                    hash == (i + i / 0x20) % 0x400
                },
                Finder::PreV21 => hash == (((a + 13) % 256) as u8) ^ (((b + 243) % 256) as u8) ^ c,
            }
        }),
        offset == (st.pos - st.table[hash]) % 1024,
    ensures
        ({
            let next = st.block(finder, src);
            let from = st.pos - offset;
            &&& next.table == st.table.update(hash, (st.pos % 0x1_0000) as u16)
            &&& next.bit == st.bit + 1
            &&& if offset != 0 && src[st.pos] == src[from] && src[st.pos + 1] == src[from + 1]
                && src[st.pos + 2] == src[from + 2] {
                let len = next.pos - st.pos;
                &&& 3 <= len <= 66
                &&& forall|k: int|
                    st.pos <= k < st.pos + len ==> #[trigger] src[k] == src[k - offset]
                &&& len < 66 ==> src[st.pos + len] != src[from + len]
                &&& next.out == st.out.update(
                    st.map_idx,
                    st.out[st.map_idx] | (1u8 << st.bit),
                ).push((4 * (len - 3) + offset / 256) as u8).push((offset % 256) as u8)
            } else {
                next.pos == st.pos + 1 && next.out == st.out.push(src[st.pos])
            }
        }),
{
    let here = src.skip(st.pos);
    let (a, b) = (src[st.pos], src[st.pos + 1]);
    assert(here[0] == a && here[1] == b && here[2] == src[st.pos + 2]);
    assert(a.wrapping_add(13) == (a + 13) % 256);
    assert(b.wrapping_sub(13) == (b + 243) % 256);
    assert(slot(finder, here) == hash);
    assert(st.offset(finder, src) == offset);
    let from = st.pos - offset;
    if st.matches(finder, src) {
        let len = match_length(src, st.pos, from, 3);
        lemma_match_length(src, st.pos, from, 3);
        lemma_match_ends(src, st.pos, from, 3);
        assert(forall|k: int|
            st.pos <= k < st.pos + len ==> #[trigger] src[k] == src[k - offset]) by {
            assert(src[st.pos] == src[st.pos - offset]);
            assert(src[st.pos + 1] == src[st.pos + 1 - offset]);
            assert(src[st.pos + 2] == src[st.pos + 2 - offset]);
        }
        let v = (len - 3) * 1024 + offset;
        assert(v / 256 == 4 * (len - 3) + offset / 256);
        assert(v % 256 == offset % 256);
    }
}

proof fn lemma_match_ends(src: Seq<u8>, pos: int, from: int, len: int)
    requires
        0 <= len <= 66,
    ensures
        ({
            let n = match_length(src, pos, from, len);
            n < 66 ==> src[pos + n] != src[from + n]
        }),
    decreases 66 - len,
{
    if len < 66 && src[pos + len] == src[from + len] {
        lemma_match_ends(src, pos, from, len + 1);
    }
}

/// The last 65 bytes are written as they are; a group of eight is followed by the map of the
/// next one, which is only begun if there is room for 17 bytes; and the end is the end of the
/// source.
pub proof fn law_frame_of_the_encoder(
    st: EncoderState,
    finder: Finder,
    src: Seq<u8>,
    capacity: nat,
)
    requires
        st.bit <= 8,
        0 <= st.pos,
    ensures
        encode(finder, src, capacity) == (EncoderState {
            table: Seq::new(1024, |i: int| 0u16),
            pos: 0,
            out: Seq::empty(),
            map_idx: 0,
            bit: 8,
        }).run(finder, src, capacity),
        st.pos >= src.len() ==> st.run(finder, src, capacity) == (Encoded {
            out: st.out,
            result: Ok(st.out.len() as usize),
        }),
        st.pos < src.len() && st.bit == 8 ==> st.run(finder, src, capacity) == (if st.out.len() + 17
            > capacity {
            Encoded { out: st.out, result: Err(CompressionError::NotCompressable {  }) }
        } else {
            (EncoderState {
                out: st.out.push(0),
                map_idx: st.out.len() as int,
                bit: 0,
                ..st
            }).block(finder, src).run(finder, src, capacity)
        }),
        st.pos < src.len() && st.bit < 8 ==> st.run(finder, src, capacity) == st.block(
            finder,
            src,
        ).run(finder, src, capacity),
        st.pos < src.len() < st.pos + 66 && st.bit < 8 ==> st.block(finder, src) == (EncoderState {
            pos: st.pos + 1,
            out: st.out.push(src[st.pos]),
            bit: (st.bit + 1) as u8,
            ..st
        }),
{
}

/// What a repetition adds.
proof fn lemma_repeat_bytes(out: Seq<u8>, init: Seq<u8>, offset: int, len: nat)
    requires
        0 <= offset <= out.len(),
    ensures
        ({
            let all = repeat(out, init, offset, len);
            &&& all.len() == out.len() + len
            &&& forall|k: int| 0 <= k < out.len() ==> #[trigger] all[k] == out[k]
            &&& forall|k: int|
                out.len() <= k < out.len() + len ==> #[trigger] all[k] == (if offset == 0 {
                    init[k]
                } else {
                    all[k - offset]
                })
        }),
    decreases len,
{
    if len > 0 {
        let b = if offset == 0 {
            init[out.len() as int]
        } else {
            out[out.len() - offset]
        };
        lemma_repeat_bytes(out.push(b), init, offset, (len - 1) as nat);
        let all = repeat(out, init, offset, len);
        assert forall|k: int| 0 <= k < out.len() implies #[trigger] all[k] == out[k] by {
            assert(all[k] == out.push(b)[k]);
        }
        assert(all[out.len() as int] == out.push(b)[out.len() as int]);
        if offset > 0 {
            assert(all[out.len() - offset] == out.push(b)[out.len() - offset]);
        }
    }
}

/// A run does not take back what it has put out.
proof fn lemma_run_extends(d: DecoderState, src: Seq<u8>, init: Seq<u8>)
    requires
        d.bit <= 8,
        d.out.len() <= init.len(),
        0 <= d.pos,
        d.run(src, init).result is Ok,
    ensures
        ({
            let all = d.run(src, init).out;
            &&& all.len() == init.len()
            &&& forall|k: int| 0 <= k < d.out.len() ==> #[trigger] all[k] == d.out[k]
        }),
    decreases init.len() - d.out.len(),
{
    if d.out.len() < init.len() {
        let s = d.open_group(src)->Ok_0;
        let next = s.block(src, init)->Ok_0;
        let v = src[s.pos] * 256 + src[s.pos + 1];
        let len = v / 1024 + 3;
        let room = init.len() - s.out.len();
        if v % 1024 <= s.out.len() {
            lemma_repeat_bytes(s.out, init, v % 1024, len as nat);
            lemma_repeat_bytes(s.out, init, v % 1024, room as nat);
        }
        lemma_run_extends(next, src, init);
        assert forall|k: int| 0 <= k < d.out.len() implies #[trigger] d.run(src, init).out[k]
            == d.out[k] by {
            assert(next.run(src, init).out[k] == next.out[k]);
        }
    }
}

/// The items that a run reads.
proof fn lemma_items_of_run(d: DecoderState, src: Seq<u8>, init: Seq<u8>) -> (items: Seq<Item>)
    requires
        d.bit <= 8,
        d.out.len() <= init.len(),
        0 <= d.pos,
        d.run(src, init).result is Ok,
    ensures
        is_written(src, d.pos, d.map, d.bit as nat, items),
        spells(items, d.out.len() as int, d.run(src, init).out, init),
    decreases init.len() - d.out.len(),
{
    let all = d.run(src, init).out;
    lemma_run_extends(d, src, init);
    if d.out.len() >= init.len() {
        Seq::empty()
    } else {
        let n = d.out.len() as int;
        let s = d.open_group(src)->Ok_0;
        let next = s.block(src, init)->Ok_0;
        lemma_map_bit(s.map, s.bit);
        let (h, l) = (src[s.pos], src[s.pos + 1]);
        let v = h * 256 + l;
        let (len, offset) = (v / 1024 + 3, v % 1024);
        let room = init.len() - n;
        let is_copy = s.map & (1u8 << s.bit) != 0;
        if is_copy {
            lemma_repeat_bytes(s.out, init, offset, len as nat);
            lemma_repeat_bytes(s.out, init, offset, room as nat);
        }
        lemma_run_extends(next, src, init);
        let rest = lemma_items_of_run(next, src, init);
        let item = if is_copy {
            Item::Copy { len, offset }
        } else {
            Item::Literal(src[s.pos])
        };
        let items = seq![item] + rest;
        assert(items.drop_first() =~= rest);
        assert(items[0] == item);
        if is_copy {
            assert(h == 4 * (len - 3) + offset / 256);
            assert(l == offset % 256);
            assert forall|k: int| n <= k < n + len && k < all.len() implies #[trigger] all[k] == (
            if offset == 0 {
                init[k]
            } else {
                all[k - offset]
            }) by {
                assert(all[k] == next.out[k]);
                if offset > 0 {
                    assert(all[k - offset] == next.out[k - offset]);
                }
            }
            if n + len > all.len() {
                assert(spells(rest, n + len, all, init));
            }
        } else {
            assert(all[n] == next.out[n]);
        }
        assert(is_written(src, s.pos, s.map, s.bit as nat, items));
        if d.bit == 8 {
            reveal_with_fuel(is_written, 2);
        }
        items
    }
}

/// Nothing else is decoded: what data decompresses to is what certain items spell that it
/// holds, so that data that holds no such items is refused.
pub proof fn law_only_items_are_decoded(src: Seq<u8>, init: Seq<u8>)
    requires
        decode(src, init).result is Ok,
    ensures
        decode(src, init).out.len() == init.len(),
        exists|items: Seq<Item>| #[trigger]
            is_written(src, 0, 0, 8, items) && spells(items, 0, decode(src, init).out, init),
{
    let d = DecoderState::start();
    lemma_run_extends(d, src, init);
    let items = lemma_items_of_run(d, src, init);
    assert(is_written(src, 0, 0, 8, items));
}

} // verus!
