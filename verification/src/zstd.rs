//! The headers inside a zstd frame, and a bound on what its blocks ask of a decoder.
//!
//! A decoder that adds up in 32 bits the lengths of what a block copies must not be given
//! a block that copies more than that. A block copies its literals once, and a match for
//! each of its sequences. How long the matches are is not known before they are decoded,
//! but how long they can be is: there is a longest match, and one of more than 34 bytes has
//! at least a bit among the sequences for every 8190 bytes above those.

use vstd::prelude::*;

verus! {

/// Largest content of a block, 128 KiB.
pub const MAX_BLOCK_CONTENT: usize = 0x2_0000;

/// Length of the longest match that can be written down.
pub const MAX_MATCH: u64 = 131_074;

/// Bytes of matches, beyond 34 for each, that a byte of sequences can stand for.
pub const MATCH_PER_BYTE: u64 = 8 * 8190;

/// Where the blocks of a frame start. The descriptor behind the magic number tells which
/// fields of the header there are: a window, an identifier of a dictionary, the size of
/// the content.
pub open spec fn blocks_start(frame: Seq<u8>) -> int {
    let single_segment = frame[4] / 0x20 % 2 == 1;
    let window: int = if single_segment {
        0
    } else {
        1
    };
    let dictionary: int = match frame[4] % 4 {
        0 => 0,
        1 => 1,
        2 => 2,
        _ => 4,
    };
    let size: int = match frame[4] / 0x40 {
        0 => if single_segment {
            1
        } else {
            0
        },
        1 => 2,
        2 => 4,
        _ => 8,
    };
    5 + window + dictionary + size
}

/// Where the sequences of a compressed block start, behind its literals. The first two
/// bits tell how the literals are stored: as they are, as one byte that is repeated, or
/// compressed in two ways; the next two how wide the sizes are.
pub open spec fn sequences_start(content: Seq<u8>) -> int {
    let kind = content[0] % 4;
    let format = content[0] / 4 % 4;
    if kind == 1 {
        match format {
            1 => 3,
            3 => 4,
            _ => 2,
        }
    } else if kind == 0 {
        match format {
            1 => 2 + content[0] / 16 + content[1] * 16,
            3 => 3 + content[0] / 16 + content[1] * 16 + content[2] * 0x1000,
            _ => 1 + content[0] / 8,
        }
    } else {
        match format {
            2 => 4 + content[2] / 4 + content[3] * 0x40,
            3 => 5 + content[2] / 0x40 + content[3] * 4 + content[4] * 0x400,
            _ => 3 + content[1] / 0x40 + content[2] * 4,
        }
    }
}

/// The size of the literals of a compressed block when they are decompressed.
pub open spec fn literals_size(content: Seq<u8>) -> int {
    let format = content[0] / 4 % 4;
    if content[0] % 4 < 2 {
        match format {
            1 => content[0] / 16 + content[1] * 16,
            3 => content[0] / 16 + content[1] * 16 + content[2] * 0x1000,
            _ => (content[0] / 8) as int,
        }
    } else {
        match format {
            2 => content[0] / 16 + content[1] * 16 + content[2] % 4 * 0x1000,
            3 => content[0] / 16 + content[1] * 16 + content[2] % 0x40 * 0x1000,
            _ => content[0] / 16 + content[1] % 0x40 * 16,
        }
    }
}

/// The number of sequences of a compressed block, whose sequences start at `at`.
pub open spec fn sequence_count(content: Seq<u8>, at: int) -> int {
    if content[at] < 0x80 {
        content[at] as int
    } else if content[at] < 0xff {
        (content[at] - 0x80) * 0x100 + content[at + 1]
    } else {
        content[at + 1] + content[at + 2] * 0x100 + 0x7f00
    }
}

/// Length of the longest match that a compressed block can have, whose sequences start at
/// `at`. A block with many sequences tells behind their number how the codes of literal
/// lengths, offsets and match lengths are stored, in this order: of interest is the case
/// that there is but one code for match lengths, and no table in front of it.
pub open spec fn longest_match(content: Seq<u8>, at: int) -> int {
    if content[at] == 0xff && at + 4 <= content.len() {
        let literal_lengths = content[at + 3] / 0x40;
        let offsets = content[at + 3] / 0x10 % 4;
        let match_lengths = content[at + 3] / 4 % 4;
        let code = at + 4 + (if literal_lengths == 1 {
            1int
        } else {
            0
        }) + (if offsets == 1 {
            1int
        } else {
            0
        });
        if literal_lengths == 2 || offsets == 2 || match_lengths != 1 || code >= content.len() {
            MAX_MATCH as int
        } else if content[code] <= 50 {
            32_770
        } else if content[code] == 51 {
            65_538
        } else {
            MAX_MATCH as int
        }
    } else {
        MAX_MATCH as int
    }
}

/// Whether what a compressed block copies fits into 32 bits, as far as its headers tell:
/// because the sequences are too few or their matches too short for more, or because there
/// are too few bits for longer ones. In less than three bytes there is no room for more than
/// 127 sequences, and in a block of less than five for none with a match that is stored.
pub open spec fn is_bounded_block(content: Seq<u8>) -> bool {
    let at = sequences_start(content);
    content.len() < 5 || at + 3 > content.len() || {
        let count = sequence_count(content, at);
        ||| longest_match(content, at) * count + literals_size(content) <= u32::MAX
        ||| (content.len() - at) * MATCH_PER_BYTE + 34 * count + literals_size(content) <= u32::MAX
    }
}

/// Whether that holds of every compressed block from `at` on. The blocks end with one that
/// is marked as the last, or where there is none: the header is cut off, the content is
/// cut off or too large, or the kind of the block is not defined.
pub open spec fn are_bounded_blocks(frame: Seq<u8>, at: int) -> bool
    decreases frame.len() - at,
{
    if at + 3 > frame.len() {
        true
    } else {
        let header = frame[at] + frame[at + 1] * 0x100 + frame[at + 2] * 0x1_0000;
        let last = header % 2 == 1;
        let kind = header / 2 % 4;
        let size = header / 8;
        let stored = if kind == 1 {
            1
        } else {
            size
        };
        let next = at + 3 + stored;
        if kind == 3 || size > MAX_BLOCK_CONTENT || next > frame.len() {
            true
        } else {
            &&& kind == 2 ==> is_bounded_block(frame.subrange(at + 3, next))
            &&& last || are_bounded_blocks(frame, next)
        }
    }
}

/// Whether what each compressed block of a frame copies fits into 32 bits.
#[verifier::opaque]
pub open spec fn is_bounded_frame(frame: Seq<u8>) -> bool {
    frame.len() < 5 || are_bounded_blocks(frame, blocks_start(frame))
}

/// Where the sequences of a compressed block start, and the size of its literals.
fn read_literals_header(content: &[u8]) -> (r: (usize, u64))
    requires
        content@.len() >= 5,
    ensures
        r.0 == sequences_start(content@),
        r.1 == literals_size(content@),
        r.1 < 0x10_0000,
{
    let (a, b): (usize, usize) = (content[0] as usize, content[1] as usize);
    let (c, d): (usize, usize) = (content[2] as usize, content[3] as usize);
    let e: usize = content[4] as usize;
    let kind: usize = a % 4;
    let format: usize = a / 4 % 4;
    if kind < 2 {
        let (header, size): (usize, usize) = match format {
            1 => (2, a / 16 + b * 16),
            3 => (3, a / 16 + b * 16 + c * 0x1000),
            _ => (1, a / 8),
        };
        let stored: usize = if kind == 1 {
            1
        } else {
            size
        };
        (header + stored, size as u64)
    } else {
        let (end, size): (usize, usize) = match format {
            2 => (4 + c / 4 + d * 0x40, a / 16 + b * 16 + c % 4 * 0x1000),
            3 => (5 + c / 0x40 + d * 4 + e * 0x400, a / 16 + b * 16 + c % 0x40 * 0x1000),
            _ => (3 + b / 0x40 + c * 4, a / 16 + b % 0x40 * 16),
        };
        (end, size as u64)
    }
}

/// Length of the longest match that a compressed block can have.
fn find_longest_match(content: &[u8], at: usize) -> (r: u64)
    requires
        at + 3 <= content@.len(),
    ensures
        r == longest_match(content@, at as int),
        r <= MAX_MATCH,
{
    assert(content@.len() == content.len());
    if content[at] != 0xff || content.len() - at < 4 {
        return MAX_MATCH;
    }
    let modes: u8 = content[at + 3];
    let mut skipped: usize = 4;
    if modes / 0x40 == 1 {
        skipped += 1;
    }
    if modes / 0x10 % 4 == 1 {
        skipped += 1;
    }
    if modes / 0x40 == 2 || modes / 0x10 % 4 == 2 || modes / 4 % 4 != 1 || skipped >= content.len()
        - at {
        return MAX_MATCH;
    }
    let code: u8 = content[at + skipped];
    if code <= 50 {
        32_770
    } else if code == 51 {
        65_538
    } else {
        MAX_MATCH
    }
}

/// Whether what a compressed block copies fits into 32 bits, as far as its headers tell.
pub fn check_block(content: &[u8]) -> (r: bool)
    requires
        content@.len() <= MAX_BLOCK_CONTENT,
    ensures
        r == is_bounded_block(content@),
{
    if content.len() < 5 {
        return true;
    }
    let (at, literals) = read_literals_header(content);
    if at > content.len() - 3 {
        return true;
    }
    let (a, b): (u64, u64) = (content[at] as u64, content[at + 1] as u64);
    let c: u64 = content[at + 2] as u64;
    let count: u64 = if a < 0x80 {
        a
    } else if a < 0xff {
        (a - 0x80) * 0x100 + b
    } else {
        b + c * 0x100 + 0x7f00
    };
    let longest: u64 = find_longest_match(content, at);
    assert(longest * count <= MAX_MATCH * 98047) by (nonlinear_arith)
        requires
            longest <= MAX_MATCH,
            count <= 98047,
    {
    }
    longest * count + literals <= u32::MAX as u64 || (content.len() - at) as u64 * MATCH_PER_BYTE
        + 34 * count + literals <= u32::MAX as u64
}

/// Whether what each compressed block of a frame copies fits into 32 bits.
pub fn check_frame(frame: &[u8]) -> (r: bool)
    ensures
        r == is_bounded_frame(frame@),
{
    reveal(is_bounded_frame);
    assert(frame@.len() == frame.len());
    if frame.len() < 5 {
        return true;
    }
    let descriptor: u8 = frame[4];
    let single_segment = descriptor / 0x20 % 2 == 1;
    let window: usize = if single_segment {
        0
    } else {
        1
    };
    let dictionary: usize = match descriptor % 4 {
        0 => 0,
        1 => 1,
        2 => 2,
        _ => 4,
    };
    let size: usize = match descriptor / 0x40 {
        0 => if single_segment {
            1
        } else {
            0
        },
        1 => 2,
        2 => 4,
        _ => 8,
    };
    let mut at: usize = 5 + window + dictionary + size;
    while at <= frame.len() && frame.len() - at >= 3
        invariant
            frame@.len() == frame.len(),
            are_bounded_blocks(frame@, at as int) == is_bounded_frame(frame@),
        decreases frame.len() - at,
    {
        let (a, b): (usize, usize) = (frame[at] as usize, frame[at + 1] as usize);
        let header: usize = a + b * 0x100 + frame[at + 2] as usize * 0x1_0000;
        let kind: usize = header / 2 % 4;
        let size: usize = header / 8;
        let stored: usize = if kind == 1 {
            1
        } else {
            size
        };
        if kind == 3 || size > MAX_BLOCK_CONTENT || stored > frame.len() - at - 3 {
            return true;
        }
        let next: usize = at + 3 + stored;
        if kind == 2 && !check_block(&frame[at + 3..next]) {
            return false;
        }
        if header % 2 == 1 {
            return true;
        }
        at = next;
    }
    true
}

/// A block with fewer than 98048 sequences and less than 1 MiB of literals, as any has, is
/// not refused if its content has at most 65000 bytes.
proof fn lemma_short_block(content: Seq<u8>)
    requires
        content.len() <= 65_000,
    ensures
        is_bounded_block(content),
{
    let at = sequences_start(content);
    if content.len() >= 5 && at + 3 <= content.len() {
        let count = sequence_count(content, at);
        assert(0 <= count <= 98_047);
        assert(0 <= literals_size(content) < 0x10_0000);
        assert((content.len() - at) * MATCH_PER_BYTE <= 65_000 * 65_520);
    }
}

proof fn lemma_short_blocks(frame: Seq<u8>, at: int)
    requires
        frame.len() <= 65_000,
        0 <= at,
    ensures
        are_bounded_blocks(frame, at),
    decreases frame.len() - at,
{
    if at + 3 <= frame.len() {
        let header = frame[at] + frame[at + 1] * 0x100 + frame[at + 2] * 0x1_0000;
        let kind = header / 2 % 4;
        let size = header / 8;
        let stored = if kind == 1 {
            1
        } else {
            size
        };
        let next = at + 3 + stored;
        if next <= frame.len() {
            if kind == 2 {
                lemma_short_block(frame.subrange(at + 3, next));
            }
            lemma_short_blocks(frame, next);
        }
    }
}

/// No frame of at most 65000 bytes is refused.
pub proof fn law_short_frames_are_bounded(frame: Seq<u8>)
    requires
        frame.len() <= 65_000,
    ensures
        is_bounded_frame(frame),
{
    reveal(is_bounded_frame);
    if frame.len() >= 5 {
        lemma_short_blocks(frame, blocks_start(frame));
    }
}

/// A compressed block with less than 32512 sequences is not refused, however large it is: that
/// is a block whose sequences do not start with a byte 0xff.
pub proof fn law_blocks_of_few_sequences_are_bounded(content: Seq<u8>)
    requires
        0 <= sequences_start(content) < content.len(),
        content[sequences_start(content)] != 0xff,
    ensures
        is_bounded_block(content),
{
    let at = sequences_start(content);
    if content.len() >= 5 && at + 3 <= content.len() {
        let count = sequence_count(content, at);
        assert(0 <= count < 32_512);
        assert(0 <= literals_size(content) < 0x10_0000);
        assert(MAX_MATCH * count <= 131_074 * 32_512);
    }
}

/// Whether a block of the given kind and size stands at `at`, up to `next`, and is not refused.
pub open spec fn is_block(
    frame: Seq<u8>,
    at: int,
    next: int,
    kind: int,
    size: int,
    is_last: bool,
) -> bool {
    &&& 0 <= at
    &&& next <= frame.len()
    &&& 0 <= kind < 3
    &&& 0 <= size <= 0x2_0000
    &&& next == at + 3 + (if kind == 1 {
        1
    } else {
        size
    })
    &&& frame[at] + 0x100 * frame[at + 1] + 0x1_0000 * frame[at + 2] == 8 * size + 2 * kind + (
    if is_last {
        1int
    } else {
        0int
    })
    &&& kind == 2 ==> is_bounded_block(frame.subrange(at + 3, next))
}

proof fn lemma_blocks_of_frame(
    frame: Seq<u8>,
    places: Seq<int>,
    sizes: Seq<int>,
    kinds: Seq<int>,
    i: nat,
)
    requires
        places.len() == sizes.len() + 1,
        kinds.len() == sizes.len(),
        i < sizes.len(),
        forall|k: int| #![trigger sizes[k]]
            0 <= k < sizes.len() ==> is_block(
                frame,
                places[k],
                places[k + 1],
                kinds[k],
                sizes[k],
                k == sizes.len() - 1,
            ),
    ensures
        are_bounded_blocks(frame, places[i as int]),
    decreases sizes.len() - i,
{
    let k = i as int;
    let is_last = k == sizes.len() - 1;
    assert(is_block(frame, places[k], places[k + 1], kinds[k], sizes[k], is_last));
    if i + 1 < sizes.len() {
        lemma_blocks_of_frame(frame, places, sizes, kinds, i + 1);
    }
}

/// A frame is not refused if none of its blocks is, however many and however large they are.
/// Behind the magic number and a descriptor, its header has a byte for the window, unless bit
/// 5 of the descriptor is set, an identifier of a dictionary, of 0, 1, 2 or 4 bytes by the
/// lowest two bits, and the size of the content, of 2, 4 or 8 bytes by the highest two bits
/// or, if those are clear, of one byte where there is no window. A block has three bytes in
/// front, a little endian number: its lowest bit marks the last block, the next two are the
/// kind, and the rest is a size, of at most 128 KiB. Kind 0 is as many bytes, kind 1 one byte,
/// and kind 2 as many bytes that are compressed.
pub proof fn law_frames_of_bounded_blocks(
    frame: Seq<u8>,
    places: Seq<int>,
    sizes: Seq<int>,
    kinds: Seq<int>,
    dictionary: int,
    content: int,
)
    requires
        frame.len() >= 5,
        sizes.len() > 0,
        places.len() == sizes.len() + 1,
        kinds.len() == sizes.len(),
        dictionary == (if frame[4] % 4 == 3 {
            4int
        } else {
            (frame[4] % 4) as int
        }),
        content == (if frame[4] / 0x40 == 3 {
            8int
        } else if frame[4] / 0x40 == 0 {
            0int
        } else {
            2 * (frame[4] / 0x40)
        }),
        places[0] == 5 + dictionary + (if frame[4] / 0x40 == 0 {
            1
        } else if frame[4] / 0x20 % 2 == 1 {
            content
        } else {
            content + 1
        }),
        forall|k: int| #![trigger sizes[k]]
            0 <= k < sizes.len() ==> is_block(
                frame,
                places[k],
                places[k + 1],
                kinds[k],
                sizes[k],
                k == sizes.len() - 1,
            ),
    ensures
        is_bounded_frame(frame),
{
    reveal(is_bounded_frame);
    lemma_blocks_of_frame(frame, places, sizes, kinds, 0);
}

/// The header of the literals of a block is a little endian number: its lowest two bits are
/// the kind, the next two the width of the sizes, but one of them belongs to the size where
/// this has five bits. The size of the literals comes next, and, where they are compressed,
/// the size that they have in the block. The sequences come behind the literals.
pub proof fn law_layout_of_literals(content: Seq<u8>, v: int, size: int, stored: int, header: int)
    requires
        content.len() >= 5,
        v == content[0] + 0x100 * (content[1] + 0x100 * (content[2] + 0x100 * (content[3] + 0x100
            * content[4]))),
        ({
            let (kind, format) = (v % 4, v / 4 % 4);
            if kind < 2 {
                &&& stored == (if kind == 1 {
                    1
                } else {
                    size
                })
                &&& format % 2 == 0 ==> header == 1 && size == v / 8 % 0x20
                &&& format == 1 ==> header == 2 && size == v / 16 % 0x1000
                &&& format == 3 ==> header == 3 && size == v / 16 % 0x10_0000
            } else {
                &&& format < 2 ==> header == 3 && size == v / 16 % 0x400 && stored == v / 0x4000
                    % 0x400
                &&& format == 2 ==> header == 4 && size == v / 16 % 0x4000 && stored == v / 0x4_0000
                    % 0x4000
                &&& format == 3 ==> header == 5 && size == v / 16 % 0x4_0000 && stored == v
                    / 0x40_0000 % 0x4_0000
            }
        }),
    ensures
        sequences_start(content) == header + stored,
        literals_size(content) == size,
{
    let (a, b, c, d, e) = (
        content[0] as int,
        content[1] as int,
        content[2] as int,
        content[3] as int,
        content[4] as int,
    );
    let w3 = d + 0x100 * e;
    let w2 = c + 0x100 * w3;
    let w1 = b + 0x100 * w2;
    assert(v == a + 0x100 * w1);
    lemma_cut(v, a % 4, a / 4 + 0x40 * w1, 4);
    lemma_cut(v / 4, a / 4 % 4, a / 16 + 16 * w1, 4);
    lemma_cut(v, a % 8, a / 8 + 0x20 * w1, 8);
    lemma_cut(v / 8, a / 8, w1, 0x20);
    lemma_cut(v, a % 16, a / 16 + 16 * w1, 16);
    let h = v / 16;
    lemma_cut(h, a / 16 + 16 * b, w2, 0x1000);
    lemma_cut(h, a / 16 + 16 * b + 0x1000 * c, w3, 0x10_0000);
    lemma_cut(h, a / 16 + 16 * (b % 0x40), b / 0x40 + 4 * w2, 0x400);
    lemma_cut(h, a / 16 + 16 * b + 0x1000 * (c % 4), c / 4 + 0x40 * w3, 0x4000);
    lemma_cut(h, a / 16 + 16 * b + 0x1000 * (c % 0x40), c / 0x40 + 4 * w3, 0x4_0000);
    lemma_cut(v, a + 0x100 * (b % 0x40), b / 0x40 + 4 * w2, 0x4000);
    lemma_cut(v / 0x4000, b / 0x40 + 4 * c, w3, 0x400);
    lemma_cut(v, a + 0x100 * b + 0x1_0000 * (c % 4), c / 4 + 0x40 * w3, 0x4_0000);
    lemma_cut(v / 0x4_0000, c / 4 + 0x40 * d, e, 0x4000);
    lemma_cut(v, a + 0x100 * b + 0x1_0000 * (c % 0x40), c / 0x40 + 4 * w3, 0x40_0000);
    lemma_cut(v / 0x40_0000, c / 0x40 + 4 * d + 0x400 * e, 0, 0x4_0000);
}

/// The lower and the upper part of a number.
proof fn lemma_cut(x: int, low: int, rest: int, m: int)
    requires
        0 <= low < m,
        x == low + m * rest,
    ensures
        x % m == low,
        x / m == rest,
{
    assert(m * rest == rest * m) by (nonlinear_arith);
    vstd::arithmetic::div_mod::lemma_fundamental_div_mod_converse(x, m, rest, low);
}

} // verus!
