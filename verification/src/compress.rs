//! Decompression of blocks.

use crate::compression::lzjb::{
    decode, encode, is_written, law_items_are_decoded, law_round_trip, spells, Finder, Item,
    LzjbDecoder,
};
use crate::compression::{overwrite, Decompression};
use crate::error::{bytes_of, Error};
use crate::phys::endian::{lemma_same_u32, read_u32, u32_at, EndianOrder};
use crate::phys::property::{compression_type, CompressionType};
use crate::zstd::{check_frame, is_bounded_frame, law_short_frames_are_bounded};
use ruzstd::io::Read;
use vstd::prelude::*;

verus! {

/// Largest logical size of a block, 16 MiB.
pub const MAX_BLOCK_LSIZE: usize = 0x100_0000;

/// Largest size of the LZ4 data of a block. 16 MiB of literals, behind a token and the 65793
/// bytes of their length, have this size, and nothing of at most 16 MiB has a larger one.
/// Without the token it is also the most whose bytes add up to less than two to the 32.
pub const MAX_LZ4_SIZE: usize = 0x101_0102;

/// Why `lz4_flex` rejects a block.
#[verifier::external_type_specification]
#[verifier::external_body]
pub struct ExDecompressError(lz4_flex::block::DecompressError);

/// Why `miniz_oxide` rejects a stream.
#[verifier::external_type_specification]
#[verifier::external_body]
pub struct ExTinflStatus(miniz_oxide::inflate::TINFLStatus);

/// Why `ruzstd` rejects a frame.
#[verifier::external_type_specification]
#[verifier::external_body]
pub struct ExFrameDecoderError(ruzstd::decoding::errors::FrameDecoderError);

/// The bytes that an LZ4 block decompresses to, if it is valid and they fit into
/// `capacity`.
pub uninterp spec fn lz4_block(block: Seq<u8>, capacity: nat) -> Option<Seq<u8>>;

/// The bytes that a zlib stream decompresses to, if it is valid and they fit into
/// `capacity`. The trailing checksum of the stream is not compared.
pub uninterp spec fn zlib_stream(stream: Seq<u8>, capacity: nat) -> Option<Seq<u8>>;

/// What a zstd frame gives: nothing if the frame header is refused; then nothing if
/// `want` bytes cannot be had; then those bytes, and what a read of one more byte
/// gives, if it does not fail.
pub uninterp spec fn zstd_frame(frame: Seq<u8>, want: nat) -> Option<
    Option<(Seq<u8>, Option<usize>)>,
>;

/// `lz4_flex::block::decompress_into`: whether it succeeds, and the bytes that it
/// writes, depend on the block and the size of the output alone. It returns the
/// number of bytes written, which are at the start of the output. The bytes of a length,
/// which come after a token, are added up in 32 bits, and a length to the position in the
/// output; a block that is no larger than required cannot exceed either.
pub assume_specification[ lz4_flex::block::decompress_into ](
    input: &[u8],
    output: &mut [u8],
) -> (r: Result<usize, lz4_flex::block::DecompressError>)
    requires
        input@.len() <= MAX_LZ4_SIZE,
        input@.len() * 255 + 19 + old(output)@.len() <= usize::MAX,
    ensures
        final(output)@.len() == old(output)@.len(),
        r is Ok <==> lz4_block(input@, old(output)@.len()) is Some,
        r matches Ok(n) ==> n <= old(output)@.len() && lz4_block(input@, old(output)@.len())
            == Some(final(output)@.take(n as int)),
;

/// `miniz_oxide::inflate::decompress_slice_iter_to_slice` on one slice, with a zlib
/// header and without the comparison of the trailing checksum: whether it succeeds, and
/// the bytes that it writes, depend on the stream and the size of the output alone. It
/// returns the number of bytes written, which are at the start of the output. The bytes
/// that were consumed are counted in 32 bits at the end of the stream.
#[verifier::external_body]
fn inflate(stream: &[u8], out: &mut [u8]) -> (r: Result<usize, miniz_oxide::inflate::TINFLStatus>)
    requires
        stream@.len() <= u32::MAX,
    ensures
        final(out)@.len() == old(out)@.len(),
        r is Ok <==> zlib_stream(stream@, old(out)@.len()) is Some,
        r matches Ok(n) ==> n <= old(out)@.len() && zlib_stream(stream@, old(out)@.len()) == Some(
            final(out)@.take(n as int),
        ),
{
    miniz_oxide::inflate::decompress_slice_iter_to_slice(
        out,
        core::iter::once(stream),
        true,
        true,
    )
}

/// `ruzstd::decoding::StreamingDecoder`: opens a frame with `new`, fills the output with
/// `read_exact`, and asks `read` for one byte more. Whether each step succeeds, and the
/// bytes that it gives, depend on the frame and the size of the output alone. Nothing
/// is claimed of the error, nor of the output after a failure. What a block copies is
/// added up in 32 bits, which a bounded frame does not exceed.
#[verifier::external_body]
fn unzstd(frame: &[u8], out: &mut [u8]) -> (r: Result<
    Option<Option<usize>>,
    ruzstd::decoding::errors::FrameDecoderError,
>)
    requires
        is_bounded_frame(frame@),
    ensures
        final(out)@.len() == old(out)@.len(),
        match zstd_frame(frame@, old(out)@.len()) {
            None => r is Err,
            Some(None) => r matches Ok(None),
            Some(Some((bytes, more))) => r matches Ok(Some(n)) && n == more && final(out)@ == bytes,
        },
{
    let mut decoder = ruzstd::decoding::StreamingDecoder::new(frame)?;
    match decoder.read_exact(out) {
        Ok(()) => Ok(Some(decoder.read(&mut [0u8; 1]).ok())),
        Err(_) => Ok(None),
    }
}

/// What is left of an LZ4 block without its header, the size of the rest as a big
/// endian number.
pub open spec fn lz4_payload(src: Seq<u8>) -> Result<Seq<u8>, Error> {
    if src.len() < 4 {
        Err(Error::BadCompression { comp: 15, token: "lz4_no_prefix" })
    } else {
        let size = u32_at(src, 0, EndianOrder::Big);
        if 4 + size > src.len() {
            Err(Error::BadCompression { comp: 15, token: "lz4_short" })
        } else {
            Ok(src.subrange(4, 4 + size))
        }
    }
}

/// Whether LZ4 data is small enough to be decompressed to `lsize` bytes. The second limit
/// only matters where there are no 64 bits for a length.
pub open spec fn is_lz4_sized(block: Seq<u8>, lsize: nat) -> bool {
    block.len() <= MAX_LZ4_SIZE && block.len() * 255 + 19 + lsize <= usize::MAX
}

/// The frame of a zstd block. Its header holds the size of the rest as a big endian
/// number, and four bytes that are not needed; the rest is a frame without the magic
/// number that such a frame starts with.
pub open spec fn zstd_payload(src: Seq<u8>) -> Result<Seq<u8>, Error> {
    if src.len() < 8 {
        Err(Error::BadCompression { comp: 16, token: "zstd_no_hdr" })
    } else {
        let size = u32_at(src, 0, EndianOrder::Big);
        if 8 + size > src.len() {
            Err(Error::BadCompression { comp: 16, token: "zstd_short" })
        } else {
            Ok(seq![0x28u8, 0xb5u8, 0x2fu8, 0xfdu8] + src.subrange(8, 8 + size))
        }
    }
}

/// The output of a decompressor that must have written exactly `lsize` bytes.
pub open spec fn sized_output(
    written: Option<Seq<u8>>,
    lsize: nat,
    comp: u8,
    failed: &'static str,
    wrong_size: &'static str,
) -> Result<Seq<u8>, Error> {
    match written {
        None => Err(Error::BadCompression { comp, token: failed }),
        Some(bytes) => if bytes.len() != lsize {
            Err(Error::BadCompression { comp, token: wrong_size })
        } else {
            Ok(bytes)
        },
    }
}

/// The output of a zstd frame, from which no more than was wanted may come.
pub open spec fn frame_output(outcome: Option<Option<(Seq<u8>, Option<usize>)>>) -> Result<
    Seq<u8>,
    Error,
> {
    match outcome {
        None => Err(Error::BadCompression { comp: 16, token: "zstd_frame" }),
        Some(None) => Err(Error::BadCompression { comp: 16, token: "zstd_decode" }),
        Some(Some((bytes, more))) => if more is Some && more->0 != 0 {
            Err(Error::BadCompression { comp: 16, token: "zstd_len" })
        } else {
            Ok(bytes)
        },
    }
}

/// What an LZ4 block decompresses to. Data that is too large for that is not decompressed.
pub open spec fn lz4_decoded(src: Seq<u8>, lsize: nat) -> Result<Seq<u8>, Error> {
    match lz4_payload(src) {
        Err(e) => Err(e),
        Ok(block) => if is_lz4_sized(block, lsize) {
            sized_output(lz4_block(block, lsize), lsize, 15, "lz4_decode", "lz4_len")
        } else {
            Err(Error::BadCompression { comp: 15, token: "lz4_decode" })
        },
    }
}

/// What a gzip block decompresses to. The nine levels of compression differ in their
/// identifier alone.
pub open spec fn gzip_decoded(src: Seq<u8>, lsize: nat, comp: u8) -> Result<Seq<u8>, Error> {
    sized_output(zlib_stream(src, lsize), lsize, comp, "gzip_decode", "gzip_len")
}

/// What a zstd block decompresses to. A frame with a block that could copy 4 GiB, where
/// 128 KiB are the most, is refused.
pub open spec fn zstd_decoded(src: Seq<u8>, lsize: nat) -> Result<Seq<u8>, Error> {
    match zstd_payload(src) {
        Err(e) => Err(e),
        Ok(frame) => if is_bounded_frame(frame) {
            frame_output(zstd_frame(frame, lsize))
        } else {
            Err(Error::BadCompression { comp: 16, token: "zstd_sequences" })
        },
    }
}

/// What an LZJB block decompresses to.
pub open spec fn lzjb_decoded(src: Seq<u8>, lsize: nat) -> Result<Seq<u8>, Error> {
    let zeros = Seq::new(lsize, |i: int| 0u8);
    let d = decode(src, zeros);
    match d.result {
        Ok(()) => Ok(overwrite(zeros, d.out)),
        Err(_) => Err(Error::BadCompression { comp: 3, token: "lzjb_bad" }),
    }
}

/// What follows `out` when the runs from `s` on are added to it, until there are
/// `lsize` bytes. A control byte below 0x40 is one less than the number of literal
/// bytes after it; any other is 0x3f more than a number of zero bytes.
pub open spec fn zle_runs(src: Seq<u8>, s: nat, out: Seq<u8>, lsize: nat) -> Option<Seq<u8>>
    decreases lsize - out.len(),
{
    if out.len() >= lsize {
        Some(out)
    } else if s >= src.len() {
        None
    } else if src[s as int] < 0x40 {
        let n = (src[s as int] + 1) as nat;
        if s + 1 + n > src.len() || out.len() + n > lsize {
            None
        } else {
            zle_runs(src, s + 1 + n, out + src.subrange((s + 1) as int, (s + 1 + n) as int), lsize)
        }
    } else {
        let n = (src[s as int] - 0x3f) as nat;
        if out.len() + n > lsize {
            None
        } else {
            zle_runs(src, s + 1, out + Seq::new(n, |i: int| 0u8), lsize)
        }
    }
}

/// What a ZLE block decompresses to.
pub open spec fn zle_decoded(src: Seq<u8>, lsize: nat) -> Result<Seq<u8>, Error> {
    match zle_runs(src, 0, Seq::empty(), lsize) {
        Some(out) => Ok(out),
        None => Err(Error::BadCompression { comp: 14, token: "zle_bad" }),
    }
}

/// Whether blocks of a type are zlib streams.
pub open spec fn is_gzip(comp: CompressionType) -> bool {
    match comp {
        CompressionType::Gzip1
        | CompressionType::Gzip2
        | CompressionType::Gzip3
        | CompressionType::Gzip4
        | CompressionType::Gzip5
        | CompressionType::Gzip6
        | CompressionType::Gzip7
        | CompressionType::Gzip8
        | CompressionType::Gzip9 => true,
        _ => false,
    }
}

/// The logical bytes of a block.
#[verifier::opaque]
pub open spec fn decompressed(comp: CompressionType, src: Seq<u8>, lsize: nat) -> Result<
    Seq<u8>,
    Error,
> {
    if lsize > MAX_BLOCK_LSIZE {
        Err(Error::FileTooLarge { size: lsize as u64, max: MAX_BLOCK_LSIZE as u64 })
    } else {
        match comp {
            CompressionType::Off => if lsize <= src.len() {
                Ok(src.take(lsize as int))
            } else {
                Err(Error::BadCompression { comp: 2, token: "off_short" })
            },
            CompressionType::Zle => zle_decoded(src, lsize),
            CompressionType::Lzjb => lzjb_decoded(src, lsize),
            CompressionType::Lz4 => lz4_decoded(src, lsize),
            CompressionType::Gzip1 => gzip_decoded(src, lsize, 5),
            CompressionType::Gzip2 => gzip_decoded(src, lsize, 6),
            CompressionType::Gzip3 => gzip_decoded(src, lsize, 7),
            CompressionType::Gzip4 => gzip_decoded(src, lsize, 8),
            CompressionType::Gzip5 => gzip_decoded(src, lsize, 9),
            CompressionType::Gzip6 => gzip_decoded(src, lsize, 10),
            CompressionType::Gzip7 => gzip_decoded(src, lsize, 11),
            CompressionType::Gzip8 => gzip_decoded(src, lsize, 12),
            CompressionType::Gzip9 => gzip_decoded(src, lsize, 13),
            CompressionType::Zstd => zstd_decoded(src, lsize),
            CompressionType::Inherit => Err(Error::UnsupportedCompression { comp: 0 }),
            CompressionType::On => Err(Error::UnsupportedCompression { comp: 1 }),
            CompressionType::Empty => Err(Error::UnsupportedCompression { comp: 4 }),
        }
    }
}

/// Decompresses the physical bytes of a block into exactly `lsize` bytes. What is not
/// compressed may be longer than that: it is padded to a full sector.
pub fn decompress(comp: CompressionType, src: &[u8], lsize: usize) -> (r: Result<Vec<u8>, Error>)
    requires
        is_gzip(comp) ==> src@.len() <= u32::MAX,
    ensures
        bytes_of(r) == decompressed(comp, src@, lsize as nat),
        r matches Ok(v) ==> v@.len() == lsize <= MAX_BLOCK_LSIZE,
{
    reveal(decompressed);
    if lsize > MAX_BLOCK_LSIZE {
        return Err(Error::FileTooLarge { size: lsize as u64, max: MAX_BLOCK_LSIZE as u64 });
    }
    match comp {
        CompressionType::Off => {
            if lsize > src.len() {
                return Err(Error::BadCompression { comp: 2, token: "off_short" });
            }
            assert(src@.subrange(0, lsize as int) =~= src@.take(lsize as int));
            Ok(vstd::slice::slice_to_vec(&src[0..lsize]))
        },
        CompressionType::Zle => zle_decode(src, lsize),
        CompressionType::Lzjb => lzjb_decode(src, lsize),
        CompressionType::Lz4 => lz4_decode(src, lsize),
        CompressionType::Gzip1
        | CompressionType::Gzip2
        | CompressionType::Gzip3
        | CompressionType::Gzip4
        | CompressionType::Gzip5
        | CompressionType::Gzip6
        | CompressionType::Gzip7
        | CompressionType::Gzip8
        | CompressionType::Gzip9 => gzip_decode(src, lsize, comp.id()),
        CompressionType::Zstd => zstd_decode(src, lsize),
        CompressionType::Inherit | CompressionType::On | CompressionType::Empty => Err(
            Error::UnsupportedCompression { comp: comp.id() },
        ),
    }
}

/// Decompresses LZJB.
pub fn lzjb_decode(src: &[u8], lsize: usize) -> (r: Result<Vec<u8>, Error>)
    ensures
        bytes_of(r) == lzjb_decoded(src@, lsize as nat),
        r matches Ok(v) ==> v@.len() == lsize,
{
    let mut dst: Vec<u8> = vec![0u8; lsize];
    assert(dst@ =~= Seq::new(lsize as nat, |i: int| 0u8));
    let mut decoder = LzjbDecoder {  };
    match decoder.decompress(dst.as_mut_slice(), src, 0) {
        Ok(()) => Ok(dst),
        Err(_) => Err(Error::BadCompression { comp: 3, token: "lzjb_bad" }),
    }
}

/// Decompresses ZLE.
pub fn zle_decode(src: &[u8], lsize: usize) -> (r: Result<Vec<u8>, Error>)
    ensures
        bytes_of(r) == zle_decoded(src@, lsize as nat),
        r matches Ok(v) ==> v@.len() == lsize,
{
    let mut out: Vec<u8> = Vec::new();
    let mut s: usize = 0;
    assert(src@.len() == src.len());
    while out.len() < lsize
        invariant
            s <= src@.len() <= usize::MAX,
            out@.len() <= lsize,
            zle_runs(src@, s as nat, out@, lsize as nat) == zle_runs(
                src@,
                0,
                Seq::empty(),
                lsize as nat,
            ),
        decreases lsize - out@.len(),
    {
        if s >= src.len() {
            return Err(Error::BadCompression { comp: 14, token: "zle_bad" });
        }
        let c: usize = src[s] as usize;
        s += 1;
        if c < 0x40 {
            let n: usize = c + 1;
            if n > src.len() - s || n > lsize - out.len() {
                return Err(Error::BadCompression { comp: 14, token: "zle_bad" });
            }
            let ghost before = out@;
            out.extend_from_slice(&src[s..s + n]);
            assert(out@ =~= before + src@.subrange(s as int, s + n));
            s += n;
        } else {
            let n: usize = c - 0x3f;
            if n > lsize - out.len() {
                return Err(Error::BadCompression { comp: 14, token: "zle_bad" });
            }
            let zeros: Vec<u8> = vec![0u8; n];
            assert(zeros@ =~= Seq::new(n as nat, |i: int| 0u8));
            let ghost before = out@;
            out.extend_from_slice(zeros.as_slice());
            assert(out@ =~= before + zeros@);
        }
    }
    Ok(out)
}

/// Takes the output of a decompressor that wrote `written` bytes, or failed.
pub fn checked_output(
    written: Option<usize>,
    dst: Vec<u8>,
    comp: u8,
    failed: &'static str,
    wrong_size: &'static str,
) -> (r: Result<Vec<u8>, Error>)
    requires
        written matches Some(n) ==> n <= dst@.len(),
    ensures
        bytes_of(r) == sized_output(
            match written {
                Some(n) => Some(dst@.take(n as int)),
                None => None,
            },
            dst@.len(),
            comp,
            failed,
            wrong_size,
        ),
        r matches Ok(v) ==> v == dst,
{
    match written {
        None => Err(Error::BadCompression { comp, token: failed }),
        Some(n) => {
            if n != dst.len() {
                return Err(Error::BadCompression { comp, token: wrong_size });
            }
            assert(dst@.take(n as int) =~= dst@);
            Ok(dst)
        },
    }
}

/// Takes the output of a zstd decoder: whether the frame was accepted, whether the
/// bytes came, and what a read of one more byte gave.
pub fn checked_frame_output(outcome: Option<Option<Option<usize>>>, dst: Vec<u8>) -> (r: Result<
    Vec<u8>,
    Error,
>)
    ensures
        bytes_of(r) == frame_output(
            match outcome {
                None => None,
                Some(None) => Some(None),
                Some(Some(more)) => Some(Some((dst@, more))),
            },
        ),
        r matches Ok(v) ==> v == dst,
{
    match outcome {
        None => Err(Error::BadCompression { comp: 16, token: "zstd_frame" }),
        Some(None) => Err(Error::BadCompression { comp: 16, token: "zstd_decode" }),
        Some(Some(Some(n))) => if n != 0 {
            Err(Error::BadCompression { comp: 16, token: "zstd_len" })
        } else {
            Ok(dst)
        },
        Some(Some(None)) => Ok(dst),
    }
}

/// Takes the header off an LZ4 block.
pub fn lz4_unwrap(src: &[u8]) -> (r: Result<&[u8], Error>)
    ensures
        match r {
            Ok(block) => lz4_payload(src@) == Ok::<Seq<u8>, Error>(block@),
            Err(e) => lz4_payload(src@) == Err::<Seq<u8>, Error>(e),
        },
{
    if src.len() < 4 {
        return Err(Error::BadCompression { comp: 15, token: "lz4_no_prefix" });
    }
    let size: usize = read_u32(src, 0, EndianOrder::Big) as usize;
    if size > src.len() - 4 {
        return Err(Error::BadCompression { comp: 15, token: "lz4_short" });
    }
    Ok(&src[4..4 + size])
}

/// Takes the header off a zstd block, and puts the magic number of a frame in front.
pub fn zstd_unwrap(src: &[u8]) -> (r: Result<Vec<u8>, Error>)
    ensures
        bytes_of(r) == zstd_payload(src@),
{
    if src.len() < 8 {
        return Err(Error::BadCompression { comp: 16, token: "zstd_no_hdr" });
    }
    let size: usize = read_u32(src, 0, EndianOrder::Big) as usize;
    if size > src.len() - 8 {
        return Err(Error::BadCompression { comp: 16, token: "zstd_short" });
    }
    let mut frame: Vec<u8> = vec![0x28u8, 0xb5u8, 0x2fu8, 0xfdu8];
    frame.extend_from_slice(&src[8..8 + size]);
    assert(frame@ =~= seq![0x28u8, 0xb5u8, 0x2fu8, 0xfdu8] + src@.subrange(8, 8 + size));
    Ok(frame)
}

/// Decompresses LZ4.
pub fn lz4_decode(src: &[u8], lsize: usize) -> (r: Result<Vec<u8>, Error>)
    ensures
        bytes_of(r) == lz4_decoded(src@, lsize as nat),
        r matches Ok(v) ==> v@.len() == lsize,
{
    let block = match lz4_unwrap(src) {
        Ok(block) => block,
        Err(e) => {
            return Err(e);
        },
    };
    if block.len() > MAX_LZ4_SIZE || lsize > usize::MAX - 19 || block.len() > (usize::MAX - 19
        - lsize) / 255 {
        return Err(Error::BadCompression { comp: 15, token: "lz4_decode" });
    }
    let mut dst: Vec<u8> = vec![0u8; lsize];
    let written = match lz4_flex::block::decompress_into(block, dst.as_mut_slice()) {
        Ok(n) => Some(n),
        Err(_) => None,
    };
    checked_output(written, dst, 15, "lz4_decode", "lz4_len")
}

/// Decompresses a zlib stream. `comp` is the identifier that a refused one is named by.
pub fn gzip_decode(src: &[u8], lsize: usize, comp: u8) -> (r: Result<Vec<u8>, Error>)
    requires
        src@.len() <= u32::MAX,
    ensures
        bytes_of(r) == gzip_decoded(src@, lsize as nat, comp),
        r matches Ok(v) ==> v@.len() == lsize,
{
    let mut dst: Vec<u8> = vec![0u8; lsize];
    let written = match inflate(src, dst.as_mut_slice()) {
        Ok(n) => Some(n),
        Err(_) => None,
    };
    checked_output(written, dst, comp, "gzip_decode", "gzip_len")
}

/// Decompresses zstd.
pub fn zstd_decode(src: &[u8], lsize: usize) -> (r: Result<Vec<u8>, Error>)
    ensures
        bytes_of(r) == zstd_decoded(src@, lsize as nat),
        r matches Ok(v) ==> v@.len() == lsize,
{
    let frame = match zstd_unwrap(src) {
        Ok(frame) => frame,
        Err(e) => {
            return Err(e);
        },
    };
    if !check_frame(frame.as_slice()) {
        return Err(Error::BadCompression { comp: 16, token: "zstd_sequences" });
    }
    let mut dst: Vec<u8> = vec![0u8; lsize];
    let outcome = match unzstd(frame.as_slice(), dst.as_mut_slice()) {
        Ok(outcome) => Some(outcome),
        Err(_) => None,
    };
    checked_frame_output(outcome, dst)
}

/// The header of an LZ4 block tells where its data ends: a block without a header, or with
/// less data than that, is refused; what follows the data is padding and changes nothing;
/// and what comes out has the size that was asked for.
pub proof fn law_lz4_padding_is_ignored(src: Seq<u8>, lsize: nat)
    ensures
        src.len() < 4 ==> lz4_decoded(src, lsize) == Err::<Seq<u8>, Error>(
            Error::BadCompression { comp: 15, token: "lz4_no_prefix" },
        ),
        src.len() >= 4 && u32_at(src, 0, EndianOrder::Big) > src.len() - 4 ==> lz4_decoded(
            src,
            lsize,
        ) == Err::<Seq<u8>, Error>(Error::BadCompression { comp: 15, token: "lz4_short" }),
        src.len() >= 4 && u32_at(src, 0, EndianOrder::Big) <= src.len() - 4 ==> lz4_decoded(
            src,
            lsize,
        ) == lz4_decoded(src.take(4 + u32_at(src, 0, EndianOrder::Big)), lsize),
        lz4_decoded(src, lsize) matches Ok(v) ==> v.len() == lsize,
{
    let size = u32_at(src, 0, EndianOrder::Big);
    if src.len() >= 4 && size <= src.len() - 4 {
        let short = src.take(4 + size);
        lemma_same_u32(src, 0, short, 0, EndianOrder::Big);
        assert(short.subrange(4, 4 + size) =~= src.subrange(4, 4 + size));
    }
}

/// The header of a zstd block tells where its frame ends: a block without a header, or with
/// less data than that, is refused; what follows the frame is padding and changes nothing.
pub proof fn law_zstd_padding_is_ignored(src: Seq<u8>, lsize: nat)
    ensures
        src.len() < 8 ==> zstd_decoded(src, lsize) == Err::<Seq<u8>, Error>(
            Error::BadCompression { comp: 16, token: "zstd_no_hdr" },
        ),
        src.len() >= 8 && u32_at(src, 0, EndianOrder::Big) > src.len() - 8 ==> zstd_decoded(
            src,
            lsize,
        ) == Err::<Seq<u8>, Error>(Error::BadCompression { comp: 16, token: "zstd_short" }),
        src.len() >= 8 && u32_at(src, 0, EndianOrder::Big) <= src.len() - 8 ==> zstd_decoded(
            src,
            lsize,
        ) == zstd_decoded(src.take(8 + u32_at(src, 0, EndianOrder::Big)), lsize),
{
    let size = u32_at(src, 0, EndianOrder::Big);
    if src.len() >= 8 && size <= src.len() - 8 {
        let short = src.take(8 + size);
        lemma_same_u32(src, 0, short, 0, EndianOrder::Big);
        assert(short.subrange(8, 8 + size) =~= src.subrange(8, 8 + size));
    }
}

/// What the LZJB compressor writes decompresses to what it was given, whatever the block
/// is padded with.
pub proof fn law_lzjb_blocks_round_trip(finder: Finder, src: Seq<u8>, capacity: nat, pad: Seq<u8>)
    requires
        src.len() <= MAX_BLOCK_LSIZE,
        encode(finder, src, capacity).result is Ok,
    ensures
        decompressed(
            CompressionType::Lzjb,
            encode(finder, src, capacity).out + pad,
            src.len(),
        ) == Ok::<Seq<u8>, Error>(src),
{
    reveal(decompressed);
    let zeros = Seq::new(src.len(), |i: int| 0u8);
    law_round_trip(finder, src, capacity, pad, zeros);
    assert(overwrite(zeros, src) =~= src);
}

/// An LZJB block decompresses to what the items that it holds spell, if that has the size
/// that was asked for.
pub proof fn law_lzjb_items_are_decoded(src: Seq<u8>, items: Seq<Item>, out: Seq<u8>)
    requires
        out.len() <= 0x100_0000,
        is_written(src, 0, 0, 8, items),
        spells(items, 0, out, Seq::new(out.len(), |i: int| 0u8)),
    ensures
        decompressed(CompressionType::Lzjb, src, out.len()) == Ok::<Seq<u8>, Error>(out),
{
    reveal(decompressed);
    let zeros = Seq::new(out.len(), |i: int| 0u8);
    law_items_are_decoded(src, zeros, items, out);
    assert(overwrite(zeros, out) =~= out);
}

/// A run of a ZLE block.
pub ghost enum ZleRun {
    /// Bytes as they are.
    Bytes(Seq<u8>),
    /// Zero bytes.
    Zeros(int),
}

impl ZleRun {
    /// Whether a run can be written: up to 64 bytes, or up to 192 zeros.
    pub open spec fn is_valid(self) -> bool {
        match self {
            ZleRun::Bytes(bytes) => 1 <= bytes.len() <= 64,
            ZleRun::Zeros(n) => 1 <= n <= 192,
        }
    }

    /// How it is written: the bytes behind their number less one, or the number of zeros
    /// and 63.
    pub open spec fn written(self) -> Seq<u8> {
        match self {
            ZleRun::Bytes(bytes) => seq![(bytes.len() - 1) as u8] + bytes,
            ZleRun::Zeros(n) => seq![(n + 63) as u8],
        }
    }

    /// What it stands for.
    pub open spec fn meaning(self) -> Seq<u8> {
        match self {
            ZleRun::Bytes(bytes) => bytes,
            ZleRun::Zeros(n) => Seq::new(n as nat, |i: int| 0u8),
        }
    }
}

proof fn lemma_zle_runs(
    runs: Seq<ZleRun>,
    before: Seq<u8>,
    out: Seq<u8>,
    pad: Seq<u8>,
)
    requires
        forall|i: int| 0 <= i < runs.len() ==> (#[trigger] runs[i]).is_valid(),
    ensures
        ({
            let src = before + runs.map_values(|r: ZleRun| r.written()).flatten() + pad;
            let all = out + runs.map_values(|r: ZleRun| r.meaning()).flatten();
            zle_runs(src, before.len(), out, all.len()) == Some(all)
        }),
    decreases runs.len(),
{
    let written = runs.map_values(|r: ZleRun| r.written());
    let meaning = runs.map_values(|r: ZleRun| r.meaning());
    let src = before + written.flatten() + pad;
    let all = out + meaning.flatten();
    if runs.len() == 0 {
        assert(meaning.flatten() =~= Seq::empty());
        assert(all =~= out);
    } else {
        let rest = runs.drop_first();
        let (w, m) = (runs[0].written(), runs[0].meaning());
        assert(runs[0].is_valid());
        assert(rest.map_values(|r: ZleRun| r.written()) =~= written.drop_first());
        assert(rest.map_values(|r: ZleRun| r.meaning()) =~= meaning.drop_first());
        assert(written.first() == w && meaning.first() == m);
        assert forall|i: int| 0 <= i < rest.len() implies (#[trigger] rest[i]).is_valid() by {
            assert(runs[i + 1].is_valid());
        }
        lemma_zle_runs(rest, before + w, out + m, pad);
        assert(before + w + written.drop_first().flatten() + pad =~= src);
        assert(out + m + meaning.drop_first().flatten() =~= all);
        let s = before.len() as int;
        assert(src[s] == w[0]);
        match runs[0] {
            ZleRun::Bytes(bytes) => {
                assert(src.subrange(s + 1, s + 1 + bytes.len()) =~= bytes);
            },
            ZleRun::Zeros(n) => {},
        }
    }
}

/// A ZLE block decompresses to what its runs stand for, whatever it is padded with.
pub proof fn law_zle_runs_are_decoded(runs: Seq<ZleRun>, pad: Seq<u8>)
    requires
        forall|i: int| 0 <= i < runs.len() ==> (#[trigger] runs[i]).is_valid(),
        runs.map_values(|r: ZleRun| r.meaning()).flatten().len() <= 0x100_0000,
    ensures
        ({
            let out = runs.map_values(|r: ZleRun| r.meaning()).flatten();
            decompressed(
                CompressionType::Zle,
                runs.map_values(|r: ZleRun| r.written()).flatten() + pad,
                out.len(),
            ) == Ok::<Seq<u8>, Error>(out)
        }),
{
    reveal(decompressed);
    let none = Seq::<u8>::empty();
    lemma_zle_runs(runs, none, none, pad);
    let written = runs.map_values(|r: ZleRun| r.written()).flatten();
    let out = runs.map_values(|r: ZleRun| r.meaning()).flatten();
    assert(none + written + pad =~= written + pad);
    assert(none + out =~= out);
}

/// What a block decompresses to has the size that was asked for, and that is at most 16 MiB;
/// a larger one is refused, whatever the block holds.
pub proof fn law_decompressed_size(comp: CompressionType, src: Seq<u8>, lsize: nat)
    ensures
        lsize > 0x100_0000 ==> decompressed(comp, src, lsize) == Err::<Seq<u8>, Error>(
            Error::FileTooLarge { size: lsize as u64, max: 0x100_0000 },
        ),
        comp == CompressionType::Off && lsize <= 0x100_0000 ==> decompressed(comp, src, lsize) == (
        if lsize <= src.len() {
            Ok::<Seq<u8>, Error>(src.subrange(0, lsize as int))
        } else {
            Err(Error::BadCompression { comp: 2, token: "off_short" })
        }),
{
    reveal(decompressed);
    if lsize <= src.len() {
        assert(src.subrange(0, lsize as int) =~= src.take(lsize as int));
    }
}

/// A block that a decompressor refuses is reported under the identifier that its pointer
/// gives for its compression.
pub proof fn law_refusals_carry_the_identifier(
    id: u8,
    comp: CompressionType,
    src: Seq<u8>,
    lsize: nat,
)
    requires
        compression_type(id) == Some(comp),
    ensures
        decompressed(comp, src, lsize) matches Err(Error::BadCompression { comp: c, .. }) ==> c
            == id,
        decompressed(comp, src, lsize) matches Err(Error::UnsupportedCompression { comp: c })
            ==> c == id,
{
    reveal(decompressed);
}

/// The data of an LZ4 block, the `n` bytes behind a big endian 32 bit number `n`, is what is
/// decompressed, and it has to give as many bytes as were asked for.
pub proof fn law_lz4_data_is_decompressed(src: Seq<u8>, n: int, lsize: nat)
    requires
        src.len() >= 4 + n,
        n == src[0] * 0x100_0000 + src[1] * 0x1_0000 + src[2] * 0x100 + src[3],
        n <= 0x100_0000,
        n * 255 + 19 + lsize <= usize::MAX,
        lsize <= 0x100_0000,
    ensures
        ({
            let out = lz4_block(src.subrange(4, 4 + n), lsize);
            decompressed(CompressionType::Lz4, src, lsize) == (match out {
                Some(bytes) => if bytes.len() == lsize {
                    Ok::<Seq<u8>, Error>(bytes)
                } else {
                    Err(Error::BadCompression { comp: 15, token: "lz4_len" })
                },
                None => Err(Error::BadCompression { comp: 15, token: "lz4_decode" }),
            })
        }),
{
    reveal(decompressed);
    reveal(u32_at);
}

/// A gzip block of any level is a zlib stream, which has to give as many bytes as were asked
/// for.
pub proof fn law_gzip_stream_is_decompressed(
    id: u8,
    comp: CompressionType,
    src: Seq<u8>,
    lsize: nat,
)
    requires
        5 <= id <= 13,
        compression_type(id) == Some(comp),
        lsize <= 0x100_0000,
    ensures
        decompressed(comp, src, lsize) == (match zlib_stream(src, lsize) {
            Some(bytes) => if bytes.len() == lsize {
                Ok::<Seq<u8>, Error>(bytes)
            } else {
                Err(Error::BadCompression { comp: id, token: "gzip_len" })
            },
            None => Err(Error::BadCompression { comp: id, token: "gzip_decode" }),
        }),
{
    reveal(decompressed);
}

/// The frame of a zstd block, the `n` bytes behind a big endian 32 bit number `n` and four
/// bytes more, is decompressed with the magic number of a frame in front, if it has at most
/// 65000 bytes with that, or is bounded. It has to give as many bytes as were asked for, and
/// no more.
pub proof fn law_zstd_frame_is_decompressed(src: Seq<u8>, n: int, lsize: nat)
    requires
        src.len() >= 8 + n,
        n == src[0] * 0x100_0000 + src[1] * 0x1_0000 + src[2] * 0x100 + src[3],
        n <= 64_996 || is_bounded_frame(
            seq![0x28u8, 0xb5, 0x2f, 0xfd] + src.subrange(8, 8 + n),
        ),
        lsize <= 0x100_0000,
    ensures
        ({
            let frame = seq![0x28u8, 0xb5, 0x2f, 0xfd] + src.subrange(8, 8 + n);
            decompressed(CompressionType::Zstd, src, lsize) == (match zstd_frame(frame, lsize) {
                None => Err::<Seq<u8>, Error>(
                    Error::BadCompression { comp: 16, token: "zstd_frame" },
                ),
                Some(None) => Err(Error::BadCompression { comp: 16, token: "zstd_decode" }),
                Some(Some((bytes, more))) => if more == None::<usize> || more == Some(0usize) {
                    Ok(bytes)
                } else {
                    Err(Error::BadCompression { comp: 16, token: "zstd_len" })
                },
            })
        }),
{
    reveal(decompressed);
    reveal(u32_at);
    let frame = seq![0x28u8, 0xb5, 0x2f, 0xfd] + src.subrange(8, 8 + n);
    if n <= 64_996 {
        law_short_frames_are_bounded(frame);
    }
}

proof fn lemma_zle_read(src: Seq<u8>, s: nat, out: Seq<u8>, lsize: nat) -> (runs: Seq<ZleRun>)
    requires
        s <= src.len(),
        zle_runs(src, s, out, lsize) is Some,
        out.len() <= lsize,
    ensures
        forall|i: int| 0 <= i < runs.len() ==> (#[trigger] runs[i]).is_valid(),
        ({
            let written = runs.map_values(|r: ZleRun| r.written()).flatten();
            let meaning = runs.map_values(|r: ZleRun| r.meaning()).flatten();
            &&& s + written.len() <= src.len()
            &&& src.subrange(s as int, (s + written.len()) as int) == written
            &&& zle_runs(src, s, out, lsize) == Some(out + meaning)
            &&& out.len() + meaning.len() == lsize
        }),
    decreases lsize - out.len(),
{
    let w = |r: ZleRun| r.written();
    let m = |r: ZleRun| r.meaning();
    if out.len() >= lsize {
        let none = Seq::<ZleRun>::empty();
        assert(none.map_values(w).flatten() =~= Seq::empty());
        assert(none.map_values(m).flatten() =~= Seq::empty());
        assert(src.subrange(s as int, s as int) =~= Seq::empty());
        assert(out + Seq::<u8>::empty() =~= out);
        none
    } else {
        let c = src[s as int];
        let run = if c < 0x40 {
            ZleRun::Bytes(src.subrange((s + 1) as int, s + 2 + c))
        } else {
            ZleRun::Zeros(c - 0x3f)
        };
        let next = (s + run.written().len()) as nat;
        let rest = lemma_zle_read(src, next, out + run.meaning(), lsize);
        let runs = seq![run] + rest;
        assert(runs.map_values(w) =~= seq![run.written()] + rest.map_values(w));
        assert(runs.map_values(m) =~= seq![run.meaning()] + rest.map_values(m));
        assert(runs.map_values(w).drop_first() =~= rest.map_values(w));
        assert(runs.map_values(m).drop_first() =~= rest.map_values(m));
        let (tail, text) = (rest.map_values(w).flatten(), rest.map_values(m).flatten());
        assert(runs.map_values(w).flatten() == run.written() + tail);
        assert(runs.map_values(m).flatten() == run.meaning() + text);
        assert(src.subrange(s as int, next as int) =~= run.written());
        assert(src.subrange(s as int, (next + tail.len()) as int) =~= src.subrange(
            s as int,
            next as int,
        ) + src.subrange(next as int, (next + tail.len()) as int));
        assert(out + run.meaning() + text =~= out + (run.meaning() + text));
        assert forall|i: int| 0 <= i < runs.len() implies (#[trigger] runs[i]).is_valid() by {
            if i > 0 {
                assert(rest[i - 1].is_valid());
            }
        }
        runs
    }
}

/// Nothing else is decoded: what a ZLE block decompresses to is what certain runs stand for
/// that it starts with, and has the size that was asked for; a block without them is refused.
pub proof fn law_only_zle_runs_are_decoded(src: Seq<u8>, lsize: nat, out: Seq<u8>)
    requires
        decompressed(CompressionType::Zle, src, lsize) == Ok::<Seq<u8>, Error>(out),
    ensures
        out.len() == lsize <= 0x100_0000,
        exists|runs: Seq<ZleRun>, pad: Seq<u8>| #![trigger runs.len(), pad.len()]
            (forall|i: int| 0 <= i < runs.len() ==> (#[trigger] runs[i]).is_valid()) && src
                == runs.map_values(|r: ZleRun| r.written()).flatten() + pad && out
                == runs.map_values(|r: ZleRun| r.meaning()).flatten(),
{
    reveal(decompressed);
    let none = Seq::<u8>::empty();
    let runs = lemma_zle_read(src, 0, none, lsize);
    let written = runs.map_values(|r: ZleRun| r.written()).flatten();
    let pad = src.skip(written.len() as int);
    assert(src =~= written + pad) by {
        assert(src.subrange(0, written.len() as int) == written);
        assert(src =~= src.subrange(0, written.len() as int) + pad);
    }
    let meaning = runs.map_values(|r: ZleRun| r.meaning()).flatten();
    assert(none + meaning =~= meaning);
    assert(runs.len() >= 0 && pad.len() >= 0);
}

/// The identifiers 0, 1 and 4 are not those of a compression that a block can have.
pub proof fn law_some_identifiers_are_not_for_blocks(
    id: u8,
    comp: CompressionType,
    src: Seq<u8>,
    lsize: nat,
)
    requires
        id == 0 || id == 1 || id == 4,
        compression_type(id) == Some(comp),
        lsize <= 0x100_0000,
    ensures
        decompressed(comp, src, lsize) == Err::<Seq<u8>, Error>(
            Error::UnsupportedCompression { comp: id },
        ),
{
    reveal(decompressed);
}

} // verus!
