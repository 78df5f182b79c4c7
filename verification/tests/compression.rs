use lamzfs::compress::{
    checked_frame_output, checked_output, decompress, gzip_decode, lz4_decode, lz4_unwrap,
    lzjb_decode, zle_decode, zstd_decode, zstd_unwrap, MAX_BLOCK_LSIZE, MAX_LZ4_SIZE,
};
use lamzfs::compression::lzjb::{LzjbDecoder, LzjbEncoder};
use lamzfs::compression::{Compression, CompressionError, Decompression, DecompressionError};
use lamzfs::error::Error;
use lamzfs::phys::property::CompressionType;
use lamzfs::zstd::{check_block, check_frame};

fn text(n: usize) -> Vec<u8> {
    b"a block of text that repeats itself, a block of text, "
        .iter()
        .cycle()
        .take(n)
        .copied()
        .collect()
}

fn noise(n: usize) -> Vec<u8> {
    let mut x = 99u32;
    (0..n)
        .map(|_| {
            x = x.wrapping_mul(1103515245).wrapping_add(12345);
            (x >> 16) as u8
        })
        .collect()
}

fn bad(comp: u8, token: &'static str) -> Error {
    Error::BadCompression { comp, token }
}

fn with_length(block: &[u8]) -> Vec<u8> {
    let mut out = (block.len() as u32).to_be_bytes().to_vec();
    out.extend(block);
    out
}

#[test]
fn lz4_blocks() {
    let data = text(5000);
    let mut src = with_length(&lz4_flex::block::compress(&data));
    assert_eq!(decompress(CompressionType::Lz4, &src, 5000).unwrap(), data);
    src.extend([0u8; 100]);
    assert_eq!(lz4_decode(&src, 5000).unwrap(), data);
    assert_eq!(lz4_decode(&src, 6000).unwrap_err(), bad(15, "lz4_len"));
    assert_eq!(lz4_decode(&src, 4000).unwrap_err(), bad(15, "lz4_decode"));
    assert_eq!(
        lz4_decode(&src[..3], 10).unwrap_err(),
        bad(15, "lz4_no_prefix")
    );
    assert_eq!(lz4_decode(&src[..20], 10).unwrap_err(), bad(15, "lz4_short"));
    assert_eq!(
        lz4_decode(&[0, 0, 0, 3, 0x40, 1, 2], 4).unwrap_err(),
        bad(15, "lz4_decode")
    );
    assert_eq!(lz4_unwrap(&[0, 0, 0, 2, 8, 9, 10]).unwrap(), &[8, 9]);
}

#[test]
fn large_lz4_blocks() {
    // The largest block: all literals, with their length in front.
    let data = vec![0xffu8; MAX_BLOCK_LSIZE];
    let mut block = vec![0xf0u8];
    block.resize(1 + (MAX_BLOCK_LSIZE - 15) / 255, 0xff);
    block.push(((MAX_BLOCK_LSIZE - 15) % 255) as u8);
    block.extend(&data);
    assert_eq!(block.len(), MAX_LZ4_SIZE);
    let src = with_length(&block);
    assert!(lz4_decode(&src, MAX_BLOCK_LSIZE).unwrap() == data);
    // A length that does not end, and a block with a byte more.
    let mut block = vec![0xffu8; MAX_LZ4_SIZE];
    block[0] = 0xf0;
    assert_eq!(
        lz4_decode(&with_length(&block), MAX_BLOCK_LSIZE).unwrap_err(),
        bad(15, "lz4_decode")
    );
    block.push(1);
    assert_eq!(
        lz4_decode(&with_length(&block), MAX_BLOCK_LSIZE).unwrap_err(),
        bad(15, "lz4_decode")
    );
}

#[test]
fn gzip_blocks() {
    let data = text(5000);
    let src = miniz_oxide::deflate::compress_to_vec_zlib(&data, 6);
    for (comp, id) in [
        (CompressionType::Gzip1, 5),
        (CompressionType::Gzip2, 6),
        (CompressionType::Gzip3, 7),
        (CompressionType::Gzip4, 8),
        (CompressionType::Gzip5, 9),
        (CompressionType::Gzip6, 10),
        (CompressionType::Gzip7, 11),
        (CompressionType::Gzip8, 12),
        (CompressionType::Gzip9, 13),
    ] {
        assert_eq!(decompress(comp, &src, 5000).unwrap(), data);
        assert_eq!(
            decompress(comp, &src, 6000).unwrap_err(),
            bad(id, "gzip_len")
        );
        assert_eq!(
            decompress(comp, &[], 1).unwrap_err(),
            bad(id, "gzip_decode")
        );
    }
    assert_eq!(gzip_decode(&src, 6000, 8).unwrap_err(), bad(8, "gzip_len"));
    assert_eq!(
        gzip_decode(&src, 4000, 5).unwrap_err(),
        bad(5, "gzip_decode")
    );
    assert_eq!(
        gzip_decode(&src[..10], 5000, 10).unwrap_err(),
        bad(10, "gzip_decode")
    );
    assert_eq!(
        gzip_decode(b"no", 5, 13).unwrap_err(),
        bad(13, "gzip_decode")
    );
}

/// A frame of one raw block, without its magic number.
fn raw_frame(data: &[u8]) -> Vec<u8> {
    let mut frame = vec![0xa0u8];
    frame.extend((data.len() as u32).to_le_bytes());
    let header = 1 | (data.len() as u32) << 3;
    frame.extend(&header.to_le_bytes()[..3]);
    frame.extend(data);
    frame
}

fn zstd_block(frame: &[u8]) -> Vec<u8> {
    let mut out = (frame.len() as u32).to_be_bytes().to_vec();
    out.extend([9, 9, 9, 9]);
    out.extend(frame);
    out
}

#[test]
fn zstd_blocks() {
    let data = text(3000);
    let mut src = zstd_block(&raw_frame(&data));
    assert_eq!(decompress(CompressionType::Zstd, &src, 3000).unwrap(), data);
    src.extend([0u8; 17]);
    assert_eq!(zstd_decode(&src, 3000).unwrap(), data);
    assert_eq!(zstd_decode(&src, 2999).unwrap_err(), bad(16, "zstd_len"));
    assert_eq!(zstd_decode(&src, 3001).unwrap_err(), bad(16, "zstd_decode"));
    assert_eq!(
        zstd_decode(&src[..7], 1).unwrap_err(),
        bad(16, "zstd_no_hdr")
    );
    assert_eq!(
        zstd_decode(&src[..50], 1).unwrap_err(),
        bad(16, "zstd_short")
    );
    assert_eq!(
        zstd_decode(&zstd_block(&[]), 1).unwrap_err(),
        bad(16, "zstd_frame")
    );
    assert_eq!(
        zstd_unwrap(&zstd_block(&[1, 2])).unwrap(),
        [0x28, 0xb5, 0x2f, 0xfd, 1, 2]
    );
}

#[test]
fn zstd_blocks_that_are_compressed() {
    for data in [text(200_000), noise(300_000), vec![7u8; 500_000]] {
        let frame = ruzstd::encoding::compress_to_vec(
            &data[..],
            ruzstd::encoding::CompressionLevel::Fastest,
        );
        assert!(check_frame(&frame));
        let mut src = zstd_block(&frame[4..]);
        assert_eq!(zstd_decode(&src, data.len()).unwrap(), data);
        src.extend([0xff; 40]);
        assert_eq!(zstd_decode(&src, data.len()).unwrap(), data);
    }
}

/// The content of a compressed block that starts with `literals` and has a number of
/// sequences of at least 0x7f00 at `at`. It has `len` bytes from there on, which are zero
/// apart from that and the bytes `modes` behind the number.
fn block_content(
    literals: &[u8],
    at: usize,
    sequences: usize,
    modes: &[u8],
    len: usize,
) -> Vec<u8> {
    let mut content = vec![0u8; at + len];
    content[..literals.len()].copy_from_slice(literals);
    content[at] = 0xff;
    content[at + 1] = ((sequences - 0x7f00) % 256) as u8;
    content[at + 2] = ((sequences - 0x7f00) / 256) as u8;
    content[at + 3..at + 3 + modes.len()].copy_from_slice(modes);
    content
}

/// The most sequences with matches of up to `longest` bytes that fit into 32 bits.
fn most(longest: usize, literals: usize) -> usize {
    (0xffff_ffff - literals) / longest
}

/// The most bytes that cannot hold too much for `sequences` sequences.
fn most_bytes(sequences: usize, literals: usize) -> usize {
    (0xffff_ffff - literals - 34 * sequences) / (8 * 8190)
}

#[test]
fn sequences_of_zstd_blocks() {
    for (literals, at, size) in [
        // As they are, with a size of 5, 12 and 20 bits.
        (vec![0x00u8], 1, 0),
        (vec![0x08 | 2 << 4], 6, 5),
        (vec![0x04 | 3 << 4, 2], 2 + 35, 35),
        (vec![0x0c | 3 << 4, 2, 1], 3 + 4131, 4131),
        // One byte, for a size of 5, 12 and 20 bits.
        (vec![0x01 | 2 << 3, 9], 2, 2),
        (vec![0x05 | 3 << 4, 2, 9], 3, 35),
        (vec![0xfd, 0xff, 0xff, 9], 4, 0xf_ffff),
        // Compressed, with sizes of 10, 14 and 18 bits.
        (vec![0xf2, 1 << 6 | 2, 2], 3 + 9, 47),
        (vec![0xf6, 1 << 6 | 2, 2], 3 + 9, 47),
        (vec![0xfb, 2, 1 << 2 | 3, 2], 4 + 129, 0x302f),
        (vec![0xfe, 2, 1 << 6 | 0x3f, 2, 1], 5 + 1033, 0x3_f02f),
    ] {
        let many = most(131_074, size) + 1;
        let bytes = most_bytes(many, size);
        let check = |count, len| check_block(&block_content(&literals, at, count, &[], len));
        assert!(!check(many, bytes + 1));
        assert!(check(many, bytes));
        assert!(check(many - 1, bytes + 1));
    }
    // The end comes first.
    assert!(check_block(&[]));
    assert!(check_block(&[0x00, 0xff, 0xff, 0xff]));
    assert!(check_block(&[0x00, 0x00, 0x00, 0x00, 0x00]));
    assert!(check_block(&[0x18, 1, 1, 1, 0xff]));
}

#[test]
fn matches_of_one_length() {
    let check = |count, modes: &[u8]| {
        check_block(&block_content(&[0], 1, count, modes, 100_000))
    };
    // One code for literal lengths and offsets each, or no table for them.
    for modes in [vec![0x54u8, 9, 9], vec![0x04], vec![0x44, 9], vec![0x14, 9], vec![0xf4]] {
        let with = |code| {
            let mut modes = modes.clone();
            modes.push(code);
            modes
        };
        assert!(check(0x7f00 + 0xffff, &with(0)));
        assert!(check(0x7f00 + 0xffff, &with(50)));
        assert!(check(most(65_538, 0), &with(51)));
        assert!(!check(most(65_538, 0) + 1, &with(51)));
        assert!(check(most(131_074, 0), &with(52)));
        assert!(!check(most(131_074, 0) + 1, &with(52)));
    }
    // A table for literal lengths, for offsets or for match lengths, and no code at all.
    for modes in [0x84u8, 0x24, 0x08, 0x00, 0x0c] {
        assert!(!check(40_000, &[modes, 0, 0, 0]));
    }
}

/// A block of a frame.
fn frame_block(kind: u32, last: bool, content: &[u8]) -> Vec<u8> {
    let header = last as u32 | kind << 1 | (content.len() as u32) << 3;
    let mut block = header.to_le_bytes()[..3].to_vec();
    block.extend(content);
    block
}

#[test]
fn zstd_frames_that_could_copy_too_much() {
    let content = block_content(&[0], 1, 40_000, &[], 80_000);
    let block = frame_block(2, true, &content);
    for fields in [
        vec![0x00u8, 0],
        vec![0x01, 0, 0],
        vec![0x02, 0, 0, 0],
        vec![0x03, 0, 0, 0, 0, 0],
        vec![0x20, 0],
        vec![0x40, 0, 0, 0],
        vec![0xa0, 0, 0, 0, 0],
        vec![0xc0, 0, 0, 0, 0, 0, 0, 0, 0, 0],
    ] {
        // A raw block and one of a repeated byte come first.
        let mut frame = fields;
        frame.extend([2 << 3, 0, 0, 7, 7, 1 << 1 | 5 << 3, 0, 0, 9]);
        let before = frame.len();
        frame.extend(&block);
        assert_eq!(
            zstd_decode(&zstd_block(&frame), 100_000).unwrap_err(),
            bad(16, "zstd_sequences")
        );
        // Neither the last block nor one that is cut off or not defined has a successor.
        let mut ended = frame.clone();
        ended[before - 4] |= 1;
        assert!(check_frame(&zstd_unwrap(&zstd_block(&ended)).unwrap()));
        ended[before - 4] = 7 << 1;
        assert!(check_frame(&zstd_unwrap(&zstd_block(&ended)).unwrap()));
        frame.pop();
        assert!(check_frame(&zstd_unwrap(&zstd_block(&frame)).unwrap()));
    }
    let fewer = block_content(&[0], 1, 32_767, &[], 80_000);
    let mut frame = vec![0x00u8, 0];
    frame.extend(frame_block(2, true, &fewer));
    assert_eq!(
        zstd_decode(&zstd_block(&frame), 100_000).unwrap_err(),
        bad(16, "zstd_decode")
    );
}

#[test]
fn zstd_blocks_of_many_short_matches() {
    let start = noise(65_536);
    for (bits, sequences) in [(15usize, 34_714usize), (16, 40_000)] {
        // One code for each: no literals, an offset of that many bits, and three bytes.
        let modes = [0x54, 0, bits as u8, 0];
        let stream = bits * sequences;
        let len = 7 + stream / 8 + 1;
        let mut content = block_content(&[1 << 3, 0xab], 2, sequences, &modes, len);
        *content.last_mut().unwrap() |= 1 << (stream % 8);
        assert!(content.len() > 65_000);
        // A window of 1 MiB.
        let mut frame = vec![0x00u8, 10 << 3];
        frame.extend(frame_block(0, false, &start));
        frame.extend(frame_block(2, true, &content));
        let mut data = start.clone();
        for i in 0..3 * sequences {
            data.push(data[65_536 + i - ((1 << bits) - 3)]);
        }
        data.push(0xab);
        assert_eq!(zstd_decode(&zstd_block(&frame), data.len()).unwrap(), data);
    }
}

#[test]
fn outputs_of_decompressors() {
    let dst = vec![1u8, 2, 3];
    assert_eq!(
        checked_output(Some(3), dst.clone(), 15, "a", "b").unwrap(),
        dst
    );
    assert_eq!(
        checked_output(Some(2), dst.clone(), 15, "a", "b").unwrap_err(),
        bad(15, "b")
    );
    assert_eq!(
        checked_output(None, dst.clone(), 5, "a", "b").unwrap_err(),
        bad(5, "a")
    );
    assert_eq!(checked_frame_output(Some(Some(Some(0))), dst.clone()), Ok(dst.clone()));
    assert_eq!(checked_frame_output(Some(Some(None)), dst.clone()), Ok(dst.clone()));
    assert_eq!(
        checked_frame_output(Some(Some(Some(1))), dst.clone()),
        Err(bad(16, "zstd_len"))
    );
    assert_eq!(
        checked_frame_output(Some(None), dst.clone()),
        Err(bad(16, "zstd_decode"))
    );
    assert_eq!(
        checked_frame_output(None, dst),
        Err(bad(16, "zstd_frame"))
    );
}

#[test]
fn lzjb_round_trip() {
    for data in [text(1), text(100), text(5000), noise(700), vec![0u8; 3000]] {
        let mut dst = vec![0u8; 2 * data.len() + 16];
        let n = LzjbEncoder::new().compress(&mut dst, &data, 0).unwrap();
        let mut src = dst[..n].to_vec();
        src.extend([0xaa; 5]);
        assert_eq!(lzjb_decode(&src, data.len()).unwrap(), data);
        assert_eq!(
            decompress(CompressionType::Lzjb, &src, data.len()).unwrap(),
            data
        );
        let n = LzjbEncoder::default()
            .compress_pre_v21(&mut dst, &data, 0)
            .unwrap();
        assert_eq!(lzjb_decode(&dst[..n], data.len()).unwrap(), data);
    }
}

#[test]
fn lzjb_shrinks_what_repeats() {
    let data = text(5000);
    let mut dst = vec![0u8; 5000];
    let n = LzjbEncoder::new().compress(&mut dst, &data, 0).unwrap();
    assert!(n < 600, "{n}");
}

#[test]
fn lzjb_errors() {
    let mut small = [0u8; 8];
    assert_eq!(
        LzjbEncoder::new().compress(&mut small, &noise(100), 0),
        Err(CompressionError::NotCompressable {})
    );
    assert_eq!(lzjb_decode(&[], 1).unwrap_err(), bad(3, "lzjb_bad"));
    assert_eq!(lzjb_decode(&[0, b'x'], 2).unwrap_err(), bad(3, "lzjb_bad"));
    // A match that refers to before the start of the output.
    assert_eq!(
        lzjb_decode(&[1, 0x00, 0x05], 3).unwrap_err(),
        bad(3, "lzjb_bad")
    );
    let mut dst = [0u8; 4];
    assert!(matches!(
        LzjbDecoder {}.decompress(&mut dst, &[], 0),
        Err(DecompressionError::EndOfInput { .. })
    ));
}

#[test]
fn zle_errors() {
    assert_eq!(zle_decode(&[], 1).unwrap_err(), bad(14, "zle_bad"));
    assert_eq!(zle_decode(&[], 0).unwrap(), vec![]);
    assert_eq!(zle_decode(&[0x02, 1, 2], 3).unwrap_err(), bad(14, "zle_bad"));
    assert_eq!(
        zle_decode(&[0x02, 1, 2, 3], 2).unwrap_err(),
        bad(14, "zle_bad")
    );
    assert_eq!(zle_decode(&[0x41], 1).unwrap_err(), bad(14, "zle_bad"));
    assert_eq!(zle_decode(&[0xff], 192).unwrap(), vec![0u8; 192]);
    assert_eq!(
        decompress(CompressionType::Zle, &[0x40, 0x00, 7], 2).unwrap(),
        [0, 7]
    );
}

#[test]
fn algorithms_that_no_block_can_have() {
    for (comp, id) in [
        (CompressionType::Inherit, 0),
        (CompressionType::On, 1),
        (CompressionType::Empty, 4),
    ] {
        assert_eq!(
            decompress(comp, b"", 0).unwrap_err(),
            Error::UnsupportedCompression { comp: id }
        );
    }
    assert_eq!(
        decompress(CompressionType::Zle, b"", MAX_BLOCK_LSIZE + 1).unwrap_err(),
        Error::FileTooLarge {
            size: MAX_BLOCK_LSIZE as u64 + 1,
            max: MAX_BLOCK_LSIZE as u64
        }
    );
    assert_eq!(
        decompress(CompressionType::Off, b"hi", 8).unwrap_err(),
        bad(2, "off_short")
    );
}
