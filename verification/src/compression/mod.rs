//! Block compressors and decompressors of the pool's own formats.

pub mod lzjb;

use vstd::prelude::*;

verus! {

/// Why a compressor gave up.
#[derive(Debug, Clone, Copy, PartialEq, Eq, Structural)]
pub enum CompressionError {
    /// The output buffer is too small to take the compressed data.
    NotCompressable {},
}

/// Why a decompressor rejected its input.
#[derive(Debug, Clone, Copy, PartialEq, Eq, Structural)]
pub enum DecompressionError {
    /// The input ended before the output was complete.
    EndOfInput {
        /// Position in the input at which more bytes were needed.
        offset: usize,
        /// Length of the input.
        capacity: usize,
        /// Number of bytes that were needed.
        count: usize,
    },
    /// The input holds a back reference to before the start of the output.
    InvalidInput {
        /// Position in the input of the bad reference.
        offset: usize,
    },
}

/// What a run of a compressor leaves: the bytes written to the front of the
/// output buffer, and the verdict.
pub ghost struct Encoded {
    pub out: Seq<u8>,
    pub result: Result<usize, CompressionError>,
}

/// What a run of a decompressor leaves: the bytes written to the front of the
/// output buffer, and the verdict.
pub ghost struct Decoded {
    pub out: Seq<u8>,
    pub result: Result<(), DecompressionError>,
}

/// A buffer that held `old`, after `out` was written to its front.
pub open spec fn overwrite(old: Seq<u8>, out: Seq<u8>) -> Seq<u8> {
    out + old.skip(out.len() as int)
}

/// A block compressor.
pub trait Compression: Sized {
    /// What compressing `src` into a buffer of `capacity` bytes leaves.
    spec fn encoded(src: Seq<u8>, capacity: nat, level: u32) -> Encoded;

    /// Compresses `src` into `dst`, and returns the number of bytes written.
    fn compress(&mut self, dst: &mut [u8], src: &[u8], level: u32) -> (r: Result<
        usize,
        CompressionError,
    >)
        ensures
            final(dst)@.len() == old(dst)@.len(),
            r == Self::encoded(src@, old(dst)@.len(), level).result,
            final(dst)@ == overwrite(
                old(dst)@,
                Self::encoded(src@, old(dst)@.len(), level).out,
            ),
    ;
}

/// A block decompressor.
pub trait Decompression: Sized {
    /// What decompressing `src` over the buffer contents `init` leaves.
    spec fn decoded(src: Seq<u8>, init: Seq<u8>, level: u32) -> Decoded;

    /// Decompresses `src` until `dst` is full.
    fn decompress(&mut self, dst: &mut [u8], src: &[u8], level: u32) -> (r: Result<
        (),
        DecompressionError,
    >)
        ensures
            final(dst)@.len() == old(dst)@.len(),
            r == Self::decoded(src@, old(dst)@, level).result,
            final(dst)@ == overwrite(old(dst)@, Self::decoded(src@, old(dst)@, level).out),
    ;
}

} // verus!
