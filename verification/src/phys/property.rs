//! Identifiers of checksum and compression algorithms.

use vstd::prelude::*;

verus! {

/// Checksum algorithms, by their on-disk identifiers from 0 up.
#[derive(Debug, Clone, Copy, PartialEq, Eq, Structural)]
pub enum ChecksumType {
    Inherit,
    On,
    Off,
    Label,
    GangHeader,
    Zilog,
    Fletcher2,
    Fletcher4,
    Sha256,
    Zilog2,
    NoParity,
    Sha512_256,
    Skein,
    Edonr,
    Blake3,
}

/// Compression algorithms, by their on-disk identifiers from 0 up.
#[derive(Debug, Clone, Copy, PartialEq, Eq, Structural)]
pub enum CompressionType {
    Inherit,
    On,
    Off,
    Lzjb,
    Empty,
    Gzip1,
    Gzip2,
    Gzip3,
    Gzip4,
    Gzip5,
    Gzip6,
    Gzip7,
    Gzip8,
    Gzip9,
    Zle,
    Lz4,
    Zstd,
}

/// The checksum algorithm with an on-disk identifier.
pub open spec fn checksum_type(id: u8) -> Option<ChecksumType> {
    match id {
        0 => Some(ChecksumType::Inherit),
        1 => Some(ChecksumType::On),
        2 => Some(ChecksumType::Off),
        3 => Some(ChecksumType::Label),
        4 => Some(ChecksumType::GangHeader),
        5 => Some(ChecksumType::Zilog),
        6 => Some(ChecksumType::Fletcher2),
        7 => Some(ChecksumType::Fletcher4),
        8 => Some(ChecksumType::Sha256),
        9 => Some(ChecksumType::Zilog2),
        10 => Some(ChecksumType::NoParity),
        11 => Some(ChecksumType::Sha512_256),
        12 => Some(ChecksumType::Skein),
        13 => Some(ChecksumType::Edonr),
        14 => Some(ChecksumType::Blake3),
        _ => None,
    }
}

/// The compression algorithm with an on-disk identifier.
pub open spec fn compression_type(id: u8) -> Option<CompressionType> {
    match id {
        0 => Some(CompressionType::Inherit),
        1 => Some(CompressionType::On),
        2 => Some(CompressionType::Off),
        3 => Some(CompressionType::Lzjb),
        4 => Some(CompressionType::Empty),
        5 => Some(CompressionType::Gzip1),
        6 => Some(CompressionType::Gzip2),
        7 => Some(CompressionType::Gzip3),
        8 => Some(CompressionType::Gzip4),
        9 => Some(CompressionType::Gzip5),
        10 => Some(CompressionType::Gzip6),
        11 => Some(CompressionType::Gzip7),
        12 => Some(CompressionType::Gzip8),
        13 => Some(CompressionType::Gzip9),
        14 => Some(CompressionType::Zle),
        15 => Some(CompressionType::Lz4),
        16 => Some(CompressionType::Zstd),
        _ => None,
    }
}

impl ChecksumType {
    /// Decodes an on-disk identifier.
    pub fn from_id(id: u8) -> (r: Option<ChecksumType>)
        ensures
            r == checksum_type(id),
    {
        match id {
            0 => Some(ChecksumType::Inherit),
            1 => Some(ChecksumType::On),
            2 => Some(ChecksumType::Off),
            3 => Some(ChecksumType::Label),
            4 => Some(ChecksumType::GangHeader),
            5 => Some(ChecksumType::Zilog),
            6 => Some(ChecksumType::Fletcher2),
            7 => Some(ChecksumType::Fletcher4),
            8 => Some(ChecksumType::Sha256),
            9 => Some(ChecksumType::Zilog2),
            10 => Some(ChecksumType::NoParity),
            11 => Some(ChecksumType::Sha512_256),
            12 => Some(ChecksumType::Skein),
            13 => Some(ChecksumType::Edonr),
            14 => Some(ChecksumType::Blake3),
            _ => None,
        }
    }
}

impl CompressionType {
    /// Decodes an on-disk identifier.
    pub fn from_id(id: u8) -> (r: Option<CompressionType>)
        ensures
            r == compression_type(id),
    {
        match id {
            0 => Some(CompressionType::Inherit),
            1 => Some(CompressionType::On),
            2 => Some(CompressionType::Off),
            3 => Some(CompressionType::Lzjb),
            4 => Some(CompressionType::Empty),
            5 => Some(CompressionType::Gzip1),
            6 => Some(CompressionType::Gzip2),
            7 => Some(CompressionType::Gzip3),
            8 => Some(CompressionType::Gzip4),
            9 => Some(CompressionType::Gzip5),
            10 => Some(CompressionType::Gzip6),
            11 => Some(CompressionType::Gzip7),
            12 => Some(CompressionType::Gzip8),
            13 => Some(CompressionType::Gzip9),
            14 => Some(CompressionType::Zle),
            15 => Some(CompressionType::Lz4),
            16 => Some(CompressionType::Zstd),
            _ => None,
        }
    }

    /// The on-disk identifier.
    pub fn id(self) -> (r: u8)
        ensures
            compression_type(r) == Some(self),
    {
        match self {
            CompressionType::Inherit => 0,
            CompressionType::On => 1,
            CompressionType::Off => 2,
            CompressionType::Lzjb => 3,
            CompressionType::Empty => 4,
            CompressionType::Gzip1 => 5,
            CompressionType::Gzip2 => 6,
            CompressionType::Gzip3 => 7,
            CompressionType::Gzip4 => 8,
            CompressionType::Gzip5 => 9,
            CompressionType::Gzip6 => 10,
            CompressionType::Gzip7 => 11,
            CompressionType::Gzip8 => 12,
            CompressionType::Gzip9 => 13,
            CompressionType::Zle => 14,
            CompressionType::Lz4 => 15,
            CompressionType::Zstd => 16,
        }
    }
}

/// A stored checksum.
#[derive(Debug, Clone, Copy, PartialEq, Eq)]
pub struct ChecksumValue {
    pub words: [u64; 4],
}

/// Compressions have the identifiers up to 16 and checksums those up to 14, and no two have the
/// same.
pub proof fn law_identifiers(a: u8, b: u8)
    ensures
        compression_type(a) is Some <==> a <= 16,
        checksum_type(a) is Some <==> a <= 14,
        a <= 16 && compression_type(a) == compression_type(b) ==> a == b,
        a <= 14 && checksum_type(a) == checksum_type(b) ==> a == b,
{
}

} // verus!
