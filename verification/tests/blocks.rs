use lamzfs::checksum::fletcher4::{Fletcher4, Fletcher4Implementation};
use lamzfs::checksum::sha256::{Sha256, Sha256Implementation};
use lamzfs::checksum::Checksum;
use lamzfs::cksum::verify_block;
use lamzfs::compress::{decompress, zle_decode, MAX_BLOCK_LSIZE};
use lamzfs::error::Error;
use lamzfs::phys::endian::EndianOrder;
use lamzfs::phys::property::{ChecksumType, ChecksumValue, CompressionType};

fn cv(words: [u64; 4]) -> ChecksumValue {
    ChecksumValue { words }
}

#[test]
fn fletcher4_roundtrip_then_detect_corruption() {
    let data = b"the quick brown fox jumps over the lazy dog 0123456789abcdef!!";
    let good = Fletcher4::new(Fletcher4Implementation::Generic)
        .unwrap()
        .hash(data, EndianOrder::Little)
        .unwrap();
    assert!(verify_block(
        ChecksumType::Fletcher4,
        EndianOrder::Little,
        data,
        &cv(good),
        0,
        0
    )
    .is_ok());
    let mut bad = good;
    bad[0] ^= 1;
    let e = verify_block(
        ChecksumType::Fletcher4,
        EndianOrder::Little,
        data,
        &cv(bad),
        7,
        99,
    )
    .unwrap_err();
    assert!(matches!(
        e,
        Error::ChecksumMismatch {
            vdev: 7,
            offset: 99,
            ..
        }
    ));
}

#[test]
fn sha256_roundtrip() {
    let data = b"boot pool block";
    let good = Sha256::new(Sha256Implementation::Generic)
        .unwrap()
        .hash(data, EndianOrder::Little)
        .unwrap();
    assert!(verify_block(
        ChecksumType::Sha256,
        EndianOrder::Little,
        data,
        &cv(good),
        0,
        0
    )
    .is_ok());
}

#[test]
fn off_skips_verification() {
    assert!(verify_block(
        ChecksumType::Off,
        EndianOrder::Little,
        b"x",
        &cv([0; 4]),
        0,
        0
    )
    .is_ok());
}

#[test]
fn unsupported_algorithm_rejected() {
    let e = verify_block(
        ChecksumType::Skein,
        EndianOrder::Little,
        b"x",
        &cv([0; 4]),
        0,
        0,
    )
    .unwrap_err();
    assert!(matches!(e, Error::UnsupportedFeature(_)));
}

#[test]
fn off_copies_logical_prefix() {
    let src = b"hello world padding-past-lsize";
    let out = decompress(CompressionType::Off, src, 11).unwrap();
    assert_eq!(&out, b"hello world");
}

#[test]
fn zle_literals_and_zero_runs() {
    let src = [0x02, b'a', b'b', b'c', 0x43, 0x00, b'z'];
    let out = zle_decode(&src, 8).unwrap();
    assert_eq!(out, [b'a', b'b', b'c', 0, 0, 0, 0, b'z']);
}

#[test]
fn oversize_lsize_refused() {
    let e = decompress(CompressionType::Off, b"x", MAX_BLOCK_LSIZE + 1).unwrap_err();
    assert!(matches!(e, Error::FileTooLarge { .. }));
}

#[test]
fn off_short_source_errors() {
    let e = decompress(CompressionType::Off, b"hi", 8).unwrap_err();
    assert!(matches!(e, Error::BadCompression { .. }));
}
