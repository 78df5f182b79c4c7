use lamzfs::checksum::fletcher2::{Fletcher2, Fletcher2Implementation};
use lamzfs::checksum::fletcher4::{Fletcher4, Fletcher4Implementation};
use lamzfs::checksum::sha256::{Sha256, Sha256Implementation};
use lamzfs::checksum::{Checksum, ChecksumError};
use lamzfs::cksum::{checksum_name, verify_block};
use lamzfs::error::Error;
use lamzfs::phys::endian::{split_u64, read_u64, EndianOrder};
use lamzfs::phys::property::{ChecksumType, ChecksumValue};

fn sha(data: &[u8]) -> [u64; 4] {
    Sha256::new(Sha256Implementation::Generic)
        .unwrap()
        .hash(data, EndianOrder::Little)
        .unwrap()
}

#[test]
fn sha256_known_answers() {
    assert_eq!(
        sha(b"abc"),
        [
            0xba7816bf8f01cfea,
            0x414140de5dae2223,
            0xb00361a396177a9c,
            0xb410ff61f20015ad
        ]
    );
    assert_eq!(
        sha(b""),
        [
            0xe3b0c44298fc1c14,
            0x9afbf4c8996fb924,
            0x27ae41e4649b934c,
            0xa495991b7852b855
        ]
    );
    assert_eq!(
        sha(b"abcdbcdecdefdefgefghfghighijhijkijkljklmklmnlmnomnopnopq"),
        [
            0x248d6a61d20638b8,
            0xe5c026930c3e6039,
            0xa33ce45964ff2167,
            0xf6ecedd419db06c1
        ]
    );
    let million = vec![b'a'; 1_000_000];
    assert_eq!(
        sha(&million),
        [
            0xcdc76e5c9914fb92,
            0x81a1c7e284d73e67,
            0xf1809a48a497200e,
            0x046d39ccc7112cd0
        ]
    );
}

#[test]
fn sha256_in_pieces() {
    let data: Vec<u8> = (0..300u32).map(|i| (i * 7) as u8).collect();
    for cut in [0, 1, 55, 56, 63, 64, 65, 128, 299] {
        let mut s = Sha256::new(Sha256Implementation::Generic).unwrap();
        s.reset(EndianOrder::Big).unwrap();
        s.update(&data[..cut]).unwrap();
        s.update(&data[cut..]).unwrap();
        assert_eq!(s.finalize().unwrap(), sha(&data));
        assert_eq!(s.finalize().unwrap(), sha(&data));
    }
}

#[test]
fn fletcher4_known_answer() {
    let mut f = Fletcher4::new(Fletcher4Implementation::Generic).unwrap();
    let data = [1, 0, 0, 0, 2, 0, 0, 0, 3, 0, 0, 0, 9];
    assert_eq!(f.hash(&data, EndianOrder::Little).unwrap(), [6, 10, 15, 21]);
    let data = [0, 0, 0, 1, 0, 0, 0, 2, 0, 0, 0, 3];
    assert_eq!(f.hash(&data, EndianOrder::Big).unwrap(), [6, 10, 15, 21]);
}

#[test]
fn fletcher2_known_answer() {
    let mut data = vec![0u8; 48];
    for (i, v) in [1u64, 10, 2, 20, 3, 30].iter().enumerate() {
        data[8 * i..8 * i + 8].copy_from_slice(&v.to_le_bytes());
    }
    let mut f = Fletcher2::new(Fletcher2Implementation::Generic).unwrap();
    assert_eq!(
        f.hash(&data, EndianOrder::Little).unwrap(),
        [6, 60, 10, 100]
    );
}

#[test]
fn fletcher2_streams_agree() {
    let data: Vec<u8> = (0..1000u32).map(|i| (i * i + 3 * i) as u8).collect();
    for n in [0, 15, 16, 31, 32, 63, 64, 65, 100, 1000] {
        for order in [EndianOrder::Big, EndianOrder::Little] {
            let of = |i| {
                Fletcher2::new(i)
                    .unwrap()
                    .hash(&data[..n], order)
                    .unwrap()
            };
            let one = of(Fletcher2Implementation::Generic);
            assert_eq!(of(Fletcher2Implementation::SuperScalar2), one);
            assert_eq!(of(Fletcher2Implementation::SuperScalar4), one);
        }
    }
}

#[test]
fn fletcher2_streams_are_independent() {
    let data: Vec<u8> = (0..1024u32).map(|i| (i * i >> 3) as u8).collect();
    let of = |implementation, data: &[u8]| {
        Fletcher2::new(implementation)
            .unwrap()
            .hash(data, EndianOrder::Big)
            .unwrap()
    };
    // Each stream takes every fourth block, and their sums make up the checksum.
    let streams: Vec<[u64; 4]> = (0..4)
        .map(|j| {
            let own: Vec<u8> = data
                .chunks(16)
                .skip(j)
                .step_by(4)
                .flatten()
                .copied()
                .collect();
            of(Fletcher2Implementation::Generic, &own)
        })
        .collect();
    let mut expected = [0u64; 4];
    for (j, s) in streams.iter().enumerate() {
        for lane in 0..2 {
            expected[lane] = expected[lane].wrapping_add(s[lane]);
            expected[2 + lane] = expected[2 + lane]
                .wrapping_add(s[2 + lane].wrapping_mul(4))
                .wrapping_sub(s[lane].wrapping_mul(j as u64));
        }
    }
    assert_eq!(of(Fletcher2Implementation::SuperScalar4, &data), expected);
}

#[test]
fn fletcher2_in_pieces() {
    let data: Vec<u8> = (0..200u32).map(|i| (i * 11) as u8).collect();
    for implementation in [
        Fletcher2Implementation::Generic,
        Fletcher2Implementation::SuperScalar2,
        Fletcher2Implementation::SuperScalar4,
    ] {
        let mut f = Fletcher2::new(implementation).unwrap();
        let whole = f.hash(&data, EndianOrder::Little).unwrap();
        for cut in [1, 16, 17, 63, 64, 65, 130] {
            f.reset(EndianOrder::Little).unwrap();
            f.update(&data[..cut]).unwrap();
            f.update(&data[cut..]).unwrap();
            assert_eq!(f.finalize().unwrap(), whole);
        }
    }
}

#[test]
fn fletcher2_implementations() {
    let names: Vec<&str> = Fletcher2Implementation::all()
        .iter()
        .map(|i| i.to_str())
        .collect();
    assert_eq!(
        names,
        [
            "generic",
            "superscalar2",
            "superscalar4",
            "sse2",
            "ssse3",
            "avx2",
            "avx512f",
            "avx512bw"
        ]
    );
    assert!(matches!(
        Fletcher2::new(Fletcher2Implementation::AVX2),
        Err(ChecksumError::Unsupported {
            checksum: ChecksumType::Fletcher2,
            implementation: "avx2"
        })
    ));
}

#[test]
fn verification_of_each_algorithm() {
    let data = [7u8; 64];
    for kind in [
        ChecksumType::Fletcher2,
        ChecksumType::Fletcher4,
        ChecksumType::Sha256,
        ChecksumType::Label,
    ] {
        let words = match kind {
            ChecksumType::Fletcher2 => Fletcher2::new(Fletcher2Implementation::Generic)
                .unwrap()
                .hash(&data, EndianOrder::Big)
                .unwrap(),
            ChecksumType::Fletcher4 => Fletcher4::new(Fletcher4Implementation::Generic)
                .unwrap()
                .hash(&data, EndianOrder::Big)
                .unwrap(),
            _ => sha(&data),
        };
        let expected = ChecksumValue { words };
        assert_eq!(
            verify_block(kind, EndianOrder::Big, &data, &expected, 3, 4),
            Ok(())
        );
        let mut bad = data;
        bad[40] ^= 0x10;
        assert_eq!(
            verify_block(kind, EndianOrder::Big, &bad, &expected, 3, 4),
            Err(Error::ChecksumMismatch {
                vdev: 3,
                offset: 4,
                what: checksum_name(kind)
            })
        );
    }
    assert_eq!(checksum_name(ChecksumType::Blake3), "csum_unsupported");
}

#[test]
fn numbers_split_and_read_back() {
    for order in [EndianOrder::Big, EndianOrder::Little] {
        for x in [0u64, 1, 0x0102_0304_0506_0708, u64::MAX] {
            assert_eq!(read_u64(&split_u64(x, order), 0, order), x);
        }
    }
    assert_eq!(
        split_u64(0x0102_0304_0506_0708, EndianOrder::Big),
        [1, 2, 3, 4, 5, 6, 7, 8]
    );
}
