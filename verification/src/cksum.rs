//! Verification of a block against the checksum in its pointer.

use crate::checksum::fletcher2::{fletcher2, Fletcher2, Fletcher2Implementation};
use crate::checksum::fletcher4::{fletcher4, Fletcher4, Fletcher4Implementation};
use crate::checksum::sha256::{sha256, Sha256, Sha256Implementation};
use crate::checksum::Checksum;
use crate::error::Error;
use crate::phys::endian::EndianOrder;
use crate::phys::property::{ChecksumType, ChecksumValue};
use vstd::prelude::*;

verus! {

/// The token of a checksum algorithm.
pub open spec fn checksum_token(kind: ChecksumType) -> &'static str {
    match kind {
        ChecksumType::Fletcher2 => "csum_fletcher2",
        ChecksumType::Fletcher4 => "csum_fletcher4",
        ChecksumType::Sha256 | ChecksumType::Label => "csum_sha256",
        _ => "csum_unsupported",
    }
}

/// The checksum of a block, for the algorithms that this reader has.
pub open spec fn block_checksum(
    kind: ChecksumType,
    order: EndianOrder,
    data: Seq<u8>,
) -> Option<[u64; 4]> {
    match kind {
        ChecksumType::Fletcher2 => Some(fletcher2(data, order)),
        ChecksumType::Fletcher4 => Some(fletcher4(data, order)),
        ChecksumType::Sha256 | ChecksumType::Label => Some(sha256(data)),
        _ => None,
    }
}

/// The verdict on a block.
#[verifier::opaque]
pub open spec fn verdict(
    kind: ChecksumType,
    order: EndianOrder,
    data: Seq<u8>,
    expected: ChecksumValue,
    vdev: u64,
    offset: u64,
) -> Result<(), Error> {
    if kind == ChecksumType::Off {
        Ok(())
    } else {
        match block_checksum(kind, order, data) {
            None => Err(Error::UnsupportedFeature("csum_unsupported")),
            Some(words) => if words == expected.words {
                Ok(())
            } else {
                Err(Error::ChecksumMismatch { vdev, offset, what: checksum_token(kind) })
            },
        }
    }
}

/// The token of a checksum algorithm.
pub fn checksum_name(kind: ChecksumType) -> (r: &'static str)
    ensures
        r == checksum_token(kind),
{
    match kind {
        ChecksumType::Fletcher2 => "csum_fletcher2",
        ChecksumType::Fletcher4 => "csum_fletcher4",
        ChecksumType::Sha256 | ChecksumType::Label => "csum_sha256",
        _ => "csum_unsupported",
    }
}

/// Compares checksums.
fn same_words(a: &[u64; 4], b: &[u64; 4]) -> (r: bool)
    ensures
        r == (*a == *b),
{
    let same = a[0] == b[0] && a[1] == b[1] && a[2] == b[2] && a[3] == b[3];
    assert(same ==> *a =~= *b);
    same
}

/// Verifies the checksum of `data`. `Off` verifies anything; `vdev` and `offset` are for
/// the error.
pub fn verify_block(
    kind: ChecksumType,
    order: EndianOrder,
    data: &[u8],
    expected: &ChecksumValue,
    vdev: u64,
    offset: u64,
) -> (r: Result<(), Error>)
    ensures
        r == verdict(kind, order, data@, *expected, vdev, offset),
{
    reveal(verdict);
    let init = Error::ChecksumMismatch { vdev, offset, what: "csum_init" };
    let computed: [u64; 4] = match kind {
        ChecksumType::Off => {
            return Ok(());
        },
        ChecksumType::Fletcher2 => match Fletcher2::new(Fletcher2Implementation::Generic) {
            Ok(mut f) => match f.hash(data, order) {
                Ok(words) => words,
                Err(_) => {
                    return Err(init);
                },
            },
            Err(_) => {
                return Err(init);
            },
        },
        ChecksumType::Fletcher4 => match Fletcher4::new(Fletcher4Implementation::Generic) {
            Ok(mut f) => match f.hash(data, order) {
                Ok(words) => words,
                Err(_) => {
                    return Err(init);
                },
            },
            Err(_) => {
                return Err(init);
            },
        },
        ChecksumType::Sha256 | ChecksumType::Label => match Sha256::new(
            Sha256Implementation::Generic,
        ) {
            Ok(mut f) => match f.hash(data, order) {
                Ok(words) => words,
                Err(_) => {
                    return Err(init);
                },
            },
            Err(_) => {
                return Err(init);
            },
        },
        other => {
            return Err(Error::UnsupportedFeature(checksum_name(other)));
        },
    };
    if same_words(&computed, &expected.words) {
        Ok(())
    } else {
        Err(Error::ChecksumMismatch { vdev, offset, what: checksum_name(kind) })
    }
}

/// A block passes exactly if it has the checksum that is expected of it, or none is; an
/// algorithm that this reader does not have passes nothing.
pub proof fn law_passes_iff_checksum_matches(
    kind: ChecksumType,
    order: EndianOrder,
    data: Seq<u8>,
    expected: ChecksumValue,
    vdev: u64,
    offset: u64,
)
    ensures
        verdict(kind, order, data, expected, vdev, offset) is Ok <==> (kind == ChecksumType::Off
            || block_checksum(kind, order, data) == Some(expected.words)),
{
    reveal(verdict);
}

/// What each checksum type asks of a block: nothing, one of the two Fletcher checksums, or
/// SHA-256, which labels have too. The others are not known. A block that fails is reported
/// with the place that it was read from and the name of the checksum.
pub proof fn law_each_type_has_its_checksum(
    order: EndianOrder,
    data: Seq<u8>,
    expected: ChecksumValue,
    vdev: u64,
    offset: u64,
    kind: ChecksumType,
    what: &'static str,
)
    requires
        match kind {
            ChecksumType::Fletcher2 => what == "csum_fletcher2",
            ChecksumType::Fletcher4 => what == "csum_fletcher4",
            _ => what == "csum_sha256",
        },
    ensures
        ({
            let failed = Err::<(), Error>(Error::ChecksumMismatch { vdev, offset, what });
            let result = verdict(kind, order, data, expected, vdev, offset);
            match kind {
                ChecksumType::Off => result is Ok,
                ChecksumType::Fletcher2 => if fletcher2(data, order) == expected.words {
                    result is Ok
                } else {
                    result == failed
                },
                ChecksumType::Fletcher4 => if fletcher4(data, order) == expected.words {
                    result is Ok
                } else {
                    result == failed
                },
                ChecksumType::Sha256 | ChecksumType::Label => if sha256(data) == expected.words {
                    result is Ok
                } else {
                    result == failed
                },
                _ => result == Err::<(), Error>(Error::UnsupportedFeature("csum_unsupported")),
            }
        }),
{
    reveal(verdict);
}

} // verus!
