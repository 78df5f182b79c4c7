//! Checksums of blocks.

pub mod fletcher2;
pub mod fletcher4;
pub mod sha256;

use crate::phys::endian::EndianOrder;
use crate::phys::property::ChecksumType;
use vstd::prelude::*;

verus! {

/// Why a checksum cannot be computed.
#[derive(Debug, Clone, Copy, PartialEq, Eq)]
pub enum ChecksumError {
    /// The implementation is not part of this build.
    Unsupported {
        /// Algorithm.
        checksum: ChecksumType,
        /// Name of the implementation.
        implementation: &'static str,
    },
}

/// A checksum over bytes that come in pieces.
pub trait Checksum: Sized {
    /// The checksum of `data`, whose integers are in `order`.
    spec fn checksum(data: Seq<u8>, order: EndianOrder) -> [u64; 4];

    /// Whether the running state is that of [`Checksum::data`].
    spec fn wf(&self) -> bool;

    /// The bytes since the last reset.
    spec fn data(&self) -> Seq<u8>;

    /// Byte order of the data.
    spec fn order(&self) -> EndianOrder;

    /// Starts over with no data.
    fn reset(&mut self, order: EndianOrder) -> (r: Result<(), ChecksumError>)
        requires
            old(self).wf(),
        ensures
            r is Ok,
            final(self).wf(),
            final(self).data() == Seq::<u8>::empty(),
            final(self).order() == order,
    ;

    /// Adds data.
    fn update(&mut self, data: &[u8]) -> (r: Result<(), ChecksumError>)
        requires
            old(self).wf(),
        ensures
            r is Ok,
            final(self).wf(),
            final(self).data() == old(self).data() + data@,
            final(self).order() == old(self).order(),
    ;

    /// The checksum of the data so far.
    fn finalize(&mut self) -> (r: Result<[u64; 4], ChecksumError>)
        requires
            old(self).wf(),
        ensures
            r == Ok::<[u64; 4], ChecksumError>(
                Self::checksum(old(self).data(), old(self).order()),
            ),
            *final(self) == *old(self),
    ;

    /// The checksum of `data` alone.
    fn hash(&mut self, data: &[u8], order: EndianOrder) -> (r: Result<[u64; 4], ChecksumError>)
        requires
            old(self).wf(),
        ensures
            r == Ok::<[u64; 4], ChecksumError>(Self::checksum(data@, order)),
            final(self).wf(),
            final(self).data() == data@,
            final(self).order() == order,
    ;
}

} // verus!
