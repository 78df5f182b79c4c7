//! Errors, each with a stable token that a log can record.

use vstd::prelude::*;

verus! {

/// A pool read or import failure.
#[derive(Debug, Clone, PartialEq, Eq)]
pub enum Error {
    /// A read of a member failed.
    Io {
        /// Site.
        token: &'static str,
        /// GUID of the leaf vdev that was read, 0 before the topology is known.
        vdev: u64,
        /// Byte offset within the member.
        offset: u64,
    },
    /// A vdev label was missing, malformed, or failed its checksum.
    BadLabel(LabelReason),
    /// No uberblock had a valid checksum.
    NoValidUberblock,
    /// A pool feature that this reader does not implement.
    UnsupportedFeature(&'static str),
    /// A vdev topology that this reader does not support.
    UnsupportedTopology(&'static str),
    /// A construct that is out of scope.
    Unsupported(&'static str),
    /// A checksum mismatch on the last available copy of a block.
    ChecksumMismatch {
        /// GUID of the leaf vdev that was read, 0 where a block is on several and no one of
        /// them is known to be at fault.
        vdev: u64,
        /// Byte offset of the failing read.
        offset: u64,
        /// Which checksum failed.
        what: &'static str,
    },
    /// A structural inconsistency found on the way.
    Inconsistent {
        /// Site.
        token: &'static str,
        /// Where it surfaced.
        where_: Location,
    },
    /// A compression algorithm that no block can have.
    UnsupportedCompression {
        /// The on-disk identifier.
        comp: u8,
    },
    /// A decompressor rejected the block.
    BadCompression {
        /// The on-disk identifier.
        comp: u8,
        /// Site.
        token: &'static str,
    },
    /// There is no such name.
    NotFound {
        /// What is missing.
        component: &'static str,
    },
    /// The target exists, and is not a regular file.
    NotARegularFile,
    /// A path component that is not the last, or the target of a listing, is not a
    /// directory.
    NotADirectory,
    /// The target exists, and is not a symbolic link.
    NotASymlink,
    /// A size in the metadata exceeds what will be read.
    FileTooLarge {
        /// The declared size.
        size: u64,
        /// The largest that is read.
        max: u64,
    },
    /// An allocation failed.
    OutOfMemory {
        /// Site.
        site: &'static str,
    },
}

/// Why a vdev label was rejected.
#[derive(Debug, Clone, Copy, PartialEq, Eq)]
pub enum LabelReason {
    /// The name-value list did not start as one.
    BadMagic,
    /// The checksum did not verify.
    BadChecksum,
    /// There was no member to read a label from.
    NoLabels,
    /// No member has the identifier that the pool asks for.
    PoolGuidMismatch,
    /// The device is not a member.
    NotAZfsMember,
}

/// Where an [`Error::Inconsistent`] surfaced.
#[derive(Debug, Clone, Copy, PartialEq, Eq)]
pub enum Location {
    /// In the configuration of a vdev.
    Vdev {
        /// Vdev identifier.
        guid: u64,
    },
    /// In an uberblock.
    Uberblock,
    /// In the meta object set.
    Mos,
    /// In the dataset layer.
    Dsl {
        /// Object number.
        obj: u64,
    },
    /// In a dnode.
    Dnode {
        /// Object number.
        obj: u64,
    },
    /// In an indirect block.
    Indirect {
        /// Object number.
        obj: u64,
        /// Level of the block.
        level: u8,
    },
    /// In a ZAP object.
    Zap {
        /// Object number.
        obj: u64,
    },
    /// In a file's attributes.
    Zpl {
        /// Object number.
        obj: u64,
    },
}

/// The token of a label rejection.
pub open spec fn label_token(r: LabelReason) -> &'static str {
    match r {
        LabelReason::BadMagic => "label_bad_magic",
        LabelReason::BadChecksum => "label_bad_checksum",
        LabelReason::NoLabels => "label_none",
        LabelReason::PoolGuidMismatch => "label_pool_guid_mismatch",
        LabelReason::NotAZfsMember => "label_not_a_member",
    }
}

/// The token of an error: the one it carries, or the one of its kind.
pub open spec fn error_token(e: Error) -> &'static str {
    match e {
        Error::Io { token, .. } => token,
        Error::Inconsistent { token, .. } => token,
        Error::BadCompression { token, .. } => token,
        Error::BadLabel(r) => label_token(r),
        Error::NoValidUberblock => "no_valid_uberblock",
        Error::UnsupportedFeature(t) => t,
        Error::UnsupportedTopology(t) => t,
        Error::Unsupported(t) => t,
        Error::ChecksumMismatch { what, .. } => what,
        Error::UnsupportedCompression { .. } => "comp_unsupported",
        Error::NotFound { .. } => "not_found",
        Error::NotARegularFile => "not_a_regular_file",
        Error::NotADirectory => "not_a_directory",
        Error::NotASymlink => "not_a_symlink",
        Error::FileTooLarge { .. } => "file_too_large",
        Error::OutOfMemory { site } => site,
    }
}

impl Error {
    /// The stable token of this error.
    pub fn token(&self) -> (r: &'static str)
        ensures
            r == error_token(*self),
    {
        match self {
            Error::Io { token, .. } => token,
            Error::Inconsistent { token, .. } => token,
            Error::BadCompression { token, .. } => token,
            Error::BadLabel(r) => r.token(),
            Error::NoValidUberblock => "no_valid_uberblock",
            Error::UnsupportedFeature(t) => t,
            Error::UnsupportedTopology(t) => t,
            Error::Unsupported(t) => t,
            Error::ChecksumMismatch { what, .. } => what,
            Error::UnsupportedCompression { .. } => "comp_unsupported",
            Error::NotFound { .. } => "not_found",
            Error::NotARegularFile => "not_a_regular_file",
            Error::NotADirectory => "not_a_directory",
            Error::NotASymlink => "not_a_symlink",
            Error::FileTooLarge { .. } => "file_too_large",
            Error::OutOfMemory { site } => site,
        }
    }

    /// The error as one line of text.
    pub fn message(&self) -> (r: String)
        ensures
            r@ == "lamzfs: "@ + error_token(*self)@,
    {
        let mut text = String::from_str("lamzfs: ");
        text.append(self.token());
        text
    }
}

impl LabelReason {
    /// The stable token of this reason.
    pub fn token(self) -> (r: &'static str)
        ensures
            r == label_token(self),
    {
        match self {
            LabelReason::BadMagic => "label_bad_magic",
            LabelReason::BadChecksum => "label_bad_checksum",
            LabelReason::NoLabels => "label_none",
            LabelReason::PoolGuidMismatch => "label_pool_guid_mismatch",
            LabelReason::NotAZfsMember => "label_not_a_member",
        }
    }
}

/// The outcome of a read, with its bytes as a sequence.
pub open spec fn bytes_of(r: Result<Vec<u8>, Error>) -> Result<Seq<u8>, Error> {
    match r {
        Ok(v) => Ok(v@),
        Err(e) => Err(e),
    }
}

/// An error that carries a token is recorded under that, whatever else it carries.
pub proof fn law_carried_tokens(t: &'static str, vdev: u64, offset: u64, comp: u8, at: Location)
    ensures
        error_token(Error::Io { token: t, vdev, offset }) == t,
        error_token(Error::Inconsistent { token: t, where_: at }) == t,
        error_token(Error::BadCompression { comp, token: t }) == t,
        error_token(Error::ChecksumMismatch { vdev, offset, what: t }) == t,
        error_token(Error::UnsupportedFeature(t)) == t,
        error_token(Error::UnsupportedTopology(t)) == t,
        error_token(Error::Unsupported(t)) == t,
        error_token(Error::OutOfMemory { site: t }) == t,
{
}

} // verus!
