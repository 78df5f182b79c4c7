//! A read-only ZFS pool reader.
//!
//! [`Zfs::import`] takes the members of a pool, each behind a [`BlockRead`], and gives a
//! [`Zfs`] from which datasets, directories and files can be read.

pub mod block_read;
pub mod checksum;
pub mod cksum;
pub mod compress;
pub mod compression;
pub mod dataset;
pub mod error;
pub mod file;
pub mod path;
pub mod phys;
pub mod pool;
pub mod raidz;
pub mod redundancy;
pub mod util;
pub mod vdev;
pub mod walk;
pub mod zfs;
pub mod zstd;

pub use crate::block_read::{BlockRead, PoolMember};
pub use crate::dataset::EntryKind;
pub use crate::error::{Error, LabelReason, Location};
pub use crate::path::Path;
pub use crate::zfs::{DirEntry, Metadata, Zfs, MAX_FILE_BYTES};
