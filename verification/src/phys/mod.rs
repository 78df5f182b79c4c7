//! On-disk structures.

pub mod block_pointer;
pub mod dnode;
pub mod dsl;
pub mod endian;
pub mod label;
pub mod nv;
pub mod property;
pub mod zap;

use vstd::prelude::*;

verus! {

/// Bytes that are not the structure they should be.
#[derive(Debug, Clone, Copy, PartialEq, Eq, Structural)]
pub struct Malformed {}

} // verus!
