//! Directories and datasets of the dataset layer.

use crate::phys::block_pointer::{pointer_at, pointer_view, BlockPointer, Pointer};
use crate::phys::endian::{read_u64, u64_at, EndianOrder};
use crate::phys::Malformed;
use vstd::prelude::*;

verus! {

/// Size of a directory.
pub const DSL_DIRECTORY_SIZE: usize = 256;

/// Size of a dataset.
pub const DSL_DATASET_SIZE: usize = 320;

/// A directory of datasets.
#[derive(Debug, Clone, Copy, PartialEq, Eq, Structural)]
pub struct DslDirectory {
    /// Object of the dataset of this directory, if it has one.
    pub head_dataset_obj: Option<u64>,
    /// Object that maps the names of the children.
    pub child_directory_zap_obj: u64,
}

/// The directory that `s` holds.
pub open spec fn directory_of(s: Seq<u8>, order: EndianOrder) -> Result<DslDirectory, Malformed> {
    if s.len() < DSL_DIRECTORY_SIZE {
        Err(Malformed {  })
    } else {
        let head = u64_at(s, 8, order);
        Ok(
            DslDirectory {
                head_dataset_obj: if head == 0 {
                    None
                } else {
                    Some(head)
                },
                child_directory_zap_obj: u64_at(s, 32, order),
            },
        )
    }
}

impl DslDirectory {
    /// Decodes a directory.
    pub fn from_bytes(bytes: &[u8], order: EndianOrder) -> (r: Result<DslDirectory, Malformed>)
        ensures
            r == directory_of(bytes@, order),
    {
        if bytes.len() < DSL_DIRECTORY_SIZE {
            return Err(Malformed {  });
        }
        let head = read_u64(bytes, 8, order);
        Ok(
            DslDirectory {
                head_dataset_obj: if head == 0 {
                    None
                } else {
                    Some(head)
                },
                child_directory_zap_obj: read_u64(bytes, 32, order),
            },
        )
    }
}

/// A dataset.
#[derive(Debug)]
pub struct DslDataSet {
    /// The object set of the dataset, if it has one.
    pub block_pointer: Option<BlockPointer>,
}

/// The pointer to the object set of the dataset that `s` holds.
pub open spec fn dataset_of(s: Seq<u8>, order: EndianOrder) -> Result<Option<Pointer>, Malformed> {
    if s.len() < DSL_DATASET_SIZE {
        Err(Malformed {  })
    } else {
        pointer_at(s, 128, order)
    }
}

impl DslDataSet {
    /// Decodes a dataset.
    pub fn from_bytes(bytes: &[u8], order: EndianOrder) -> (r: Result<DslDataSet, Malformed>)
        ensures
            match r {
                Ok(ds) => dataset_of(bytes@, order) == Ok::<Option<Pointer>, Malformed>(
                    pointer_view(ds.block_pointer),
                ),
                Err(e) => dataset_of(bytes@, order) == Err::<Option<Pointer>, Malformed>(e),
            },
    {
        if bytes.len() < DSL_DATASET_SIZE {
            return Err(Malformed {  });
        }
        match BlockPointer::from_bytes(bytes, 128, order) {
            Ok(block_pointer) => Ok(DslDataSet { block_pointer }),
            Err(e) => Err(e),
        }
    }
}

/// Of a dataset directory, the second word is the object of its dataset, or zero for none,
/// and the fifth that of the map of its children; it has at least 256 bytes. Of a dataset,
/// the pointer to its object set is at byte 128; it has at least 320 bytes.
pub proof fn law_layout_of_datasets(s: Seq<u8>, order: EndianOrder)
    ensures
        directory_of(s, order) is Ok <==> s.len() >= 256,
        directory_of(s, order) matches Ok(d) ==> d.child_directory_zap_obj == u64_at(s, 32, order)
            && (d.head_dataset_obj matches Some(obj) ==> obj == u64_at(s, 8, order) && obj != 0) && (
        d.head_dataset_obj is None ==> u64_at(s, 8, order) == 0),
        s.len() >= 320 ==> dataset_of(s, order) == pointer_at(s, 128, order),
        s.len() < 320 ==> dataset_of(s, order) is Err,
{
}

} // verus!
