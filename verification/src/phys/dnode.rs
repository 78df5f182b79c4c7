//! Dnodes and object sets.

use crate::phys::block_pointer::{pointer_at, pointer_view, BlockPointer, Pointer};
use crate::phys::endian::{read_u16, u16_at, EndianOrder};
use crate::phys::Malformed;
use vstd::prelude::*;

verus! {

/// Size of a dnode.
pub const DNODE_SIZE: usize = 512;

/// Size of the smallest object set.
pub const OBJECT_SET_SIZE: usize = 1024;

/// An object: where its blocks are, and its bonus data.
#[derive(Debug)]
pub struct Dnode {
    /// Levels of block pointers, 1 for direct pointers to data.
    pub levels: u8,
    /// Binary logarithm of the size of an indirect block.
    pub indirect_block_shift: u8,
    /// Size of a data block in sectors.
    pub data_block_size_sectors: u16,
    /// Top level pointers, or nothing for a hole.
    pub ptrs: Vec<Option<BlockPointer>>,
    /// Bonus data that is in use.
    pub bonus: Vec<u8>,
}

/// What a dnode says.
pub ghost struct DnodeView {
    pub levels: u8,
    pub indirect_block_shift: u8,
    pub data_block_size_sectors: u16,
    pub ptrs: Seq<Option<Pointer>>,
    pub bonus: Seq<u8>,
}

/// What pointers say.
pub open spec fn pointers_view(ptrs: Seq<Option<BlockPointer>>) -> Seq<Option<Pointer>> {
    ptrs.map_values(|p: Option<BlockPointer>| pointer_view(p))
}

impl View for Dnode {
    type V = DnodeView;

    open spec fn view(&self) -> DnodeView {
        DnodeView {
            levels: self.levels,
            indirect_block_shift: self.indirect_block_shift,
            data_block_size_sectors: self.data_block_size_sectors,
            ptrs: pointers_view(self.ptrs@),
            bonus: self.bonus@,
        }
    }
}

/// What an optional dnode says.
pub open spec fn dnode_view(d: Option<Dnode>) -> Option<DnodeView> {
    match d {
        Some(d) => Some(d@),
        None => None,
    }
}

/// Bytes at the end of a dnode that are not for bonus data: a pointer to more of it, if
/// there is one.
pub open spec fn spill_size(flags: u8) -> int {
    if flags / 4 % 2 == 1 {
        128
    } else {
        0
    }
}

/// The dnode at the start of `s`: nothing if it is free, which is one of type 0.
#[verifier::opaque]
pub open spec fn dnode_of(s: Seq<u8>, order: EndianOrder) -> Result<Option<DnodeView>, Malformed> {
    if s.len() < 512 {
        Err(Malformed {  })
    } else if s[0] == 0 {
        Ok(None)
    } else {
        let n = s[3] as int;
        let start = 64 + 128 * n;
        let used = u16_at(s, 10, order);
        if n < 1 || n > 3 || start + used + spill_size(s[7]) > 512 || exists|i: int|
            0 <= i < n && #[trigger] pointer_at(s, 64 + 128 * i, order) is Err {
            Err(Malformed {  })
        } else {
            Ok(
                Some(
                    DnodeView {
                        levels: s[2],
                        indirect_block_shift: s[1],
                        data_block_size_sectors: u16_at(s, 8, order),
                        ptrs: Seq::new(
                            n as nat,
                            |i: int| pointer_at(s, 64 + 128 * i, order)->Ok_0,
                        ),
                        bonus: s.subrange(start, start + used),
                    },
                ),
            )
        }
    }
}

impl Dnode {
    /// Top level pointers, or nothing for a hole.
    pub fn pointers(&self) -> (r: &[Option<BlockPointer>])
        ensures
            pointers_view(r@) == self@.ptrs,
    {
        self.ptrs.as_slice()
    }

    /// Bonus data that is in use.
    pub fn bonus_used(&self) -> (r: &[u8])
        ensures
            r@ == self@.bonus,
    {
        self.bonus.as_slice()
    }

    /// Decodes a dnode.
    pub fn from_bytes(bytes: &[u8], order: EndianOrder) -> (r: Result<Option<Dnode>, Malformed>)
        ensures
            match r {
                Ok(d) => dnode_of(bytes@, order) == Ok::<Option<DnodeView>, Malformed>(
                    dnode_view(d),
                ),
                Err(e) => dnode_of(bytes@, order) == Err::<Option<DnodeView>, Malformed>(e),
            },
    {
        reveal(dnode_of);
        if bytes.len() < 512 {
            return Err(Malformed {  });
        }
        if bytes[0] == 0 {
            return Ok(None);
        }
        let n: usize = bytes[3] as usize;
        if n < 1 || n > 3 {
            return Err(Malformed {  });
        }
        let start: usize = 64 + 128 * n;
        let used: usize = read_u16(bytes, 10, order) as usize;
        let spill: usize = if bytes[7] / 4 % 2 == 1 {
            128
        } else {
            0
        };
        if start + used + spill > 512 {
            return Err(Malformed {  });
        }
        let mut ptrs: Vec<Option<BlockPointer>> = Vec::new();
        let mut i: usize = 0;
        while i < n
            invariant
                i <= n <= 3,
                n == bytes@[3],
                64 + 128 * n <= 512 <= bytes@.len(),
                bytes@[0] != 0,
                dnode_of(bytes@, order) is Ok ==> forall|k: int|
                    0 <= k < n ==> #[trigger] pointer_at(bytes@, 64 + 128 * k, order) is Ok,
                ptrs@.len() == i,
                forall|k: int|
                    0 <= k < i ==> #[trigger] pointer_at(bytes@, 64 + 128 * k, order) == Ok::<
                        Option<Pointer>,
                        Malformed,
                    >(pointer_view(ptrs@[k])),
            decreases n - i,
        {
            match BlockPointer::from_bytes(bytes, 64 + 128 * i, order) {
                Ok(p) => {
                    ptrs.push(p);
                },
                Err(e) => {
                    assert(pointer_at(bytes@, 64 + 128 * i, order) is Err);
                    reveal(dnode_of);
                    return Err(e);
                },
            }
            i += 1;
        }
        proof {
            let all = Seq::new(
                n as nat,
                |k: int| pointer_at(bytes@, 64 + 128 * k, order)->Ok_0,
            );
            assert(pointers_view(ptrs@) =~= all) by {
                assert forall|k: int| 0 <= k < n implies pointers_view(ptrs@)[k] == all[k] by {
                    assert(pointer_at(bytes@, 64 + 128 * k, order) is Ok);
                }
            }
        }
        Ok(
            Some(
                Dnode {
                    levels: bytes[2],
                    indirect_block_shift: bytes[1],
                    data_block_size_sectors: read_u16(bytes, 8, order),
                    ptrs,
                    bonus: vstd::slice::slice_to_vec(&bytes[start..start + used]),
                },
            ),
        )
    }
}

/// An object set.
#[derive(Debug)]
pub struct ObjectSet {
    /// The dnode whose data are the dnodes of the objects.
    pub dnode: Dnode,
}

/// The meta dnode of an object set.
pub open spec fn object_set_of(s: Seq<u8>, order: EndianOrder) -> Result<DnodeView, Malformed> {
    if s.len() < OBJECT_SET_SIZE {
        Err(Malformed {  })
    } else {
        match dnode_of(s.take(512), order) {
            Ok(Some(d)) => Ok(d),
            _ => Err(Malformed {  }),
        }
    }
}

impl ObjectSet {
    /// Decodes an object set.
    pub fn from_bytes(bytes: &[u8], order: EndianOrder) -> (r: Result<ObjectSet, Malformed>)
        ensures
            match r {
                Ok(set) => object_set_of(bytes@, order) == Ok::<DnodeView, Malformed>(set.dnode@),
                Err(e) => object_set_of(bytes@, order) == Err::<DnodeView, Malformed>(e),
            },
    {
        if bytes.len() < OBJECT_SET_SIZE {
            return Err(Malformed {  });
        }
        let head = &bytes[0..512];
        assert(head@ =~= bytes@.take(512));
        match Dnode::from_bytes(head, order) {
            Ok(Some(dnode)) => Ok(ObjectSet { dnode }),
            _ => Err(Malformed {  }),
        }
    }
}

/// The fields of a dnode: its type, which is not zero, the shift of indirect blocks, the
/// levels and the number of pointers are bytes 0 to 3; the block size in sectors and the
/// length of the bonus data are the half-words at bytes 8 and 10. The pointers, of which there
/// are at most three, start at byte 64 and have 128 bytes each; the bonus data comes behind
/// them. If bit 2 of byte 7 is set, the last 128 bytes are not for bonus data.
pub proof fn law_layout_of_dnodes(s: Seq<u8>, order: EndianOrder)
    requires
        s.len() >= 512,
        s[0] != 0,
        1 <= s[3] <= 3,
        64 + 128 * s[3] + u16_at(s, 10, order) <= (if s[7] / 4 % 2 == 1 {
            384int
        } else {
            512int
        }),
        forall|i: int| 0 <= i < s[3] ==> #[trigger] pointer_at(s, 64 + 128 * i, order) is Ok,
    ensures
        dnode_of(s, order) matches Ok(Some(d)) && {
            &&& d.indirect_block_shift == s[1]
            &&& d.levels == s[2]
            &&& d.ptrs.len() == s[3]
            &&& d.data_block_size_sectors == u16_at(s, 8, order)
            &&& forall|i: int|
                0 <= i < s[3] ==> pointer_at(s, 64 + 128 * i, order) == Ok::<
                    Option<Pointer>,
                    Malformed,
                >(#[trigger] d.ptrs[i])
            &&& d.bonus.len() == u16_at(s, 10, order)
            &&& forall|i: int|
                0 <= i < d.bonus.len() ==> #[trigger] d.bonus[i] == s[64 + 128 * s[3] + i]
        },
{
    reveal(dnode_of);
    let d = dnode_of(s, order)->Ok_0->0;
    assert forall|i: int| 0 <= i < s[3] implies pointer_at(s, 64 + 128 * i, order) == Ok::<
        Option<Pointer>,
        Malformed,
    >(#[trigger] d.ptrs[i]) by {
        assert(pointer_at(s, 64 + 128 * i, order) is Ok);
    }
}

/// A dnode of type zero is free, and what is shorter than 512 bytes, or has no pointer or more
/// than three, is none.
pub proof fn law_free_and_malformed_dnodes(s: Seq<u8>, order: EndianOrder)
    ensures
        s.len() < 512 ==> dnode_of(s, order) is Err,
        s.len() >= 512 && s[0] == 0 ==> dnode_of(s, order) == Ok::<Option<DnodeView>, Malformed>(
            None,
        ),
        s.len() >= 512 && s[0] != 0 && !(1 <= s[3] <= 3) ==> dnode_of(s, order) is Err,
{
    reveal(dnode_of);
}

/// An object set starts with its meta dnode, and has at least 1024 bytes.
pub proof fn law_object_sets_start_with_a_dnode(s: Seq<u8>, order: EndianOrder, d: DnodeView)
    ensures
        object_set_of(s, order) == Ok::<DnodeView, Malformed>(d) <==> s.len() >= 1024 && dnode_of(
            s.subrange(0, 512),
            order,
        ) == Ok::<Option<DnodeView>, Malformed>(Some(d)),
{
    if s.len() >= 1024 {
        assert(s.subrange(0, 512) =~= s.take(512));
    }
}

/// A dnode whose bonus data does not fit behind its pointers, or of whose pointers one is
/// malformed, is malformed.
pub proof fn law_overfull_dnodes(s: Seq<u8>, order: EndianOrder, i: int)
    requires
        s.len() >= 512,
        s[0] != 0,
        64 + 128 * s[3] + u16_at(s, 10, order) > (if s[7] / 4 % 2 == 1 {
            384int
        } else {
            512int
        }) || (0 <= i < s[3] && pointer_at(s, 64 + 128 * i, order) is Err),
    ensures
        dnode_of(s, order) is Err,
{
    reveal(dnode_of);
}

} // verus!
