//! Block pointers.

use crate::phys::endian::{read_u64, u64_at, EndianOrder};
use crate::phys::property::{
    checksum_type, compression_type, ChecksumType, ChecksumValue, CompressionType,
};
use crate::phys::Malformed;
use vstd::prelude::*;

verus! {

/// Size of a block pointer.
pub const BLKPTR_SIZE: usize = 128;

/// Bytes that an embedded pointer has room for.
pub const EMBEDDED_PAYLOAD_SIZE: usize = 112;

/// Where one copy of a block is.
#[derive(Debug, Clone, Copy, PartialEq, Eq, Structural)]
pub struct Dva {
    /// Top level vdev.
    pub vdev: u32,
    /// Offset in sectors.
    pub offset: u64,
    /// Whether a list of further pointers is there in place of the data.
    pub is_gang: bool,
}

/// A pointer that holds its data.
#[derive(Debug)]
pub struct EmbeddedPointer {
    /// The data and what follows it.
    pub payload: [u8; 112],
    /// Size of the data.
    pub logical_size: usize,
    /// Size of the compressed data.
    pub physical_size: usize,
    /// Compression of the data.
    pub compression: CompressionType,
    /// Byte order of the data.
    pub order: EndianOrder,
}

/// A pointer to encrypted data.
#[derive(Debug, Clone, Copy, PartialEq, Eq, Structural)]
pub struct EncryptedPointer {
    /// Byte order of the data.
    pub order: EndianOrder,
}

/// A pointer to data elsewhere.
#[derive(Debug, Clone, Copy)]
pub struct RegularPointer {
    /// Size of the data in sectors.
    pub logical_sectors: u32,
    /// Size of the compressed data in sectors.
    pub physical_sectors: u32,
    /// Copies of the data.
    pub dvas: [Option<Dva>; 3],
    /// Checksum algorithm.
    pub checksum_type: ChecksumType,
    /// Checksum of the compressed data.
    pub checksum_value: ChecksumValue,
    /// Compression of the data.
    pub compression: CompressionType,
    /// Byte order of the data.
    pub order: EndianOrder,
}

/// A block pointer.
#[derive(Debug)]
pub enum BlockPointer {
    /// The data itself.
    Embedded(EmbeddedPointer),
    /// Encrypted data.
    Encrypted(EncryptedPointer),
    /// Data elsewhere.
    Regular(RegularPointer),
}

/// What a block pointer says.
pub ghost enum Pointer {
    Embedded {
        payload: Seq<u8>,
        logical_size: nat,
        physical_size: nat,
        compression: CompressionType,
        order: EndianOrder,
    },
    Encrypted { order: EndianOrder },
    Regular(RegularPointer),
}

impl Pointer {
    /// Byte order of the data.
    pub open spec fn order(self) -> EndianOrder {
        match self {
            Pointer::Embedded { order, .. } => order,
            Pointer::Encrypted { order } => order,
            Pointer::Regular(r) => r.order,
        }
    }
}

impl View for BlockPointer {
    type V = Pointer;

    open spec fn view(&self) -> Pointer {
        match self {
            BlockPointer::Embedded(e) => Pointer::Embedded {
                payload: e.payload@,
                logical_size: e.logical_size as nat,
                physical_size: e.physical_size as nat,
                compression: e.compression,
                order: e.order,
            },
            BlockPointer::Encrypted(e) => Pointer::Encrypted { order: e.order },
            BlockPointer::Regular(r) => Pointer::Regular(*r),
        }
    }
}

/// What an optional block pointer says.
pub open spec fn pointer_view(p: Option<BlockPointer>) -> Option<Pointer> {
    match p {
        Some(bp) => Some(bp@),
        None => None,
    }
}

/// The copy whose two words are given, if there is one.
pub open spec fn dva_of(w0: u64, w1: u64) -> Option<Dva> {
    if w0 == 0 && w1 == 0 {
        None
    } else {
        Some(
            Dva {
                vdev: (w0 / 0x1_0000_0000 % 0x100_0000) as u32,
                offset: w1 % 0x8000_0000_0000_0000,
                is_gang: w1 >= 0x8000_0000_0000_0000,
            },
        )
    }
}

/// The bytes of an embedded pointer that are data: all but the two words that any
/// pointer has, its properties and its birth.
pub open spec fn embedded_payload(s: Seq<u8>, p: int) -> Seq<u8> {
    s.subrange(p, p + 48) + s.subrange(p + 56, p + 80) + s.subrange(p + 88, p + 128)
}

/// The byte order that the properties of a pointer name.
pub open spec fn order_of(prop: u64) -> EndianOrder {
    if prop / 0x8000_0000_0000_0000 == 1 {
        EndianOrder::Little
    } else {
        EndianOrder::Big
    }
}

/// The checksum at `p`.
pub open spec fn checksum_at(s: Seq<u8>, p: int, order: EndianOrder) -> ChecksumValue {
    ChecksumValue {
        words: [
            u64_at(s, p, order),
            u64_at(s, p + 8, order),
            u64_at(s, p + 16, order),
            u64_at(s, p + 24, order),
        ],
    }
}

/// The pointer at `p`: nothing for a hole, which is a pointer without a first copy.
#[verifier::opaque]
pub open spec fn pointer_at(s: Seq<u8>, p: int, order: EndianOrder) -> Result<
    Option<Pointer>,
    Malformed,
> {
    let prop = u64_at(s, p + 48, order);
    let compression = compression_type((prop / 0x1_0000_0000 % 0x80) as u8);
    let kind = (prop / 0x100_0000_0000 % 0x100) as u8;
    let is_embedded = prop / 0x80_0000_0000 % 2 == 1;
    let is_encrypted = prop / 0x2000_0000_0000_0000 % 2 == 1;
    let first = dva_of(u64_at(s, p, order), u64_at(s, p + 8, order));
    if is_embedded {
        if kind != 0 || compression is None {
            Err(Malformed {  })
        } else {
            Ok(
                Some(
                    Pointer::Embedded {
                        payload: embedded_payload(s, p),
                        logical_size: (prop % 0x200_0000 + 1) as nat,
                        physical_size: (prop / 0x200_0000 % 0x80 + 1) as nat,
                        compression: compression->0,
                        order: order_of(prop),
                    },
                ),
            )
        }
    } else if first is None {
        Ok(None)
    } else if is_encrypted {
        Ok(Some(Pointer::Encrypted { order: order_of(prop) }))
    } else if compression is None || checksum_type(kind) is None {
        Err(Malformed {  })
    } else {
        Ok(
            Some(
                Pointer::Regular(
                    RegularPointer {
                        logical_sectors: (prop % 0x1_0000 + 1) as u32,
                        physical_sectors: (prop / 0x1_0000 % 0x1_0000 + 1) as u32,
                        dvas: [
                            first,
                            dva_of(u64_at(s, p + 16, order), u64_at(s, p + 24, order)),
                            dva_of(u64_at(s, p + 32, order), u64_at(s, p + 40, order)),
                        ],
                        checksum_type: checksum_type(kind)->0,
                        checksum_value: checksum_at(s, p + 96, order),
                        compression: compression->0,
                        order: order_of(prop),
                    },
                ),
            ),
        )
    }
}

impl Dva {
    /// Decodes the two words of a copy.
    fn from_words(w0: u64, w1: u64) -> (r: Option<Dva>)
        ensures
            r == dva_of(w0, w1),
    {
        if w0 == 0 && w1 == 0 {
            None
        } else {
            Some(
                Dva {
                    vdev: (w0 / 0x1_0000_0000 % 0x100_0000) as u32,
                    offset: w1 % 0x8000_0000_0000_0000,
                    is_gang: w1 >= 0x8000_0000_0000_0000,
                },
            )
        }
    }
}

impl BlockPointer {
    /// Byte order of the data.
    pub fn order(&self) -> (r: EndianOrder)
        ensures
            r == self@.order(),
    {
        match self {
            BlockPointer::Embedded(e) => e.order,
            BlockPointer::Encrypted(e) => e.order,
            BlockPointer::Regular(r) => r.order,
        }
    }

    /// Copies the data out of an embedded pointer.
    fn payload(bytes: &[u8], pos: usize) -> (r: [u8; 112])
        requires
            pos + 128 <= bytes@.len(),
        ensures
            r@ == embedded_payload(bytes@, pos as int),
    {
        assert(bytes@.len() == bytes.len());
        let mut payload: [u8; 112] = [0; 112];
        let mut i: usize = 0;
        while i < 112
            invariant
                i <= 112,
                pos + 128 <= bytes@.len() <= usize::MAX,
                forall|k: int|
                    0 <= k < i ==> #[trigger] payload@[k] == embedded_payload(
                        bytes@,
                        pos as int,
                    )[k],
            decreases 112 - i,
        {
            let skip: usize = if i < 48 {
                0
            } else if i < 72 {
                8
            } else {
                16
            };
            payload[i] = bytes[pos + i + skip];
            i += 1;
        }
        assert(payload@ =~= embedded_payload(bytes@, pos as int));
        payload
    }

    /// Decodes the pointer at `pos`.
    pub fn from_bytes(bytes: &[u8], pos: usize, order: EndianOrder) -> (r: Result<
        Option<BlockPointer>,
        Malformed,
    >)
        requires
            pos + 128 <= bytes@.len(),
        ensures
            match r {
                Ok(bp) => pointer_at(bytes@, pos as int, order) == Ok::<
                    Option<Pointer>,
                    Malformed,
                >(pointer_view(bp)),
                Err(e) => pointer_at(bytes@, pos as int, order) == Err::<
                    Option<Pointer>,
                    Malformed,
                >(e),
            },
    {
        reveal(pointer_at);
        assert(bytes@.len() == bytes.len());
        let prop = read_u64(bytes, pos + 48, order);
        let data_order = if prop / 0x8000_0000_0000_0000 == 1 {
            EndianOrder::Little
        } else {
            EndianOrder::Big
        };
        let compression = CompressionType::from_id((prop / 0x1_0000_0000 % 0x80) as u8);
        let kind: u8 = (prop / 0x100_0000_0000 % 0x100) as u8;
        if prop / 0x80_0000_0000 % 2 == 1 {
            return match compression {
                Some(compression) if kind == 0 => Ok(
                    Some(
                        BlockPointer::Embedded(
                            EmbeddedPointer {
                                payload: Self::payload(bytes, pos),
                                logical_size: (prop % 0x200_0000) as usize + 1,
                                physical_size: (prop / 0x200_0000 % 0x80) as usize + 1,
                                compression,
                                order: data_order,
                            },
                        ),
                    ),
                ),
                _ => Err(Malformed {  }),
            };
        }
        let first = Dva::from_words(read_u64(bytes, pos, order), read_u64(bytes, pos + 8, order));
        if first.is_none() {
            return Ok(None);
        }
        if prop / 0x2000_0000_0000_0000 % 2 == 1 {
            return Ok(Some(BlockPointer::Encrypted(EncryptedPointer { order: data_order })));
        }
        match (compression, ChecksumType::from_id(kind)) {
            (Some(compression), Some(checksum_type)) => {
                let dvas: [Option<Dva>; 3] = [
                    first,
                    Dva::from_words(
                        read_u64(bytes, pos + 16, order),
                        read_u64(bytes, pos + 24, order),
                    ),
                    Dva::from_words(
                        read_u64(bytes, pos + 32, order),
                        read_u64(bytes, pos + 40, order),
                    ),
                ];
                let words: [u64; 4] = [
                    read_u64(bytes, pos + 96, order),
                    read_u64(bytes, pos + 104, order),
                    read_u64(bytes, pos + 112, order),
                    read_u64(bytes, pos + 120, order),
                ];
                proof {
                    assert(words =~= checksum_at(bytes@, pos + 96, order).words);
                    let all: [Option<Dva>; 3] = [
                        dva_of(
                            u64_at(bytes@, pos as int, order),
                            u64_at(bytes@, pos + 8, order),
                        ),
                        dva_of(u64_at(bytes@, pos + 16, order), u64_at(bytes@, pos + 24, order)),
                        dva_of(u64_at(bytes@, pos + 32, order), u64_at(bytes@, pos + 40, order)),
                    ];
                    assert(dvas =~= all);
                }
                Ok(
                    Some(
                        BlockPointer::Regular(
                            RegularPointer {
                                logical_sectors: (prop % 0x1_0000) as u32 + 1,
                                physical_sectors: (prop / 0x1_0000 % 0x1_0000) as u32 + 1,
                                dvas,
                                checksum_type,
                                checksum_value: ChecksumValue { words },
                                compression,
                                order: data_order,
                            },
                        ),
                    ),
                )
            },
            _ => Err(Malformed {  }),
        }
    }
}

/// The fields of a number are where their weights put them.
proof fn lemma_fields(low: int, rest: int, weight: int)
    requires
        0 <= low < weight,
        0 <= rest,
    ensures
        (low + rest * weight) % weight == low,
        (low + rest * weight) / weight == rest,
        0 <= rest * weight,
{
    vstd::arithmetic::div_mod::lemma_fundamental_div_mod_converse(
        low + rest * weight,
        weight,
        rest,
        low,
    );
    assert(0 <= rest * weight) by (nonlinear_arith)
        requires
            0 <= rest,
            0 < weight,
    {
    }
}

/// The two words of a copy: the vdev has 24 bits from bit 32 of the first on; the second is
/// the offset in sectors, but for its highest bit, which tells that there is a gang block. A
/// copy whose words are both zero is not there.
pub proof fn law_layout_of_copies(low: int, vdev: int, high: int, offset: int, gang: bool)
    requires
        0 <= low < 0x1_0000_0000,
        0 <= vdev < 0x100_0000,
        0 <= high < 0x100,
        0 <= offset < 0x8000_0000_0000_0000,
    ensures
        ({
            let w0 = (low + vdev * 0x1_0000_0000 + high * 0x100_0000_0000_0000) as u64;
            let w1 = if gang {
                (offset + 0x8000_0000_0000_0000) as u64
            } else {
                offset as u64
            };
            dva_of(w0, w1) == (if w0 == 0 && w1 == 0 {
                None
            } else {
                Some(Dva { vdev: vdev as u32, offset: offset as u64, is_gang: gang })
            })
        }),
{
    let upper = vdev + high * 0x100_0000;
    lemma_fields(low, upper, 0x1_0000_0000);
    lemma_fields(vdev, high, 0x100_0000);
    assert(low + vdev * 0x1_0000_0000 + high * 0x100_0000_0000_0000 == low + upper
        * 0x1_0000_0000);
}

/// The properties of a pointer are fields of one word: from the lowest bit on, 16 bits for
/// the logical size and 16 for the physical size, both in sectors less one, 7 bits for the
/// compression, a bit that is set if the data is in the pointer, 8 bits for the checksum,
/// 13 bits that are not needed, a bit that is set for encrypted data, another that is not
/// needed, and a bit that is set for little endian data. The copies come first, and the
/// checksum is in the last four words.
pub proof fn law_layout_of_regular_pointers(
    s: Seq<u8>,
    p: int,
    order: EndianOrder,
    logical: int,
    physical: int,
    compression: u8,
    checksum: u8,
    other: int,
    dedup: bool,
    little: bool,
)
    requires
        1 <= logical <= 0x1_0000,
        1 <= physical <= 0x1_0000,
        compression < 0x80,
        compression_type(compression) is Some,
        checksum_type(checksum) is Some,
        0 <= other < 0x2000,
        u64_at(s, p + 48, order) == (logical - 1) + (physical - 1) * 0x1_0000 + compression
            * 0x1_0000_0000 + checksum * 0x100_0000_0000 + other * 0x1_0000_0000_0000 + (if dedup {
            0x4000_0000_0000_0000
        } else {
            0int
        }) + (if little {
            0x8000_0000_0000_0000
        } else {
            0int
        }),
        u64_at(s, p, order) != 0 || u64_at(s, p + 8, order) != 0,
    ensures
        pointer_at(s, p, order) matches Ok(Some(Pointer::Regular(r))) && {
            &&& r.logical_sectors == logical
            &&& r.physical_sectors == physical
            &&& Some(r.compression) == compression_type(compression)
            &&& Some(r.checksum_type) == checksum_type(checksum)
            &&& r.order == (if little {
                EndianOrder::Little
            } else {
                EndianOrder::Big
            })
            &&& forall|k: int|
                0 <= k < 3 ==> #[trigger] r.dvas[k] == dva_of(
                    u64_at(s, p + 16 * k, order),
                    u64_at(s, p + 16 * k + 8, order),
                )
            &&& forall|k: int|
                0 <= k < 4 ==> #[trigger] r.checksum_value.words[k] == u64_at(
                    s,
                    p + 96 + 8 * k,
                    order,
                )
        },
{
    reveal(pointer_at);
    let prop = u64_at(s, p + 48, order);
    let top: int = (if dedup {
        1int
    } else {
        0
    }) + (if little {
        2int
    } else {
        0
    });
    let f5 = top * 2;
    let f4 = other + f5 * 0x2000;
    let f3 = checksum + f4 * 0x100;
    let f2 = compression + f3 * 0x100;
    let f1 = (physical - 1) + f2 * 0x1_0000;
    assert(prop == (logical - 1) + f1 * 0x1_0000);
    lemma_fields(logical - 1, f1, 0x1_0000);
    lemma_fields(physical - 1, f2, 0x1_0000);
    lemma_fields(compression as int, f3, 0x100);
    lemma_fields(checksum as int, f4, 0x100);
    lemma_fields(other, f5, 0x2000);
    assert(prop as int / 0x1_0000 == f1);
    assert(prop as int / 0x1_0000_0000 == f2);
    assert(prop as int / 0x100_0000_0000 == f3);
    assert(prop as int / 0x80_0000_0000 == 2 * f3);
    assert(prop as int / 0x1_0000_0000_0000 == f4);
    assert(prop as int / 0x2000_0000_0000_0000 == f5);
    assert(f2 % 0x80 == compression);
}

/// A pointer whose data is in it: the logical size less one has 25 bits of its properties,
/// the physical size less one 7, and the compression 7 more, and there is no type. The data
/// is all of the pointer, but for the two words at byte 48 and byte 80.
pub proof fn law_layout_of_embedded_pointers(
    s: Seq<u8>,
    p: int,
    order: EndianOrder,
    logical: int,
    physical: int,
    compression: u8,
    other: int,
    little: bool,
)
    requires
        0 <= p,
        p + 128 <= s.len(),
        1 <= logical <= 0x200_0000,
        1 <= physical <= 0x80,
        compression < 0x80,
        compression_type(compression) is Some,
        0 <= other < 0x8000,
        u64_at(s, p + 48, order) == (logical - 1) + (physical - 1) * 0x200_0000 + compression
            * 0x1_0000_0000 + 0x80_0000_0000 + other * 0x1_0000_0000_0000 + (if little {
            0x8000_0000_0000_0000
        } else {
            0int
        }),
    ensures
        pointer_at(s, p, order) matches Ok(
            Some(
                Pointer::Embedded {
                    payload,
                    logical_size,
                    physical_size,
                    compression: c,
                    order: data_order,
                },
            ),
        ) && {
            &&& logical_size == logical
            &&& physical_size == physical
            &&& Some(c) == compression_type(compression)
            &&& data_order == (if little {
                EndianOrder::Little
            } else {
                EndianOrder::Big
            })
            &&& payload.len() == 112
            &&& forall|i: int| 0 <= i < 48 ==> #[trigger] payload[i] == s[p + i]
            &&& forall|i: int| 48 <= i < 72 ==> #[trigger] payload[i] == s[p + i + 8]
            &&& forall|i: int| 72 <= i < 112 ==> #[trigger] payload[i] == s[p + i + 16]
        },
{
    reveal(pointer_at);
    let prop = u64_at(s, p + 48, order);
    let f5: int = if little {
        1
    } else {
        0
    };
    let f4 = other + f5 * 0x8000;
    let f3 = f4 * 0x100;
    let f2 = compression + 0x80 + f3 * 0x100;
    let f1 = (physical - 1) + f2 * 0x80;
    assert(prop == (logical - 1) + f1 * 0x200_0000);
    lemma_fields(logical - 1, f1, 0x200_0000);
    lemma_fields(physical - 1, f2, 0x80);
    lemma_fields(compression + 0x80, f3, 0x100);
    lemma_fields(0, f4, 0x100);
    lemma_fields(other, f5, 0x8000);
    assert(prop as int / 0x200_0000 == f1);
    assert(prop as int / 0x1_0000_0000 == f2);
    assert(prop as int / 0x100_0000_0000 == f3);
    assert(prop as int / 0x1_0000_0000_0000 == f4);
    assert(prop as int / 0x8000_0000_0000_0000 == f5);
    assert(prop as int / 0x80_0000_0000 == 2 * f3 + 1);
    assert(f2 % 0x80 == compression);
}

/// A pointer that is neither its own data nor has a first copy is a hole, and one that has is
/// not.
pub proof fn law_holes_have_no_first_copy(s: Seq<u8>, p: int, order: EndianOrder)
    requires
        u64_at(s, p + 48, order) as int / 0x80_0000_0000 % 2 == 0,
    ensures
        pointer_at(s, p, order) == Ok::<Option<Pointer>, Malformed>(None) <==> (u64_at(s, p, order)
            == 0 && u64_at(s, p + 8, order) == 0),
{
    reveal(pointer_at);
}

/// A pointer with a first copy, which is not its own data, is to encrypted data if bit 61 of
/// its properties is set. Otherwise it is refused if the 7 bits from bit 32 on name no
/// compression, or the 8 bits from bit 40 on no checksum.
pub proof fn law_pointers_that_are_not_followed(s: Seq<u8>, p: int, order: EndianOrder)
    requires
        u64_at(s, p + 48, order) as int / 0x80_0000_0000 % 2 == 0,
        u64_at(s, p, order) != 0 || u64_at(s, p + 8, order) != 0,
    ensures
        ({
            let prop = u64_at(s, p + 48, order) as int;
            let encrypted = prop / 0x2000_0000_0000_0000 % 2 == 1;
            let known = compression_type((prop / 0x1_0000_0000 % 0x80) as u8) is Some
                && checksum_type((prop / 0x100_0000_0000 % 0x100) as u8) is Some;
            &&& encrypted <==> (pointer_at(s, p, order) matches Ok(Some(Pointer::Encrypted { .. })))
            &&& !encrypted ==> (known <==> pointer_at(s, p, order) is Ok)
        }),
{
    reveal(pointer_at);
}

/// A pointer that is said to hold its data is refused if the 8 bits from bit 40 on of its
/// properties are not zero, or the 7 from bit 32 on name no compression.
pub proof fn law_embedded_pointers_that_are_refused(s: Seq<u8>, p: int, order: EndianOrder)
    requires
        u64_at(s, p + 48, order) as int / 0x80_0000_0000 % 2 == 1,
    ensures
        ({
            let prop = u64_at(s, p + 48, order) as int;
            pointer_at(s, p, order) is Err <==> prop / 0x100_0000_0000 % 0x100 != 0
                || compression_type((prop / 0x1_0000_0000 % 0x80) as u8) is None
        }),
{
    reveal(pointer_at);
}

} // verus!
