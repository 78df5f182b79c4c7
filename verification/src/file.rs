//! The data of objects, through their trees of block pointers.

use crate::block_read::{BlockRead, PoolMember, Run};
use crate::compress::MAX_BLOCK_LSIZE;
use crate::error::{bytes_of, Error, Location};
use crate::phys::block_pointer::{pointer_at, pointer_view, BlockPointer, Pointer, BLKPTR_SIZE};
use crate::phys::dnode::{pointers_view, Dnode, DnodeView};
use crate::phys::endian::EndianOrder;
use crate::redundancy::{all_stable, law_reading_changes_nothing};
use crate::vdev::{read_block_pointer, read_pointer, Layout, Vdev};
use vstd::arithmetic::power2::{lemma_pow2_pos, pow2};
use vstd::prelude::*;

verus! {

/// Most levels that a dnode may have. Valid ones have fewer.
pub const DN_MAX_LEVELS: u8 = 16;

/// The digit of a block number that names a pointer: the number without its last `exp`
/// bits, as far as `bits` bits go.
pub open spec fn digit(blkid: u64, exp: nat, bits: nat) -> nat {
    blkid as nat / pow2(exp) % pow2(bits)
}

/// Binary logarithm of the number of pointers in an indirect block.
pub open spec fn fan_shift(d: DnodeView) -> nat {
    if d.indirect_block_shift < 7 {
        0
    } else {
        (d.indirect_block_shift - 7) as nat
    }
}

/// The data block below an indirect block at level `l`, or nothing for a hole.
pub open spec fn descend<R: BlockRead>(
    members: Seq<PoolMember<R>>,
    layout: Layout,
    current: Seq<u8>,
    l: nat,
    blkid: u64,
    shift: nat,
    order: EndianOrder,
) -> Run<R, Option<Seq<u8>>>
    decreases l,
{
    if l == 0 {
        Run { members, result: Ok(Some(current)) }
    } else {
        let start = 128 * digit(blkid, shift * ((l - 1) as nat), shift);
        let here = Location::Indirect { obj: 0, level: l as u8 };
        if start + 128 > current.len() {
            Run {
                members,
                result: Err(Error::Inconsistent { token: "indirect_oob", where_: here }),
            }
        } else {
            match pointer_at(current, start as int, order) {
                Err(_) => Run {
                    members,
                    result: Err(
                        Error::Inconsistent { token: "indirect_bp_decode", where_: here },
                    ),
                },
                Ok(None) => Run { members, result: Ok(None) },
                Ok(Some(p)) => {
                    let run = read_pointer(members, layout, p);
                    match run.result {
                        Err(e) => Run { members: run.members, result: Err(e) },
                        Ok(block) => descend(
                            run.members,
                            layout,
                            block,
                            (l - 1) as nat,
                            blkid,
                            shift,
                            order,
                        ),
                    }
                },
            }
        }
    }
}

/// Block `blkid` of an object, or nothing for a hole.
#[verifier::opaque]
pub open spec fn read_block<R: BlockRead>(
    members: Seq<PoolMember<R>>,
    layout: Layout,
    d: DnodeView,
    blkid: u64,
    order: EndianOrder,
) -> Run<R, Option<Seq<u8>>> {
    let shift = fan_shift(d);
    let here = Location::Dnode { obj: 0 };
    if d.levels == 0 {
        Run { members, result: Ok(None) }
    } else if d.levels > DN_MAX_LEVELS {
        Run { members, result: Err(Error::Inconsistent { token: "dnode_levels", where_: here }) }
    } else if shift >= 64 || shift * ((d.levels - 1) as nat) >= 64 {
        Run { members, result: Err(Error::Inconsistent { token: "dnode_indshift", where_: here }) }
    } else {
        let top = blkid as nat / pow2(shift * ((d.levels - 1) as nat));
        if top >= d.ptrs.len() || d.ptrs[top as int] is None {
            Run { members, result: Ok(None) }
        } else {
            let run = read_pointer(members, layout, d.ptrs[top as int]->0);
            match run.result {
                Err(e) => Run { members: run.members, result: Err(e) },
                Ok(block) => descend(
                    run.members,
                    layout,
                    block,
                    (d.levels - 1) as nat,
                    blkid,
                    shift,
                    order,
                ),
            }
        }
    }
}

/// The smaller of two numbers.
pub open spec fn least(a: int, b: int) -> int {
    if a <= b {
        a
    } else {
        b
    }
}

/// `out` and the bytes of the object that follow it, up to `len` bytes from `off` on.
/// Holes are zeros.
pub open spec fn fill_range<R: BlockRead>(
    members: Seq<PoolMember<R>>,
    layout: Layout,
    d: DnodeView,
    off: u64,
    len: nat,
    order: EndianOrder,
    out: Seq<u8>,
) -> Run<R, Seq<u8>>
    decreases len - out.len(),
{
    let size = d.data_block_size_sectors * 512;
    let pos = off + out.len();
    let here = Location::Dnode { obj: 0 };
    if out.len() >= len || size == 0 {
        Run { members, result: Ok(out) }
    } else if pos > u64::MAX {
        Run { members, result: Err(Error::Inconsistent { token: "range_overflow", where_: here }) }
    } else {
        let within = pos % size;
        let want = least(size - within, len - out.len());
        let run = read_block(members, layout, d, (pos / size) as u64, order);
        proof {
            lemma_within(pos, size);
        }
        match run.result {
            Err(e) => Run { members: run.members, result: Err(e) },
            Ok(None) => fill_range(
                run.members,
                layout,
                d,
                off,
                len,
                order,
                out + Seq::new(want as nat, |i: int| 0u8),
            ),
            Ok(Some(block)) => if within + want > block.len() {
                Run {
                    members: run.members,
                    result: Err(Error::Inconsistent { token: "block_short", where_: here }),
                }
            } else {
                fill_range(
                    run.members,
                    layout,
                    d,
                    off,
                    len,
                    order,
                    out + block.subrange(within, within + want),
                )
            },
        }
    }
}

/// The `len` bytes of an object from `off` on.
#[verifier::opaque]
pub open spec fn read_range<R: BlockRead>(
    members: Seq<PoolMember<R>>,
    layout: Layout,
    d: DnodeView,
    off: u64,
    len: nat,
    order: EndianOrder,
) -> Run<R, Seq<u8>> {
    if d.data_block_size_sectors == 0 {
        Run {
            members,
            result: Err(
                Error::Inconsistent { token: "dnode_dbsz0", where_: Location::Dnode { obj: 0 } },
            ),
        }
    } else {
        fill_range(members, layout, d, off, len, order, Seq::empty())
    }
}

/// Where a position is within its block.
pub proof fn lemma_within(pos: int, size: int)
    requires
        0 <= pos,
        0 < size,
    ensures
        0 <= pos % size < size,
        0 <= pos / size <= pos,
        pos == pos / size * size + pos % size,
{
    vstd::arithmetic::div_mod::lemma_fundamental_div_mod(pos, size);
    vstd::arithmetic::div_mod::lemma_mod_bound(pos, size);
    vstd::arithmetic::div_mod::lemma_div_pos_is_pos(pos, size);
    vstd::arithmetic::div_mod::lemma_div_is_ordered_by_denominator(pos, 1, size);
    assert(pos / size * size == size * (pos / size)) by (nonlinear_arith);
}

/// Takes a digit out of a block number.
fn digit_of(blkid: u64, exp: u32, bits: u32) -> (r: u64)
    requires
        exp < 64,
        bits < 64,
    ensures
        r == digit(blkid, exp as nat, bits as nat),
{
    proof {
        vstd::bits::lemma_u64_shr_is_div(blkid, exp as u64);
        vstd::bits::lemma_u64_pow2_no_overflow(bits as nat);
        vstd::bits::lemma_u64_shl_is_mul(1, bits as u64);
        lemma_pow2_pos(bits as nat);
    }
    let high: u64 = blkid >> (exp as u64);
    let mask: u64 = (1u64 << (bits as u64)) - 1;
    proof {
        vstd::bits::lemma_u64_low_bits_mask_is_mod(high, bits as nat);
    }
    high & mask
}

/// Takes the last bits off a block number.
fn top_of(blkid: u64, exp: u32) -> (r: u64)
    requires
        exp < 64,
    ensures
        r == blkid as nat / pow2(exp as nat),
{
    proof {
        vstd::bits::lemma_u64_shr_is_div(blkid, exp as u64);
    }
    blkid >> (exp as u64)
}

/// Reads the data block below an indirect block.
fn walk_down<R: BlockRead>(
    members: &mut [PoolMember<R>],
    vdev: &Vdev,
    top: Vec<u8>,
    levels: u8,
    blkid: u64,
    shift: u32,
    order: EndianOrder,
) -> (v: Result<Option<Vec<u8>>, Error>)
    requires
        levels < DN_MAX_LEVELS,
        shift < 64,
        shift * levels < 64,
        top@.len() <= MAX_BLOCK_LSIZE,
    ensures
        final(members)@ == descend(
            old(members)@,
            vdev@,
            top@,
            levels as nat,
            blkid,
            shift as nat,
            order,
        ).members,
        block_of(v) == descend(
            old(members)@,
            vdev@,
            top@,
            levels as nat,
            blkid,
            shift as nat,
            order,
        ).result,
{
    let mut current = top;
    let mut l: u8 = levels;
    let ghost whole = descend(
        members@,
        vdev@,
        top@,
        levels as nat,
        blkid,
        shift as nat,
        order,
    );
    while l > 0
        invariant
            l <= levels < DN_MAX_LEVELS,
            shift < 64,
            shift * levels < 64,
            whole == descend(
                old(members)@,
                vdev@,
                top@,
                levels as nat,
                blkid,
                shift as nat,
                order,
            ),
            whole == descend(
                members@,
                vdev@,
                current@,
                l as nat,
                blkid,
                shift as nat,
                order,
            ),
        decreases l,
    {
        proof {
            assert(shift * (l - 1) <= shift * levels) by (nonlinear_arith)
                requires
                    0 < l <= levels,
                    0 <= shift,
            {
            }
            assert(0 <= shift * (l - 1)) by (nonlinear_arith)
                requires
                    0 < l,
                    0 <= shift,
            {
            }
        }
        let here = Location::Indirect { obj: 0, level: l };
        let idx = digit_of(blkid, shift * (l as u32 - 1), shift);
        assert(current@.len() == current.len());
        if idx >= (current.len() / BLKPTR_SIZE) as u64 {
            return Err(Error::Inconsistent { token: "indirect_oob", where_: here });
        }
        let start: usize = idx as usize * BLKPTR_SIZE;
        let child = match BlockPointer::from_bytes(current.as_slice(), start, order) {
            Ok(Some(child)) => child,
            Ok(None) => {
                return Ok(None);
            },
            Err(_) => {
                return Err(Error::Inconsistent { token: "indirect_bp_decode", where_: here });
            },
        };
        match read_block_pointer(members, vdev, &child) {
            Ok(block) => {
                current = block;
            },
            Err(e) => {
                return Err(e);
            },
        }
        l = l - 1;
    }
    Ok(Some(current))
}

/// The outcome of a read of a block, with its bytes as a sequence.
pub open spec fn block_of(r: Result<Option<Vec<u8>>, Error>) -> Result<Option<Seq<u8>>, Error> {
    match r {
        Ok(Some(v)) => Ok(Some(v@)),
        Ok(None) => Ok(None),
        Err(e) => Err(e),
    }
}

/// Reads block `blkid` of an object, or nothing for a hole.
pub fn read_dnode_block<R: BlockRead>(
    members: &mut [PoolMember<R>],
    vdev: &Vdev,
    dnode: &Dnode,
    blkid: u64,
    order: EndianOrder,
) -> (v: Result<Option<Vec<u8>>, Error>)
    ensures
        final(members)@ == read_block(old(members)@, vdev@, dnode@, blkid, order).members,
        block_of(v) == read_block(old(members)@, vdev@, dnode@, blkid, order).result,
{
    reveal(read_block);
    let levels: u8 = dnode.levels;
    let here = Location::Dnode { obj: 0 };
    if levels == 0 {
        return Ok(None);
    }
    if levels > DN_MAX_LEVELS {
        return Err(Error::Inconsistent { token: "dnode_levels", where_: here });
    }
    let shift: u32 = if dnode.indirect_block_shift < 7 {
        0
    } else {
        dnode.indirect_block_shift as u32 - 7
    };
    assert(0 <= shift * (levels - 1) <= 255 * 15) by (nonlinear_arith)
        requires
            0 <= shift <= 255,
            1 <= levels <= 16,
    {
    }
    let exp: u32 = shift * (levels as u32 - 1);
    if shift >= 64 || exp >= 64 {
        return Err(Error::Inconsistent { token: "dnode_indshift", where_: here });
    }
    let ptrs = dnode.pointers();
    let top = top_of(blkid, exp);
    assert(pointers_view(ptrs@).len() == ptrs@.len());
    assert(ptrs@.len() == ptrs.len());
    if top >= ptrs.len() as u64 {
        return Ok(None);
    }
    assert(dnode@.ptrs[top as int] == pointer_view(ptrs@[top as int]));
    match &ptrs[top as usize] {
        None => Ok(None),
        Some(bp) => match read_block_pointer(members, vdev, bp) {
            Err(e) => Err(e),
            Ok(block) => walk_down(members, vdev, block, levels - 1, blkid, shift, order),
        },
    }
}

/// Reads `len` bytes of an object from `off` on.
pub fn read_dnode_range<R: BlockRead>(
    members: &mut [PoolMember<R>],
    vdev: &Vdev,
    dnode: &Dnode,
    off: u64,
    len: usize,
    order: EndianOrder,
) -> (v: Result<Vec<u8>, Error>)
    ensures
        final(members)@ == read_range(
            old(members)@,
            vdev@,
            dnode@,
            off,
            len as nat,
            order,
        ).members,
        bytes_of(v) == read_range(
            old(members)@,
            vdev@,
            dnode@,
            off,
            len as nat,
            order,
        ).result,
        v matches Ok(bytes) ==> bytes@.len() == len,
{
    reveal(read_range);
    let here = Location::Dnode { obj: 0 };
    let size: u64 = dnode.data_block_size_sectors as u64 * 512;
    if size == 0 {
        return Err(Error::Inconsistent { token: "dnode_dbsz0", where_: here });
    }
    let ghost whole = read_range(members@, vdev@, dnode@, off, len as nat, order);
    let mut out: Vec<u8> = Vec::new();
    while out.len() < len
        invariant
            out@.len() <= len,
            0 < size == dnode@.data_block_size_sectors * 512 <= 0x200_0000,
            here == (Location::Dnode { obj: 0 }),
            whole == read_range(old(members)@, vdev@, dnode@, off, len as nat, order),
            whole == fill_range(members@, vdev@, dnode@, off, len as nat, order, out@),
        decreases len - out@.len(),
    {
        let ghost before = out@;
        let pos: u64 = match off.checked_add(out.len() as u64) {
            Some(pos) => pos,
            None => {
                return Err(Error::Inconsistent { token: "range_overflow", where_: here });
            },
        };
        proof {
            lemma_within(pos as int, size as int);
        }
        let within: usize = (pos % size) as usize;
        let room: usize = size as usize - within;
        let left: usize = len - out.len();
        let want: usize = if room <= left {
            room
        } else {
            left
        };
        match read_dnode_block(members, vdev, dnode, pos / size, order) {
            Err(e) => {
                return Err(e);
            },
            Ok(None) => {
                let zeros: Vec<u8> = vec![0u8; want];
                out.extend_from_slice(zeros.as_slice());
                assert(out@ =~= before + Seq::new(want as nat, |i: int| 0u8));
            },
            Ok(Some(block)) => {
                assert(block@.len() == block.len());
                if within > block.len() || want > block.len() - within {
                    return Err(Error::Inconsistent { token: "block_short", where_: here });
                }
                out.extend_from_slice(&block.as_slice()[within..within + want]);
                assert(out@ =~= before + block@.subrange(within as int, within + want));
            },
        }
    }
    Ok(out)
}

proof fn lemma_descend_stable<R: BlockRead>(
    members: Seq<PoolMember<R>>,
    layout: Layout,
    current: Seq<u8>,
    l: nat,
    blkid: u64,
    shift: nat,
    order: EndianOrder,
)
    requires
        all_stable(members),
    ensures
        descend(members, layout, current, l, blkid, shift, order).members == members,
    decreases l,
{
    if l > 0 {
        let start = 128 * digit(blkid, shift * ((l - 1) as nat), shift);
        match pointer_at(current, start as int, order) {
            Ok(Some(p)) => {
                law_reading_changes_nothing(members, layout, p);
                match read_pointer(members, layout, p).result {
                    Ok(block) => {
                        lemma_descend_stable(
                            members,
                            layout,
                            block,
                            (l - 1) as nat,
                            blkid,
                            shift,
                            order,
                        );
                    },
                    Err(_) => {},
                }
            },
            _ => {},
        }
    }
}

/// Reading a block of an object from stable members changes nothing.
pub proof fn lemma_block_stable<R: BlockRead>(
    members: Seq<PoolMember<R>>,
    layout: Layout,
    d: DnodeView,
    blkid: u64,
    order: EndianOrder,
)
    requires
        all_stable(members),
    ensures
        read_block(members, layout, d, blkid, order).members == members,
{
    reveal(read_block);
    let shift = fan_shift(d);
    let top = blkid as nat / pow2(shift * ((d.levels - 1) as nat));
    if top < d.ptrs.len() && d.ptrs[top as int] is Some {
        let p = d.ptrs[top as int]->0;
        law_reading_changes_nothing(members, layout, p);
        match read_pointer(members, layout, p).result {
            Ok(block) => {
                lemma_descend_stable(
                    members,
                    layout,
                    block,
                    (d.levels - 1) as nat,
                    blkid,
                    shift,
                    order,
                );
            },
            Err(_) => {},
        }
    }
}

/// The byte of an object at `pos`. Holes are zeros.
pub open spec fn object_byte<R: BlockRead>(
    members: Seq<PoolMember<R>>,
    layout: Layout,
    d: DnodeView,
    pos: int,
    order: EndianOrder,
) -> u8 {
    let size = d.data_block_size_sectors * 512;
    match read_block(members, layout, d, (pos / size) as u64, order).result {
        Ok(Some(block)) => block[pos % size],
        _ => 0,
    }
}

/// Positions in the rest of a block.
proof fn lemma_same_block(pos: int, size: int, i: int)
    requires
        0 <= pos,
        0 < size,
        0 <= i < size - pos % size,
    ensures
        (pos + i) / size == pos / size,
        (pos + i) % size == pos % size + i,
{
    lemma_within(pos, size);
    vstd::arithmetic::div_mod::lemma_fundamental_div_mod_converse(
        pos + i,
        size,
        pos / size,
        pos % size + i,
    );
}

proof fn lemma_fill_stable<R: BlockRead>(
    members: Seq<PoolMember<R>>,
    layout: Layout,
    d: DnodeView,
    off: u64,
    len: nat,
    order: EndianOrder,
    out: Seq<u8>,
)
    requires
        all_stable(members),
        d.data_block_size_sectors > 0,
        out.len() <= len,
        forall|i: int|
            0 <= i < out.len() ==> #[trigger] out[i] == object_byte(
                members,
                layout,
                d,
                off + i,
                order,
            ),
    ensures
        fill_range(members, layout, d, off, len, order, out).members == members,
        fill_range(members, layout, d, off, len, order, out).result matches Ok(bytes)
            ==> bytes.len() == len && forall|i: int|
            0 <= i < len ==> #[trigger] bytes[i] == object_byte(
                members,
                layout,
                d,
                off + i,
                order,
            ),
    decreases len - out.len(),
{
    let size = d.data_block_size_sectors * 512;
    let pos = off + out.len();
    if out.len() < len && pos <= u64::MAX {
        let within = pos % size;
        let want = least(size - within, len - out.len());
        lemma_within(pos, size);
        lemma_block_stable(members, layout, d, (pos / size) as u64, order);
        match read_block(members, layout, d, (pos / size) as u64, order).result {
            Err(_) => {},
            Ok(None) => {
                let more = out + Seq::new(want as nat, |i: int| 0u8);
                assert forall|i: int| 0 <= i < more.len() implies #[trigger] more[i]
                    == object_byte(members, layout, d, off + i, order) by {
                    if i < out.len() {
                        assert(more[i] == out[i]);
                    } else {
                        lemma_same_block(pos, size, i - out.len());
                    }
                }
                lemma_fill_stable(members, layout, d, off, len, order, more);
            },
            Ok(Some(block)) => {
                if within + want <= block.len() {
                    let more = out + block.subrange(within, within + want);
                    assert forall|i: int| 0 <= i < more.len() implies #[trigger] more[i]
                        == object_byte(members, layout, d, off + i, order) by {
                        if i < out.len() {
                            assert(more[i] == out[i]);
                        } else {
                            lemma_same_block(pos, size, i - out.len());
                        }
                    }
                    lemma_fill_stable(members, layout, d, off, len, order, more);
                }
            },
        }
    }
}

/// Reading a range of an object from stable members changes nothing, and gives the bytes
/// of the object one by one, whatever the sizes of its blocks and wherever the range
/// starts.
pub proof fn law_range_is_bytes<R: BlockRead>(
    members: Seq<PoolMember<R>>,
    layout: Layout,
    d: DnodeView,
    off: u64,
    len: nat,
    order: EndianOrder,
)
    requires
        all_stable(members),
    ensures
        read_range(members, layout, d, off, len, order).members == members,
        read_range(members, layout, d, off, len, order).result matches Ok(bytes) ==> bytes.len()
            == len && forall|i: int|
            0 <= i < len ==> #[trigger] bytes[i] == object_byte(
                members,
                layout,
                d,
                off + i,
                order,
            ),
{
    reveal(read_range);
    if d.data_block_size_sectors > 0 {
        lemma_fill_stable(members, layout, d, off, len, order, Seq::empty());
    }
}

proof fn lemma_fill_hole<R: BlockRead>(
    members: Seq<PoolMember<R>>,
    layout: Layout,
    d: DnodeView,
    off: u64,
    len: nat,
    order: EndianOrder,
    out: Seq<u8>,
)
    requires
        0 < d.data_block_size_sectors,
        0 < d.levels <= DN_MAX_LEVELS,
        fan_shift(d) < 64,
        fan_shift(d) * ((d.levels - 1) as nat) < 64,
        forall|i: int| 0 <= i < d.ptrs.len() ==> d.ptrs[i] is None,
        off + len <= u64::MAX,
        out.len() <= len,
        forall|i: int| 0 <= i < out.len() ==> out[i] == 0,
    ensures
        fill_range(members, layout, d, off, len, order, out).members == members,
        fill_range(members, layout, d, off, len, order, out).result matches Ok(bytes)
            && bytes.len() == len && forall|i: int| 0 <= i < len ==> bytes[i] == 0,
    decreases len - out.len(),
{
    let size = d.data_block_size_sectors * 512;
    let pos = off + out.len();
    if out.len() < len {
        let want = least(size - pos % size, len - out.len());
        lemma_within(pos, size);
        let blkid = (pos / size) as u64;
        let exp = fan_shift(d) * ((d.levels - 1) as nat);
        assert(read_block(members, layout, d, blkid, order) == Run::<R, Option<Seq<u8>>> {
            members,
            result: Ok(None),
        }) by {
            reveal(read_block);
            lemma_pow2_pos(exp);
            vstd::arithmetic::div_mod::lemma_div_pos_is_pos(blkid as int, pow2(exp) as int);
        }
        let more = out + Seq::new(want as nat, |i: int| 0u8);
        lemma_fill_hole(members, layout, d, off, len, order, more);
    }
}

/// An object of holes alone reads as zeros, without a read of any member.
pub proof fn law_holes_are_zeros<R: BlockRead>(
    members: Seq<PoolMember<R>>,
    layout: Layout,
    d: DnodeView,
    off: u64,
    len: nat,
    order: EndianOrder,
)
    requires
        0 < d.data_block_size_sectors,
        0 < d.levels <= DN_MAX_LEVELS,
        fan_shift(d) < 64,
        fan_shift(d) * ((d.levels - 1) as nat) < 64,
        forall|i: int| 0 <= i < d.ptrs.len() ==> d.ptrs[i] is None,
        off + len <= u64::MAX,
    ensures
        read_range(members, layout, d, off, len, order).members == members,
        read_range(members, layout, d, off, len, order).result == Ok::<Seq<u8>, Error>(
            Seq::new(len, |i: int| 0u8),
        ),
{
    reveal(read_range);
    lemma_fill_hole(members, layout, d, off, len, order, Seq::empty());
    let bytes = fill_range(members, layout, d, off, len, order, Seq::empty()).result->Ok_0;
    assert(bytes =~= Seq::new(len, |i: int| 0u8));
}

/// Whether the byte of an object at `pos` can be read.
pub open spec fn is_readable<R: BlockRead>(
    members: Seq<PoolMember<R>>,
    layout: Layout,
    d: DnodeView,
    pos: int,
    order: EndianOrder,
) -> bool {
    let size = d.data_block_size_sectors * 512;
    match read_block(members, layout, d, (pos / size) as u64, order).result {
        Ok(Some(block)) => pos % size < block.len(),
        Ok(None) => true,
        Err(_) => false,
    }
}

proof fn lemma_fill_readable<R: BlockRead>(
    members: Seq<PoolMember<R>>,
    layout: Layout,
    d: DnodeView,
    off: u64,
    len: nat,
    order: EndianOrder,
    out: Seq<u8>,
)
    requires
        all_stable(members),
        d.data_block_size_sectors > 0,
        out.len() <= len,
        off + len <= u64::MAX + 1,
    ensures
        fill_range(members, layout, d, off, len, order, out).result is Ok <==> forall|i: int|
            off + out.len() <= i < off + len ==> #[trigger] is_readable(
                members,
                layout,
                d,
                i,
                order,
            ),
    decreases len - out.len(),
{
    let size = d.data_block_size_sectors * 512;
    let pos = off + out.len();
    if out.len() < len {
        let within = pos % size;
        let want = least(size - within, len - out.len());
        lemma_within(pos, size);
        lemma_block_stable(members, layout, d, (pos / size) as u64, order);
        match read_block(members, layout, d, (pos / size) as u64, order).result {
            Err(_) => {
                assert(!is_readable(members, layout, d, pos, order));
            },
            Ok(None) => {
                let more = out + Seq::new(want as nat, |i: int| 0u8);
                lemma_fill_readable(members, layout, d, off, len, order, more);
                assert forall|i: int| pos <= i < pos + want implies #[trigger] is_readable(
                    members,
                    layout,
                    d,
                    i,
                    order,
                ) by {
                    lemma_same_block(pos, size, i - pos);
                }
            },
            Ok(Some(block)) => {
                if within + want <= block.len() {
                    let more = out + block.subrange(within, within + want);
                    lemma_fill_readable(members, layout, d, off, len, order, more);
                    assert forall|i: int| pos <= i < pos + want implies #[trigger] is_readable(
                        members,
                        layout,
                        d,
                        i,
                        order,
                    ) by {
                        lemma_same_block(pos, size, i - pos);
                    }
                } else {
                    let last = pos + want - 1;
                    lemma_same_block(pos, size, want - 1);
                    assert(!is_readable(members, layout, d, last, order));
                }
            },
        }
    }
}

/// A range of an object on stable members can be read exactly if each of its bytes can.
pub proof fn law_range_is_readable_bytewise<R: BlockRead>(
    members: Seq<PoolMember<R>>,
    layout: Layout,
    d: DnodeView,
    off: u64,
    len: nat,
    order: EndianOrder,
)
    requires
        all_stable(members),
        d.data_block_size_sectors > 0,
        off + len <= u64::MAX + 1,
    ensures
        read_range(members, layout, d, off, len, order).result is Ok <==> forall|i: int|
            off <= i < off + len ==> #[trigger] is_readable(members, layout, d, i, order),
{
    reveal(read_range);
    lemma_fill_readable(members, layout, d, off, len, order, Seq::empty());
}

/// The digits of a number that is put together from them: `j` with `r` behind it.
proof fn lemma_digits(h: nat, j: nat, r: nat, low: nat, bits: nat)
    requires
        j < pow2(bits),
        r < pow2(low),
    ensures
        (h * pow2(bits + low) + j * pow2(low) + r) / pow2(low) % pow2(bits) == j,
        (h * pow2(bits + low) + j * pow2(low) + r) / pow2(bits + low) == h,
        j * pow2(low) + r < pow2(bits + low),
{
    lemma_pow2_pos(low);
    lemma_pow2_pos(bits);
    vstd::arithmetic::power2::lemma_pow2_adds(bits, low);
    let (a, b) = (pow2(low) as int, pow2(bits) as int);
    let x = (h * pow2(bits + low) + j * pow2(low) + r) as int;
    assert(x == (h * b + j) * a + r) by (nonlinear_arith)
        requires
            x == h * (b * a) + j * a + r,
    {
    }
    assert(0 <= h * b) by (nonlinear_arith)
        requires
            0 <= h,
            0 <= b,
    {
    }
    vstd::arithmetic::div_mod::lemma_fundamental_div_mod_converse(x, a, h * b + j, r as int);
    vstd::arithmetic::div_mod::lemma_fundamental_div_mod_converse(
        h * b + j,
        b,
        h as int,
        j as int,
    );
    assert(0 <= j * a + r < b * a) by (nonlinear_arith)
        requires
            0 <= j < b,
            0 <= r < a,
    {
    }
    vstd::arithmetic::div_mod::lemma_fundamental_div_mod_converse(
        x,
        b * a,
        h as int,
        j * a + r,
    );
}

/// Below an indirect block, the higher digits of a block number play no part.
proof fn lemma_descend_digits<R: BlockRead>(
    members: Seq<PoolMember<R>>,
    layout: Layout,
    current: Seq<u8>,
    l: nat,
    b1: u64,
    b2: u64,
    shift: nat,
    order: EndianOrder,
)
    requires
        b1 as nat % pow2(shift * l) == b2 as nat % pow2(shift * l),
    ensures
        descend(members, layout, current, l, b1, shift, order) == descend(
            members,
            layout,
            current,
            l,
            b2,
            shift,
            order,
        ),
    decreases l,
{
    if l > 0 {
        let m = (l - 1) as nat;
        let (low, all) = (pow2(shift * m) as int, pow2(shift * l) as int);
        assert(shift * l == shift * m + shift) by (nonlinear_arith)
            requires
                l == m + 1,
        {
        }
        vstd::arithmetic::power2::lemma_pow2_adds(shift * m, shift);
        lemma_pow2_pos(shift * m);
        lemma_pow2_pos(shift);
        let base = pow2(shift) as int;
        let (x1, x2) = (b1 as int, b2 as int);
        assert(all == low * base);
        vstd::arithmetic::div_mod::lemma_mod_breakdown(x1, low, base);
        vstd::arithmetic::div_mod::lemma_mod_breakdown(x2, low, base);
        vstd::arithmetic::div_mod::lemma_mod_mod(x1, low, base);
        vstd::arithmetic::div_mod::lemma_mod_mod(x2, low, base);
        let (q1, q2) = (x1 / low % base, x2 / low % base);
        let (r1, r2) = (x1 % low, x2 % low);
        vstd::arithmetic::div_mod::lemma_mod_bound(x1, low);
        vstd::arithmetic::div_mod::lemma_mod_bound(x2, low);
        assert(r1 == r2);
        assert(q1 == q2) by (nonlinear_arith)
            requires
                low * q1 + r1 == low * q2 + r2,
                r1 == r2,
                low > 0,
        {
        }
        let start = 128 * digit(b1, shift * m, shift);
        match pointer_at(current, start as int, order) {
            Ok(Some(p)) => {
                let run = read_pointer(members, layout, p);
                match run.result {
                    Ok(block) => {
                        lemma_descend_digits(
                            run.members,
                            layout,
                            block,
                            m,
                            b1,
                            b2,
                            shift,
                            order,
                        );
                    },
                    Err(_) => {},
                }
            },
            _ => {},
        }
    }
}

/// Block numbers count through the tree: an indirect block is an array of pointers of 128
/// bytes each, and block `j * n + r` below it is block `r` below what its pointer `j` points
/// to, where `n` blocks are below each of them. That is two to the `shift` for each level
/// further down.
pub proof fn law_pointers_of_an_indirect_block_follow_each_other<R: BlockRead>(
    members: Seq<PoolMember<R>>,
    layout: Layout,
    current: Seq<u8>,
    l: nat,
    j: nat,
    r: nat,
    shift: nat,
    order: EndianOrder,
)
    requires
        j < pow2(shift),
        r < pow2(shift * l),
        j * pow2(shift * l) + r <= u64::MAX,
        128 * j + 128 <= current.len(),
    ensures
        ({
            let blkid = (j * pow2(shift * l) + r) as u64;
            let run = descend(members, layout, current, l + 1, blkid, shift, order);
            match pointer_at(current, 128 * j as int, order) {
                Ok(Some(p)) => {
                    let child = read_pointer(members, layout, p);
                    match child.result {
                        Ok(block) => run == descend(
                            child.members,
                            layout,
                            block,
                            l,
                            r as u64,
                            shift,
                            order,
                        ),
                        Err(e) => run.result == Err::<Option<Seq<u8>>, Error>(e),
                    }
                },
                Ok(None) => run.result == Ok::<Option<Seq<u8>>, Error>(None),
                Err(_) => run.result is Err,
            }
        }),
{
    let blkid = (j * pow2(shift * l) + r) as u64;
    lemma_digits(0, j, r, shift * l, shift);
    assert(0 * pow2(shift + shift * l) == 0);
    assert(digit(blkid, shift * l, shift) == j);
    lemma_pow2_pos(shift * l);
    assert(0 <= j * pow2(shift * l)) by (nonlinear_arith);
    match pointer_at(current, 128 * j as int, order) {
        Ok(Some(p)) => {
            let child = read_pointer(members, layout, p);
            match child.result {
                Ok(block) => {
                    let a = pow2(shift * l) as int;
                    vstd::arithmetic::div_mod::lemma_fundamental_div_mod_converse(
                        blkid as int,
                        a,
                        j as int,
                        r as int,
                    );
                    vstd::arithmetic::div_mod::lemma_small_mod(r, a as nat);
                    lemma_descend_digits(
                        child.members,
                        layout,
                        block,
                        l,
                        blkid,
                        r as u64,
                        shift,
                        order,
                    );
                },
                Err(_) => {},
            }
        },
        _ => {},
    }
}

/// The top of the tree: block `t * n + r` of an object is block `r` below what its pointer
/// `t` points to, where `n` blocks are below each of them. An indirect block has room for two
/// to the `indirect_block_shift - 7` pointers, so that `n` is that to the power of the levels
/// further down. An object of one level has its blocks as they are.
pub proof fn law_pointers_of_an_object_follow_each_other<R: BlockRead>(
    members: Seq<PoolMember<R>>,
    layout: Layout,
    d: DnodeView,
    t: nat,
    r: nat,
    order: EndianOrder,
)
    requires
        1 <= d.levels <= 16,
        7 <= d.indirect_block_shift,
        d.indirect_block_shift - 7 < 64,
        (d.indirect_block_shift - 7) * (d.levels - 1) < 64,
        r < pow2(((d.indirect_block_shift - 7) * (d.levels - 1)) as nat),
        t * pow2(((d.indirect_block_shift - 7) * (d.levels - 1)) as nat) + r <= u64::MAX,
    ensures
        ({
            let n = pow2(((d.indirect_block_shift - 7) * (d.levels - 1)) as nat);
            let run = read_block(members, layout, d, (t * n + r) as u64, order);
            if t >= d.ptrs.len() || d.ptrs[t as int] is None {
                run == (Run::<R, Option<Seq<u8>>> { members, result: Ok(None) })
            } else {
                let top = read_pointer(members, layout, d.ptrs[t as int]->0);
                match top.result {
                    Ok(block) => if d.levels == 1 {
                        run == (Run::<R, Option<Seq<u8>>> {
                            members: top.members,
                            result: Ok(Some(block)),
                        })
                    } else {
                        run == descend(
                            top.members,
                            layout,
                            block,
                            (d.levels - 1) as nat,
                            r as u64,
                            (d.indirect_block_shift - 7) as nat,
                            order,
                        )
                    },
                    Err(e) => run.result == Err::<Option<Seq<u8>>, Error>(e),
                }
            }
        }),
{
    reveal(read_block);
    let shift = (d.indirect_block_shift - 7) as nat;
    let l = (d.levels - 1) as nat;
    let n = pow2(shift * l);
    let blkid = (t * n + r) as u64;
    assert(shift * l == ((d.indirect_block_shift - 7) * (d.levels - 1)) as nat);
    lemma_pow2_pos(shift * l);
    assert(0 <= t * n) by (nonlinear_arith);
    vstd::arithmetic::div_mod::lemma_fundamental_div_mod_converse(
        blkid as int,
        n as int,
        t as int,
        r as int,
    );
    if t < d.ptrs.len() && d.ptrs[t as int] is Some {
        let top = read_pointer(members, layout, d.ptrs[t as int]->0);
        match top.result {
            Ok(block) => {
                vstd::arithmetic::div_mod::lemma_small_mod(r, n);
                lemma_descend_digits(
                    top.members,
                    layout,
                    block,
                    l,
                    blkid,
                    r as u64,
                    shift,
                    order,
                );
            },
            Err(_) => {},
        }
    }
}

/// An object of two levels: block `t * n + j` is the one that pointer `j` of the indirect
/// block `t` points to, where an indirect block has room for `n` pointers.
pub proof fn law_blocks_of_two_levels<R: BlockRead>(
    members: Seq<PoolMember<R>>,
    layout: Layout,
    d: DnodeView,
    t: nat,
    j: nat,
    indirect: Seq<u8>,
    top: Pointer,
    order: EndianOrder,
)
    requires
        all_stable(members),
        d.levels == 2,
        7 <= d.indirect_block_shift < 71,
        j < pow2((d.indirect_block_shift - 7) as nat),
        t * pow2((d.indirect_block_shift - 7) as nat) + j <= u64::MAX,
        t < d.ptrs.len(),
        d.ptrs[t as int] == Some(top),
        read_pointer(members, layout, top).result == Ok::<Seq<u8>, Error>(indirect),
        128 * j + 128 <= indirect.len(),
    ensures
        ({
            let blkid = (t * pow2((d.indirect_block_shift - 7) as nat) + j) as u64;
            let result = read_block(members, layout, d, blkid, order).result;
            match pointer_at(indirect, 128 * j as int, order) {
                Ok(Some(p)) => match read_pointer(members, layout, p).result {
                    Ok(block) => result == Ok::<Option<Seq<u8>>, Error>(Some(block)),
                    Err(e) => result == Err::<Option<Seq<u8>>, Error>(e),
                },
                Ok(None) => result == Ok::<Option<Seq<u8>>, Error>(None),
                Err(_) => result is Err,
            }
        }),
{
    let shift = (d.indirect_block_shift - 7) as nat;
    assert((d.indirect_block_shift - 7) * (d.levels - 1) == shift) by (nonlinear_arith)
        requires
            d.levels == 2,
            shift == d.indirect_block_shift - 7,
    {
    }
    assert(0 <= t * pow2(shift)) by (nonlinear_arith);
    law_pointers_of_an_object_follow_each_other(members, layout, d, t, j, order);
    law_reading_changes_nothing(members, layout, top);
    vstd::arithmetic::power2::lemma2_to64();
    assert(shift * 0 == 0) by (nonlinear_arith);
    assert(pow2(shift * 0) == 1);
    assert(j * pow2(shift * 0) + 0 == j) by (nonlinear_arith)
        requires
            pow2(shift * 0) == 1,
    {
    }
    law_pointers_of_an_indirect_block_follow_each_other(
        members,
        layout,
        indirect,
        0,
        j,
        0,
        shift,
        order,
    );
}

/// A byte of an object is in the block with the number of its position divided by the size
/// of a block, which is given in sectors of 512 bytes, at the remainder.
pub proof fn law_bytes_are_in_their_blocks<R: BlockRead>(
    members: Seq<PoolMember<R>>,
    layout: Layout,
    d: DnodeView,
    b: u64,
    i: int,
    order: EndianOrder,
)
    requires
        all_stable(members),
        0 <= i < 512 * d.data_block_size_sectors,
        b * (512 * d.data_block_size_sectors) + i <= u64::MAX,
    ensures
        ({
            let pos = (b * (512 * d.data_block_size_sectors) + i) as u64;
            match read_block(members, layout, d, b, order).result {
                Ok(Some(block)) => if i < block.len() {
                    read_range(members, layout, d, pos, 1, order).result == Ok::<Seq<u8>, Error>(
                        seq![block[i]],
                    )
                } else {
                    read_range(members, layout, d, pos, 1, order).result is Err
                },
                Ok(None) => read_range(members, layout, d, pos, 1, order).result == Ok::<
                    Seq<u8>,
                    Error,
                >(seq![0u8]),
                Err(e) => read_range(members, layout, d, pos, 1, order).result == Err::<
                    Seq<u8>,
                    Error,
                >(e),
            }
        }),
{
    reveal(read_range);
    reveal_with_fuel(fill_range, 2);
    let size = d.data_block_size_sectors * 512;
    let pos = (b * (512 * d.data_block_size_sectors) + i) as u64;
    assert(0 <= b * size) by (nonlinear_arith)
        requires
            0 <= b,
            0 <= size,
    {
    }
    vstd::arithmetic::div_mod::lemma_fundamental_div_mod_converse(
        pos as int,
        size,
        b as int,
        i,
    );
    match read_block(members, layout, d, b, order).result {
        Ok(Some(block)) => {
            if i < block.len() {
                assert(Seq::<u8>::empty() + block.subrange(i, i + 1) =~= seq![block[i]]);
            }
        },
        Ok(None) => {
            assert(Seq::<u8>::empty() + Seq::new(1, |k: int| 0u8) =~= seq![0u8]);
        },
        Err(_) => {},
    }
}

} // verus!
