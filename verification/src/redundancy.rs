//! What the redundancy of a pool is good for.

use crate::block_read::{is_stable, read_member, BlockRead, PoolMember};
use crate::checksum::fletcher2::fletcher2;
use crate::checksum::fletcher4::fletcher4;
use crate::checksum::sha256::sha256;
use crate::cksum::verdict;
use crate::compress::{decompressed, MAX_BLOCK_LSIZE};
use crate::error::{Error, Location};
use crate::phys::block_pointer::{Dva, Pointer, RegularPointer};
use crate::phys::property::ChecksumType;
use crate::raidz::{
    geometry, is_parity, law_columns_are_on_different_children,
    law_columns_lie_where_their_units_do, law_joined_is_flattened, law_parity_is_exclusive_or,
    law_parity_recovers, lemma_geometry_wf, unit_of, Geometry,
};
use crate::vdev::{
    assembled, device_byte, find_repair, gap, gaps, leaf_guid, pointer_verdict, present,
    read_column,
    read_columns, read_copies, read_copy, read_dvas, read_group, read_pointer, read_stored,
    reassembled, Layout, Shape, LABEL_RESERVE, SECTOR_SIZE,
};
use vstd::arithmetic::power2::{lemma2_to64, pow2};
use vstd::prelude::*;

verus! {

/// Members whose reads always give the same.
pub open spec fn all_stable<R: BlockRead>(members: Seq<PoolMember<R>>) -> bool {
    forall|i: int| 0 <= i < members.len() ==> is_stable((#[trigger] members[i]).reader)
}

/// A read of one stable member changes nothing.
pub proof fn lemma_member_stable<R: BlockRead>(
    members: Seq<PoolMember<R>>,
    i: int,
    offset: u64,
    len: nat,
    vdev: u64,
    token: &'static str,
)
    requires
        all_stable(members),
        0 <= i < members.len(),
    ensures
        read_member(members, i, offset, len, vdev, token).members == members,
{
    assert(members[i].reader.after(offset, len) == members[i].reader);
    assert(read_member(members, i, offset, len, vdev, token).members =~= members);
}

proof fn lemma_copies_stable<R: BlockRead>(
    members: Seq<PoolMember<R>>,
    order: Seq<usize>,
    guids: Seq<u64>,
    i: nat,
    r: RegularPointer,
    byte: u64,
    psize: nat,
    last: Error,
)
    requires
        all_stable(members),
    ensures
        read_copies(members, order, guids, i, r, byte, psize, last).members == members,
    decreases order.len() - i,
{
    if i < order.len() {
        if order[i as int] >= members.len() {
            lemma_copies_stable(members, order, guids, i + 1, r, byte, psize, last);
        } else {
            let at = order[i as int] as int;
            let vdev = leaf_guid(guids, i as int);
            lemma_member_stable(members, at, byte, psize, vdev, "io_block");
            match read_copy(members, order[i as int], r, vdev, byte, psize).result {
                Err(e) => {
                    lemma_copies_stable(members, order, guids, i + 1, r, byte, psize, e);
                },
                Ok(_) => {},
            }
        }
    }
}

proof fn lemma_column_stable<R: BlockRead>(
    members: Seq<PoolMember<R>>,
    children: Seq<Option<usize>>,
    g: Geometry,
    c: int,
)
    requires
        all_stable(members),
    ensures
        read_column(members, children, g.column(c)).0 == members,
{
    let column = g.column(c);
    match children[column.child as int] {
        Some(i) => {
            if i < members.len() {
                lemma_member_stable(
                    members,
                    i as int,
                    (LABEL_RESERVE + column.offset) as u64,
                    column.size as nat,
                    0,
                    "io_block",
                );
            }
        },
        None => {},
    }
}

proof fn lemma_columns_stable<R: BlockRead>(
    members: Seq<PoolMember<R>>,
    children: Seq<Option<usize>>,
    g: Geometry,
    n: nat,
)
    requires
        all_stable(members),
    ensures
        read_columns(members, children, g, n).members == members,
        read_columns(members, children, g, n).found.len() == n,
        forall|k: int|
            0 <= k < n ==> #[trigger] read_columns(members, children, g, n).found[k]
                == read_column(members, children, g.column(k + 1)).1,
    decreases n,
{
    if n > 0 {
        lemma_columns_stable(members, children, g, (n - 1) as nat);
        lemma_column_stable(members, children, g, n as int);
    }
}

/// Whether bytes are what a pointer points to, as far as its checksum tells.
pub open spec fn verifies(r: RegularPointer, raw: Seq<u8>) -> bool {
    forall|vdev: u64, byte: u64| #[trigger] pointer_verdict(r, vdev, byte, raw) is Ok
}

/// Where a copy was read plays no part in whether it verifies.
proof fn lemma_verifies(r: RegularPointer, vdev: u64, byte: u64, raw: Seq<u8>)
    ensures
        pointer_verdict(r, vdev, byte, raw) is Ok <==> verifies(r, raw),
{
    reveal(crate::cksum::verdict);
    assert forall|v: u64, b: u64| pointer_verdict(r, vdev, byte, raw) is Ok implies (
    #[trigger] pointer_verdict(r, v, b, raw)) is Ok by {}
}

proof fn lemma_find_repair(
    r: RegularPointer,
    byte: u64,
    parity: Seq<u8>,
    columns: Seq<Seq<u8>>,
    g: Geometry,
    psize: nat,
    c: nat,
)
    ensures
        find_repair(r, byte, parity, columns, g, psize, c) matches Some(raw) ==> verifies(r, raw),
    decreases columns.len() - c,
{
    if c < columns.len() {
        lemma_verifies(r, 0, byte, reassembled(parity, columns, g, c as int, psize));
        lemma_find_repair(r, byte, parity, columns, g, psize, c + 1);
    }
}

/// A repair is found if there is one.
proof fn lemma_repair_found(
    r: RegularPointer,
    byte: u64,
    parity: Seq<u8>,
    columns: Seq<Seq<u8>>,
    g: Geometry,
    psize: nat,
    from: nat,
    c: nat,
)
    requires
        from <= c < columns.len(),
        verifies(r, reassembled(parity, columns, g, c as int, psize)),
    ensures
        find_repair(r, byte, parity, columns, g, psize, from) is Some,
    decreases c - from,
{
    if pointer_verdict(r, 0, byte, reassembled(parity, columns, g, from as int, psize)) is Err {
        lemma_repair_found(r, byte, parity, columns, g, psize, from + 1, c);
    }
}

proof fn lemma_group_stable<R: BlockRead>(
    members: Seq<PoolMember<R>>,
    children: Seq<Option<usize>>,
    guids: Seq<u64>,
    ashift: u8,
    r: RegularPointer,
    byte: u64,
    psize: nat,
)
    requires
        all_stable(members),
    ensures
        read_group(members, children, guids, ashift, r, byte, psize).members == members,
{
    reveal(read_group);
    let unit = unit_of(ashift);
    if unit != 0 && children.len() >= 2 {
        let g = geometry((byte - LABEL_RESERVE) as u64, psize, children.len() as usize, unit);
        lemma_columns_stable(members, children, g, (g.columns - 1) as nat);
        lemma_column_stable(members, children, g, 0);
    }
}

proof fn lemma_stored_stable<R: BlockRead>(
    members: Seq<PoolMember<R>>,
    layout: Layout,
    r: RegularPointer,
    byte: u64,
    psize: nat,
    last: Error,
)
    requires
        all_stable(members),
    ensures
        read_stored(members, layout, r, byte, psize, last).members == members,
{
    match layout.shape {
        Shape::RaidZ1 { children, ashift } => {
            lemma_group_stable(members, children, layout.guids, ashift, r, byte, psize);
        },
        shape => {
            let order = shape.read_order();
            lemma_copies_stable(members, order, layout.guids, 0, r, byte, psize, last);
        },
    }
}

proof fn lemma_dvas_stable<R: BlockRead>(
    members: Seq<PoolMember<R>>,
    layout: Layout,
    r: RegularPointer,
    psize: nat,
    k: nat,
    last: Error,
)
    requires
        all_stable(members),
    ensures
        read_dvas(members, layout, r, psize, k, last).members == members,
    decreases 3 - k,
{
    if k < 3 {
        match r.dvas[k as int] {
            None => {
                lemma_dvas_stable(members, layout, r, psize, k + 1, last);
            },
            Some(dva) => {
                if dva.is_gang {
                    let e = Error::Unsupported("gang_block");
                    lemma_dvas_stable(members, layout, r, psize, k + 1, e);
                } else {
                    match device_byte(dva.offset) {
                        None => {
                            let e = Error::Inconsistent {
                                token: "dva_out_of_range",
                                where_: Location::Mos,
                            };
                            lemma_dvas_stable(members, layout, r, psize, k + 1, e);
                        },
                        Some(byte) => {
                            lemma_stored_stable(members, layout, r, byte, psize, last);
                            let run = read_stored(members, layout, r, byte, psize, last);
                            match run.result {
                                Ok(_) => {},
                                Err(e) => {
                                    lemma_dvas_stable(members, layout, r, psize, k + 1, e);
                                },
                            }
                        },
                    }
                }
            },
        }
    }
}

/// Reading a block from stable members changes nothing, so that it gives the same every
/// time.
pub proof fn law_reading_changes_nothing<R: BlockRead>(
    members: Seq<PoolMember<R>>,
    layout: Layout,
    p: Pointer,
)
    requires
        all_stable(members),
    ensures
        read_pointer(members, layout, p).members == members,
{
    reveal(read_pointer);
    match p {
        Pointer::Regular(r) => {
            let last = Error::Inconsistent {
                token: "bp_no_readable_copy",
                where_: Location::Mos,
            };
            lemma_dvas_stable(members, layout, r, (r.physical_sectors * 512) as nat, 0, last);
        },
        _ => {},
    }
}

proof fn lemma_copies_verified<R: BlockRead>(
    members: Seq<PoolMember<R>>,
    order: Seq<usize>,
    guids: Seq<u64>,
    i: nat,
    r: RegularPointer,
    byte: u64,
    psize: nat,
    last: Error,
)
    ensures
        read_copies(members, order, guids, i, r, byte, psize, last).result matches Ok(raw)
            ==> verifies(r, raw),
    decreases order.len() - i,
{
    if i < order.len() {
        if order[i as int] >= members.len() {
            lemma_copies_verified(members, order, guids, i + 1, r, byte, psize, last);
        } else {
            let vdev = leaf_guid(guids, i as int);
            let run = read_copy(members, order[i as int], r, vdev, byte, psize);
            match run.result {
                Ok(raw) => {
                    lemma_verifies(r, vdev, byte, raw);
                },
                Err(e) => {
                    lemma_copies_verified(run.members, order, guids, i + 1, r, byte, psize, e);
                },
            }
        }
    }
}

proof fn lemma_group_verified<R: BlockRead>(
    members: Seq<PoolMember<R>>,
    children: Seq<Option<usize>>,
    guids: Seq<u64>,
    ashift: u8,
    r: RegularPointer,
    byte: u64,
    psize: nat,
)
    ensures
        read_group(members, children, guids, ashift, r, byte, psize).result matches Ok(raw)
            ==> verifies(r, raw),
{
    reveal(read_group);
    let g = geometry(
        (byte - LABEL_RESERVE) as u64,
        psize,
        children.len() as usize,
        unit_of(ashift),
    );
    let d = read_columns(members, children, g, (g.columns - 1) as nat);
    match read_column(d.members, children, g.column(0)).1 {
        Some(parity) => {
            lemma_find_repair(r, byte, parity, present(d.found), g, psize, 0);
            let raw = reassembled(parity, present(d.found), g, gap(d.found), psize);
            lemma_verifies(r, 0, byte, raw);
        },
        None => {},
    }
    lemma_verifies(r, 0, byte, assembled(present(d.found), psize));
}

proof fn lemma_stored_verified<R: BlockRead>(
    members: Seq<PoolMember<R>>,
    layout: Layout,
    r: RegularPointer,
    byte: u64,
    psize: nat,
    last: Error,
)
    ensures
        read_stored(members, layout, r, byte, psize, last).result matches Ok(raw) ==> verifies(
            r,
            raw,
        ),
{
    match layout.shape {
        Shape::RaidZ1 { children, ashift } => {
            lemma_group_verified(members, children, layout.guids, ashift, r, byte, psize);
        },
        shape => {
            let order = shape.read_order();
            lemma_copies_verified(members, order, layout.guids, 0, r, byte, psize, last);
        },
    }
}

proof fn lemma_dvas_verified<R: BlockRead>(
    members: Seq<PoolMember<R>>,
    layout: Layout,
    r: RegularPointer,
    psize: nat,
    k: nat,
    last: Error,
)
    ensures
        read_dvas(members, layout, r, psize, k, last).result matches Ok(raw) ==> verifies(r, raw),
    decreases 3 - k,
{
    if k < 3 {
        match r.dvas[k as int] {
            None => {
                lemma_dvas_verified(members, layout, r, psize, k + 1, last);
            },
            Some(dva) => {
                if dva.is_gang {
                    let e = Error::Unsupported("gang_block");
                    lemma_dvas_verified(members, layout, r, psize, k + 1, e);
                } else {
                    match device_byte(dva.offset) {
                        None => {
                            let e = Error::Inconsistent {
                                token: "dva_out_of_range",
                                where_: Location::Mos,
                            };
                            lemma_dvas_verified(members, layout, r, psize, k + 1, e);
                        },
                        Some(byte) => {
                            lemma_stored_verified(members, layout, r, byte, psize, last);
                            let run = read_stored(members, layout, r, byte, psize, last);
                            match run.result {
                                Ok(_) => {},
                                Err(e) => {
                                    lemma_dvas_verified(
                                        run.members,
                                        layout,
                                        r,
                                        psize,
                                        k + 1,
                                        e,
                                    );
                                },
                            }
                        },
                    }
                }
            },
        }
    }
}

/// Data is handed on only if it verifies: what comes of a pointer is what bytes with the
/// pointer's checksum decompress to, whatever the members hold and however they behave.
pub proof fn law_only_verified_data<R: BlockRead>(
    members: Seq<PoolMember<R>>,
    layout: Layout,
    r: RegularPointer,
)
    ensures
        read_pointer(members, layout, Pointer::Regular(r)).result matches Ok(bytes) ==> exists|
            raw: Seq<u8>,
        |
            #[trigger] verifies(r, raw) && decompressed(
                r.compression,
                raw,
                (r.logical_sectors * SECTOR_SIZE) as nat,
            ) == Ok::<Seq<u8>, Error>(bytes),
{
    reveal(read_pointer);
    let psize = (r.physical_sectors * SECTOR_SIZE) as nat;
    let last = Error::Inconsistent { token: "bp_no_readable_copy", where_: Location::Mos };
    lemma_dvas_verified(members, layout, r, psize, 0, last);
    match read_dvas(members, layout, r, psize, 0, last).result {
        Ok(raw) => {
            assert(verifies(r, raw));
        },
        Err(_) => {},
    }
}

/// Among copies, one good one is enough: if member `order[i]` has bytes that verify,
/// then such bytes are read, from it or from a member before it.
pub proof fn law_one_good_copy_is_enough<R: BlockRead>(
    members: Seq<PoolMember<R>>,
    order: Seq<usize>,
    guids: Seq<u64>,
    from: nat,
    i: int,
    r: RegularPointer,
    byte: u64,
    psize: nat,
    last: Error,
)
    requires
        all_stable(members),
        from <= i < order.len(),
        order[i] < members.len(),
        members[order[i] as int].reader.answer(byte, psize) matches Some(raw) && verifies(r, raw),
    ensures
        read_copies(members, order, guids, from, r, byte, psize, last).result matches Ok(raw)
            && verifies(r, raw) && exists|j: int|
            from <= j <= i && #[trigger] order[j] < members.len()
                && members[order[j] as int].reader.answer(byte, psize) == Some(raw),
    decreases i - from,
{
    if order[from as int] >= members.len() {
        law_one_good_copy_is_enough(members, order, guids, from + 1, i, r, byte, psize, last);
    } else {
        let at = order[from as int] as int;
        let vdev = leaf_guid(guids, from as int);
        lemma_member_stable(members, at, byte, psize, vdev, "io_block");
        match read_copy(members, order[from as int], r, vdev, byte, psize).result {
            Ok(raw) => {
                lemma_verifies(r, vdev, byte, raw);
            },
            Err(e) => {
                law_one_good_copy_is_enough(
                    members,
                    order,
                    guids,
                    from + 1,
                    i,
                    r,
                    byte,
                    psize,
                    e,
                );
            },
        }
    }
}

/// What the members hold of the columns of a block: for each column the bytes, or
/// nothing if it cannot be read.
pub open spec fn column_holds<R: BlockRead>(
    members: Seq<PoolMember<R>>,
    children: Seq<Option<usize>>,
    g: Geometry,
    c: int,
    bytes: Option<Seq<u8>>,
) -> bool {
    read_column(members, children, g.column(c)).1 == bytes
}

/// The columns of a block that verifies, and their parity.
pub open spec fn is_striped(
    r: RegularPointer,
    g: Geometry,
    columns: Seq<Seq<u8>>,
    parity: Seq<u8>,
    psize: nat,
) -> bool {
    &&& columns.len() == g.columns - 1
    &&& forall|k: int| 0 <= k < columns.len() ==> (#[trigger] columns[k]).len() == g.column(k + 1).size
    &&& forall|k: int| 0 <= k < columns.len() ==> (#[trigger] columns[k]).len() <= parity.len()
    &&& is_parity(parity, columns)
    &&& verifies(r, assembled(columns, psize))
}

proof fn lemma_gaps_none(found: Seq<Option<Seq<u8>>>)
    requires
        forall|k: int| 0 <= k < found.len() ==> found[k] is Some,
    ensures
        gaps(found) == 0,
    decreases found.len(),
{
    if found.len() > 0 {
        lemma_gaps_none(found.drop_last());
    }
}

proof fn lemma_gaps_one(found: Seq<Option<Seq<u8>>>, c: int)
    requires
        0 <= c < found.len(),
        found[c] is None,
        forall|k: int| 0 <= k < found.len() && k != c ==> found[k] is Some,
    ensures
        gaps(found) == 1,
        gap(found) == c,
    decreases found.len(),
{
    if c == found.len() - 1 {
        lemma_gaps_none(found.drop_last());
    } else {
        lemma_gaps_one(found.drop_last(), c);
    }
}

/// A block whose data columns are all in place is read as it is, with or without the
/// parity.
pub proof fn law_intact_group<R: BlockRead>(
    members: Seq<PoolMember<R>>,
    children: Seq<Option<usize>>,
    guids: Seq<u64>,
    ashift: u8,
    r: RegularPointer,
    byte: u64,
    psize: nat,
    columns: Seq<Seq<u8>>,
    parity: Seq<u8>,
)
    requires
        all_stable(members),
        unit_of(ashift) != 0,
        2 <= children.len() <= usize::MAX,
        LABEL_RESERVE <= byte,
        0 < psize <= MAX_BLOCK_LSIZE,
        ({
            let g = geometry(
                (byte - LABEL_RESERVE) as u64,
                psize,
                children.len() as usize,
                unit_of(ashift),
            );
            &&& is_striped(r, g, columns, parity, psize)
            &&& forall|k: int|
                0 <= k < columns.len() ==> #[trigger] column_holds(
                    members,
                    children,
                    g,
                    k + 1,
                    Some(columns[k]),
                )
        }),
    ensures
        read_group(members, children, guids, ashift, r, byte, psize).result == Ok::<Seq<u8>, Error>(
            assembled(columns, psize),
        ),
{
    reveal(read_group);
    let g = geometry(
        (byte - LABEL_RESERVE) as u64,
        psize,
        children.len() as usize,
        unit_of(ashift),
    );
    let n = (g.columns - 1) as nat;
    lemma_columns_stable(members, children, g, n);
    let found = read_columns(members, children, g, n).found;
    assert forall|k: int| 0 <= k < found.len() implies found[k] == Some(columns[k]) by {
        assert(column_holds(members, children, g, k + 1, Some(columns[k])));
    }
    lemma_gaps_none(found);
    assert(present(found) =~= columns);
}

/// A block with one data column that cannot be read is read all the same: the parity
/// gives the column back.
pub proof fn law_degraded_group<R: BlockRead>(
    members: Seq<PoolMember<R>>,
    children: Seq<Option<usize>>,
    guids: Seq<u64>,
    ashift: u8,
    r: RegularPointer,
    byte: u64,
    psize: nat,
    columns: Seq<Seq<u8>>,
    parity: Seq<u8>,
    c: int,
)
    requires
        all_stable(members),
        unit_of(ashift) != 0,
        2 <= children.len() <= usize::MAX,
        LABEL_RESERVE <= byte,
        0 < psize <= MAX_BLOCK_LSIZE,
        0 <= c < columns.len(),
        ({
            let g = geometry(
                (byte - LABEL_RESERVE) as u64,
                psize,
                children.len() as usize,
                unit_of(ashift),
            );
            &&& is_striped(r, g, columns, parity, psize)
            &&& column_holds(members, children, g, 0, Some(parity))
            &&& column_holds(members, children, g, c + 1, None)
            &&& forall|k: int|
                0 <= k < columns.len() && k != c ==> #[trigger] column_holds(
                    members,
                    children,
                    g,
                    k + 1,
                    Some(columns[k]),
                )
        }),
    ensures
        read_group(members, children, guids, ashift, r, byte, psize).result == Ok::<Seq<u8>, Error>(
            assembled(columns, psize),
        ),
{
    reveal(read_group);
    let g = geometry(
        (byte - LABEL_RESERVE) as u64,
        psize,
        children.len() as usize,
        unit_of(ashift),
    );
    let n = (g.columns - 1) as nat;
    lemma_columns_stable(members, children, g, n);
    lemma_column_stable(members, children, g, 0);
    let found = read_columns(members, children, g, n).found;
    assert forall|k: int| 0 <= k < found.len() && k != c implies found[k] == Some(columns[k]) by {
        assert(column_holds(members, children, g, k + 1, Some(columns[k])));
    }
    assert(found[c] is None);
    lemma_gaps_one(found, c);
    assert(columns[c].len() <= parity.len());
    law_parity_recovers(parity, columns, present(found), c);
    assert(columns[c].len() == g.column(c + 1).size);
}

/// A block with one data column that holds something else is read all the same, unless
/// the checksum is fooled: what comes of it verifies.
pub proof fn law_corrupt_group<R: BlockRead>(
    members: Seq<PoolMember<R>>,
    children: Seq<Option<usize>>,
    guids: Seq<u64>,
    ashift: u8,
    r: RegularPointer,
    byte: u64,
    psize: nat,
    columns: Seq<Seq<u8>>,
    parity: Seq<u8>,
    c: int,
    bad: Seq<u8>,
)
    requires
        all_stable(members),
        unit_of(ashift) != 0,
        2 <= children.len() <= usize::MAX,
        LABEL_RESERVE <= byte,
        0 < psize <= MAX_BLOCK_LSIZE,
        0 <= c < columns.len(),
        ({
            let g = geometry(
                (byte - LABEL_RESERVE) as u64,
                psize,
                children.len() as usize,
                unit_of(ashift),
            );
            &&& is_striped(r, g, columns, parity, psize)
            &&& column_holds(members, children, g, 0, Some(parity))
            &&& column_holds(members, children, g, c + 1, Some(bad))
            &&& forall|k: int|
                0 <= k < columns.len() && k != c ==> #[trigger] column_holds(
                    members,
                    children,
                    g,
                    k + 1,
                    Some(columns[k]),
                )
        }),
    ensures
        read_group(members, children, guids, ashift, r, byte, psize).result matches Ok(raw)
            && verifies(r, raw),
{
    reveal(read_group);
    let g = geometry(
        (byte - LABEL_RESERVE) as u64,
        psize,
        children.len() as usize,
        unit_of(ashift),
    );
    let n = (g.columns - 1) as nat;
    lemma_columns_stable(members, children, g, n);
    lemma_column_stable(members, children, g, 0);
    let found = read_columns(members, children, g, n).found;
    assert forall|k: int| 0 <= k < found.len() && k != c implies found[k] == Some(columns[k]) by {
        assert(column_holds(members, children, g, k + 1, Some(columns[k])));
    }
    assert(found[c] == Some(bad));
    lemma_gaps_none(found);
    law_parity_recovers(parity, columns, present(found), c);
    assert(columns[c].len() == g.column(c + 1).size);
    assert(present(found).len() == columns.len());
    lemma_repair_found(r, byte, parity, present(found), g, psize, 0, c as nat);
    lemma_find_repair(r, byte, parity, present(found), g, psize, 0);
    lemma_verifies(r, 0, byte, assembled(present(found), psize));
}

/// What is left of column `c` of a block, the parity or a data column, when a child is
/// lost.
pub open spec fn column_without(
    g: Geometry,
    columns: Seq<Seq<u8>>,
    parity: Seq<u8>,
    c: int,
    lost: usize,
) -> Option<Seq<u8>> {
    if g.column(c).child == lost {
        None
    } else if c == 0 {
        Some(parity)
    } else {
        Some(columns[c - 1])
    }
}

/// Any one child of a group may be lost: a block is read as it is if its columns on all
/// other children are in place.
pub proof fn law_any_one_child_may_be_lost<R: BlockRead>(
    members: Seq<PoolMember<R>>,
    children: Seq<Option<usize>>,
    guids: Seq<u64>,
    ashift: u8,
    r: RegularPointer,
    byte: u64,
    psize: nat,
    columns: Seq<Seq<u8>>,
    parity: Seq<u8>,
    lost: usize,
)
    requires
        all_stable(members),
        unit_of(ashift) != 0,
        2 <= children.len() <= usize::MAX,
        LABEL_RESERVE <= byte,
        0 < psize <= MAX_BLOCK_LSIZE,
        ({
            let g = geometry(
                (byte - LABEL_RESERVE) as u64,
                psize,
                children.len() as usize,
                unit_of(ashift),
            );
            &&& is_striped(r, g, columns, parity, psize)
            &&& forall|c: int|
                0 <= c < g.columns ==> #[trigger] column_holds(
                    members,
                    children,
                    g,
                    c,
                    column_without(g, columns, parity, c, lost),
                )
        }),
    ensures
        read_group(members, children, guids, ashift, r, byte, psize).result == Ok::<Seq<u8>, Error>(
            assembled(columns, psize),
        ),
{
    let offset = (byte - LABEL_RESERVE) as u64;
    let width = children.len() as usize;
    let unit = unit_of(ashift);
    let g = geometry(offset, psize, width, unit);
    lemma_geometry_wf(offset, psize, width, unit);
    if exists|c: int| 1 <= c < g.columns && (#[trigger] g.column(c)).child == lost {
        let c = choose|c: int| 1 <= c < g.columns && (#[trigger] g.column(c)).child == lost;
        law_columns_are_on_different_children(offset, psize, width, unit, 0, c);
        assert(column_holds(
            members,
            children,
            g,
            0,
            column_without(g, columns, parity, 0, lost),
        ));
        assert(column_holds(
            members,
            children,
            g,
            c,
            column_without(g, columns, parity, c, lost),
        ));
        assert forall|k: int| 0 <= k < columns.len() && k != c - 1 implies #[trigger] column_holds(
            members,
            children,
            g,
            k + 1,
            Some(columns[k]),
        ) by {
            law_columns_are_on_different_children(offset, psize, width, unit, k + 1, c);
            assert(column_holds(
                members,
                children,
                g,
                k + 1,
                column_without(g, columns, parity, k + 1, lost),
            ));
        }
        law_degraded_group(
            members,
            children,
            guids,
            ashift,
            r,
            byte,
            psize,
            columns,
            parity,
            c - 1,
        );
    } else {
        assert forall|k: int| 0 <= k < columns.len() implies #[trigger] column_holds(
            members,
            children,
            g,
            k + 1,
            Some(columns[k]),
        ) by {
            assert(column_holds(
                members,
                children,
                g,
                k + 1,
                column_without(g, columns, parity, k + 1, lost),
            ));
            assert(g.column(k + 1).child != lost);
        }
        law_intact_group(members, children, guids, ashift, r, byte, psize, columns, parity);
    }
}

/// Whether a member has bytes that verify.
pub open spec fn is_good_member<R: BlockRead>(
    members: Seq<PoolMember<R>>,
    i: usize,
    r: RegularPointer,
    byte: u64,
    psize: nat,
) -> bool {
    i < members.len() && (members[i as int].reader.answer(byte, psize) matches Some(raw)
        && verifies(r, raw))
}

/// Whether a copy of a block is good: one of the members that hold it whole has bytes that
/// verify, or its columns can be put together such that they do.
pub open spec fn is_good_copy<R: BlockRead>(
    members: Seq<PoolMember<R>>,
    layout: Layout,
    r: RegularPointer,
    psize: nat,
    dva: Dva,
) -> bool {
    !dva.is_gang && match device_byte(dva.offset) {
        None => false,
        Some(byte) => match layout.shape {
            Shape::RaidZ1 { children, ashift } => read_group(
                members,
                children,
                layout.guids,
                ashift,
                r,
                byte,
                psize,
            ).result is Ok,
            shape => exists|i: int|
                0 <= i < shape.read_order().len() && is_good_member(
                    members,
                    #[trigger] shape.read_order()[i],
                    r,
                    byte,
                    psize,
                ),
        },
    }
}

/// One good copy of a block is enough, whichever of the pointer's copies it is.
pub proof fn law_one_good_dva_is_enough<R: BlockRead>(
    members: Seq<PoolMember<R>>,
    layout: Layout,
    r: RegularPointer,
    psize: nat,
    from: nat,
    k: nat,
    last: Error,
)
    requires
        all_stable(members),
        from <= k < 3,
        r.dvas[k as int] matches Some(dva) && is_good_copy(members, layout, r, psize, dva),
    ensures
        read_dvas(members, layout, r, psize, from, last).result matches Ok(raw) && verifies(
            r,
            raw,
        ),
    decreases k - from,
{
    lemma_dvas_verified(members, layout, r, psize, from, last);
    match r.dvas[from as int] {
        None => {
            law_one_good_dva_is_enough(members, layout, r, psize, from + 1, k, last);
        },
        Some(dva) => {
            if dva.is_gang {
                let e = Error::Unsupported("gang_block");
                law_one_good_dva_is_enough(members, layout, r, psize, from + 1, k, e);
            } else {
                match device_byte(dva.offset) {
                    None => {
                        let e = Error::Inconsistent {
                            token: "dva_out_of_range",
                            where_: Location::Mos,
                        };
                        law_one_good_dva_is_enough(members, layout, r, psize, from + 1, k, e);
                    },
                    Some(byte) => {
                        lemma_stored_stable(members, layout, r, byte, psize, last);
                        let order = layout.shape.read_order();
                        if from == k && !(layout.shape is RaidZ1) {
                            let i = choose|i: int|
                                0 <= i < order.len() && is_good_member(
                                    members,
                                    #[trigger] order[i],
                                    r,
                                    byte,
                                    psize,
                                );
                            law_one_good_copy_is_enough(
                                members,
                                order,
                                layout.guids,
                                0,
                                i,
                                r,
                                byte,
                                psize,
                                last,
                            );
                        }
                        let run = read_stored(members, layout, r, byte, psize, last);
                        match run.result {
                            Ok(_) => {},
                            Err(e) => {
                                law_one_good_dva_is_enough(
                                    members,
                                    layout,
                                    r,
                                    psize,
                                    from + 1,
                                    k,
                                    e,
                                );
                            },
                        }
                    },
                }
            }
        },
    }
}

/// A block that was written to a group comes back, with all of its children or without any
/// one of them. The data of the block is cut into columns, the parity is their exclusive or,
/// and column `c`, of which 0 is the parity, is on child `k % width` from byte `k / width`
/// units on, where `k` is the unit of the address space at which the column starts. A unit
/// has two to the `ashift` bytes, and the address space starts 4 MiB into each device.
pub proof fn law_striped_block_comes_back<R: BlockRead>(
    members: Seq<PoolMember<R>>,
    children: Seq<Option<usize>>,
    guids: Seq<u64>,
    ashift: u8,
    r: RegularPointer,
    offset: u64,
    psize: nat,
    columns: Seq<Seq<u8>>,
    parity: Seq<u8>,
    lost: int,
    last: Error,
)
    requires
        all_stable(members),
        9 <= ashift <= 16,
        2 <= children.len() <= usize::MAX,
        offset + 0x40_0000 <= u64::MAX,
        0 < psize <= 0x100_0000,
        ({
            let unit = pow2(ashift as nat) as int;
            let n = (psize + unit - 1) / unit;
            let width = children.len() as int;
            let swapped = offset as int / 0x10_0000 % 2 == 1;
            &&& columns.len() == (if n < width - 1 {
                n
            } else {
                width - 1
            })
            &&& forall|j: int|
                0 <= j < columns.len() ==> (#[trigger] columns[j]).len() == (n + width - 2 - j) / (
                width - 1) * unit
            &&& parity.len() == columns[0].len()
            &&& forall|i: int|
                0 <= i < parity.len() ==> #[trigger] parity[i] == columns.fold_left(
                    0u8,
                    |x: u8, column: Seq<u8>|
                        if i < column.len() {
                            x ^ column[i]
                        } else {
                            x
                        },
                )
            &&& verifies(r, columns.flatten().take(psize as int))
            &&& forall|c: int|
                #![trigger children[(offset as int / unit + c) % width]]
                0 <= c <= columns.len() ==> {
                    let k = offset as int / unit + c;
                    let content = if c == (if swapped {
                        1int
                    } else {
                        0int
                    }) {
                        parity
                    } else if c == 0 {
                        columns[0]
                    } else {
                        columns[c - 1]
                    };
                    if k % width == lost {
                        children[k % width] is None
                    } else {
                        children[k % width] matches Some(m) && m < members.len()
                            && members[m as int].reader.answer(
                            (0x40_0000 + k / width * unit) as u64,
                            content.len(),
                        ) == Some(content)
                    }
                }
        }),
    ensures
        read_stored(
            members,
            Layout { shape: Shape::RaidZ1 { children, ashift }, guids },
            r,
            (0x40_0000 + offset) as u64,
            psize,
            last,
        ).result == Ok::<Seq<u8>, Error>(columns.flatten().take(psize as int)),
{
    lemma2_to64();
    let unit = pow2(ashift as nat) as int;
    let n = (psize + unit - 1) / unit;
    let w = children.len() as int;
    let width = children.len() as usize;
    let byte = (0x40_0000 + offset) as u64;
    assert((byte - LABEL_RESERVE) as u64 == offset);
    assert(n >= 1) by (nonlinear_arith)
        requires
            n == (psize + unit - 1) / unit,
            0 < psize,
            0 < unit,
    {
    }
    law_columns_lie_where_their_units_do(offset, psize, width, ashift, 0);
    let u = unit_of(ashift);
    let g = geometry(offset, psize, width, u);
    lemma_geometry_wf(offset, psize, width, u);
    law_joined_is_flattened(columns);
    assert(is_parity(parity, columns)) by {
        assert forall|i: int| 0 <= i < parity.len() implies #[trigger] parity[i]
            == crate::raidz::xor_at(columns, i, columns.len()) by {
            law_parity_is_exclusive_or(columns, i);
        }
    }
    assert(is_striped(r, g, columns, parity, psize)) by {
        assert forall|j: int| 0 <= j < columns.len() implies (#[trigger] columns[j]).len()
            == g.column(j + 1).size by {
            law_columns_lie_where_their_units_do(offset, psize, width, ashift, j + 1);
        }
        assert forall|j: int| 0 <= j < columns.len() implies (#[trigger] columns[j]).len()
            <= parity.len() by {
            let (a, b) = ((n + w - 2 - j) / (w - 1), (n + w - 2) / (w - 1));
            assert(columns[0].len() == (n + w - 2 - 0) / (w - 1) * unit);
            vstd::arithmetic::div_mod::lemma_div_is_ordered(n + w - 2 - j, n + w - 2, w - 1);
            assert(a * unit <= b * unit) by (nonlinear_arith)
                requires
                    a <= b,
                    0 < unit,
            {
            }
        }
    }
    let gone = if 0 <= lost < w {
        lost as usize
    } else {
        usize::MAX
    };
    assert forall|c: int| 0 <= c < g.columns implies #[trigger] column_holds(
        members,
        children,
        g,
        c,
        column_without(g, columns, parity, c, gone),
    ) by {
        law_columns_lie_where_their_units_do(offset, psize, width, ashift, c);
        let place = if offset as int / 0x10_0000 % 2 == 1 && c <= 1 {
            1 - c
        } else {
            c
        };
        let k = offset as int / unit + place;
        vstd::arithmetic::div_mod::lemma_mod_bound(k, w);
        assert(children[(offset as int / unit + place) % w] == children[k % w]);
        assert(g.column(c).child == k % w);
        assert(g.column(c).child < usize::MAX);
        if c > 0 {
            assert(columns[c - 1].len() == g.column(c).size);
        }
    }
    law_any_one_child_may_be_lost(
        members,
        children,
        guids,
        ashift,
        r,
        byte,
        psize,
        columns,
        parity,
        gone,
    );
}

/// Whether member `i` has nothing that is good for a block of `psize` bytes at `byte`: it is
/// not there, cannot be read, or has bytes that do not verify.
pub open spec fn is_useless<R: BlockRead>(
    members: Seq<PoolMember<R>>,
    i: usize,
    r: RegularPointer,
    byte: u64,
    psize: nat,
) -> bool {
    i >= members.len() || match members[i as int].reader.answer(byte, psize) {
        None => true,
        Some(raw) => !verifies(r, raw),
    }
}

proof fn lemma_first_good_copy<R: BlockRead>(
    members: Seq<PoolMember<R>>,
    order: Seq<usize>,
    guids: Seq<u64>,
    from: nat,
    i: int,
    r: RegularPointer,
    byte: u64,
    psize: nat,
    raw: Seq<u8>,
    last: Error,
)
    requires
        all_stable(members),
        from <= i < order.len(),
        forall|j: int|
            from <= j < i ==> is_useless(members, #[trigger] order[j], r, byte, psize),
        order[i] < members.len(),
        members[order[i] as int].reader.answer(byte, psize) == Some(raw),
        verifies(r, raw),
    ensures
        read_copies(members, order, guids, from, r, byte, psize, last).result == Ok::<
            Seq<u8>,
            Error,
        >(raw),
    decreases i - from,
{
    if order[from as int] >= members.len() {
        lemma_first_good_copy(
            members,
            order,
            guids,
            from + 1,
            i,
            r,
            byte,
            psize,
            raw,
            last,
        );
    } else {
        let at = order[from as int] as int;
        let vdev = leaf_guid(guids, from as int);
        lemma_member_stable(members, at, byte, psize, vdev, "io_block");
        match members[at].reader.answer(byte, psize) {
            Some(x) => {
                lemma_verifies(r, vdev, byte, x);
            },
            None => {},
        }
        if from < i {
            assert(is_useless(members, order[from as int], r, byte, psize));
            let e = read_copy(members, order[from as int], r, vdev, byte, psize).result->Err_0;
            lemma_first_good_copy(
                members,
                order,
                guids,
                from + 1,
                i,
                r,
                byte,
                psize,
                raw,
                e,
            );
        }
    }
}

/// A block comes back from a mirror, as the first child that has bytes with its checksum has
/// it, and from a single device as that has it. The block is at the first copy that its pointer
/// has: 512 times the offset of the copy behind the first 4 MiB of the device, with 512 bytes
/// to a sector of its physical size. What comes back is that, decompressed to 512 bytes for a
/// sector of the logical size.
pub proof fn law_copied_block_comes_back<R: BlockRead>(
    members: Seq<PoolMember<R>>,
    children: Seq<usize>,
    guids: Seq<u64>,
    i: int,
    r: RegularPointer,
    k: int,
    dva: Dva,
    raw: Seq<u8>,
)
    requires
        all_stable(members),
        1 <= r.physical_sectors <= 0x8000,
        0 <= k < 3,
        forall|j: int| 0 <= j < k ==> r.dvas[j] is None,
        r.dvas[k] == Some(dva),
        !dva.is_gang,
        0x40_0000 + 512 * dva.offset <= u64::MAX,
        0 <= i < children.len(),
        forall|j: int|
            0 <= j < i ==> is_useless(
                members,
                #[trigger] children[j],
                r,
                (0x40_0000 + 512 * dva.offset) as u64,
                (512 * r.physical_sectors) as nat,
            ),
        children[i] < members.len(),
        members[children[i] as int].reader.answer(
            (0x40_0000 + 512 * dva.offset) as u64,
            (512 * r.physical_sectors) as nat,
        ) == Some(raw),
        verifies(r, raw),
    ensures
        read_pointer(
            members,
            Layout { shape: Shape::Mirror(children), guids },
            Pointer::Regular(r),
        ).result == decompressed(r.compression, raw, (512 * r.logical_sectors) as nat),
        children.len() == 1 ==> read_pointer(
            members,
            Layout { shape: Shape::Single(children[0]), guids },
            Pointer::Regular(r),
        ).result == decompressed(r.compression, raw, (512 * r.logical_sectors) as nat),
{
    reveal(read_pointer);
    let psize = (512 * r.physical_sectors) as nat;
    let byte = (0x40_0000 + 512 * dva.offset) as u64;
    let last = Error::Inconsistent { token: "bp_no_readable_copy", where_: Location::Mos };
    lemma_first_good_copy(members, children, guids, 0, i, r, byte, psize, raw, last);
    reveal_with_fuel(read_dvas, 4);
    assert(device_byte(dva.offset) == Some(byte));
    assert((r.physical_sectors * SECTOR_SIZE) as nat == psize);
    let mirror = Layout { shape: Shape::Mirror(children), guids };
    assert(read_stored(members, mirror, r, byte, psize, last).result is Ok);
    assert(read_dvas(members, mirror, r, psize, 0, last).result == Ok::<Seq<u8>, Error>(raw));
    if children.len() == 1 {
        assert(seq![children[0]] =~= children);
        let single = Layout { shape: Shape::Single(children[0]), guids };
        assert(read_stored(members, single, r, byte, psize, last).result is Ok);
        assert(read_dvas(members, single, r, psize, 0, last).result == Ok::<Seq<u8>, Error>(raw));
    }
}

/// What comes of a block on a single device that is not good: the error names the device by
/// its identifier, and the byte that was read.
pub proof fn law_failures_name_the_device_and_the_byte<R: BlockRead>(
    members: Seq<PoolMember<R>>,
    i: usize,
    guid: u64,
    r: RegularPointer,
    dva: Dva,
)
    requires
        i < members.len(),
        1 <= r.physical_sectors <= 0x8000,
        r.dvas[0] == Some(dva),
        r.dvas[1] is None,
        r.dvas[2] is None,
        !dva.is_gang,
        0x40_0000 + 512 * dva.offset <= u64::MAX,
    ensures
        ({
            let byte = (0x40_0000 + 512 * dva.offset) as u64;
            let result = read_pointer(
                members,
                Layout { shape: Shape::Single(i), guids: seq![guid] },
                Pointer::Regular(r),
            ).result;
            match members[i as int].reader.answer(byte, (512 * r.physical_sectors) as nat) {
                None => result == Err::<Seq<u8>, Error>(
                    Error::Io { token: "io_block", vdev: guid, offset: byte },
                ),
                Some(raw) => verdict(
                    r.checksum_type,
                    r.order,
                    raw,
                    r.checksum_value,
                    guid,
                    byte,
                ) matches Err(e) ==> result == Err::<Seq<u8>, Error>(e),
            }
        }),
{
    reveal(read_pointer);
    reveal_with_fuel(read_dvas, 4);
    reveal_with_fuel(read_copies, 2);
}

/// Pointers that are not followed to any member: those whose data is in them decompress to
/// that, those to encrypted data are refused, and so are those without a physical size or
/// with one of more than 16 MiB, those without a copy, and those whose copies are gang blocks.
pub proof fn law_pointers_without_a_read<R: BlockRead>(
    members: Seq<PoolMember<R>>,
    layout: Layout,
    p: Pointer,
)
    ensures
        p matches Pointer::Embedded {
            payload,
            logical_size,
            physical_size,
            compression,
            ..
        } ==> physical_size <= payload.len() ==> read_pointer(members, layout, p).result
            == decompressed(compression, payload.subrange(0, physical_size as int), logical_size),
        p is Encrypted ==> read_pointer(members, layout, p).result == Err::<Seq<u8>, Error>(
            Error::UnsupportedFeature("encryption"),
        ),
        p matches Pointer::Regular(r) ==> {
            let result = read_pointer(members, layout, p).result;
            let bad_size = Error::Inconsistent { token: "bp_bad_psize", where_: Location::Mos };
            let no_copy = Error::Inconsistent {
                token: "bp_no_readable_copy",
                where_: Location::Mos,
            };
            &&& (r.physical_sectors == 0 || r.physical_sectors > 0x8000) ==> result == Err::<
                Seq<u8>,
                Error,
            >(bad_size)
            &&& (1 <= r.physical_sectors <= 0x8000 && r.dvas[0] is None && r.dvas[1] is None
                && r.dvas[2] is None) ==> result == Err::<Seq<u8>, Error>(no_copy)
            &&& (1 <= r.physical_sectors <= 0x8000 && r.dvas[0] is Some && r.dvas[0]->0.is_gang
                && r.dvas[1] is None && r.dvas[2] is None) ==> result == Err::<Seq<u8>, Error>(
                Error::Unsupported("gang_block"),
            )
        },
{
    reveal(read_pointer);
    reveal_with_fuel(read_dvas, 4);
    match p {
        Pointer::Embedded { payload, physical_size, .. } => {
            if physical_size <= payload.len() {
                assert(payload.subrange(0, physical_size as int) =~= payload.take(
                    physical_size as int,
                ));
            }
        },
        _ => {},
    }
}

/// The first copy of a block is read from 512 times its offset behind the first 4 MiB on,
/// however the members are laid out, and if that gives the data, this is decompressed to 512
/// bytes for a sector of the logical size.
pub proof fn law_first_copy_is_read_first<R: BlockRead>(
    members: Seq<PoolMember<R>>,
    layout: Layout,
    r: RegularPointer,
    dva: Dva,
    raw: Seq<u8>,
    last: Error,
)
    requires
        1 <= r.physical_sectors <= 0x8000,
        r.dvas[0] == Some(dva),
        !dva.is_gang,
        0x40_0000 + 512 * dva.offset <= u64::MAX,
        last == (Error::Inconsistent { token: "bp_no_readable_copy", where_: Location::Mos }),
        read_stored(
            members,
            layout,
            r,
            (0x40_0000 + 512 * dva.offset) as u64,
            (512 * r.physical_sectors) as nat,
            last,
        ).result == Ok::<Seq<u8>, Error>(raw),
    ensures
        read_pointer(members, layout, Pointer::Regular(r)).result == decompressed(
            r.compression,
            raw,
            (512 * r.logical_sectors) as nat,
        ),
{
    reveal(read_pointer);
    assert((r.physical_sectors * SECTOR_SIZE) as nat == (512 * r.physical_sectors) as nat);
}

/// A copy that gives nothing is followed by the next, with all that it was asked in between.
pub proof fn law_next_copy_is_read_next<R: BlockRead>(
    members: Seq<PoolMember<R>>,
    layout: Layout,
    r: RegularPointer,
    psize: nat,
    k: nat,
    dva: Dva,
    last: Error,
)
    requires
        k < 3,
        r.dvas[k as int] == Some(dva),
        !dva.is_gang,
        0x40_0000 + 512 * dva.offset <= u64::MAX,
    ensures
        ({
            let run = read_stored(
                members,
                layout,
                r,
                (0x40_0000 + 512 * dva.offset) as u64,
                psize,
                last,
            );
            match run.result {
                Ok(raw) => read_dvas(members, layout, r, psize, k, last).result == Ok::<
                    Seq<u8>,
                    Error,
                >(raw),
                Err(e) => read_dvas(members, layout, r, psize, k, last) == read_dvas(
                    run.members,
                    layout,
                    r,
                    psize,
                    k + 1,
                    e,
                ),
            }
        }),
{
    assert(device_byte(dva.offset) == Some((0x40_0000 + 512 * dva.offset) as u64));
}

/// A copy that does not exist is passed over, and so is one that is a gang block or beyond the
/// last byte that a device could have; after the third copy, the last error is what is left.
pub proof fn law_copies_that_are_passed_over<R: BlockRead>(
    members: Seq<PoolMember<R>>,
    layout: Layout,
    r: RegularPointer,
    psize: nat,
    k: nat,
    last: Error,
)
    ensures
        k >= 3 ==> read_dvas(members, layout, r, psize, k, last).result == Err::<Seq<u8>, Error>(
            last,
        ),
        k < 3 && r.dvas[k as int] is None ==> read_dvas(members, layout, r, psize, k, last)
            == read_dvas(members, layout, r, psize, k + 1, last),
        k < 3 && r.dvas[k as int] is Some && r.dvas[k as int]->0.is_gang ==> read_dvas(
            members,
            layout,
            r,
            psize,
            k,
            last,
        ) == read_dvas(members, layout, r, psize, k + 1, Error::Unsupported("gang_block")),
        k < 3 && r.dvas[k as int] is Some && !r.dvas[k as int]->0.is_gang && 0x40_0000 + 512
            * r.dvas[k as int]->0.offset > u64::MAX ==> read_dvas(
            members,
            layout,
            r,
            psize,
            k,
            last,
        ) == read_dvas(
            members,
            layout,
            r,
            psize,
            k + 1,
            Error::Inconsistent { token: "dva_out_of_range", where_: Location::Mos },
        ),
{
}

/// Without two of its data columns, or without one and the parity, a block of a group is not
/// read: the error names the leaf of a column that is missing, and the byte at which that
/// should be.
pub proof fn law_two_columns_are_too_many<R: BlockRead>(
    members: Seq<PoolMember<R>>,
    children: Seq<Option<usize>>,
    guids: Seq<u64>,
    ashift: u8,
    r: RegularPointer,
    byte: u64,
    psize: nat,
    a: int,
    b: int,
)
    requires
        all_stable(members),
        unit_of(ashift) != 0,
        2 <= children.len() <= usize::MAX,
        guids.len() == children.len(),
        0x40_0000 <= byte,
        0 < psize <= 0x100_0000,
        ({
            let g = geometry(
                (byte - 0x40_0000) as u64,
                psize,
                children.len() as usize,
                unit_of(ashift),
            );
            &&& 0 <= a < b < g.columns
            &&& read_column(members, children, g.column(a)).1 is None
            &&& read_column(members, children, g.column(b)).1 is None
        }),
    ensures
        ({
            let g = geometry(
                (byte - 0x40_0000) as u64,
                psize,
                children.len() as usize,
                unit_of(ashift),
            );
            read_group(members, children, guids, ashift, r, byte, psize).result matches Err(
                Error::Io { token, vdev, offset },
            ) && token == "io_block" && exists|c: int|
                1 <= c < g.columns && read_column(members, children, #[trigger] g.column(c)).1
                    is None && vdev == guids[g.column(c).child as int] && offset == 0x40_0000
                    + g.column(c).offset
        }),
{
    reveal(read_group);
    let g = geometry(
        (byte - 0x40_0000) as u64,
        psize,
        children.len() as usize,
        unit_of(ashift),
    );
    lemma_geometry_wf((byte - 0x40_0000) as u64, psize, children.len() as usize, unit_of(ashift));
    let n = (g.columns - 1) as nat;
    lemma_columns_stable(members, children, g, n);
    lemma_column_stable(members, children, g, 0);
    let found = read_columns(members, children, g, n).found;
    assert(found[b - 1] is None);
    lemma_gap_is_missing(found, b - 1);
    if a > 0 {
        assert(found[a - 1] is None);
        lemma_two_gaps(found, a - 1, b - 1);
    }
    let c = gap(found) + 1;
    assert(found[c - 1] == read_column(members, children, g.column(c)).1);
    assert(g.column(c).child < children.len());
    assert(g.column(c).offset < 0xf000_0000_0001_0000);
}

proof fn lemma_gap_is_missing(found: Seq<Option<Seq<u8>>>, b: int)
    requires
        0 <= b < found.len(),
        found[b] is None,
    ensures
        gaps(found) >= 1,
        0 <= gap(found) < found.len(),
        found[gap(found)] is None,
    decreases found.len(),
{
    if b < found.len() - 1 {
        lemma_gap_is_missing(found.drop_last(), b);
    }
}

proof fn lemma_two_gaps(found: Seq<Option<Seq<u8>>>, a: int, b: int)
    requires
        0 <= a < b < found.len(),
        found[a] is None,
        found[b] is None,
    ensures
        gaps(found) >= 2,
    decreases found.len(),
{
    if b < found.len() - 1 {
        lemma_two_gaps(found.drop_last(), a, b);
    } else {
        lemma_gap_is_missing(found.drop_last(), a);
    }
}

/// Data is what a pointer points to, as far as can be told, if it has the pointer's checksum,
/// by the pointer's algorithm and in its byte order, or if the pointer has none.
pub proof fn law_verified_data_has_the_checksum(r: RegularPointer, raw: Seq<u8>)
    ensures
        verifies(r, raw) <==> r.checksum_type == ChecksumType::Off || (match r.checksum_type {
            ChecksumType::Fletcher2 => fletcher2(raw, r.order) == r.checksum_value.words,
            ChecksumType::Fletcher4 => fletcher4(raw, r.order) == r.checksum_value.words,
            ChecksumType::Sha256 | ChecksumType::Label => sha256(raw) == r.checksum_value.words,
            _ => false,
        }),
{
    reveal(verdict);
    lemma_verifies(r, 0, 0, raw);
}

proof fn lemma_last_failure<R: BlockRead>(
    members: Seq<PoolMember<R>>,
    order: Seq<usize>,
    guids: Seq<u64>,
    from: nat,
    r: RegularPointer,
    byte: u64,
    psize: nat,
    last: Error,
)
    requires
        all_stable(members),
        from < order.len() == guids.len(),
        forall|j: int|
            from <= j < order.len() ==> #[trigger] order[j] < members.len() && is_useless(
                members,
                order[j],
                r,
                byte,
                psize,
            ),
    ensures
        read_copies(members, order, guids, from, r, byte, psize, last).result == (
        match members[order.last() as int].reader.answer(byte, psize) {
            None => Err::<Seq<u8>, Error>(
                Error::Io { token: "io_block", vdev: guids.last(), offset: byte },
            ),
            Some(raw) => Err(
                verdict(
                    r.checksum_type,
                    r.order,
                    raw,
                    r.checksum_value,
                    guids.last(),
                    byte,
                )->Err_0,
            ),
        }),
    decreases order.len() - from,
{
    let at = order[from as int] as int;
    let vdev = leaf_guid(guids, from as int);
    assert(is_useless(members, order[from as int], r, byte, psize));
    lemma_member_stable(members, at, byte, psize, vdev, "io_block");
    match members[at].reader.answer(byte, psize) {
        Some(raw) => {
            lemma_verifies(r, vdev, byte, raw);
        },
        None => {},
    }
    let e = read_copy(members, order[from as int], r, vdev, byte, psize).result->Err_0;
    if from + 1 < order.len() {
        lemma_last_failure(members, order, guids, from + 1, r, byte, psize, e);
    } else {
        reveal_with_fuel(read_copies, 2);
    }
}

/// If no child of a mirror has bytes with the checksum of a block, the error is that of the
/// last child, under its identifier.
pub proof fn law_failures_of_a_mirror_name_the_last_child<R: BlockRead>(
    members: Seq<PoolMember<R>>,
    children: Seq<usize>,
    guids: Seq<u64>,
    r: RegularPointer,
    byte: u64,
    psize: nat,
    last: Error,
)
    requires
        all_stable(members),
        0 < children.len() == guids.len(),
        forall|j: int|
            0 <= j < children.len() ==> #[trigger] children[j] < members.len() && is_useless(
                members,
                children[j],
                r,
                byte,
                psize,
            ),
    ensures
        ({
            let result = read_stored(
                members,
                Layout { shape: Shape::Mirror(children), guids },
                r,
                byte,
                psize,
                last,
            ).result;
            match members[children.last() as int].reader.answer(byte, psize) {
                None => result == Err::<Seq<u8>, Error>(
                    Error::Io { token: "io_block", vdev: guids.last(), offset: byte },
                ),
                Some(raw) => result == Err::<Seq<u8>, Error>(
                    verdict(
                        r.checksum_type,
                        r.order,
                        raw,
                        r.checksum_value,
                        guids.last(),
                        byte,
                    )->Err_0,
                ),
            }
        }),
{
    lemma_last_failure(members, children, guids, 0, r, byte, psize, last);
}

} // verus!
