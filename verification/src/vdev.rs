//! Topology, and the reading of blocks.

use crate::block_read::{read_from, read_member, BlockRead, PoolMember, Run};
use crate::cksum::{verdict, verify_block};
use crate::compress::{decompress, decompressed, MAX_BLOCK_LSIZE};
use crate::error::{bytes_of, Error, Location};
use crate::phys::block_pointer::{BlockPointer, Pointer, RegularPointer, EMBEDDED_PAYLOAD_SIZE};
use crate::raidz::{
    contents, geometry, join, joined, lemma_block_fits, recover, repaired, unit_of, unit_size,
    Column, Geometry,
};
use vstd::prelude::*;

verus! {

/// Bytes at the front of every leaf vdev before the space for blocks: two labels and the
/// boot block.
pub const LABEL_RESERVE: u64 = 0x40_0000;

/// Size of a sector, in which offsets and sizes are counted.
pub const SECTOR_SIZE: u64 = 512;

/// The top level vdev of the pool. Members are named by their index.
pub enum Topology {
    /// One device.
    Single(usize),
    /// Every child holds the same data.
    Mirror(Vec<usize>),
    /// Single parity RAID-Z.
    RaidZ1 {
        /// The children, or nothing for one that is missing.
        children: Vec<Option<usize>>,
        /// Binary logarithm of the unit of allocation.
        ashift: u8,
    },
}

/// What a topology is.
pub ghost enum Shape {
    /// One device.
    Single(usize),
    /// Every child holds the same data.
    Mirror(Seq<usize>),
    /// Single parity RAID-Z.
    RaidZ1 { children: Seq<Option<usize>>, ashift: u8 },
}

impl View for Topology {
    type V = Shape;

    open spec fn view(&self) -> Shape {
        match self {
            Topology::Single(i) => Shape::Single(*i),
            Topology::Mirror(children) => Shape::Mirror(children@),
            Topology::RaidZ1 { children, ashift } => Shape::RaidZ1 {
                children: children@,
                ashift: *ashift,
            },
        }
    }
}

impl Shape {
    /// The members that hold whole copies, in the order in which they are tried.
    pub open spec fn read_order(self) -> Seq<usize> {
        match self {
            Shape::Single(i) => seq![i],
            Shape::Mirror(children) => children,
            Shape::RaidZ1 { .. } => Seq::empty(),
        }
    }
}

/// The top level vdev of the pool, with the GUIDs of its leaves.
pub struct Vdev {
    /// The topology.
    pub topology: Topology,
    /// The GUID of the device, or of each child.
    pub guids: Vec<u64>,
}

/// How the data of a pool lies on its members.
pub ghost struct Layout {
    pub shape: Shape,
    pub guids: Seq<u64>,
}

impl View for Vdev {
    type V = Layout;

    open spec fn view(&self) -> Layout {
        Layout { shape: self.topology@, guids: self.guids@ }
    }
}

/// The GUID of leaf `k`, 0 if it is not known.
pub open spec fn leaf_guid(guids: Seq<u64>, k: int) -> u64 {
    if 0 <= k < guids.len() {
        guids[k]
    } else {
        0
    }
}

/// The GUID of leaf `k`, 0 if it is not known.
fn guid_of(guids: &[u64], k: usize) -> (r: u64)
    ensures
        r == leaf_guid(guids@, k as int),
{
    if k < guids.len() {
        guids[k]
    } else {
        0
    }
}

/// `core::slice::from_ref`: a slice of one element, the one that is referred to.
pub assume_specification<T>[ core::slice::from_ref::<T> ](s: &T) -> (r: &[T])
    ensures
        r@ == seq![*s],
;

impl Topology {
    /// The members that hold whole copies, in the order in which they are tried.
    pub fn read_order(&self) -> (r: &[usize])
        ensures
            r@ == self@.read_order(),
    {
        match self {
            Topology::Single(i) => core::slice::from_ref(i),
            Topology::Mirror(children) => children.as_slice(),
            Topology::RaidZ1 { .. } => {
                let none: &[usize] = &[];
                assert(none@ =~= Seq::empty());
                none
            },
        }
    }
}

/// The byte on a leaf device for an offset in sectors, unless that is too large.
pub open spec fn device_byte(sector: u64) -> Option<u64> {
    if sector * SECTOR_SIZE + LABEL_RESERVE > u64::MAX {
        None
    } else {
        Some((sector * SECTOR_SIZE + LABEL_RESERVE) as u64)
    }
}

/// The byte on a leaf device for an offset in sectors.
pub fn dva_byte_offset(sector_offset: u64) -> (r: Option<u64>)
    ensures
        r == device_byte(sector_offset),
{
    match sector_offset.checked_mul(512) {
        Some(b) => b.checked_add(LABEL_RESERVE),
        None => None,
    }
}

/// The verdict on the data of a pointer, read from `byte` on of a leaf vdev.
pub open spec fn pointer_verdict(
    r: RegularPointer,
    vdev: u64,
    byte: u64,
    raw: Seq<u8>,
) -> Result<(), Error> {
    verdict(r.checksum_type, r.order, raw, r.checksum_value, vdev, byte)
}

/// One member's copy of a block, which has to verify.
pub open spec fn read_copy<R: BlockRead>(
    members: Seq<PoolMember<R>>,
    i: usize,
    r: RegularPointer,
    vdev: u64,
    byte: u64,
    psize: nat,
) -> Run<R, Seq<u8>> {
    let run = read_member(members, i as int, byte, psize, vdev, "io_block");
    Run {
        members: run.members,
        result: match run.result {
            Err(e) => Err(e),
            Ok(raw) => match pointer_verdict(r, vdev, byte, raw) {
                Ok(()) => Ok(raw),
                Err(e) => Err(e),
            },
        },
    }
}

/// The first copy that verifies, of those from `i` on. Members that are not there are
/// passed over; `last` is the error if no other comes up.
pub open spec fn read_copies<R: BlockRead>(
    members: Seq<PoolMember<R>>,
    order: Seq<usize>,
    guids: Seq<u64>,
    i: nat,
    r: RegularPointer,
    byte: u64,
    psize: nat,
    last: Error,
) -> Run<R, Seq<u8>>
    decreases order.len() - i,
{
    if i >= order.len() {
        Run { members, result: Err(last) }
    } else if order[i as int] >= members.len() {
        read_copies(members, order, guids, i + 1, r, byte, psize, last)
    } else {
        let vdev = leaf_guid(guids, i as int);
        let run = read_copy(members, order[i as int], r, vdev, byte, psize);
        match run.result {
            Ok(_) => run,
            Err(e) => read_copies(run.members, order, guids, i + 1, r, byte, psize, e),
        }
    }
}

/// The members after reads of columns, and what each of those gave, if it did not fail.
pub ghost struct Columns<R: BlockRead> {
    pub members: Seq<PoolMember<R>>,
    pub found: Seq<Option<Seq<u8>>>,
}

/// One column. Why it cannot be read is of no interest.
pub open spec fn read_column<R: BlockRead>(
    members: Seq<PoolMember<R>>,
    children: Seq<Option<usize>>,
    column: Column,
) -> (Seq<PoolMember<R>>, Option<Seq<u8>>) {
    match children[column.child as int] {
        Some(i) => if i < members.len() {
            let run = read_member(
                members,
                i as int,
                (LABEL_RESERVE + column.offset) as u64,
                column.size as nat,
                0,
                "io_block",
            );
            (
                run.members,
                match run.result {
                    Ok(bytes) => Some(bytes),
                    Err(_) => None,
                },
            )
        } else {
            (members, None)
        },
        None => (members, None),
    }
}

/// The first `n` data columns.
pub open spec fn read_columns<R: BlockRead>(
    members: Seq<PoolMember<R>>,
    children: Seq<Option<usize>>,
    g: Geometry,
    n: nat,
) -> Columns<R>
    decreases n,
{
    if n == 0 {
        Columns { members, found: Seq::empty() }
    } else {
        let before = read_columns(members, children, g, (n - 1) as nat);
        let (after, bytes) = read_column(before.members, children, g.column(n as int));
        Columns { members: after, found: before.found.push(bytes) }
    }
}

/// How many columns are missing.
pub open spec fn gaps(found: Seq<Option<Seq<u8>>>) -> nat
    decreases found.len(),
{
    if found.len() == 0 {
        0
    } else {
        gaps(found.drop_last()) + (if found.last() is None {
            1nat
        } else {
            0nat
        })
    }
}

/// The last column that is missing.
pub open spec fn gap(found: Seq<Option<Seq<u8>>>) -> int
    decreases found.len(),
{
    if found.len() == 0 || found.last() is None {
        found.len() - 1
    } else {
        gap(found.drop_last())
    }
}

/// The columns, with nothing in place of a missing one.
pub open spec fn present(found: Seq<Option<Seq<u8>>>) -> Seq<Seq<u8>> {
    found.map_values(
        |x: Option<Seq<u8>>|
            match x {
                Some(bytes) => bytes,
                None => Seq::empty(),
            },
    )
}

/// The data of a block in columns.
pub open spec fn assembled(columns: Seq<Seq<u8>>, psize: nat) -> Seq<u8> {
    joined(columns, columns.len()).take(psize as int)
}

/// The data of a block with data column `c` recovered.
pub open spec fn reassembled(
    parity: Seq<u8>,
    columns: Seq<Seq<u8>>,
    g: Geometry,
    c: int,
    psize: nat,
) -> Seq<u8> {
    assembled(repaired(parity, columns, c, g.column(c + 1).size as nat), psize)
}

/// The data of a block with one column recovered, from column `c` on, such that it
/// verifies.
pub open spec fn find_repair(
    r: RegularPointer,
    byte: u64,
    parity: Seq<u8>,
    columns: Seq<Seq<u8>>,
    g: Geometry,
    psize: nat,
    c: nat,
) -> Option<Seq<u8>>
    decreases columns.len() - c,
{
    if c >= columns.len() {
        None
    } else {
        let raw = reassembled(parity, columns, g, c as int, psize);
        if pointer_verdict(r, 0, byte, raw) is Ok {
            Some(raw)
        } else {
            find_repair(r, byte, parity, columns, g, psize, c + 1)
        }
    }
}

/// That a column could not be read from its leaf.
pub open spec fn column_error(guids: Seq<u64>, column: Column) -> Error {
    Error::Io {
        token: "io_block",
        vdev: leaf_guid(guids, column.child as int),
        offset: (LABEL_RESERVE + column.offset) as u64,
    }
}

/// A block in columns. The parity is read only if a data column is missing or the data
/// does not verify; in the latter case each column in turn is taken to be the bad one. The
/// error is that of the last missing column. Where none is missing, no one leaf is known to
/// be at fault.
#[verifier::opaque]
pub open spec fn read_group<R: BlockRead>(
    members: Seq<PoolMember<R>>,
    children: Seq<Option<usize>>,
    guids: Seq<u64>,
    ashift: u8,
    r: RegularPointer,
    byte: u64,
    psize: nat,
) -> Run<R, Seq<u8>> {
    let unit = unit_of(ashift);
    if unit == 0 {
        Run {
            members,
            result: Err(Error::Inconsistent { token: "raidz_ashift", where_: Location::Mos }),
        }
    } else if children.len() < 2 {
        Run {
            members,
            result: Err(Error::Inconsistent { token: "raidz_children", where_: Location::Mos }),
        }
    } else {
        let g = geometry((byte - LABEL_RESERVE) as u64, psize, children.len() as usize, unit);
        let data = read_columns(members, children, g, (g.columns - 1) as nat);
        let columns = present(data.found);
        let missing = gaps(data.found);
        let whole = pointer_verdict(r, 0, byte, assembled(columns, psize));
        let failed = if missing == 0 {
            whole->Err_0
        } else {
            column_error(guids, g.column(gap(data.found) + 1))
        };
        if missing == 0 && whole is Ok {
            Run { members: data.members, result: Ok(assembled(columns, psize)) }
        } else if missing >= 2 {
            Run { members: data.members, result: Err(failed) }
        } else {
            let (after, parity) = read_column(data.members, children, g.column(0));
            Run {
                members: after,
                result: match parity {
                    None => Err(failed),
                    Some(parity) => if missing == 0 {
                        match find_repair(r, byte, parity, columns, g, psize, 0) {
                            Some(raw) => Ok(raw),
                            None => Err(failed),
                        }
                    } else {
                        let raw = reassembled(parity, columns, g, gap(data.found), psize);
                        match pointer_verdict(r, 0, byte, raw) {
                            Ok(()) => Ok(raw),
                            Err(e) => Err(e),
                        }
                    },
                },
            }
        }
    }
}

/// The physical bytes of a block that is stored from `byte` on; `last` is the error if
/// there is no member to read.
pub open spec fn read_stored<R: BlockRead>(
    members: Seq<PoolMember<R>>,
    layout: Layout,
    r: RegularPointer,
    byte: u64,
    psize: nat,
    last: Error,
) -> Run<R, Seq<u8>> {
    match layout.shape {
        Shape::RaidZ1 { children, ashift } => read_group(
            members,
            children,
            layout.guids,
            ashift,
            r,
            byte,
            psize,
        ),
        shape => read_copies(
            members,
            shape.read_order(),
            layout.guids,
            0,
            r,
            byte,
            psize,
            last,
        ),
    }
}

/// The physical bytes of a block, from the first of the copies from `k` on that
/// verifies; `last` is the error if no other comes up.
pub open spec fn read_dvas<R: BlockRead>(
    members: Seq<PoolMember<R>>,
    layout: Layout,
    r: RegularPointer,
    psize: nat,
    k: nat,
    last: Error,
) -> Run<R, Seq<u8>>
    decreases 3 - k,
{
    if k >= 3 {
        Run { members, result: Err(last) }
    } else {
        match r.dvas[k as int] {
            None => read_dvas(members, layout, r, psize, k + 1, last),
            Some(dva) => if dva.is_gang {
                let e = Error::Unsupported("gang_block");
                read_dvas(members, layout, r, psize, k + 1, e)
            } else {
                match device_byte(dva.offset) {
                    None => {
                        let e = Error::Inconsistent {
                            token: "dva_out_of_range",
                            where_: Location::Mos,
                        };
                        read_dvas(members, layout, r, psize, k + 1, e)
                    },
                    Some(byte) => {
                        let run = read_stored(members, layout, r, byte, psize, last);
                        match run.result {
                            Ok(_) => run,
                            Err(e) => read_dvas(run.members, layout, r, psize, k + 1, e),
                        }
                    },
                }
            },
        }
    }
}

/// The logical bytes of a block.
#[verifier::opaque]
pub open spec fn read_pointer<R: BlockRead>(
    members: Seq<PoolMember<R>>,
    layout: Layout,
    p: Pointer,
) -> Run<R, Seq<u8>> {
    match p {
        Pointer::Embedded { payload, logical_size, physical_size, compression, .. } => Run {
            members,
            result: if physical_size > payload.len() {
                Err(Error::Inconsistent { token: "embedded_short", where_: Location::Mos })
            } else {
                decompressed(compression, payload.take(physical_size as int), logical_size)
            },
        },
        Pointer::Encrypted { .. } => Run {
            members,
            result: Err(Error::UnsupportedFeature("encryption")),
        },
        Pointer::Regular(r) => {
            let lsize = (r.logical_sectors * SECTOR_SIZE) as nat;
            let psize = (r.physical_sectors * SECTOR_SIZE) as nat;
            if psize == 0 || psize > MAX_BLOCK_LSIZE {
                Run {
                    members,
                    result: Err(
                        Error::Inconsistent { token: "bp_bad_psize", where_: Location::Mos },
                    ),
                }
            } else {
                let last = Error::Inconsistent {
                    token: "bp_no_readable_copy",
                    where_: Location::Mos,
                };
                let run = read_dvas(members, layout, r, psize, 0, last);
                Run {
                    members: run.members,
                    result: match run.result {
                        Ok(raw) => decompressed(r.compression, raw, lsize),
                        Err(e) => Err(e),
                    },
                }
            }
        },
    }
}

/// Verifies the data of a pointer, read from `byte` on of a leaf vdev.
fn check(r: &RegularPointer, vdev: u64, byte: u64, raw: &[u8]) -> (v: Result<(), Error>)
    ensures
        v == pointer_verdict(*r, vdev, byte, raw@),
{
    verify_block(r.checksum_type, r.order, raw, &r.checksum_value, vdev, byte)
}

/// Reads the first copy that verifies.
pub fn read_from_copies<R: BlockRead>(
    members: &mut [PoolMember<R>],
    order: &[usize],
    guids: &[u64],
    r: &RegularPointer,
    byte: u64,
    psize: usize,
    none: Error,
) -> (v: Result<Vec<u8>, Error>)
    ensures
        final(members)@ == read_copies(
            old(members)@,
            order@,
            guids@,
            0,
            *r,
            byte,
            psize as nat,
            none,
        ).members,
        bytes_of(v) == read_copies(
            old(members)@,
            order@,
            guids@,
            0,
            *r,
            byte,
            psize as nat,
            none,
        ).result,
        v matches Ok(raw) ==> raw@.len() == psize,
{
    let ghost whole = read_copies(members@, order@, guids@, 0, *r, byte, psize as nat, none);
    let mut last = none;
    let mut i: usize = 0;
    while i < order.len()
        invariant
            i <= order@.len(),
            whole == read_copies(
                old(members)@,
                order@,
                guids@,
                0,
                *r,
                byte,
                psize as nat,
                none,
            ),
            whole == read_copies(
                members@,
                order@,
                guids@,
                i as nat,
                *r,
                byte,
                psize as nat,
                last,
            ),
        decreases order@.len() - i,
    {
        let at: usize = order[i];
        if at < members.len() {
            let vdev: u64 = guid_of(guids, i);
            match read_from(members, at, byte, psize, vdev, "io_block") {
                Ok(raw) => match check(r, vdev, byte, raw.as_slice()) {
                    Ok(()) => {
                        return Ok(raw);
                    },
                    Err(e) => {
                        last = e;
                    },
                },
                Err(e) => {
                    last = e;
                },
            }
        }
        i += 1;
    }
    Err(last)
}

/// Reads one column, if its child is there and does not fail.
fn read_one_column<R: BlockRead>(
    members: &mut [PoolMember<R>],
    children: &[Option<usize>],
    column: Column,
) -> (v: Option<Vec<u8>>)
    requires
        column.child < children@.len(),
        column.offset < 0xf000_0000_0001_0000,
    ensures
        final(members)@ == read_column(old(members)@, children@, column).0,
        match v {
            Some(bytes) => read_column(old(members)@, children@, column).1 == Some(bytes@)
                && bytes@.len() == column.size,
            None => read_column(old(members)@, children@, column).1 is None,
        },
{
    match children[column.child] {
        Some(i) => {
            if i >= members.len() {
                return None;
            }
            match read_from(
                members,
                i,
                LABEL_RESERVE + column.offset,
                column.size,
                0,
                "io_block",
            ) {
                Ok(bytes) => Some(bytes),
                Err(_) => None,
            }
        },
        None => None,
    }
}

/// Data columns as they were read: the bytes, or nothing for a missing one, how many are
/// missing, and the last that is.
struct Found {
    columns: Vec<Vec<u8>>,
    missing: usize,
    at: usize,
}

impl Found {
    /// Whether this is what was found.
    spec fn is(&self, found: Seq<Option<Seq<u8>>>, g: Geometry) -> bool {
        &&& contents(self.columns@) == present(found)
        &&& self.missing == gaps(found)
        &&& self.missing > 0 ==> self.at == gap(found)
        &&& forall|k: int|
            0 <= k < found.len() && found[k] is Some ==> (#[trigger] self.columns@[k])@.len()
                == g.column(k + 1).size
    }
}

/// A column more is a gap more, if it is missing.
proof fn lemma_gaps(found: Seq<Option<Seq<u8>>>, x: Option<Seq<u8>>)
    ensures
        gaps(found.push(x)) == gaps(found) + (if x is None {
            1nat
        } else {
            0nat
        }),
        gap(found.push(x)) == (if x is None {
            found.len() as int
        } else {
            gap(found)
        }),
        gaps(found) <= found.len(),
    decreases found.len(),
{
    assert(found.push(x).drop_last() =~= found);
    if found.len() > 0 {
        lemma_gaps(found.drop_last(), found.last());
        assert(found.drop_last().push(found.last()) =~= found);
    }
}

/// The last gap is a gap, and the only one if there is but one.
proof fn lemma_gap(found: Seq<Option<Seq<u8>>>)
    ensures
        gaps(found) == 0 ==> forall|k: int| 0 <= k < found.len() ==> found[k] is Some,
        gaps(found) > 0 ==> 0 <= gap(found) < found.len() && found[gap(found)] is None,
        gaps(found) == 1 ==> forall|k: int|
            0 <= k < found.len() && k != gap(found) ==> found[k] is Some,
    decreases found.len(),
{
    if found.len() > 0 {
        lemma_gap(found.drop_last());
        assert forall|k: int| 0 <= k < found.len() && k != found.len() - 1 implies found[k]
            == found.drop_last()[k] by {}
    }
}

/// Reads the data columns of a block.
fn read_data<R: BlockRead>(
    members: &mut [PoolMember<R>],
    children: &[Option<usize>],
    g: &Geometry,
) -> (v: Found)
    requires
        g.wf(),
        g.width == children@.len(),
    ensures
        final(members)@ == read_columns(
            old(members)@,
            children@,
            *g,
            (g.columns - 1) as nat,
        ).members,
        v.is(
            read_columns(old(members)@, children@, *g, (g.columns - 1) as nat).found,
            *g,
        ),
{
    let mut f = Found { columns: Vec::new(), missing: 0, at: 0 };
    let mut c: usize = 1;
    assert(contents(f.columns@) =~= present(Seq::empty()));
    while c < g.columns
        invariant
            1 <= c <= g.columns,
            g.wf(),
            g.width == children@.len(),
            members@ == read_columns(
                old(members)@,
                children@,
                *g,
                (c - 1) as nat,
            ).members,
            read_columns(old(members)@, children@, *g, (c - 1) as nat).found.len() == c - 1,
            f.missing < c,
            f.is(
                read_columns(old(members)@, children@, *g, (c - 1) as nat).found,
                *g,
            ),
        decreases g.columns - c,
    {
        let ghost before = read_columns(old(members)@, children@, *g, (c - 1) as nat).found;
        let ghost columns = f.columns@;
        let column = g.get(c);
        let bytes = read_one_column(members, children, column);
        let ghost after = read_columns(old(members)@, children@, *g, c as nat).found;
        proof {
            lemma_gaps(before, after.last());
            assert(after =~= before.push(after.last()));
        }
        match bytes {
            Some(bytes) => {
                f.columns.push(bytes);
            },
            None => {
                let none: Vec<u8> = Vec::new();
                assert(none@ =~= Seq::empty());
                f.columns.push(none);
                f.missing = f.missing + 1;
                f.at = c - 1;
            },
        }
        proof {
            assert(contents(f.columns@) =~= present(after)) by {
                assert(contents(columns) == present(before));
                assert(contents(columns).len() == columns.len());
                assert forall|k: int| 0 <= k < c implies contents(f.columns@)[k] == present(
                    after,
                )[k] by {
                    if k < c - 1 {
                        assert(contents(columns)[k] == present(before)[k]);
                    }
                }
            }
            assert forall|k: int| 0 <= k < after.len() && after[k] is Some implies (
            #[trigger] f.columns@[k])@.len() == g.column(k + 1).size by {
                if k < c - 1 {
                    assert(columns[k]@.len() == g.column(k + 1).size);
                }
            }
        }
        c += 1;
    }
    f
}

/// The block with column `c` recovered.
fn rebuild(
    parity: &[u8],
    columns: &Vec<Vec<u8>>,
    g: &Geometry,
    c: usize,
    psize: usize,
    Ghost(offset): Ghost<u64>,
) -> (v: Vec<u8>)
    requires
        0 < psize <= MAX_BLOCK_LSIZE,
        g.wf(),
        *g == geometry(offset, psize as nat, g.width, g.unit),
        c < columns@.len(),
        columns@.len() == g.columns - 1,
        parity@.len() == g.column(0).size,
        forall|k: int|
            0 <= k < columns@.len() && k != c ==> (#[trigger] columns@[k])@.len() == g.column(
                k + 1,
            ).size,
    ensures
        v@ == reassembled(parity@, contents(columns@), *g, c as int, psize as nat),
        v@.len() == psize,
{
    let size: usize = g.get(c + 1).size;
    let column = recover(parity, columns, c, size);
    let mut raw = join(columns, c, column.as_slice());
    proof {
        let all = repaired(parity@, contents(columns@), c as int, size as nat);
        assert(all =~= contents(columns@).update(c as int, column@));
        assert forall|k: int| 0 <= k < all.len() implies (#[trigger] all[k]).len() == g.column(
            k + 1,
        ).size by {
            if k != c {
                assert(all[k] == columns@[k]@);
            }
        }
        lemma_block_fits(all, offset, psize as nat, g.width, g.unit);
    }
    raw.truncate(psize);
    raw
}

/// Looks for a column such that the block verifies with it recovered.
fn search_repair(
    r: &RegularPointer,
    byte: u64,
    parity: &[u8],
    columns: &Vec<Vec<u8>>,
    g: &Geometry,
    psize: usize,
    Ghost(offset): Ghost<u64>,
) -> (v: Option<Vec<u8>>)
    requires
        0 < psize <= MAX_BLOCK_LSIZE,
        g.wf(),
        *g == geometry(offset, psize as nat, g.width, g.unit),
        columns@.len() == g.columns - 1,
        parity@.len() == g.column(0).size,
        forall|k: int|
            0 <= k < columns@.len() ==> (#[trigger] columns@[k])@.len() == g.column(k + 1).size,
    ensures
        match v {
            Some(raw) => find_repair(
                *r,
                byte,
                parity@,
                contents(columns@),
                *g,
                psize as nat,
                0,
            ) == Some(raw@) && raw@.len() == psize,
            None => find_repair(
                *r,
                byte,
                parity@,
                contents(columns@),
                *g,
                psize as nat,
                0,
            ) is None,
        },
{
    let mut c: usize = 0;
    while c < columns.len()
        invariant
            c <= columns@.len(),
            0 < psize <= MAX_BLOCK_LSIZE,
            g.wf(),
            *g == geometry(offset, psize as nat, g.width, g.unit),
            columns@.len() == g.columns - 1,
            parity@.len() == g.column(0).size,
            forall|k: int|
                0 <= k < columns@.len() ==> (#[trigger] columns@[k])@.len() == g.column(
                    k + 1,
                ).size,
            find_repair(*r, byte, parity@, contents(columns@), *g, psize as nat, 0)
                == find_repair(
                *r,
                byte,
                parity@,
                contents(columns@),
                *g,
                psize as nat,
                c as nat,
            ),
        decreases columns@.len() - c,
    {
        let raw = rebuild(parity, columns, g, c, psize, Ghost(offset));
        if check(r, 0, byte, raw.as_slice()).is_ok() {
            return Some(raw);
        }
        c += 1;
    }
    None
}

/// Reads a block in columns.
pub fn read_from_group<R: BlockRead>(
    members: &mut [PoolMember<R>],
    children: &[Option<usize>],
    guids: &[u64],
    ashift: u8,
    r: &RegularPointer,
    byte: u64,
    psize: usize,
) -> (v: Result<Vec<u8>, Error>)
    requires
        0 < psize <= MAX_BLOCK_LSIZE,
        LABEL_RESERVE <= byte,
    ensures
        final(members)@ == read_group(
            old(members)@,
            children@,
            guids@,
            ashift,
            *r,
            byte,
            psize as nat,
        ).members,
        bytes_of(v) == read_group(
            old(members)@,
            children@,
            guids@,
            ashift,
            *r,
            byte,
            psize as nat,
        ).result,
        v matches Ok(raw) ==> raw@.len() == psize,
{
    reveal(read_group);
    let unit = unit_size(ashift);
    if unit == 0 {
        return Err(Error::Inconsistent { token: "raidz_ashift", where_: Location::Mos });
    }
    if children.len() < 2 {
        return Err(Error::Inconsistent { token: "raidz_children", where_: Location::Mos });
    }
    let offset: u64 = byte - LABEL_RESERVE;
    let g = Geometry::new(offset, psize, children.len(), unit);
    let ghost d = read_columns(members@, children@, g, (g.columns - 1) as nat);
    let f = read_data(members, children, &g);
    proof {
        lemma_found_len(old(members)@, children@, g, (g.columns - 1) as nat);
        lemma_gap(d.found);
        assert(contents(f.columns@).len() == f.columns@.len());
    }
    let failed = if f.missing == 0 {
        let none: Vec<u8> = Vec::new();
        let mut raw = join(&f.columns, f.columns.len(), none.as_slice());
        proof {
            lemma_block_fits(contents(f.columns@), offset, psize as nat, g.width, g.unit);
        }
        raw.truncate(psize);
        match check(r, 0, byte, raw.as_slice()) {
            Ok(()) => {
                return Ok(raw);
            },
            Err(e) => e,
        }
    } else {
        let column = g.get(f.at + 1);
        Error::Io {
            token: "io_block",
            vdev: guid_of(guids, column.child),
            offset: LABEL_RESERVE + column.offset,
        }
    };
    if f.missing >= 2 {
        return Err(failed);
    }
    match read_one_column(members, children, g.get(0)) {
        None => Err(failed),
        Some(parity) => {
            if f.missing == 0 {
                match search_repair(
                    r,
                    byte,
                    parity.as_slice(),
                    &f.columns,
                    &g,
                    psize,
                    Ghost(offset),
                ) {
                    Some(raw) => Ok(raw),
                    None => Err(failed),
                }
            } else {
                let raw = rebuild(
                    parity.as_slice(),
                    &f.columns,
                    &g,
                    f.at,
                    psize,
                    Ghost(offset),
                );
                match check(r, 0, byte, raw.as_slice()) {
                    Ok(()) => Ok(raw),
                    Err(e) => Err(e),
                }
            }
        },
    }
}

/// As many columns are found or missing as are asked for.
proof fn lemma_found_len<R: BlockRead>(
    members: Seq<PoolMember<R>>,
    children: Seq<Option<usize>>,
    g: Geometry,
    n: nat,
)
    ensures
        read_columns(members, children, g, n).found.len() == n,
    decreases n,
{
    if n > 0 {
        lemma_found_len(members, children, g, (n - 1) as nat);
    }
}

/// Reads, verifies and decompresses the block of a pointer, from the first copy that
/// verifies.
pub fn read_block_pointer<R: BlockRead>(
    members: &mut [PoolMember<R>],
    vdev: &Vdev,
    bp: &BlockPointer,
) -> (v: Result<Vec<u8>, Error>)
    ensures
        final(members)@ == read_pointer(old(members)@, vdev@, bp@).members,
        bytes_of(v) == read_pointer(old(members)@, vdev@, bp@).result,
        v matches Ok(bytes) ==> bytes@.len() <= MAX_BLOCK_LSIZE,
{
    reveal(read_pointer);
    match bp {
        BlockPointer::Embedded(e) => {
            if e.physical_size > EMBEDDED_PAYLOAD_SIZE {
                return Err(
                    Error::Inconsistent { token: "embedded_short", where_: Location::Mos },
                );
            }
            let src = &e.payload[0..e.physical_size];
            assert(src@ =~= e.payload@.take(e.physical_size as int));
            decompress(e.compression, src, e.logical_size)
        },
        BlockPointer::Encrypted(_) => Err(Error::UnsupportedFeature("encryption")),
        BlockPointer::Regular(r) => {
            let lsize: u64 = r.logical_sectors as u64 * SECTOR_SIZE;
            let psize: u64 = r.physical_sectors as u64 * SECTOR_SIZE;
            if psize == 0 || psize > MAX_BLOCK_LSIZE as u64 {
                return Err(Error::Inconsistent { token: "bp_bad_psize", where_: Location::Mos });
            }
            let last = Error::Inconsistent {
                token: "bp_no_readable_copy",
                where_: Location::Mos,
            };
            match read_verified(members, vdev, r, psize as usize, last) {
                Ok(raw) => {
                    if lsize > MAX_BLOCK_LSIZE as u64 {
                        reveal(decompressed);
                        return Err(
                            Error::FileTooLarge { size: lsize, max: MAX_BLOCK_LSIZE as u64 },
                        );
                    }
                    decompress(r.compression, raw.as_slice(), lsize as usize)
                },
                Err(e) => Err(e),
            }
        },
    }
}

/// Reads the physical bytes of a block.
fn read_verified<R: BlockRead>(
    members: &mut [PoolMember<R>],
    vdev: &Vdev,
    r: &RegularPointer,
    psize: usize,
    none: Error,
) -> (v: Result<Vec<u8>, Error>)
    requires
        0 < psize <= MAX_BLOCK_LSIZE,
    ensures
        final(members)@ == read_dvas(old(members)@, vdev@, *r, psize as nat, 0, none).members,
        bytes_of(v) == read_dvas(old(members)@, vdev@, *r, psize as nat, 0, none).result,
        v matches Ok(raw) ==> raw@.len() == psize,
{
    let ghost whole = read_dvas(members@, vdev@, *r, psize as nat, 0, none);
    let mut last = none;
    let mut k: usize = 0;
    while k < 3
        invariant
            k <= 3,
            0 < psize <= MAX_BLOCK_LSIZE,
            whole == read_dvas(old(members)@, vdev@, *r, psize as nat, 0, none),
            whole == read_dvas(members@, vdev@, *r, psize as nat, k as nat, last),
        decreases 3 - k,
    {
        if let Some(dva) = r.dvas[k] {
            if dva.is_gang {
                last = Error::Unsupported("gang_block");
            } else {
                match dva_byte_offset(dva.offset) {
                    None => {
                        last = Error::Inconsistent {
                            token: "dva_out_of_range",
                            where_: Location::Mos,
                        };
                    },
                    Some(byte) => {
                        let read = match &vdev.topology {
                            Topology::RaidZ1 { children, ashift } => read_from_group(
                                members,
                                children.as_slice(),
                                vdev.guids.as_slice(),
                                *ashift,
                                r,
                                byte,
                                psize,
                            ),
                            _ => read_from_copies(
                                members,
                                vdev.topology.read_order(),
                                vdev.guids.as_slice(),
                                r,
                                byte,
                                psize,
                                last,
                            ),
                        };
                        match read {
                            Ok(raw) => {
                                return Ok(raw);
                            },
                            Err(e) => {
                                last = e;
                            },
                        }
                    },
                }
            }
        }
        k += 1;
    }
    Err(last)
}

} // verus!
