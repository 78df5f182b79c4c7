//! The import of a pool.

use crate::block_read::{read_from, read_member, BlockRead, PoolMember, Run};
use crate::checksum::sha256::{Sha256, Sha256Implementation};
use crate::checksum::Checksum;
use crate::error::{bytes_of, Error, LabelReason, Location};
use crate::phys::block_pointer::Pointer;
use crate::phys::dnode::{Dnode, DnodeView};
use crate::phys::endian::EndianOrder;
use crate::phys::label::{
    label_verifies, uberblock_of, uberblock_view, LabelNvPairs, UberBlock, UberBlockView,
    NVPAIRS_SIZE,
};
use crate::phys::nv::{
    list_at, packed_list, search, Lookup, NvList, NvPair, Search, Value, NV_TYPE_LIST_ARRAY,
};
use crate::phys::Malformed;
use crate::redundancy::{all_stable, law_reading_changes_nothing, lemma_member_stable};
use crate::util::text::same_text;
use crate::vdev::{Layout, Shape, Topology, Vdev};
use crate::walk::{objset_at, read_objset};
use vstd::arithmetic::power2::{lemma2_to64, pow2};
use vstd::prelude::*;

verus! {

/// Byte offset of the name-value pairs of the first label.
pub const L0_NVPAIRS_BYTE: u64 = 0x4000;

/// Byte offset of the uberblocks of the first label.
pub const L0_UBERBLOCK_BYTE: u64 = 0x2_0000;

/// Size of the uberblocks of a label.
pub const UBERBLOCK_ARRAY_SIZE: usize = 0x2_0000;

/// An imported pool.
pub struct ImportedPool {
    /// Identifier of the pool.
    pub pool_guid: u64,
    /// Name of the pool.
    pub pool_name: String,
    /// The top level vdev.
    pub vdev: Vdev,
    /// The active uberblock.
    pub uberblock: UberBlock,
    /// The dnode whose data are the dnodes of the pool's own objects.
    pub mos_dnode: Dnode,
    /// Byte order of the pool.
    pub order: EndianOrder,
}

/// What an imported pool is.
pub ghost struct PoolView {
    pub guid: u64,
    pub name: Seq<char>,
    pub layout: Layout,
    pub uberblock: UberBlockView,
    pub mos: DnodeView,
    pub order: EndianOrder,
}

impl View for ImportedPool {
    type V = PoolView;

    open spec fn view(&self) -> PoolView {
        PoolView {
            guid: self.pool_guid,
            name: self.pool_name@,
            layout: self.vdev@,
            uberblock: self.uberblock@,
            mos: self.mos_dnode@,
            order: self.order,
        }
    }
}

/// The value of a name in a list.
pub open spec fn value_in(list: Seq<u8>, key: &'static str) -> Result<Value, Error> {
    match search(list, 0, key@) {
        Search::Missing => Err(Error::NotFound { component: key }),
        Search::Bad => Err(
            Error::Inconsistent { token: "nv_decode", where_: Location::Vdev { guid: 0 } },
        ),
        Search::Hit { value } => Ok(value),
    }
}

/// The number that a name in a list stands for.
pub open spec fn number_in(list: Seq<u8>, key: &'static str) -> Result<u64, Error> {
    match value_in(list, key) {
        Err(e) => Err(e),
        Ok(value) => match value.number() {
            Some(x) => Ok(x),
            None => Err(
                Error::Inconsistent { token: "nv_u64", where_: Location::Vdev { guid: 0 } },
            ),
        },
    }
}

/// The text that a name in a list stands for.
pub open spec fn text_in(list: Seq<u8>, key: &'static str) -> Result<Seq<char>, Error> {
    match value_in(list, key) {
        Err(e) => Err(e),
        Ok(value) => match value.text() {
            Some(x) => Ok(x),
            None => Err(
                Error::Inconsistent { token: "nv_str", where_: Location::Vdev { guid: 0 } },
            ),
        },
    }
}

/// The list that a name in a list stands for.
pub open spec fn list_in(list: Seq<u8>, key: &'static str) -> Result<Seq<u8>, Error> {
    match value_in(list, key) {
        Err(e) => Err(e),
        Ok(value) => match value.list() {
            Some(x) => Ok(x),
            None => Err(
                Error::Inconsistent { token: "nv_nvlist", where_: Location::Vdev { guid: 0 } },
            ),
        },
    }
}

/// The identifiers of the `left` lists from `p` on, after those in `before`.
pub open spec fn guids_from(s: Seq<u8>, p: int, left: nat, before: Seq<u64>) -> Result<
    Seq<u64>,
    Error,
>
    decreases left,
{
    if left == 0 {
        Ok(before)
    } else {
        match list_at(s, p) {
            None => Err(
                Error::Inconsistent { token: "nv_child", where_: Location::Vdev { guid: 0 } },
            ),
            Some((list, end)) => match number_in(list, "guid") {
                Err(e) => Err(e),
                Ok(guid) => guids_from(s, end, (left - 1) as nat, before.push(guid)),
            },
        }
    }
}

/// The identifiers of the children of a vdev.
pub open spec fn guids_in(vtree: Seq<u8>) -> Result<Seq<u64>, Error> {
    match value_in(vtree, "children") {
        Err(e) => Err(e),
        Ok(value) => if value.data_type != NV_TYPE_LIST_ARRAY {
            Err(Error::Inconsistent { token: "nv_children", where_: Location::Vdev { guid: 0 } })
        } else {
            guids_from(value.bytes, 0, value.count as nat, Seq::empty())
        },
    }
}

/// The name-value pairs of the first label of a member, as they stand.
pub open spec fn label_of<R: BlockRead>(members: Seq<PoolMember<R>>, i: int) -> Run<R, Seq<u8>> {
    read_member(members, i, L0_NVPAIRS_BYTE, NVPAIRS_SIZE as nat, 0, "io_nvpairs")
}

/// The configuration that a label holds.
pub open spec fn config_of(label: Seq<u8>) -> Result<Seq<u8>, Error> {
    if !label_verifies(label, L0_NVPAIRS_BYTE) {
        Err(Error::BadLabel(LabelReason::BadChecksum))
    } else {
        match packed_list(label.take(label.len() - 40)) {
            Ok(list) => Ok(list),
            Err(_) => Err(Error::BadLabel(LabelReason::BadMagic)),
        }
    }
}

/// Whether a label is that of the leaf vdev `guid`.
pub open spec fn names_leaf(label: Seq<u8>, guid: u64) -> bool {
    match config_of(label) {
        Ok(config) => number_in(config, "guid") == Ok::<u64, Error>(guid),
        Err(_) => false,
    }
}

/// The first member from `i` on that is the leaf vdev `guid`. Members without a valid
/// label are passed over; one that cannot be read ends the search.
pub open spec fn leaf_member<R: BlockRead>(
    members: Seq<PoolMember<R>>,
    guid: u64,
    i: nat,
) -> Run<R, usize>
    decreases members.len() - i,
{
    if i >= members.len() {
        Run { members, result: Err(Error::BadLabel(LabelReason::PoolGuidMismatch)) }
    } else {
        let run = label_of(members, i as int);
        match run.result {
            Err(e) => Run { members: run.members, result: Err(e) },
            Ok(label) => if names_leaf(label, guid) {
                Run { members: run.members, result: Ok(i as usize) }
            } else {
                leaf_member(run.members, guid, i + 1)
            },
        }
    }
}

/// The members that are the leaf vdevs from `k` on, after those in `before`. All of them
/// have to be there.
pub open spec fn leaf_members<R: BlockRead>(
    members: Seq<PoolMember<R>>,
    guids: Seq<u64>,
    k: nat,
    before: Seq<usize>,
) -> Run<R, Seq<usize>>
    decreases guids.len() - k,
{
    if k >= guids.len() {
        Run { members, result: Ok(before) }
    } else {
        let run = leaf_member(members, guids[k as int], 0);
        match run.result {
            Err(e) => Run { members: run.members, result: Err(e) },
            Ok(i) => leaf_members(run.members, guids, k + 1, before.push(i)),
        }
    }
}

/// The members that are the leaf vdevs from `k` on, after those in `before`; nothing for
/// one that is not found.
pub open spec fn leaf_members_found<R: BlockRead>(
    members: Seq<PoolMember<R>>,
    guids: Seq<u64>,
    k: nat,
    before: Seq<Option<usize>>,
) -> (Seq<PoolMember<R>>, Seq<Option<usize>>)
    decreases guids.len() - k,
{
    if k >= guids.len() {
        (members, before)
    } else {
        let run = leaf_member(members, guids[k as int], 0);
        let found = match run.result {
            Ok(i) => Some(i),
            Err(_) => None,
        };
        leaf_members_found(run.members, guids, k + 1, before.push(found))
    }
}

/// How many of the children are there.
pub open spec fn present_count(children: Seq<Option<usize>>) -> nat
    decreases children.len(),
{
    if children.len() == 0 {
        0
    } else {
        present_count(children.drop_last()) + (if children.last() is Some {
            1nat
        } else {
            0nat
        })
    }
}

/// A number as a byte, or `other` if it is too large.
pub open spec fn byte_or(x: u64, other: u8) -> u8 {
    if x > 255 {
        other
    } else {
        x as u8
    }
}

/// The topology of a RAID-Z vdev, which needs all of its children but one.
#[verifier::opaque]
pub open spec fn group_of<R: BlockRead>(
    members: Seq<PoolMember<R>>,
    vtree: Seq<u8>,
) -> Run<R, Shape> {
    let parity = match number_in(vtree, "nparity") {
        Ok(n) => n,
        Err(_) => 1,
    };
    if parity != 1 {
        Run { members, result: Err(Error::UnsupportedTopology("topo_raidz_multiparity")) }
    } else {
        match number_in(vtree, "ashift") {
            Err(e) => Run { members, result: Err(e) },
            Ok(ashift) => match guids_in(vtree) {
                Err(e) => Run { members, result: Err(e) },
                Ok(guids) => {
                    let (after, children) = leaf_members_found(members, guids, 0, Seq::empty());
                    Run {
                        members: after,
                        result: if present_count(children) + 1 < children.len() {
                            Err(Error::UnsupportedTopology("topo_raidz_degraded"))
                        } else {
                            Ok(Shape::RaidZ1 { children, ashift: byte_or(ashift, 9) })
                        },
                    }
                },
            },
        }
    }
}

/// The topology that the configuration of a top level vdev describes.
#[verifier::opaque]
pub open spec fn shape_of<R: BlockRead>(
    members: Seq<PoolMember<R>>,
    vtree: Seq<u8>,
) -> Run<R, Shape> {
    match text_in(vtree, "type") {
        Err(e) => Run { members, result: Err(e) },
        Ok(kind) => if kind == "disk"@ || kind == "file"@ {
            Run { members, result: Ok(Shape::Single(0)) }
        } else if kind == "mirror"@ {
            match guids_in(vtree) {
                Err(e) => Run { members, result: Err(e) },
                Ok(guids) => {
                    let run = leaf_members(members, guids, 0, Seq::empty());
                    Run {
                        members: run.members,
                        result: match run.result {
                            Ok(children) => Ok(Shape::Mirror(children)),
                            Err(e) => Err(e),
                        },
                    }
                },
            }
        } else if kind == "raidz"@ {
            group_of(members, vtree)
        } else if kind == "draid"@ {
            Run { members, result: Err(Error::UnsupportedTopology("topo_draid")) }
        } else {
            Run { members, result: Err(Error::UnsupportedTopology("topo_unknown")) }
        },
    }
}

/// The GUIDs of the leaves of a top level vdev: that of the device itself, or those of the
/// children; none if they are not there.
pub open spec fn leaf_guids(vtree: Seq<u8>, shape: Shape) -> Seq<u64> {
    match shape {
        Shape::Single(_) => match number_in(vtree, "guid") {
            Ok(guid) => seq![guid],
            Err(_) => Seq::empty(),
        },
        _ => match guids_in(vtree) {
            Ok(guids) => guids,
            Err(_) => Seq::empty(),
        },
    }
}

/// Size of a slot for an uberblock: that of the unit of allocation, but at least 1 KiB and
/// at most 8 KiB.
pub open spec fn slot_size(ashift: u8) -> nat {
    if ashift <= 10 {
        0x400
    } else if ashift == 11 {
        0x800
    } else if ashift == 12 {
        0x1000
    } else {
        0x2000
    }
}

/// The better of two uberblocks: the newer one, and the first of two equally new ones.
pub open spec fn better(best: Option<UberBlockView>, u: UberBlockView) -> UberBlockView {
    match best {
        Some(b) => if u.is_newer_than(b) {
            u
        } else {
            b
        },
        None => u,
    }
}

/// Offset of a slot for an uberblock.
pub open spec fn slot_byte(slot: nat, k: nat) -> u64 {
    (L0_UBERBLOCK_BYTE + k * slot) as u64
}

/// The best uberblock of member 0 in the slots from `k` on, and `best`. Slots that cannot
/// be read or are not valid are passed over.
pub open spec fn best_uberblock<R: BlockRead>(
    members: Seq<PoolMember<R>>,
    slot: nat,
    k: nat,
    best: Option<UberBlockView>,
) -> Run<R, UberBlockView>
    decreases UBERBLOCK_ARRAY_SIZE - k,
{
    if k >= UBERBLOCK_ARRAY_SIZE as nat / slot || k >= UBERBLOCK_ARRAY_SIZE {
        Run {
            members,
            result: match best {
                Some(b) => Ok(b),
                None => Err(Error::NoValidUberblock),
            },
        }
    } else {
        let run = read_member(members, 0, slot_byte(slot, k), slot, 0, "io_uberblock");
        let now = match run.result {
            Err(_) => best,
            Ok(bytes) => match uberblock_of(bytes, slot_byte(slot, k)) {
                Ok(Some(u)) => Some(better(best, u)),
                _ => best,
            },
        };
        best_uberblock(run.members, slot, k + 1, now)
    }
}

/// The pool with the configuration `config`, on the given members.
#[verifier::opaque]
pub open spec fn pool_of<R: BlockRead>(
    members: Seq<PoolMember<R>>,
    config: Seq<u8>,
) -> Run<R, PoolView> {
    match (number_in(config, "pool_guid"), text_in(config, "name"), list_in(config, "vdev_tree")) {
        (Err(e), _, _) => Run { members, result: Err(e) },
        (_, Err(e), _) => Run { members, result: Err(e) },
        (_, _, Err(e)) => Run { members, result: Err(e) },
        (Ok(guid), Ok(name), Ok(vtree)) => match number_in(vtree, "ashift") {
            Err(e) => Run { members, result: Err(e) },
            Ok(ashift) => {
                let topology = shape_of(members, vtree);
                match topology.result {
                    Err(e) => Run { members: topology.members, result: Err(e) },
                    Ok(shape) => {
                        let layout = Layout { shape, guids: leaf_guids(vtree, shape) };
                        let slot = slot_size(byte_or(ashift, 10));
                        let active = best_uberblock(topology.members, slot, 0, None);
                        match active.result {
                            Err(e) => Run { members: active.members, result: Err(e) },
                            Ok(uberblock) => {
                                let order = uberblock.ptr.order();
                                let mos = objset_at(active.members, layout, uberblock.ptr, order);
                                Run {
                                    members: mos.members,
                                    result: match mos.result {
                                        Err(e) => Err(e),
                                        Ok(mos) => Ok(
                                            PoolView { guid, name, layout, uberblock, mos, order },
                                        ),
                                    },
                                }
                            },
                        }
                    },
                }
            },
        },
    }
}

/// The pool that the members make up.
#[verifier::opaque]
pub open spec fn imported<R: BlockRead>(members: Seq<PoolMember<R>>) -> Run<R, PoolView> {
    if members.len() == 0 {
        Run { members, result: Err(Error::BadLabel(LabelReason::NoLabels)) }
    } else {
        let run = label_of(members, 0);
        match run.result {
            Err(e) => Run { members: run.members, result: Err(e) },
            Ok(label) => match config_of(label) {
                Err(e) => Run { members: run.members, result: Err(e) },
                Ok(config) => pool_of(run.members, config),
            },
        }
    }
}

/// The outcome of an import, as what the pool is.
pub open spec fn pool_result(r: Result<ImportedPool, Error>) -> Result<PoolView, Error> {
    match r {
        Ok(p) => Ok(p@),
        Err(e) => Err(e),
    }
}

/// Looks for a name in a list.
pub fn nv_find<'a>(list: &NvList<'a>, key: &'static str) -> (r: Result<NvPair<'a>, Error>)
    ensures
        match r {
            Ok(pair) => value_in(list@, key) == Ok::<Value, Error>(pair@),
            Err(e) => value_in(list@, key) == Err::<Value, Error>(e),
        },
{
    match list.lookup(key) {
        Lookup::Missing => Err(Error::NotFound { component: key }),
        Lookup::Bad => Err(
            Error::Inconsistent { token: "nv_decode", where_: Location::Vdev { guid: 0 } },
        ),
        Lookup::Hit(pair) => Ok(pair),
    }
}

/// Looks for a number in a list.
pub fn nv_u64(list: &NvList<'_>, key: &'static str) -> (r: Result<u64, Error>)
    ensures
        r == number_in(list@, key),
{
    match nv_find(list, key) {
        Err(e) => Err(e),
        Ok(pair) => match pair.get_u64() {
            Ok(x) => Ok(x),
            Err(_) => Err(
                Error::Inconsistent { token: "nv_u64", where_: Location::Vdev { guid: 0 } },
            ),
        },
    }
}

/// Looks for a text in a list.
pub fn nv_str<'a>(list: &NvList<'a>, key: &'static str) -> (r: Result<&'a str, Error>)
    ensures
        match r {
            Ok(s) => text_in(list@, key) == Ok::<Seq<char>, Error>(s@),
            Err(e) => text_in(list@, key) == Err::<Seq<char>, Error>(e),
        },
{
    match nv_find(list, key) {
        Err(e) => Err(e),
        Ok(pair) => match pair.get_str() {
            Ok(x) => Ok(x),
            Err(_) => Err(
                Error::Inconsistent { token: "nv_str", where_: Location::Vdev { guid: 0 } },
            ),
        },
    }
}

/// Looks for a list in a list.
pub fn nv_nvlist<'a>(list: &NvList<'a>, key: &'static str) -> (r: Result<NvList<'a>, Error>)
    ensures
        match r {
            Ok(l) => list_in(list@, key) == Ok::<Seq<u8>, Error>(l@),
            Err(e) => list_in(list@, key) == Err::<Seq<u8>, Error>(e),
        },
{
    match nv_find(list, key) {
        Err(e) => Err(e),
        Ok(pair) => match pair.get_nv_list() {
            Ok(x) => Ok(x),
            Err(_) => Err(
                Error::Inconsistent { token: "nv_nvlist", where_: Location::Vdev { guid: 0 } },
            ),
        },
    }
}

/// The outcome of a read of identifiers.
pub open spec fn guids_result(r: Result<Vec<u64>, Error>) -> Result<Seq<u64>, Error> {
    match r {
        Ok(v) => Ok(v@),
        Err(e) => Err(e),
    }
}

/// Reads the identifiers of the children of a vdev.
pub fn nv_child_guids(vtree: &NvList<'_>) -> (r: Result<Vec<u64>, Error>)
    ensures
        guids_result(r) == guids_in(vtree@),
{
    let pair = match nv_find(vtree, "children") {
        Ok(pair) => pair,
        Err(e) => {
            return Err(e);
        },
    };
    let array = match pair.get_nv_list_array() {
        Ok(array) => array,
        Err(_) => {
            return Err(
                Error::Inconsistent { token: "nv_children", where_: Location::Vdev { guid: 0 } },
            );
        },
    };
    let mut out: Vec<u64> = Vec::new();
    let mut pos: usize = 0;
    let mut left: u32 = array.count;
    while left > 0
        invariant
            pos <= array.data@.len(),
            guids_in(vtree@) == guids_from(array.data@, pos as int, left as nat, out@),
        decreases left,
    {
        match array.get(pos) {
            Err(_) => {
                return Err(
                    Error::Inconsistent { token: "nv_child", where_: Location::Vdev { guid: 0 } },
                );
            },
            Ok((child, end)) => {
                match nv_u64(&child, "guid") {
                    Ok(guid) => {
                        out.push(guid);
                    },
                    Err(e) => {
                        return Err(e);
                    },
                }
                pos = end;
            },
        }
        left = left - 1;
    }
    Ok(out)
}

/// Reads the name-value pairs of the first label of member `i`.
pub fn read_nvpairs<R: BlockRead>(members: &mut [PoolMember<R>], i: usize) -> (v: Result<
    Vec<u8>,
    Error,
>)
    requires
        i < old(members)@.len(),
    ensures
        final(members)@ == label_of(old(members)@, i as int).members,
        bytes_of(v) == label_of(old(members)@, i as int).result,
{
    read_from(members, i, L0_NVPAIRS_BYTE, NVPAIRS_SIZE, 0, "io_nvpairs")
}

/// Takes the configuration out of a label.
fn read_config<'a>(label: &'a [u8], sha: &mut Sha256) -> (r: Result<NvList<'a>, Error>)
    requires
        old(sha).wf(),
    ensures
        final(sha).wf(),
        match r {
            Ok(list) => config_of(label@) == Ok::<Seq<u8>, Error>(list@),
            Err(e) => config_of(label@) == Err::<Seq<u8>, Error>(e),
        },
{
    match LabelNvPairs::from_bytes(label, L0_NVPAIRS_BYTE, sha) {
        Err(_) => Err(Error::BadLabel(LabelReason::BadChecksum)),
        Ok(pairs) => match NvList::from_bytes(pairs.payload) {
            Ok(list) => Ok(list),
            Err(_) => Err(Error::BadLabel(LabelReason::BadMagic)),
        },
    }
}

/// Finds the member that is the leaf vdev `guid`.
pub fn find_member_by_guid<R: BlockRead>(
    members: &mut [PoolMember<R>],
    guid: u64,
    sha: &mut Sha256,
) -> (v: Result<usize, Error>)
    requires
        old(sha).wf(),
    ensures
        final(sha).wf(),
        final(members)@ == leaf_member(old(members)@, guid, 0).members,
        v == leaf_member(old(members)@, guid, 0).result,
{
    let ghost whole = leaf_member(members@, guid, 0);
    let mut i: usize = 0;
    while i < members.len()
        invariant
            i <= members@.len(),
            sha.wf(),
            whole == leaf_member(old(members)@, guid, 0),
            whole == leaf_member(members@, guid, i as nat),
        decreases members@.len() - i,
    {
        let label = match read_nvpairs(members, i) {
            Ok(label) => label,
            Err(e) => {
                return Err(e);
            },
        };
        if let Ok(config) = read_config(label.as_slice(), sha) {
            if let Ok(g) = nv_u64(&config, "guid") {
                if g == guid {
                    return Ok(i);
                }
            }
        }
        i += 1;
    }
    Err(Error::BadLabel(LabelReason::PoolGuidMismatch))
}

/// The outcome of finding the topology, as what it is.
pub open spec fn shape_result(r: Result<Topology, Error>) -> Result<Shape, Error> {
    match r {
        Ok(t) => Ok(t@),
        Err(e) => Err(e),
    }
}

/// Finds the members of a mirror.
fn find_all<R: BlockRead>(
    members: &mut [PoolMember<R>],
    guids: &Vec<u64>,
    sha: &mut Sha256,
) -> (v: Result<Vec<usize>, Error>)
    requires
        old(sha).wf(),
    ensures
        final(sha).wf(),
        final(members)@ == leaf_members(old(members)@, guids@, 0, Seq::empty()).members,
        match v {
            Ok(found) => leaf_members(old(members)@, guids@, 0, Seq::empty()).result == Ok::<
                Seq<usize>,
                Error,
            >(found@),
            Err(e) => leaf_members(old(members)@, guids@, 0, Seq::empty()).result == Err::<
                Seq<usize>,
                Error,
            >(e),
        },
{
    let ghost whole = leaf_members(members@, guids@, 0, Seq::empty());
    let mut out: Vec<usize> = Vec::new();
    let mut k: usize = 0;
    while k < guids.len()
        invariant
            k <= guids@.len(),
            sha.wf(),
            whole == leaf_members(old(members)@, guids@, 0, Seq::empty()),
            whole == leaf_members(members@, guids@, k as nat, out@),
        decreases guids@.len() - k,
    {
        match find_member_by_guid(members, guids[k], sha) {
            Ok(i) => {
                out.push(i);
            },
            Err(e) => {
                return Err(e);
            },
        }
        k += 1;
    }
    Ok(out)
}

/// One more child, which is there or not.
proof fn lemma_present_count(children: Seq<Option<usize>>, x: Option<usize>)
    ensures
        present_count(children.push(x)) == present_count(children) + (if x is Some {
            1nat
        } else {
            0nat
        }),
{
    assert(children.push(x).drop_last() =~= children);
}

/// Finds the members of a RAID-Z vdev that are there, and counts them.
fn find_present<R: BlockRead>(
    members: &mut [PoolMember<R>],
    guids: &Vec<u64>,
    sha: &mut Sha256,
) -> (v: (Vec<Option<usize>>, usize))
    requires
        old(sha).wf(),
    ensures
        final(sha).wf(),
        final(members)@ == leaf_members_found(old(members)@, guids@, 0, Seq::empty()).0,
        v.0@ == leaf_members_found(old(members)@, guids@, 0, Seq::empty()).1,
        v.1 == present_count(v.0@),
        v.1 <= v.0@.len(),
{
    let ghost whole = leaf_members_found(members@, guids@, 0, Seq::empty());
    let mut out: Vec<Option<usize>> = Vec::new();
    let mut present: usize = 0;
    let mut k: usize = 0;
    while k < guids.len()
        invariant
            k <= guids@.len(),
            sha.wf(),
            whole == leaf_members_found(old(members)@, guids@, 0, Seq::empty()),
            whole == leaf_members_found(members@, guids@, k as nat, out@),
            present == present_count(out@),
            present <= out@.len() == k,
        decreases guids@.len() - k,
    {
        let found = match find_member_by_guid(members, guids[k], sha) {
            Ok(i) => Some(i),
            Err(_) => None,
        };
        proof {
            lemma_present_count(out@, found);
        }
        if found.is_some() {
            present += 1;
        }
        out.push(found);
        k += 1;
    }
    (out, present)
}

/// Finds the topology that the configuration of a top level vdev describes: a single
/// device, a mirror, or single parity RAID-Z.
pub fn build_topology<R: BlockRead>(
    vtree: &NvList<'_>,
    members: &mut [PoolMember<R>],
    sha: &mut Sha256,
) -> (v: Result<Topology, Error>)
    requires
        old(sha).wf(),
    ensures
        final(sha).wf(),
        final(members)@ == shape_of(old(members)@, vtree@).members,
        shape_result(v) == shape_of(old(members)@, vtree@).result,
{
    reveal(shape_of);
    reveal(group_of);
    let kind = match nv_str(vtree, "type") {
        Ok(kind) => kind,
        Err(e) => {
            return Err(e);
        },
    };
    if same_text(kind, "disk") || same_text(kind, "file") {
        return Ok(Topology::Single(0));
    }
    if same_text(kind, "mirror") {
        let guids = match nv_child_guids(vtree) {
            Ok(guids) => guids,
            Err(e) => {
                return Err(e);
            },
        };
        return match find_all(members, &guids, sha) {
            Ok(children) => Ok(Topology::Mirror(children)),
            Err(e) => Err(e),
        };
    }
    if same_text(kind, "raidz") {
        let parity: u64 = match nv_u64(vtree, "nparity") {
            Ok(n) => n,
            Err(_) => 1,
        };
        if parity != 1 {
            return Err(Error::UnsupportedTopology("topo_raidz_multiparity"));
        }
        let ashift: u64 = match nv_u64(vtree, "ashift") {
            Ok(ashift) => ashift,
            Err(e) => {
                return Err(e);
            },
        };
        let guids = match nv_child_guids(vtree) {
            Ok(guids) => guids,
            Err(e) => {
                return Err(e);
            },
        };
        let (children, present) = find_present(members, &guids, sha);
        if present < children.len() && children.len() - present > 1 {
            return Err(Error::UnsupportedTopology("topo_raidz_degraded"));
        }
        return Ok(Topology::RaidZ1 { children, ashift: small(ashift, 9) });
    }
    if same_text(kind, "draid") {
        Err(Error::UnsupportedTopology("topo_draid"))
    } else {
        Err(Error::UnsupportedTopology("topo_unknown"))
    }
}

/// Reads the GUIDs of the leaves of a top level vdev.
pub fn read_leaf_guids(vtree: &NvList<'_>, topology: &Topology) -> (r: Vec<u64>)
    ensures
        r@ == leaf_guids(vtree@, topology@),
{
    match topology {
        Topology::Single(_) => match nv_u64(vtree, "guid") {
            Ok(guid) => vec![guid],
            Err(_) => Vec::new(),
        },
        _ => match nv_child_guids(vtree) {
            Ok(guids) => guids,
            Err(_) => Vec::new(),
        },
    }
}

/// A number as a byte, or `other` if it is too large.
fn small(x: u64, other: u8) -> (r: u8)
    ensures
        r == byte_or(x, other),
{
    if x > 255 {
        other
    } else {
        x as u8
    }
}

/// The outcome of the search for an uberblock, as what it says.
pub open spec fn uberblock_result(r: Result<UberBlock, Error>) -> Result<UberBlockView, Error> {
    match r {
        Ok(u) => Ok(u@),
        Err(e) => Err(e),
    }
}

/// Selects the active uberblock from the first label of member 0.
pub fn select_uberblock<R: BlockRead>(
    members: &mut [PoolMember<R>],
    ashift: u8,
    sha: &mut Sha256,
) -> (v: Result<UberBlock, Error>)
    requires
        old(members)@.len() > 0,
        old(sha).wf(),
    ensures
        final(sha).wf(),
        final(members)@ == best_uberblock(old(members)@, slot_size(ashift), 0, None).members,
        uberblock_result(v) == best_uberblock(old(members)@, slot_size(ashift), 0, None).result,
{
    let slot: usize = if ashift <= 10 {
        0x400
    } else if ashift == 11 {
        0x800
    } else if ashift == 12 {
        0x1000
    } else {
        0x2000
    };
    let count: usize = UBERBLOCK_ARRAY_SIZE / slot;
    let ghost whole = best_uberblock(members@, slot as nat, 0, None);
    let mut best: Option<UberBlock> = None;
    let mut k: usize = 0;
    while k < count
        invariant
            k <= count,
            count == UBERBLOCK_ARRAY_SIZE as nat / slot as nat,
            slot == 0x400 || slot == 0x800 || slot == 0x1000 || slot == 0x2000,
            count * slot <= UBERBLOCK_ARRAY_SIZE,
            members@.len() > 0,
            sha.wf(),
            whole == best_uberblock(old(members)@, slot as nat, 0, None),
            whole == best_uberblock(members@, slot as nat, k as nat, uberblock_view(best)),
        decreases count - k,
    {
        assert(k * slot <= count * slot) by (nonlinear_arith)
            requires
                k <= count,
                0 <= slot,
        {
        }
        assert(0 <= k * slot) by (nonlinear_arith)
            requires
                0 <= k,
                0 <= slot,
        {
        }
        let at: u64 = L0_UBERBLOCK_BYTE + (k * slot) as u64;
        if let Ok(bytes) = read_from(members, 0, at, slot, 0, "io_uberblock") {
            if let Ok(Some(u)) = UberBlock::from_bytes(bytes.as_slice(), at, sha) {
                best = match best {
                    Some(b) => if u.is_newer_than(&b) {
                        Some(u)
                    } else {
                        Some(b)
                    },
                    None => Some(u),
                };
            }
        }
        k += 1;
    }
    match best {
        Some(u) => Ok(u),
        None => Err(Error::NoValidUberblock),
    }
}

/// Imports the pool that the members make up, going by the label of member 0.
pub fn import<R: BlockRead>(members: &mut [PoolMember<R>]) -> (v: Result<ImportedPool, Error>)
    ensures
        final(members)@ == imported(old(members)@).members,
        pool_result(v) == imported(old(members)@).result,
{
    reveal(imported);
    reveal(pool_of);
    if members.len() == 0 {
        return Err(Error::BadLabel(LabelReason::NoLabels));
    }
    let mut sha = match Sha256::new(Sha256Implementation::Generic) {
        Ok(sha) => sha,
        Err(_) => {
            return Err(
                Error::Inconsistent { token: "sha_init", where_: Location::Uberblock },
            );
        },
    };
    let label = match read_nvpairs(members, 0) {
        Ok(label) => label,
        Err(e) => {
            return Err(e);
        },
    };
    let config = match read_config(label.as_slice(), &mut sha) {
        Ok(config) => config,
        Err(e) => {
            return Err(e);
        },
    };
    let pool_guid: u64 = match nv_u64(&config, "pool_guid") {
        Ok(guid) => guid,
        Err(e) => {
            return Err(e);
        },
    };
    let pool_name = match nv_str(&config, "name") {
        Ok(name) => name.to_owned(),
        Err(e) => {
            return Err(e);
        },
    };
    let vtree = match nv_nvlist(&config, "vdev_tree") {
        Ok(vtree) => vtree,
        Err(e) => {
            return Err(e);
        },
    };
    let ashift: u8 = match nv_u64(&vtree, "ashift") {
        Ok(ashift) => small(ashift, 10),
        Err(e) => {
            return Err(e);
        },
    };
    let ghost before = members@;
    let topology = match build_topology(&vtree, members, &mut sha) {
        Ok(topology) => topology,
        Err(e) => {
            return Err(e);
        },
    };
    proof {
        lemma_shape_len(before, vtree@);
    }
    let uberblock = match select_uberblock(members, ashift, &mut sha) {
        Ok(uberblock) => uberblock,
        Err(e) => {
            return Err(e);
        },
    };
    let order = uberblock.ptr.order();
    let guids = read_leaf_guids(&vtree, &topology);
    let vdev = Vdev { topology, guids };
    match read_objset(members, &vdev, &uberblock.ptr, order) {
        Err(e) => Err(e),
        Ok(mos) => Ok(
            ImportedPool {
                pool_guid,
                pool_name,
                vdev,
                uberblock,
                mos_dnode: mos.dnode,
                order,
            },
        ),
    }
}

proof fn lemma_leaf_len<R: BlockRead>(members: Seq<PoolMember<R>>, guid: u64, i: nat)
    ensures
        leaf_member(members, guid, i).members.len() == members.len(),
    decreases members.len() - i,
{
    if i < members.len() {
        lemma_leaf_len(label_of(members, i as int).members, guid, i + 1);
    }
}

proof fn lemma_leaves_len<R: BlockRead>(
    members: Seq<PoolMember<R>>,
    guids: Seq<u64>,
    k: nat,
    before: Seq<usize>,
)
    ensures
        leaf_members(members, guids, k, before).members.len() == members.len(),
    decreases guids.len() - k,
{
    if k < guids.len() {
        let run = leaf_member(members, guids[k as int], 0);
        lemma_leaf_len(members, guids[k as int], 0);
        match run.result {
            Ok(i) => {
                lemma_leaves_len(run.members, guids, k + 1, before.push(i));
            },
            Err(_) => {},
        }
    }
}

proof fn lemma_found_leaves_len<R: BlockRead>(
    members: Seq<PoolMember<R>>,
    guids: Seq<u64>,
    k: nat,
    before: Seq<Option<usize>>,
)
    ensures
        leaf_members_found(members, guids, k, before).0.len() == members.len(),
    decreases guids.len() - k,
{
    if k < guids.len() {
        let run = leaf_member(members, guids[k as int], 0);
        lemma_leaf_len(members, guids[k as int], 0);
        let found = match run.result {
            Ok(i) => Some(i),
            Err(_) => None,
        };
        lemma_found_leaves_len(run.members, guids, k + 1, before.push(found));
    }
}

/// No member is lost on the way.
proof fn lemma_shape_len<R: BlockRead>(members: Seq<PoolMember<R>>, vtree: Seq<u8>)
    ensures
        shape_of(members, vtree).members.len() == members.len(),
{
    reveal(shape_of);
    reveal(group_of);
    match guids_in(vtree) {
        Ok(guids) => {
            lemma_leaves_len(members, guids, 0, Seq::empty());
            lemma_found_leaves_len(members, guids, 0, Seq::empty());
        },
        Err(_) => {},
    }
}

/// The uberblock in a slot of member 0, if there is a valid one.
pub open spec fn uberblock_in<R: BlockRead>(
    members: Seq<PoolMember<R>>,
    slot: nat,
    k: nat,
) -> Option<UberBlockView> {
    match members[0].reader.answer(slot_byte(slot, k), slot) {
        Some(bytes) => match uberblock_of(bytes, slot_byte(slot, k)) {
            Ok(Some(u)) => Some(u),
            _ => None,
        },
        None => None,
    }
}

proof fn lemma_best<R: BlockRead>(
    members: Seq<PoolMember<R>>,
    slot: nat,
    k: nat,
    best: Option<UberBlockView>,
)
    requires
        all_stable(members),
        members.len() > 0,
        slot > 0,
    ensures
        best_uberblock(members, slot, k, best).members == members,
        match best_uberblock(members, slot, k, best).result {
            Ok(u) => {
                &&& best == Some(u) || exists|j: nat|
                    k <= j < UBERBLOCK_ARRAY_SIZE as nat / slot && #[trigger] uberblock_in(
                        members,
                        slot,
                        j,
                    ) == Some(u)
                &&& best matches Some(b) ==> !b.is_newer_than(u)
                &&& forall|j: nat|
                    k <= j < UBERBLOCK_ARRAY_SIZE as nat / slot ==> (
                    #[trigger] uberblock_in(members, slot, j) matches Some(v)
                        ==> !v.is_newer_than(u))
            },
            Err(e) => {
                &&& e == Error::NoValidUberblock
                &&& best is None
                &&& forall|j: nat|
                    k <= j < UBERBLOCK_ARRAY_SIZE as nat / slot ==> #[trigger] uberblock_in(
                        members,
                        slot,
                        j,
                    ) is None
            },
        },
    decreases UBERBLOCK_ARRAY_SIZE - k,
{
    let count = UBERBLOCK_ARRAY_SIZE as nat / slot;
    assert(count <= UBERBLOCK_ARRAY_SIZE) by {
        vstd::arithmetic::div_mod::lemma_div_is_ordered_by_denominator(
            UBERBLOCK_ARRAY_SIZE as int,
            1,
            slot as int,
        );
    }
    if k < count {
        lemma_member_stable(members, 0, slot_byte(slot, k), slot, 0, "io_uberblock");
        let now = match uberblock_in(members, slot, k) {
            Some(u) => Some(better(best, u)),
            None => best,
        };
        lemma_best(members, slot, k + 1, now);
    }
}

/// The uberblock that is selected is valid, and no valid one is newer; there is an error
/// only if none is valid.
pub proof fn law_newest_uberblock_is_selected<R: BlockRead>(
    members: Seq<PoolMember<R>>,
    ashift: u8,
)
    requires
        all_stable(members),
        members.len() > 0,
    ensures
        ({
            let slot = slot_size(ashift);
            let count = UBERBLOCK_ARRAY_SIZE as nat / slot;
            match best_uberblock(members, slot, 0, None).result {
                Ok(u) => {
                    &&& exists|j: nat|
                        j < count && #[trigger] uberblock_in(members, slot, j) == Some(u)
                    &&& forall|j: nat|
                        j < count ==> (#[trigger] uberblock_in(members, slot, j) matches Some(v)
                            ==> !v.is_newer_than(u))
                },
                Err(e) => {
                    &&& e == Error::NoValidUberblock
                    &&& forall|j: nat|
                        j < count ==> #[trigger] uberblock_in(members, slot, j) is None
                },
            }
        }),
{
    lemma_best(members, slot_size(ashift), 0, None);
}

/// The label of a member, if it can be read.
pub open spec fn label_in<R: BlockRead>(member: PoolMember<R>) -> Option<Seq<u8>> {
    member.reader.answer(L0_NVPAIRS_BYTE, NVPAIRS_SIZE as nat)
}

proof fn lemma_leaf<R: BlockRead>(members: Seq<PoolMember<R>>, guid: u64, i: nat)
    requires
        all_stable(members),
        members.len() <= usize::MAX,
    ensures
        leaf_member(members, guid, i).members == members,
        leaf_member(members, guid, i).result matches Ok(found) ==> {
            &&& i <= found < members.len()
            &&& label_in(members[found as int]) matches Some(label) && names_leaf(label, guid)
            &&& forall|j: int|
                i <= j < found ==> (label_in(#[trigger] members[j]) matches Some(label)
                    && !names_leaf(label, guid))
        },
    decreases members.len() - i,
{
    if i < members.len() {
        lemma_member_stable(
            members,
            i as int,
            L0_NVPAIRS_BYTE,
            NVPAIRS_SIZE as nat,
            0,
            "io_nvpairs",
        );
        lemma_leaf(members, guid, i + 1);
    }
}

/// The member that is found for a leaf vdev carries its label, and is the first that
/// does.
pub proof fn law_leaf_has_its_label<R: BlockRead>(members: Seq<PoolMember<R>>, guid: u64)
    requires
        all_stable(members),
        members.len() <= usize::MAX,
    ensures
        leaf_member(members, guid, 0).result matches Ok(found) ==> {
            &&& found < members.len()
            &&& label_in(members[found as int]) matches Some(label) && names_leaf(label, guid)
            &&& forall|j: int|
                0 <= j < found ==> (label_in(#[trigger] members[j]) matches Some(label)
                    && !names_leaf(label, guid))
        },
{
    lemma_leaf(members, guid, 0);
}

proof fn lemma_leaves_stable<R: BlockRead>(
    members: Seq<PoolMember<R>>,
    guids: Seq<u64>,
    k: nat,
    before: Seq<usize>,
)
    requires
        all_stable(members),
        members.len() <= usize::MAX,
    ensures
        leaf_members(members, guids, k, before).members == members,
    decreases guids.len() - k,
{
    if k < guids.len() {
        lemma_leaf(members, guids[k as int], 0);
        match leaf_member(members, guids[k as int], 0).result {
            Ok(i) => {
                lemma_leaves_stable(members, guids, k + 1, before.push(i));
            },
            Err(_) => {},
        }
    }
}

proof fn lemma_found_leaves_stable<R: BlockRead>(
    members: Seq<PoolMember<R>>,
    guids: Seq<u64>,
    k: nat,
    before: Seq<Option<usize>>,
)
    requires
        all_stable(members),
        members.len() <= usize::MAX,
    ensures
        leaf_members_found(members, guids, k, before).0 == members,
    decreases guids.len() - k,
{
    if k < guids.len() {
        lemma_leaf(members, guids[k as int], 0);
        let found = match leaf_member(members, guids[k as int], 0).result {
            Ok(i) => Some(i),
            Err(_) => None,
        };
        lemma_found_leaves_stable(members, guids, k + 1, before.push(found));
    }
}

/// Importing a pool from stable members changes nothing, so that it can be imported
/// again with the same outcome.
pub proof fn law_importing_changes_nothing<R: BlockRead>(members: Seq<PoolMember<R>>)
    requires
        all_stable(members),
        members.len() <= usize::MAX,
    ensures
        imported(members).members == members,
{
    reveal(imported);
    reveal(pool_of);
    reveal(shape_of);
    reveal(group_of);
    if members.len() > 0 {
        lemma_member_stable(
            members,
            0,
            L0_NVPAIRS_BYTE,
            NVPAIRS_SIZE as nat,
            0,
            "io_nvpairs",
        );
        match label_of(members, 0).result {
            Ok(label) => match config_of(label) {
                Ok(config) => match list_in(config, "vdev_tree") {
                    Ok(vtree) => {
                        match guids_in(vtree) {
                            Ok(guids) => {
                                lemma_leaves_stable(members, guids, 0, Seq::empty());
                                lemma_found_leaves_stable(members, guids, 0, Seq::empty());
                            },
                            Err(_) => {},
                        }
                        match (number_in(vtree, "ashift"), shape_of(members, vtree).result) {
                            (Ok(ashift), Ok(shape)) => {
                                let layout = Layout { shape, guids: leaf_guids(vtree, shape) };
                                let slot = slot_size(byte_or(ashift, 10));
                                lemma_best(members, slot, 0, None);
                                match best_uberblock(members, slot, 0, None).result {
                                    Ok(u) => {
                                        lemma_objset_stable(members, layout, u.ptr, u.ptr.order());
                                    },
                                    Err(_) => {},
                                }
                            },
                            _ => {},
                        }
                    },
                    Err(_) => {},
                },
                Err(_) => {},
            },
            Err(_) => {},
        }
    }
}

proof fn lemma_objset_stable<R: BlockRead>(
    members: Seq<PoolMember<R>>,
    layout: Layout,
    p: Pointer,
    order: EndianOrder,
)
    requires
        all_stable(members),
    ensures
        objset_at(members, layout, p, order).members == members,
{
    reveal(objset_at);
    law_reading_changes_nothing(members, layout, p);
}

/// Any valid uberblock of the first label of member 0 makes the selection succeed, and what
/// is selected is not older than it, and stands in a slot itself. The slots follow each other
/// from byte 0x20000 on, up to twice that. A slot has two to the `ashift` bytes, but at least
/// 1 KiB and at most 8 KiB.
pub proof fn law_no_valid_uberblock_is_missed<R: BlockRead>(
    members: Seq<PoolMember<R>>,
    ashift: u8,
    size: nat,
    k: nat,
    bytes: Seq<u8>,
    u: UberBlockView,
)
    requires
        all_stable(members),
        members.len() > 0,
        size == pow2(
            if ashift < 10 {
                10
            } else if ashift > 13 {
                13
            } else {
                ashift as nat
            },
        ),
        k * size < 0x2_0000,
        members[0].reader.answer((0x2_0000 + k * size) as u64, size) == Some(bytes),
        uberblock_of(bytes, (0x2_0000 + k * size) as u64) == Ok::<
            Option<UberBlockView>,
            Malformed,
        >(Some(u)),
    ensures
        best_uberblock(members, slot_size(ashift), 0, None).result matches Ok(v) && (u.txg < v.txg
            || (u.txg == v.txg && u.timestamp <= v.timestamp)) && exists|at: u64|
            0x2_0000 <= at < 0x4_0000 && (at - 0x2_0000) % (size as int) == 0 && (
            #[trigger] members[0].reader.answer(at, size) matches Some(b) && uberblock_of(b, at)
                == Ok::<Option<UberBlockView>, Malformed>(Some(v))),
{
    lemma2_to64();
    let slot = slot_size(ashift);
    assert(slot == size);
    assert(k < 0x2_0000nat / slot) by (nonlinear_arith)
        requires
            k * slot < 0x2_0000,
            slot == 0x400 || slot == 0x800 || slot == 0x1000 || slot == 0x2000,
    {
    }
    assert(uberblock_in(members, slot, k) == Some(u));
    lemma_best(members, slot, 0, None);
    let v = best_uberblock(members, slot, 0, None).result->Ok_0;
    let j = choose|j: nat|
        0 <= j < UBERBLOCK_ARRAY_SIZE as nat / slot && #[trigger] uberblock_in(members, slot, j)
            == Some(v);
    assert(j * slot < 0x2_0000) by (nonlinear_arith)
        requires
            j < 0x2_0000nat / slot,
            slot == 0x400 || slot == 0x800 || slot == 0x1000 || slot == 0x2000,
    {
    }
    let at = slot_byte(slot, j);
    assert(0 <= j * slot) by (nonlinear_arith);
    assert(at == 0x2_0000 + j * slot);
    vstd::arithmetic::div_mod::lemma_mod_multiples_basic(j as int, slot as int);
    assert(members[0].reader.answer(at, size) is Some);
}

proof fn lemma_leaves_found<R: BlockRead>(
    members: Seq<PoolMember<R>>,
    guids: Seq<u64>,
    k: nat,
    before: Seq<usize>,
)
    requires
        all_stable(members),
        members.len() <= usize::MAX,
        before.len() == k <= guids.len(),
        forall|i: int|
            0 <= i < k ==> leaf_member(members, guids[i], 0).result == Ok::<usize, Error>(
                #[trigger] before[i],
            ),
    ensures
        leaf_members(members, guids, k, before).result matches Ok(found) ==> found.len()
            == guids.len() && forall|i: int|
            0 <= i < found.len() ==> leaf_member(members, guids[i], 0).result == Ok::<
                usize,
                Error,
            >(#[trigger] found[i]),
        (forall|i: int|
            k <= i < guids.len() ==> leaf_member(members, #[trigger] guids[i], 0).result is Ok)
            ==> leaf_members(members, guids, k, before).result is Ok,
    decreases guids.len() - k,
{
    if k < guids.len() {
        lemma_leaf(members, guids[k as int], 0);
        match leaf_member(members, guids[k as int], 0).result {
            Ok(i) => {
                lemma_leaves_found(members, guids, k + 1, before.push(i));
            },
            Err(_) => {},
        }
    }
}

proof fn lemma_present_found<R: BlockRead>(
    members: Seq<PoolMember<R>>,
    guids: Seq<u64>,
    k: nat,
    before: Seq<Option<usize>>,
)
    requires
        all_stable(members),
        members.len() <= usize::MAX,
        before.len() == k <= guids.len(),
        forall|i: int|
            0 <= i < k ==> #[trigger] before[i] == (match leaf_member(members, guids[i], 0).result {
                Ok(m) => Some(m),
                Err(_) => None,
            }),
    ensures
        ({
            let found = leaf_members_found(members, guids, k, before).1;
            &&& found.len() == guids.len()
            &&& forall|i: int|
                0 <= i < found.len() ==> #[trigger] found[i] == (match leaf_member(
                    members,
                    guids[i],
                    0,
                ).result {
                    Ok(m) => Some(m),
                    Err(_) => None,
                })
        }),
    decreases guids.len() - k,
{
    if k < guids.len() {
        lemma_leaf(members, guids[k as int], 0);
        let found = match leaf_member(members, guids[k as int], 0).result {
            Ok(i) => Some(i),
            Err(_) => None,
        };
        lemma_present_found(members, guids, k + 1, before.push(found));
    }
}

/// Among members whose labels can all be read, a leaf is found exactly if one of them carries
/// its label.
proof fn lemma_leaf_is_found<R: BlockRead>(
    members: Seq<PoolMember<R>>,
    guid: u64,
    i: nat,
    at: int,
)
    requires
        all_stable(members),
        members.len() <= usize::MAX,
        i <= at < members.len(),
        forall|j: int| 0 <= j <= at ==> label_in(#[trigger] members[j]) is Some,
        names_leaf(label_in(members[at])->0, guid),
    ensures
        leaf_member(members, guid, i).result is Ok,
    decreases at - i,
{
    lemma_member_stable(
        members,
        i as int,
        L0_NVPAIRS_BYTE,
        NVPAIRS_SIZE as nat,
        0,
        "io_nvpairs",
    );
    assert(label_in(members[i as int]) is Some);
    if !names_leaf(label_in(members[i as int])->0, guid) {
        lemma_leaf_is_found(members, guid, i + 1, at);
    }
}

/// A device or a file is a pool of one device, which is the first member.
pub proof fn law_topology_of_a_device<R: BlockRead>(members: Seq<PoolMember<R>>, vtree: Seq<u8>)
    requires
        text_in(vtree, "type") == Ok::<Seq<char>, Error>("disk"@) || text_in(vtree, "type") == Ok::<
            Seq<char>,
            Error,
        >("file"@),
    ensures
        shape_of(members, vtree) == (Run::<R, Shape> { members, result: Ok(Shape::Single(0)) }),
{
    reveal(shape_of);
}

/// Each child of a mirror is the first member with its label, in the order of the
/// configuration, and a mirror is found if all of its children are among members with
/// labels that can be read. A label is the 112 KiB from byte 16384 of a member on.
pub proof fn law_topology_of_a_mirror<R: BlockRead>(
    members: Seq<PoolMember<R>>,
    vtree: Seq<u8>,
    guids: Seq<u64>,
    at: Seq<int>,
)
    requires
        all_stable(members),
        members.len() <= usize::MAX,
        text_in(vtree, "type") == Ok::<Seq<char>, Error>("mirror"@),
        guids_in(vtree) == Ok::<Seq<u64>, Error>(guids),
        at.len() == guids.len(),
        forall|j: int|
            0 <= j < members.len() ==> (#[trigger] members[j]).reader.answer(0x4000, 0x1_c000)
                is Some,
        forall|k: int| #![trigger at[k]]
            0 <= k < at.len() ==> 0 <= at[k] < members.len() && names_leaf(
                members[at[k]].reader.answer(0x4000, 0x1_c000)->0,
                guids[k],
            ),
    ensures
        shape_of(members, vtree).result matches Ok(Shape::Mirror(children)) && children.len()
            == guids.len() && forall|k: int| #![trigger children[k]]
            0 <= k < guids.len() ==> children[k] <= at[k] && names_leaf(
                members[children[k] as int].reader.answer(0x4000, 0x1_c000)->0,
                guids[k],
            ),
{
    reveal(shape_of);
    reveal_strlit("mirror");
    reveal_strlit("disk");
    reveal_strlit("file");
    assert("mirror"@.len() == 6 && "disk"@.len() == 4 && "file"@.len() == 4);
    lemma_leaves_found(members, guids, 0, Seq::empty());
    assert forall|k: int| 0 <= k < guids.len() implies leaf_member(
        members,
        #[trigger] guids[k],
        0,
    ).result is Ok by {
        assert(0 <= at[k] < members.len());
        assert forall|j: int| 0 <= j <= at[k] implies label_in(#[trigger] members[j]) is Some by {
            assert(members[j].reader.answer(0x4000, 0x1_c000) is Some);
        }
        lemma_leaf_is_found(members, guids[k], 0, at[k]);
    }
    let children = leaf_members(members, guids, 0, Seq::empty()).result->Ok_0;
    assert forall|k: int| #![trigger children[k]] 0 <= k < guids.len() implies children[k] <= at[k]
        && names_leaf(
        members[children[k] as int].reader.answer(0x4000, 0x1_c000)->0,
        guids[k],
    ) by {
        assert(leaf_member(members, guids[k], 0).result == Ok::<usize, Error>(children[k]));
        lemma_leaf(members, guids[k], 0);
        assert(0 <= at[k] < members.len());
        if children[k] > at[k] {
            assert(label_in(members[at[k]]) matches Some(label) && !names_leaf(label, guids[k]));
        }
    }
}

proof fn lemma_one_absent(children: Seq<Option<usize>>, lost: int)
    requires
        forall|k: int| 0 <= k < children.len() && k != lost ==> children[k] is Some,
    ensures
        present_count(children) + 1 >= children.len(),
        !(0 <= lost < children.len()) ==> present_count(children) >= children.len(),
    decreases children.len(),
{
    if children.len() > 0 {
        lemma_one_absent(children.drop_last(), lost);
        if lost == children.len() - 1 {
            assert forall|k: int| 0 <= k < children.drop_last().len() && k != -1 implies
                children.drop_last()[k] is Some by {}
            lemma_one_absent(children.drop_last(), -1);
        }
    }
}

/// Single parity RAID-Z is found if all of its children but one, or all of them, are among
/// members with labels that can be read: each child that is there is the first member with
/// its label, and the unit of allocation is that of the configuration.
pub proof fn law_topology_of_a_group<R: BlockRead>(
    members: Seq<PoolMember<R>>,
    vtree: Seq<u8>,
    guids: Seq<u64>,
    at: Seq<int>,
    lost: int,
    ashift: u64,
)
    requires
        all_stable(members),
        members.len() <= usize::MAX,
        text_in(vtree, "type") == Ok::<Seq<char>, Error>("raidz"@),
        number_in(vtree, "nparity") == Ok::<u64, Error>(1),
        number_in(vtree, "ashift") == Ok::<u64, Error>(ashift),
        ashift < 256,
        guids_in(vtree) == Ok::<Seq<u64>, Error>(guids),
        at.len() == guids.len(),
        forall|j: int|
            0 <= j < members.len() ==> (#[trigger] members[j]).reader.answer(0x4000, 0x1_c000)
                is Some,
        forall|k: int| #![trigger at[k]]
            0 <= k < at.len() && k != lost ==> 0 <= at[k] < members.len() && names_leaf(
                members[at[k]].reader.answer(0x4000, 0x1_c000)->0,
                guids[k],
            ),
    ensures
        shape_of(members, vtree).result matches Ok(Shape::RaidZ1 { children, ashift: a }) && a
            == ashift && children.len() == guids.len() && forall|k: int| #![trigger children[k]]
            0 <= k < guids.len() ==> {
                &&& k != lost ==> children[k] is Some && children[k]->0 <= at[k]
                &&& children[k] matches Some(m) ==> m < members.len() && names_leaf(
                    members[m as int].reader.answer(0x4000, 0x1_c000)->0,
                    guids[k],
                )
            },
{
    reveal(shape_of);
    reveal(group_of);
    reveal_strlit("mirror");
    reveal_strlit("disk");
    reveal_strlit("file");
    reveal_strlit("raidz");
    assert("mirror"@.len() == 6 && "disk"@.len() == 4 && "file"@.len() == 4 && "raidz"@.len() == 5);
    lemma_present_found(members, guids, 0, Seq::empty());
    let children = leaf_members_found(members, guids, 0, Seq::empty()).1;
    assert forall|k: int| #![trigger children[k]] 0 <= k < guids.len() implies {
        &&& k != lost ==> children[k] is Some && children[k]->0 <= at[k]
        &&& children[k] matches Some(m) ==> m < members.len() && names_leaf(
            members[m as int].reader.answer(0x4000, 0x1_c000)->0,
            guids[k],
        )
    } by {
        lemma_leaf(members, guids[k], 0);
        if k != lost {
            assert(0 <= at[k] < members.len());
            assert forall|j: int| 0 <= j <= at[k] implies label_in(#[trigger] members[j])
                is Some by {
                assert(members[j].reader.answer(0x4000, 0x1_c000) is Some);
            }
            lemma_leaf_is_found(members, guids[k], 0, at[k]);
            if children[k]->0 > at[k] {
                assert(label_in(members[at[k]]) matches Some(label) && !names_leaf(
                    label,
                    guids[k],
                ));
            }
        }
    }
    lemma_one_absent(children, lost);
}

/// A label names the leaf whose identifier its configuration holds under `guid`, and no
/// other. The configuration stands in front of the last 40 bytes of the label, which has to
/// have the checksum that it carries.
pub proof fn law_labels_name_one_leaf(label: Seq<u8>, config: Seq<u8>, g: u64, guid: u64)
    requires
        label_verifies(label, 0x4000),
        packed_list(label.take(label.len() - 40)) == Ok::<Seq<u8>, Malformed>(config),
        number_in(config, "guid") == Ok::<u64, Error>(g),
    ensures
        names_leaf(label, guid) <==> g == guid,
{
}

/// An imported pool is what the label of the first member says it is: its configuration gives
/// the identifier, the name and the devices; the meta object set is read through the newest
/// uberblock, in the byte order that this names, and the slots for uberblocks have the size
/// that goes with the configuration.
pub proof fn law_imported_pool_is_that_of_the_label<R: BlockRead>(members: Seq<PoolMember<R>>)
    requires
        all_stable(members),
        members.len() <= usize::MAX,
        imported(members).result is Ok,
    ensures
        ({
            let pool = imported(members).result->Ok_0;
            &&& members.len() > 0
            &&& members[0].reader.answer(0x4000, 0x1_c000) matches Some(label) && label_verifies(
                label,
                0x4000,
            ) && (packed_list(label.take(label.len() - 40)) matches Ok(config) && {
                &&& number_in(config, "pool_guid") == Ok::<u64, Error>(pool.guid)
                &&& text_in(config, "name") == Ok::<Seq<char>, Error>(pool.name)
                &&& list_in(config, "vdev_tree") matches Ok(vtree) && {
                    &&& shape_of(members, vtree).result == Ok::<Shape, Error>(pool.layout.shape)
                    &&& number_in(vtree, "ashift") matches Ok(ashift) && (ashift < 256
                        ==> best_uberblock(members, slot_size(ashift as u8), 0, None).result
                        == Ok::<UberBlockView, Error>(pool.uberblock))
                }
            })
            &&& pool.order == pool.uberblock.ptr.order()
            &&& objset_at(members, pool.layout, pool.uberblock.ptr, pool.order).result == Ok::<
                DnodeView,
                Error,
            >(pool.mos)
        }),
{
    reveal(imported);
    reveal(pool_of);
    reveal(shape_of);
    reveal(group_of);
    lemma_member_stable(members, 0, L0_NVPAIRS_BYTE, NVPAIRS_SIZE as nat, 0, "io_nvpairs");
    let label = label_of(members, 0).result->Ok_0;
    let config = config_of(label)->Ok_0;
    let vtree = list_in(config, "vdev_tree")->Ok_0;
    match guids_in(vtree) {
        Ok(guids) => {
            lemma_leaves_stable(members, guids, 0, Seq::empty());
            lemma_found_leaves_stable(members, guids, 0, Seq::empty());
        },
        Err(_) => {},
    }
    let ashift = number_in(vtree, "ashift")->Ok_0;
    lemma_best(members, slot_size(byte_or(ashift, 10)), 0, None);
}

/// A pool cannot be imported without a member, nor from one whose label does not have the
/// checksum that it carries.
pub proof fn law_bad_labels_are_refused<R: BlockRead>(members: Seq<PoolMember<R>>)
    ensures
        members.len() == 0 ==> imported(members).result == Err::<PoolView, Error>(
            Error::BadLabel(LabelReason::NoLabels),
        ),
        members.len() > 0 ==> match members[0].reader.answer(0x4000, 0x1_c000) {
            None => imported(members).result == Err::<PoolView, Error>(
                Error::Io { token: "io_nvpairs", vdev: 0, offset: 0x4000 },
            ),
            Some(label) => !label_verifies(label, 0x4000) ==> imported(members).result == Err::<
                PoolView,
                Error,
            >(Error::BadLabel(LabelReason::BadChecksum)),
        },
{
    reveal(imported);
}

/// A pool is imported if nothing of it is amiss: the label of the first member verifies and
/// holds the identifier, the name and the devices, whose topology is found; there is a valid
/// uberblock; and the meta object set that it points to can be read.
pub proof fn law_sound_pool_is_imported<R: BlockRead>(
    members: Seq<PoolMember<R>>,
    label: Seq<u8>,
    config: Seq<u8>,
    vtree: Seq<u8>,
    ashift: u8,
    shape: Shape,
    guids: Seq<u64>,
    uberblock: UberBlockView,
)
    requires
        all_stable(members),
        0 < members.len() <= usize::MAX,
        members[0].reader.answer(0x4000, 0x1_c000) == Some(label),
        label_verifies(label, 0x4000),
        packed_list(label.take(label.len() - 40)) == Ok::<Seq<u8>, Malformed>(config),
        number_in(config, "pool_guid") is Ok,
        text_in(config, "name") is Ok,
        list_in(config, "vdev_tree") == Ok::<Seq<u8>, Error>(vtree),
        number_in(vtree, "ashift") == Ok::<u64, Error>(ashift as u64),
        shape_of(members, vtree).result == Ok::<Shape, Error>(shape),
        match shape {
            Shape::Single(_) => number_in(vtree, "guid") matches Ok(g) && guids == seq![g],
            _ => guids_in(vtree) == Ok::<Seq<u64>, Error>(guids),
        },
        best_uberblock(members, slot_size(ashift), 0, None).result == Ok::<UberBlockView, Error>(
            uberblock,
        ),
        objset_at(
            members,
            Layout { shape, guids },
            uberblock.ptr,
            uberblock.ptr.order(),
        ).result is Ok,
    ensures
        imported(members).result matches Ok(pool) && pool.layout == (Layout { shape, guids })
            && pool.uberblock == uberblock,
{
    reveal(imported);
    reveal(pool_of);
    reveal(shape_of);
    reveal(group_of);
    lemma_member_stable(members, 0, L0_NVPAIRS_BYTE, NVPAIRS_SIZE as nat, 0, "io_nvpairs");
    match guids_in(vtree) {
        Ok(guids) => {
            lemma_leaves_stable(members, guids, 0, Seq::empty());
            lemma_found_leaves_stable(members, guids, 0, Seq::empty());
        },
        Err(_) => {},
    }
    lemma_best(members, slot_size(ashift), 0, None);
}

/// What a name of a list stands for is the value of its pair, if that is of the right type; a
/// name that is not there is not found.
pub proof fn law_values_of_names(list: Seq<u8>, key: &'static str)
    ensures
        search(list, 0, key@) == Search::Missing ==> number_in(list, key) == Err::<u64, Error>(
            Error::NotFound { component: key },
        ) && text_in(list, key) == Err::<Seq<char>, Error>(Error::NotFound { component: key })
            && list_in(list, key) == Err::<Seq<u8>, Error>(Error::NotFound { component: key }),
        search(list, 0, key@) matches Search::Hit { value } ==> {
            &&& value.number() matches Some(x) ==> number_in(list, key) == Ok::<u64, Error>(x)
            &&& value.text() matches Some(x) ==> text_in(list, key) == Ok::<Seq<char>, Error>(x)
            &&& value.list() matches Some(x) ==> list_in(list, key) == Ok::<Seq<u8>, Error>(x)
            &&& value.number() is None ==> number_in(list, key) is Err
            &&& value.text() is None ==> text_in(list, key) is Err
            &&& value.list() is None ==> list_in(list, key) is Err
        },
{
}

proof fn lemma_guids(s: Seq<u8>, places: Seq<int>, lists: Seq<Seq<u8>>, guids: Seq<u64>, k: nat)
    requires
        k <= guids.len(),
        places.len() == guids.len() + 1,
        lists.len() == guids.len(),
        forall|i: int| #![trigger lists[i]]
            0 <= i < lists.len() ==> list_at(s, places[i]) == Some((lists[i], places[i + 1]))
                && number_in(lists[i], "guid") == Ok::<u64, Error>(guids[i]),
    ensures
        guids_from(s, places[k as int], (guids.len() - k) as nat, guids.take(k as int)) == Ok::<
            Seq<u64>,
            Error,
        >(guids),
    decreases guids.len() - k,
{
    if k < guids.len() {
        assert(list_at(s, places[k as int]) == Some((lists[k as int], places[k as int + 1])));
        lemma_guids(s, places, lists, guids, k + 1);
        assert(guids.take(k as int).push(guids[k as int]) =~= guids.take(k as int + 1));
    } else {
        assert(guids.take(k as int) =~= guids);
    }
}

/// The children of a vdev are an array of lists, of type 20, under `children`, and the
/// identifier of each is under `guid`.
pub proof fn law_identifiers_of_children(
    vtree: Seq<u8>,
    value: Value,
    places: Seq<int>,
    lists: Seq<Seq<u8>>,
    guids: Seq<u64>,
)
    requires
        search(vtree, 0, "children"@) == (Search::Hit { value }),
        value.data_type == 20,
        value.count == guids.len(),
        places.len() == guids.len() + 1,
        places[0] == 0,
        lists.len() == guids.len(),
        forall|i: int| #![trigger lists[i]]
            0 <= i < lists.len() ==> list_at(value.bytes, places[i]) == Some(
                (lists[i], places[i + 1]),
            ) && number_in(lists[i], "guid") == Ok::<u64, Error>(guids[i]),
    ensures
        guids_in(vtree) == Ok::<Seq<u64>, Error>(guids),
{
    lemma_guids(value.bytes, places, lists, guids, 0);
    assert(guids.take(0) =~= Seq::empty());
}

/// Topologies that are not read: RAID-Z with more than one parity column, dRAID, and whatever
/// else there may be.
pub proof fn law_other_topologies_are_refused<R: BlockRead>(
    members: Seq<PoolMember<R>>,
    vtree: Seq<u8>,
    kind: Seq<char>,
)
    requires
        text_in(vtree, "type") == Ok::<Seq<char>, Error>(kind),
    ensures
        kind == "raidz"@ && (number_in(vtree, "nparity") matches Ok(n) && n != 1) ==> shape_of(
            members,
            vtree,
        ).result == Err::<Shape, Error>(Error::UnsupportedTopology("topo_raidz_multiparity")),
        kind == "draid"@ ==> shape_of(members, vtree).result == Err::<Shape, Error>(
            Error::UnsupportedTopology("topo_draid"),
        ),
        kind != "disk"@ && kind != "file"@ && kind != "mirror"@ && kind != "raidz"@ && kind
            != "draid"@ ==> shape_of(members, vtree).result == Err::<Shape, Error>(
            Error::UnsupportedTopology("topo_unknown"),
        ),
{
    reveal(shape_of);
    reveal(group_of);
    reveal_strlit("mirror");
    reveal_strlit("disk");
    reveal_strlit("file");
    reveal_strlit("raidz");
    reveal_strlit("draid");
    assert("mirror"@.len() == 6 && "disk"@.len() == 4 && "file"@.len() == 4);
    assert("raidz"@.len() == 5 && "draid"@.len() == 5);
    assert("raidz"@[0] == 'r' && "draid"@[0] == 'd');
}

proof fn lemma_two_absent(children: Seq<Option<usize>>, a: int, b: int)
    requires
        0 <= a < b < children.len(),
        children[a] is None,
        children[b] is None,
    ensures
        present_count(children) + 2 <= children.len(),
    decreases children.len(),
{
    if b < children.len() - 1 {
        lemma_two_absent(children.drop_last(), a, b);
    } else {
        lemma_absent(children.drop_last(), a);
    }
}

proof fn lemma_absent(children: Seq<Option<usize>>, a: int)
    requires
        a < children.len(),
    ensures
        present_count(children) <= children.len(),
        0 <= a && children[a] is None ==> present_count(children) + 1 <= children.len(),
    decreases children.len(),
{
    if children.len() > 0 {
        let before = children.drop_last();
        if a < before.len() {
            lemma_absent(before, a);
        } else {
            lemma_absent(before, -1);
        }
    }
}

/// Single parity RAID-Z of which two children are not found is refused.
pub proof fn law_degraded_groups_are_refused<R: BlockRead>(
    members: Seq<PoolMember<R>>,
    vtree: Seq<u8>,
    guids: Seq<u64>,
    a: int,
    b: int,
)
    requires
        all_stable(members),
        members.len() <= usize::MAX,
        text_in(vtree, "type") == Ok::<Seq<char>, Error>("raidz"@),
        number_in(vtree, "nparity") == Ok::<u64, Error>(1),
        number_in(vtree, "ashift") is Ok,
        guids_in(vtree) == Ok::<Seq<u64>, Error>(guids),
        0 <= a < b < guids.len(),
        leaf_member(members, guids[a], 0).result is Err,
        leaf_member(members, guids[b], 0).result is Err,
    ensures
        shape_of(members, vtree).result == Err::<Shape, Error>(
            Error::UnsupportedTopology("topo_raidz_degraded"),
        ),
{
    reveal(shape_of);
    reveal(group_of);
    reveal_strlit("mirror");
    reveal_strlit("disk");
    reveal_strlit("file");
    reveal_strlit("raidz");
    assert("mirror"@.len() == 6 && "disk"@.len() == 4 && "file"@.len() == 4 && "raidz"@.len() == 5);
    lemma_present_found(members, guids, 0, Seq::empty());
    let children = leaf_members_found(members, guids, 0, Seq::empty()).1;
    assert(children[a] is None && children[b] is None);
    lemma_two_absent(children, a, b);
}

proof fn lemma_best_is_first<R: BlockRead>(
    members: Seq<PoolMember<R>>,
    slot: nat,
    k: nat,
    best: Option<UberBlockView>,
)
    requires
        all_stable(members),
        members.len() > 0,
        slot > 0,
        best_uberblock(members, slot, k, best).result is Ok,
    ensures
        ({
            let u = best_uberblock(members, slot, k, best).result->Ok_0;
            best == Some(u) || exists|j: nat|
                k <= j < 0x2_0000nat / slot && #[trigger] uberblock_in(members, slot, j) == Some(u)
                    && (best matches Some(b) ==> u.is_newer_than(b)) && forall|i: nat|
                    k <= i < j ==> (#[trigger] uberblock_in(members, slot, i) matches Some(v)
                        ==> u.is_newer_than(v))
        }),
    decreases UBERBLOCK_ARRAY_SIZE - k,
{
    let count = 0x2_0000nat / slot;
    assert(count <= UBERBLOCK_ARRAY_SIZE) by {
        vstd::arithmetic::div_mod::lemma_div_is_ordered_by_denominator(
            0x2_0000,
            1,
            slot as int,
        );
    }
    if k < count {
        lemma_member_stable(members, 0, slot_byte(slot, k), slot, 0, "io_uberblock");
        let now = match uberblock_in(members, slot, k) {
            Some(u) => Some(better(best, u)),
            None => best,
        };
        lemma_best_is_first(members, slot, k + 1, now);
        let u = best_uberblock(members, slot, k, best).result->Ok_0;
        if now == Some(u) {
            if best != Some(u) {
                assert(uberblock_in(members, slot, k) == Some(u));
            }
        } else {
            let j = choose|j: nat|
                k + 1 <= j < count && #[trigger] uberblock_in(members, slot, j) == Some(u) && (
                now matches Some(b) ==> u.is_newer_than(b)) && forall|i: nat|
                    k + 1 <= i < j ==> (#[trigger] uberblock_in(members, slot, i) matches Some(v)
                        ==> u.is_newer_than(v));
            assert(uberblock_in(members, slot, j) == Some(u));
        }
    }
}

/// Of uberblocks that are equally new, the one in the first slot is selected: what is selected
/// is newer than any in the slots before it.
pub proof fn law_first_of_equal_uberblocks<R: BlockRead>(
    members: Seq<PoolMember<R>>,
    ashift: u8,
    u: UberBlockView,
)
    requires
        all_stable(members),
        members.len() > 0,
        best_uberblock(members, slot_size(ashift), 0, None).result == Ok::<UberBlockView, Error>(u),
    ensures
        exists|j: nat|
            j < 0x2_0000nat / slot_size(ashift) && #[trigger] uberblock_in(
                members,
                slot_size(ashift),
                j,
            ) == Some(u) && forall|i: nat|
                i < j ==> (#[trigger] uberblock_in(members, slot_size(ashift), i) matches Some(v)
                    ==> v.txg < u.txg || (v.txg == u.txg && v.timestamp < u.timestamp)),
{
    lemma_best_is_first(members, slot_size(ashift), 0, None);
}

} // verus!
