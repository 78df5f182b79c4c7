//! Object sets, the dnodes of their objects, and name-value maps.

use crate::block_read::{BlockRead, PoolMember, Run};
use crate::error::{Error, Location};
use crate::file::{law_range_is_bytes, read_dnode_range, read_range};
use crate::phys::block_pointer::{BlockPointer, Pointer};
use crate::phys::dnode::{dnode_of, object_set_of, Dnode, DnodeView, ObjectSet, DNODE_SIZE};
use crate::phys::endian::EndianOrder;
use crate::phys::zap::{
    check_micro, decode_micro, entries_view, is_micro, law_lookup_finds_the_first, lookup,
    micro_entries,
};
use crate::phys::Malformed;
use crate::redundancy::{all_stable, law_reading_changes_nothing};
use crate::util::text::same_text;
use crate::vdev::{read_block_pointer, read_pointer, Layout, Vdev};
use vstd::prelude::*;

verus! {

/// The outcome of a read of a dnode, as what it says.
pub open spec fn dnode_result(r: Result<Dnode, Error>) -> Result<DnodeView, Error> {
    match r {
        Ok(d) => Ok(d@),
        Err(e) => Err(e),
    }
}

/// The outcome of a read of an object set, as what its meta dnode says.
pub open spec fn objset_result(r: Result<ObjectSet, Error>) -> Result<DnodeView, Error> {
    match r {
        Ok(set) => Ok(set.dnode@),
        Err(e) => Err(e),
    }
}

/// The outcome of a read of a map, as text and numbers.
pub open spec fn entries_result(r: Result<Vec<(String, u64)>, Error>) -> Result<
    Seq<(Seq<char>, u64)>,
    Error,
> {
    match r {
        Ok(entries) => Ok(entries_view(entries@)),
        Err(e) => Err(e),
    }
}

/// The meta dnode of the object set that `p` points to.
#[verifier::opaque]
pub open spec fn objset_at<R: BlockRead>(
    members: Seq<PoolMember<R>>,
    layout: Layout,
    p: Pointer,
    order: EndianOrder,
) -> Run<R, DnodeView> {
    let run = read_pointer(members, layout, p);
    Run {
        members: run.members,
        result: match run.result {
            Err(e) => Err(e),
            Ok(bytes) => match object_set_of(bytes, order) {
                Ok(d) => Ok(d),
                Err(_) => Err(
                    Error::Inconsistent { token: "objset_decode", where_: Location::Mos },
                ),
            },
        },
    }
}

/// The dnode of object `obj`, from the array of dnodes that is the data of `array`.
#[verifier::opaque]
pub open spec fn object_at<R: BlockRead>(
    members: Seq<PoolMember<R>>,
    layout: Layout,
    array: DnodeView,
    obj: u64,
    order: EndianOrder,
) -> Run<R, DnodeView> {
    let here = Location::Dnode { obj };
    if obj * 512 > u64::MAX {
        Run { members, result: Err(Error::Inconsistent { token: "range_overflow", where_: here }) }
    } else {
        let run = read_range(members, layout, array, (obj * 512) as u64, 512, order);
        Run {
            members: run.members,
            result: match run.result {
                Err(e) => Err(e),
                Ok(bytes) => match dnode_of(bytes, order) {
                    Ok(Some(d)) => Ok(d),
                    Ok(None) => Err(Error::Inconsistent { token: "dnode_empty", where_: here }),
                    Err(_) => Err(Error::Inconsistent { token: "dnode_decode", where_: here }),
                },
            },
        }
    }
}

/// The entries of the map that is the data of `d`. Only maps of the kind that is a single
/// block are read; those that grew beyond it, such as very large directories, are refused.
#[verifier::opaque]
pub open spec fn map_entries<R: BlockRead>(
    members: Seq<PoolMember<R>>,
    layout: Layout,
    d: DnodeView,
    order: EndianOrder,
) -> Run<R, Seq<(Seq<char>, u64)>> {
    let here = Location::Zap { obj: 0 };
    let size = d.data_block_size_sectors * 512;
    if size == 0 {
        Run { members, result: Err(Error::Inconsistent { token: "zap_dbsz0", where_: here }) }
    } else {
        let run = read_range(members, layout, d, 0, size as nat, order);
        Run {
            members: run.members,
            result: match run.result {
                Err(e) => Err(e),
                Ok(bytes) => if !is_micro(bytes, order) {
                    Err(Error::Inconsistent { token: "zap_micro", where_: here })
                } else {
                    match micro_entries(bytes, order) {
                        Ok(entries) => Ok(entries),
                        Err(_) => Err(Error::Inconsistent { token: "zap_entry", where_: here }),
                    }
                },
            },
        }
    }
}

/// The value of a name in the map that is the data of `d`, if the name is there.
#[verifier::opaque]
pub open spec fn map_value<R: BlockRead>(
    members: Seq<PoolMember<R>>,
    layout: Layout,
    d: DnodeView,
    name: Seq<char>,
    order: EndianOrder,
) -> Run<R, Option<u64>> {
    let run = map_entries(members, layout, d, order);
    Run {
        members: run.members,
        result: match run.result {
            Err(e) => Err(e),
            Ok(entries) => Ok(lookup(entries, name)),
        },
    }
}

/// Reads the object set that `bp` points to.
pub fn read_objset<R: BlockRead>(
    members: &mut [PoolMember<R>],
    vdev: &Vdev,
    bp: &BlockPointer,
    order: EndianOrder,
) -> (v: Result<ObjectSet, Error>)
    ensures
        final(members)@ == objset_at(old(members)@, vdev@, bp@, order).members,
        objset_result(v) == objset_at(old(members)@, vdev@, bp@, order).result,
{
    reveal(objset_at);
    match read_block_pointer(members, vdev, bp) {
        Err(e) => Err(e),
        Ok(bytes) => match ObjectSet::from_bytes(bytes.as_slice(), order) {
            Ok(set) => Ok(set),
            Err(_) => Err(Error::Inconsistent { token: "objset_decode", where_: Location::Mos }),
        },
    }
}

/// Reads the dnode of object `objnum` out of an array of dnodes.
pub fn read_object_dnode<R: BlockRead>(
    members: &mut [PoolMember<R>],
    vdev: &Vdev,
    dnode_array: &Dnode,
    objnum: u64,
    order: EndianOrder,
) -> (v: Result<Dnode, Error>)
    ensures
        final(members)@ == object_at(
            old(members)@,
            vdev@,
            dnode_array@,
            objnum,
            order,
        ).members,
        dnode_result(v) == object_at(
            old(members)@,
            vdev@,
            dnode_array@,
            objnum,
            order,
        ).result,
{
    reveal(object_at);
    let here = Location::Dnode { obj: objnum };
    let off: u64 = match objnum.checked_mul(512) {
        Some(off) => off,
        None => {
            return Err(Error::Inconsistent { token: "range_overflow", where_: here });
        },
    };
    match read_dnode_range(members, vdev, dnode_array, off, DNODE_SIZE, order) {
        Err(e) => Err(e),
        Ok(bytes) => match Dnode::from_bytes(bytes.as_slice(), order) {
            Ok(Some(d)) => Ok(d),
            Ok(None) => Err(Error::Inconsistent { token: "dnode_empty", where_: here }),
            Err(_) => Err(Error::Inconsistent { token: "dnode_decode", where_: here }),
        },
    }
}

/// Reads the entries of a map of the kind that is a single block. One that grew beyond it
/// (a fat ZAP) gives the error `zap_micro`.
pub fn zap_entries<R: BlockRead>(
    members: &mut [PoolMember<R>],
    vdev: &Vdev,
    zap_dnode: &Dnode,
    order: EndianOrder,
) -> (v: Result<Vec<(String, u64)>, Error>)
    ensures
        final(members)@ == map_entries(old(members)@, vdev@, zap_dnode@, order).members,
        entries_result(v) == map_entries(old(members)@, vdev@, zap_dnode@, order).result,
{
    reveal(map_entries);
    let here = Location::Zap { obj: 0 };
    let size: usize = zap_dnode.data_block_size_sectors as usize * 512;
    if size == 0 {
        return Err(Error::Inconsistent { token: "zap_dbsz0", where_: here });
    }
    match read_dnode_range(members, vdev, zap_dnode, 0, size, order) {
        Err(e) => Err(e),
        Ok(bytes) => {
            if !check_micro(bytes.as_slice(), order) {
                return Err(Error::Inconsistent { token: "zap_micro", where_: here });
            }
            match decode_micro(bytes.as_slice(), order) {
                Ok(entries) => Ok(entries),
                Err(_) => Err(Error::Inconsistent { token: "zap_entry", where_: here }),
            }
        },
    }
}

/// Looks a name up in a map.
pub fn zap_lookup<R: BlockRead>(
    members: &mut [PoolMember<R>],
    vdev: &Vdev,
    zap_dnode: &Dnode,
    name: &str,
    order: EndianOrder,
) -> (v: Result<Option<u64>, Error>)
    ensures
        final(members)@ == map_value(old(members)@, vdev@, zap_dnode@, name@, order).members,
        v == map_value(old(members)@, vdev@, zap_dnode@, name@, order).result,
{
    reveal(map_value);
    match zap_entries(members, vdev, zap_dnode, order) {
        Err(e) => Err(e),
        Ok(entries) => Ok(find(&entries, name)),
    }
}

/// Finds the first entry with a name.
fn find(entries: &Vec<(String, u64)>, name: &str) -> (r: Option<u64>)
    ensures
        r == lookup(entries_view(entries@), name@),
{
    let ghost all = entries_view(entries@);
    let mut i: usize = 0;
    assert(all.skip(0) =~= all);
    while i < entries.len()
        invariant
            i <= entries@.len(),
            all == entries_view(entries@),
            lookup(all, name@) == lookup(all.skip(i as int), name@),
        decreases entries@.len() - i,
    {
        assert(all.skip(i as int)[0] == all[i as int]);
        if same_text(entries[i].0.as_str(), name) {
            return Some(entries[i].1);
        }
        assert(all.skip(i as int).drop_first() =~= all.skip(i + 1));
        i += 1;
    }
    None
}

/// Reading an object set, a dnode or a map from stable members changes nothing.
pub proof fn law_walking_changes_nothing<R: BlockRead>(
    members: Seq<PoolMember<R>>,
    layout: Layout,
    p: Pointer,
    d: DnodeView,
    obj: u64,
    name: Seq<char>,
    order: EndianOrder,
)
    requires
        all_stable(members),
    ensures
        objset_at(members, layout, p, order).members == members,
        object_at(members, layout, d, obj, order).members == members,
        map_entries(members, layout, d, order).members == members,
        map_value(members, layout, d, name, order).members == members,
{
    reveal(objset_at);
    reveal(object_at);
    reveal(map_entries);
    reveal(map_value);
    law_reading_changes_nothing(members, layout, p);
    if obj * 512 <= u64::MAX {
        law_range_is_bytes(members, layout, d, (obj * 512) as u64, 512, order);
    }
    law_range_is_bytes(
        members,
        layout,
        d,
        0,
        (d.data_block_size_sectors * 512) as nat,
        order,
    );
}

/// Object `obj` of an array of dnodes is what the 512 bytes from byte `512 * obj` on of the
/// array's data say.
pub proof fn law_objects_follow_each_other<R: BlockRead>(
    members: Seq<PoolMember<R>>,
    layout: Layout,
    array: DnodeView,
    obj: u64,
    order: EndianOrder,
)
    requires
        512 * obj <= u64::MAX,
    ensures
        ({
            let result = object_at(members, layout, array, obj, order).result;
            match read_range(members, layout, array, (512 * obj) as u64, 512, order).result {
                Err(e) => result == Err::<DnodeView, Error>(e),
                Ok(bytes) => match dnode_of(bytes, order) {
                    Ok(Some(d)) => result == Ok::<DnodeView, Error>(d),
                    Ok(None) => result == Err::<DnodeView, Error>(
                        Error::Inconsistent {
                            token: "dnode_empty",
                            where_: Location::Dnode { obj },
                        },
                    ),
                    Err(_) => result == Err::<DnodeView, Error>(
                        Error::Inconsistent {
                            token: "dnode_decode",
                            where_: Location::Dnode { obj },
                        },
                    ),
                },
            }
        }),
{
    reveal(object_at);
}

/// A map is the first block of its object, and the value of a name is that of its first entry
/// there.
pub proof fn law_maps_are_first_blocks<R: BlockRead>(
    members: Seq<PoolMember<R>>,
    layout: Layout,
    d: DnodeView,
    bytes: Seq<u8>,
    entries: Seq<(Seq<char>, u64)>,
    name: Seq<char>,
    order: EndianOrder,
)
    requires
        d.data_block_size_sectors > 0,
        read_range(
            members,
            layout,
            d,
            0,
            (512 * d.data_block_size_sectors) as nat,
            order,
        ).result == Ok::<Seq<u8>, Error>(bytes),
        is_micro(bytes, order),
        micro_entries(bytes, order) == Ok::<Seq<(Seq<char>, u64)>, Malformed>(entries),
    ensures
        map_entries(members, layout, d, order).result == Ok::<Seq<(Seq<char>, u64)>, Error>(
            entries,
        ),
        match map_value(members, layout, d, name, order).result {
            Ok(Some(value)) => exists|i: int|
                0 <= i < entries.len() && #[trigger] entries[i] == (name, value) && forall|j: int|
                    0 <= j < i ==> (#[trigger] entries[j]).0 != name,
            Ok(None) => forall|i: int| 0 <= i < entries.len() ==> (#[trigger] entries[i]).0 != name,
            Err(_) => false,
        },
{
    reveal(map_entries);
    reveal(map_value);
    law_lookup_finds_the_first(entries, name);
}

/// An object set is read through its pointer.
pub proof fn law_object_sets_are_read_through_their_pointers<R: BlockRead>(
    members: Seq<PoolMember<R>>,
    layout: Layout,
    p: Pointer,
    order: EndianOrder,
)
    ensures
        match read_pointer(members, layout, p).result {
            Err(e) => objset_at(members, layout, p, order).result == Err::<DnodeView, Error>(e),
            Ok(bytes) => match object_set_of(bytes, order) {
                Ok(d) => objset_at(members, layout, p, order).result == Ok::<DnodeView, Error>(d),
                Err(_) => objset_at(members, layout, p, order).result is Err,
            },
        },
{
    reveal(objset_at);
}

} // verus!
