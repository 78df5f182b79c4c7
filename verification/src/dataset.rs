//! Datasets, their directories, and the files in them.

use crate::block_read::{BlockRead, PoolMember, Run};
use crate::error::{Error, Location};
use crate::phys::block_pointer::Pointer;
use crate::phys::dnode::{Dnode, DnodeView};
use crate::phys::dsl::{dataset_of, directory_of, DslDataSet, DslDirectory};
use crate::phys::endian::{read_u16, read_u32, read_u64, u16_at, u32_at, u64_at, EndianOrder};
use crate::phys::zap::{entries_view, law_lookup_finds_the_first, lookup};
use crate::redundancy::all_stable;
use crate::vdev::{Layout, Vdev};
use crate::walk::{
    entries_result, law_walking_changes_nothing, map_entries, map_value, object_at, objset_at,
    read_object_dnode, read_objset, zap_entries, zap_lookup,
};
use vstd::prelude::*;
use vstd::string::StrSliceExecFns;

verus! {

/// Object of the meta object set that maps the names of the pool's own objects.
pub const MOS_OBJECT_DIRECTORY: u64 = 1;

/// Object of a file system that maps the names of its own objects.
pub const ZPL_MASTER_NODE: u64 = 1;

/// One more than the largest object number that a directory entry can hold.
pub const DIRENT_OBJ_LIMIT: u64 = 0x1_0000_0000_0000;

/// The first word of a file's attributes.
pub const SA_MAGIC: u32 = 0x002f_505a;

/// Offset of the size within a file's attributes, after the mode.
pub const SA_SIZE_OFFSET_STD: usize = 8;

/// A dataset.
pub struct Dataset {
    /// The dnode whose data are the dnodes of the dataset's objects.
    pub meta_dnode: Dnode,
}

/// What a directory entry is.
#[derive(Debug, Clone, Copy, PartialEq, Eq, Structural)]
pub enum EntryKind {
    /// A directory.
    Directory,
    /// A regular file.
    Regular,
    /// A symbolic link.
    Symlink,
    /// Anything else.
    Other,
}

/// The object number in the value of a directory entry.
pub open spec fn entry_object(value: u64) -> u64 {
    value % DIRENT_OBJ_LIMIT
}

/// The kind in the value of a directory entry, from its highest four bits.
pub open spec fn entry_kind(value: u64) -> EntryKind {
    match value / 0x1000_0000_0000_0000 {
        4 => EntryKind::Directory,
        8 => EntryKind::Regular,
        10 => EntryKind::Symlink,
        _ => EntryKind::Other,
    }
}

/// The texts of strings.
pub open spec fn texts(names: Seq<&str>) -> Seq<Seq<char>> {
    names.map_values(|s: &str| s@)
}

/// The texts of owned strings.
pub open spec fn strings_view(names: Seq<String>) -> Seq<Seq<char>> {
    names.map_values(|s: String| s@)
}

/// The outcome of opening a dataset, as what its meta dnode says.
pub open spec fn dataset_result(r: Result<Dataset, Error>) -> Result<DnodeView, Error> {
    match r {
        Ok(d) => Ok(d.meta_dnode@),
        Err(e) => Err(e),
    }
}

/// The outcome of a read of names, as texts.
pub open spec fn names_result(r: Result<Vec<String>, Error>) -> Result<Seq<Seq<char>>, Error> {
    match r {
        Ok(names) => Ok(strings_view(names@)),
        Err(e) => Err(e),
    }
}

/// The object that a name of a map stands for. `missing` is what is not found if the
/// name is not there.
#[verifier::opaque]
pub open spec fn named_object<R: BlockRead>(
    members: Seq<PoolMember<R>>,
    layout: Layout,
    array: DnodeView,
    map: u64,
    name: Seq<char>,
    missing: &'static str,
    order: EndianOrder,
) -> Run<R, u64> {
    let d = object_at(members, layout, array, map, order);
    match d.result {
        Err(e) => Run { members: d.members, result: Err(e) },
        Ok(dnode) => {
            let run = map_value(d.members, layout, dnode, name, order);
            Run {
                members: run.members,
                result: match run.result {
                    Err(e) => Err(e),
                    Ok(None) => Err(Error::NotFound { component: missing }),
                    Ok(Some(value)) => Ok(value),
                },
            }
        },
    }
}

/// The dataset directory that is object `obj`.
#[verifier::opaque]
pub open spec fn directory_at<R: BlockRead>(
    members: Seq<PoolMember<R>>,
    layout: Layout,
    mos: DnodeView,
    obj: u64,
    order: EndianOrder,
) -> Run<R, DslDirectory> {
    let run = object_at(members, layout, mos, obj, order);
    Run {
        members: run.members,
        result: match run.result {
            Err(e) => Err(e),
            Ok(d) => match directory_of(d.bonus, order) {
                Ok(dir) => Ok(dir),
                Err(_) => Err(
                    Error::Inconsistent { token: "dsl_dir", where_: Location::Dsl { obj } },
                ),
            },
        },
    }
}

/// The dataset directory reached from `dir` through the children with the names from
/// `i` on.
pub open spec fn descendant<R: BlockRead>(
    members: Seq<PoolMember<R>>,
    layout: Layout,
    mos: DnodeView,
    dir: u64,
    names: Seq<Seq<char>>,
    i: nat,
    order: EndianOrder,
) -> Run<R, u64>
    decreases names.len() - i,
{
    if i >= names.len() {
        Run { members, result: Ok(dir) }
    } else {
        let d = directory_at(members, layout, mos, dir, order);
        match d.result {
            Err(e) => Run { members: d.members, result: Err(e) },
            Ok(directory) => {
                let child = named_object(
                    d.members,
                    layout,
                    mos,
                    directory.child_directory_zap_obj,
                    names[i as int],
                    "dataset",
                    order,
                );
                match child.result {
                    Err(e) => Run { members: child.members, result: Err(e) },
                    Ok(obj) => descendant(
                        child.members,
                        layout,
                        mos,
                        obj,
                        names,
                        i + 1,
                        order,
                    ),
                }
            },
        }
    }
}

/// The dataset directory with the given names below the root dataset.
#[verifier::opaque]
pub open spec fn dataset_directory<R: BlockRead>(
    members: Seq<PoolMember<R>>,
    layout: Layout,
    mos: DnodeView,
    names: Seq<Seq<char>>,
    order: EndianOrder,
) -> Run<R, DslDirectory> {
    let root = named_object(
        members,
        layout,
        mos,
        MOS_OBJECT_DIRECTORY,
        "root_dataset"@,
        "root_dataset",
        order,
    );
    match root.result {
        Err(e) => Run { members: root.members, result: Err(e) },
        Ok(obj) => {
            let run = descendant(root.members, layout, mos, obj, names, 0, order);
            match run.result {
                Err(e) => Run { members: run.members, result: Err(e) },
                Ok(dir) => directory_at(run.members, layout, mos, dir, order),
            }
        },
    }
}

/// The meta dnode of the dataset that is object `obj`.
#[verifier::opaque]
pub open spec fn dataset_at<R: BlockRead>(
    members: Seq<PoolMember<R>>,
    layout: Layout,
    mos: DnodeView,
    obj: u64,
    order: EndianOrder,
) -> Run<R, DnodeView> {
    let here = Location::Dsl { obj };
    let run = object_at(members, layout, mos, obj, order);
    match run.result {
        Err(e) => Run { members: run.members, result: Err(e) },
        Ok(d) => match dataset_of(d.bonus, order) {
            Err(_) => Run {
                members: run.members,
                result: Err(Error::Inconsistent { token: "dsl_dataset", where_: here }),
            },
            Ok(None) => Run {
                members: run.members,
                result: Err(Error::Inconsistent { token: "dataset_no_bp", where_: here }),
            },
            Ok(Some(p)) => objset_at(run.members, layout, p, order),
        },
    }
}

/// The meta dnode of the dataset with the given names below the root dataset.
#[verifier::opaque]
pub open spec fn named_dataset<R: BlockRead>(
    members: Seq<PoolMember<R>>,
    layout: Layout,
    mos: DnodeView,
    names: Seq<Seq<char>>,
    order: EndianOrder,
) -> Run<R, DnodeView> {
    let run = dataset_directory(members, layout, mos, names, order);
    match run.result {
        Err(e) => Run { members: run.members, result: Err(e) },
        Ok(dir) => match dir.head_dataset_obj {
            None => Run {
                members: run.members,
                result: Err(Error::NotFound { component: "head_dataset" }),
            },
            Some(obj) => dataset_at(run.members, layout, mos, obj, order),
        },
    }
}

/// Whether a name is that of an internal dataset.
pub open spec fn is_internal(name: Seq<char>) -> bool {
    name.len() > 0 && name[0] == '$'
}

/// The names of entries, without those of internal datasets.
pub open spec fn visible_names(entries: Seq<(Seq<char>, u64)>) -> Seq<Seq<char>> {
    entries.map_values(|e: (Seq<char>, u64)| e.0).filter(|n: Seq<char>| !is_internal(n))
}

/// The names of the datasets directly below the one with the given names.
#[verifier::opaque]
pub open spec fn child_names<R: BlockRead>(
    members: Seq<PoolMember<R>>,
    layout: Layout,
    mos: DnodeView,
    parent: Seq<Seq<char>>,
    order: EndianOrder,
) -> Run<R, Seq<Seq<char>>> {
    let run = dataset_directory(members, layout, mos, parent, order);
    match run.result {
        Err(e) => Run { members: run.members, result: Err(e) },
        Ok(dir) => {
            let d = object_at(run.members, layout, mos, dir.child_directory_zap_obj, order);
            match d.result {
                Err(e) => Run { members: d.members, result: Err(e) },
                Ok(dnode) => {
                    let entries = map_entries(d.members, layout, dnode, order);
                    Run {
                        members: entries.members,
                        result: match entries.result {
                            Err(e) => Err(e),
                            Ok(entries) => Ok(visible_names(entries)),
                        },
                    }
                },
            }
        },
    }
}

/// The entries of the directory that is object `dir`.
#[verifier::opaque]
pub open spec fn directory_entries<R: BlockRead>(
    members: Seq<PoolMember<R>>,
    layout: Layout,
    meta: DnodeView,
    dir: u64,
    order: EndianOrder,
) -> Run<R, Seq<(Seq<char>, u64)>> {
    let run = object_at(members, layout, meta, dir, order);
    match run.result {
        Err(e) => Run { members: run.members, result: Err(e) },
        Ok(d) => map_entries(run.members, layout, d, order),
    }
}

/// The root directory of a dataset.
pub open spec fn root_directory<R: BlockRead>(
    members: Seq<PoolMember<R>>,
    layout: Layout,
    meta: DnodeView,
    order: EndianOrder,
) -> Run<R, u64> {
    named_object(members, layout, meta, ZPL_MASTER_NODE, "ROOT"@, "ROOT", order)
}

/// The object and the value of the entry reached from the directory `dir` through the
/// components from `i` on. All but the last have to be directories.
pub open spec fn entry_below<R: BlockRead>(
    members: Seq<PoolMember<R>>,
    layout: Layout,
    meta: DnodeView,
    dir: u64,
    components: Seq<Seq<char>>,
    i: nat,
    order: EndianOrder,
) -> Run<R, (u64, u64)>
    decreases components.len() - i,
{
    if i >= components.len() {
        Run { members, result: Err(Error::NotFound { component: "empty_path" }) }
    } else {
        let run = named_object(members, layout, meta, dir, components[i as int], "path", order);
        match run.result {
            Err(e) => Run { members: run.members, result: Err(e) },
            Ok(value) => if i + 1 == components.len() {
                Run { members: run.members, result: Ok((entry_object(value), value)) }
            } else if entry_kind(value) != EntryKind::Directory {
                Run { members: run.members, result: Err(Error::NotADirectory) }
            } else {
                entry_below(
                    run.members,
                    layout,
                    meta,
                    entry_object(value),
                    components,
                    i + 1,
                    order,
                )
            },
        }
    }
}

/// The object and the value of the entry that a path names.
#[verifier::opaque]
pub open spec fn entry_at<R: BlockRead>(
    members: Seq<PoolMember<R>>,
    layout: Layout,
    meta: DnodeView,
    components: Seq<Seq<char>>,
    order: EndianOrder,
) -> Run<R, (u64, u64)> {
    let root = root_directory(members, layout, meta, order);
    match root.result {
        Err(e) => Run { members: root.members, result: Err(e) },
        Ok(dir) => entry_below(root.members, layout, meta, dir, components, 0, order),
    }
}

/// The size of a file, from its attributes. They start with a header, whose size in
/// units of eight bytes stands in the highest six bits of its third half-word; the mode
/// comes first, and then the size.
pub open spec fn file_size_of(bonus: Seq<u8>, order: EndianOrder) -> Result<u64, Error> {
    if bonus.len() < 6 || u32_at(bonus, 0, order) != SA_MAGIC {
        Err(Error::UnsupportedFeature("sa_layout"))
    } else {
        let at = u16_at(bonus, 4, order) / 0x400 * 8 + SA_SIZE_OFFSET_STD;
        if at + 8 > bonus.len() {
            Err(Error::UnsupportedFeature("sa_layout"))
        } else {
            Ok(u64_at(bonus, at, order))
        }
    }
}

impl EntryKind {
    /// The kind in the value of a directory entry.
    pub fn of(value: u64) -> (r: EntryKind)
        ensures
            r == entry_kind(value),
    {
        match value / 0x1000_0000_0000_0000 {
            4 => EntryKind::Directory,
            8 => EntryKind::Regular,
            10 => EntryKind::Symlink,
            _ => EntryKind::Other,
        }
    }
}

/// Reads the object that a name of a map stands for.
fn find_object<R: BlockRead>(
    members: &mut [PoolMember<R>],
    vdev: &Vdev,
    array: &Dnode,
    map: u64,
    name: &str,
    missing: &'static str,
    order: EndianOrder,
) -> (v: Result<u64, Error>)
    ensures
        final(members)@ == named_object(
            old(members)@,
            vdev@,
            array@,
            map,
            name@,
            missing,
            order,
        ).members,
        v == named_object(old(members)@, vdev@, array@, map, name@, missing, order).result,
{
    reveal(named_object);
    match read_object_dnode(members, vdev, array, map, order) {
        Err(e) => Err(e),
        Ok(d) => match zap_lookup(members, vdev, &d, name, order) {
            Err(e) => Err(e),
            Ok(None) => Err(Error::NotFound { component: missing }),
            Ok(Some(value)) => Ok(value),
        },
    }
}

/// Reads a dataset directory.
pub fn dsl_dir<R: BlockRead>(
    members: &mut [PoolMember<R>],
    vdev: &Vdev,
    mos: &Dnode,
    obj: u64,
    order: EndianOrder,
) -> (v: Result<DslDirectory, Error>)
    ensures
        final(members)@ == directory_at(old(members)@, vdev@, mos@, obj, order).members,
        v == directory_at(old(members)@, vdev@, mos@, obj, order).result,
{
    reveal(directory_at);
    match read_object_dnode(members, vdev, mos, obj, order) {
        Err(e) => Err(e),
        Ok(d) => match DslDirectory::from_bytes(d.bonus_used(), order) {
            Ok(dir) => Ok(dir),
            Err(_) => Err(
                Error::Inconsistent { token: "dsl_dir", where_: Location::Dsl { obj } },
            ),
        },
    }
}

/// Walks from a dataset directory down to one of its descendants.
fn walk_directories<R: BlockRead>(
    members: &mut [PoolMember<R>],
    vdev: &Vdev,
    mos: &Dnode,
    from: u64,
    names: &[&str],
    order: EndianOrder,
) -> (v: Result<u64, Error>)
    ensures
        final(members)@ == descendant(
            old(members)@,
            vdev@,
            mos@,
            from,
            texts(names@),
            0,
            order,
        ).members,
        v == descendant(old(members)@, vdev@, mos@, from, texts(names@), 0, order).result,
{
    let ghost whole = descendant(members@, vdev@, mos@, from, texts(names@), 0, order);
    let mut dir: u64 = from;
    let mut i: usize = 0;
    while i < names.len()
        invariant
            i <= names@.len(),
            whole == descendant(old(members)@, vdev@, mos@, from, texts(names@), 0, order),
            whole == descendant(members@, vdev@, mos@, dir, texts(names@), i as nat, order),
        decreases names@.len() - i,
    {
        let directory = match dsl_dir(members, vdev, mos, dir, order) {
            Ok(directory) => directory,
            Err(e) => {
                return Err(e);
            },
        };
        assert(texts(names@)[i as int] == names@[i as int]@);
        match find_object(
            members,
            vdev,
            mos,
            directory.child_directory_zap_obj,
            names[i],
            "dataset",
            order,
        ) {
            Ok(obj) => {
                dir = obj;
            },
            Err(e) => {
                return Err(e);
            },
        }
        i += 1;
    }
    Ok(dir)
}

/// Finds the dataset directory with the given names below the root dataset.
fn find_directory<R: BlockRead>(
    members: &mut [PoolMember<R>],
    vdev: &Vdev,
    mos: &Dnode,
    names: &[&str],
    order: EndianOrder,
) -> (v: Result<DslDirectory, Error>)
    ensures
        final(members)@ == dataset_directory(
            old(members)@,
            vdev@,
            mos@,
            texts(names@),
            order,
        ).members,
        v == dataset_directory(old(members)@, vdev@, mos@, texts(names@), order).result,
{
    reveal(dataset_directory);
    match find_object(
        members,
        vdev,
        mos,
        MOS_OBJECT_DIRECTORY,
        "root_dataset",
        "root_dataset",
        order,
    ) {
        Err(e) => Err(e),
        Ok(root) => match walk_directories(members, vdev, mos, root, names, order) {
            Err(e) => Err(e),
            Ok(dir) => dsl_dir(members, vdev, mos, dir, order),
        },
    }
}

/// Opens the dataset with the given names below the root dataset.
pub fn open_dataset<R: BlockRead>(
    members: &mut [PoolMember<R>],
    vdev: &Vdev,
    mos: &Dnode,
    order: EndianOrder,
    names: &[&str],
) -> (v: Result<Dataset, Error>)
    ensures
        final(members)@ == named_dataset(
            old(members)@,
            vdev@,
            mos@,
            texts(names@),
            order,
        ).members,
        dataset_result(v) == named_dataset(
            old(members)@,
            vdev@,
            mos@,
            texts(names@),
            order,
        ).result,
{
    reveal(named_dataset);
    reveal(dataset_at);
    let dir = match find_directory(members, vdev, mos, names, order) {
        Ok(dir) => dir,
        Err(e) => {
            return Err(e);
        },
    };
    let obj: u64 = match dir.head_dataset_obj {
        Some(obj) => obj,
        None => {
            return Err(Error::NotFound { component: "head_dataset" });
        },
    };
    let here = Location::Dsl { obj };
    let d = match read_object_dnode(members, vdev, mos, obj, order) {
        Ok(d) => d,
        Err(e) => {
            return Err(e);
        },
    };
    let ds = match DslDataSet::from_bytes(d.bonus_used(), order) {
        Ok(ds) => ds,
        Err(_) => {
            return Err(Error::Inconsistent { token: "dsl_dataset", where_: here });
        },
    };
    match &ds.block_pointer {
        None => Err(Error::Inconsistent { token: "dataset_no_bp", where_: here }),
        Some(bp) => match read_objset(members, vdev, bp, order) {
            Ok(set) => Ok(Dataset { meta_dnode: set.dnode }),
            Err(e) => Err(e),
        },
    }
}

/// Reads the names of the datasets directly below the one with the given names.
pub fn child_dataset_names<R: BlockRead>(
    members: &mut [PoolMember<R>],
    vdev: &Vdev,
    mos: &Dnode,
    order: EndianOrder,
    parent: &[&str],
) -> (v: Result<Vec<String>, Error>)
    ensures
        final(members)@ == child_names(
            old(members)@,
            vdev@,
            mos@,
            texts(parent@),
            order,
        ).members,
        names_result(v) == child_names(
            old(members)@,
            vdev@,
            mos@,
            texts(parent@),
            order,
        ).result,
{
    reveal(child_names);
    let dir = match find_directory(members, vdev, mos, parent, order) {
        Ok(dir) => dir,
        Err(e) => {
            return Err(e);
        },
    };
    let d = match read_object_dnode(members, vdev, mos, dir.child_directory_zap_obj, order) {
        Ok(d) => d,
        Err(e) => {
            return Err(e);
        },
    };
    match zap_entries(members, vdev, &d, order) {
        Ok(entries) => Ok(keep_visible(entries)),
        Err(e) => Err(e),
    }
}

/// Keeps the names that are not those of internal datasets.
fn keep_visible(entries: Vec<(String, u64)>) -> (r: Vec<String>)
    ensures
        strings_view(r@) == visible_names(entries_view(entries@)),
{
    let ghost names = entries_view(entries@).map_values(|e: (Seq<char>, u64)| e.0);
    let ghost keep = |n: Seq<char>| !is_internal(n);
    let mut out: Vec<String> = Vec::new();
    let mut i: usize = 0;
    proof {
        reveal(Seq::filter);
        assert(strings_view(out@) =~= names.take(0).filter(keep));
    }
    while i < entries.len()
        invariant
            i <= entries@.len(),
            names == entries_view(entries@).map_values(|e: (Seq<char>, u64)| e.0),
            keep == (|n: Seq<char>| !is_internal(n)),
            strings_view(out@) == names.take(i as int).filter(keep),
        decreases entries@.len() - i,
    {
        let ghost before = out@;
        let name = &entries[i].0;
        let text = name.as_str();
        proof {
            reveal(Seq::filter);
            assert(names.take(i + 1).drop_last() =~= names.take(i as int));
            assert(names[i as int] == name@);
        }
        if text.is_empty() || text.get_char(0) != '$' {
            out.push(name.clone());
            assert(strings_view(out@) =~= strings_view(before).push(name@));
        }
        i += 1;
    }
    assert(names.take(i as int) =~= names);
    out
}

/// Reads the number of a dataset's root directory.
pub fn root_dir_obj<R: BlockRead>(
    members: &mut [PoolMember<R>],
    vdev: &Vdev,
    dataset: &Dataset,
    order: EndianOrder,
) -> (v: Result<u64, Error>)
    ensures
        final(members)@ == root_directory(
            old(members)@,
            vdev@,
            dataset.meta_dnode@,
            order,
        ).members,
        v == root_directory(old(members)@, vdev@, dataset.meta_dnode@, order).result,
{
    find_object(members, vdev, &dataset.meta_dnode, ZPL_MASTER_NODE, "ROOT", "ROOT", order)
}

/// Reads the entries of a directory.
pub fn list_dir<R: BlockRead>(
    members: &mut [PoolMember<R>],
    vdev: &Vdev,
    dataset: &Dataset,
    dir_obj: u64,
    order: EndianOrder,
) -> (v: Result<Vec<(String, u64)>, Error>)
    ensures
        final(members)@ == directory_entries(
            old(members)@,
            vdev@,
            dataset.meta_dnode@,
            dir_obj,
            order,
        ).members,
        entries_result(v) == directory_entries(
            old(members)@,
            vdev@,
            dataset.meta_dnode@,
            dir_obj,
            order,
        ).result,
{
    reveal(directory_entries);
    match read_object_dnode(members, vdev, &dataset.meta_dnode, dir_obj, order) {
        Err(e) => Err(e),
        Ok(d) => zap_entries(members, vdev, &d, order),
    }
}

/// Finds the entry that a path names: its object number, and its value.
pub fn resolve_path<R: BlockRead>(
    members: &mut [PoolMember<R>],
    vdev: &Vdev,
    dataset: &Dataset,
    order: EndianOrder,
    components: &[&str],
) -> (v: Result<(u64, u64), Error>)
    ensures
        final(members)@ == entry_at(
            old(members)@,
            vdev@,
            dataset.meta_dnode@,
            texts(components@),
            order,
        ).members,
        v == entry_at(
            old(members)@,
            vdev@,
            dataset.meta_dnode@,
            texts(components@),
            order,
        ).result,
{
    reveal(entry_at);
    let ghost whole = entry_at(
        members@,
        vdev@,
        dataset.meta_dnode@,
        texts(components@),
        order,
    );
    let mut dir: u64 = match root_dir_obj(members, vdev, dataset, order) {
        Ok(dir) => dir,
        Err(e) => {
            return Err(e);
        },
    };
    let mut i: usize = 0;
    while i < components.len()
        invariant
            i <= components@.len(),
            whole == entry_at(
                old(members)@,
                vdev@,
                dataset.meta_dnode@,
                texts(components@),
                order,
            ),
            whole == entry_below(
                members@,
                vdev@,
                dataset.meta_dnode@,
                dir,
                texts(components@),
                i as nat,
                order,
            ),
        decreases components@.len() - i,
    {
        assert(texts(components@)[i as int] == components@[i as int]@);
        let value: u64 = match find_object(
            members,
            vdev,
            &dataset.meta_dnode,
            dir,
            components[i],
            "path",
            order,
        ) {
            Ok(value) => value,
            Err(e) => {
                return Err(e);
            },
        };
        let obj: u64 = value % DIRENT_OBJ_LIMIT;
        i += 1;
        if i == components.len() {
            return Ok((obj, value));
        }
        if EntryKind::of(value) != EntryKind::Directory {
            return Err(Error::NotADirectory);
        }
        dir = obj;
    }
    Err(Error::NotFound { component: "empty_path" })
}

/// Reads the size of a file out of its attributes.
pub fn sa_file_size(bonus: &[u8], order: EndianOrder) -> (r: Result<u64, Error>)
    ensures
        r == file_size_of(bonus@, order),
{
    if bonus.len() < 6 || read_u32(bonus, 0, order) != SA_MAGIC {
        return Err(Error::UnsupportedFeature("sa_layout"));
    }
    let header: usize = (read_u16(bonus, 4, order) / 0x400) as usize * 8;
    let at: usize = header + SA_SIZE_OFFSET_STD;
    if at + 8 > bonus.len() {
        return Err(Error::UnsupportedFeature("sa_layout"));
    }
    Ok(read_u64(bonus, at, order))
}

/// Internal datasets are hidden, and no others: a name is visible exactly if it is there
/// and does not start with `$`.
pub proof fn law_only_internal_datasets_are_hidden(
    entries: Seq<(Seq<char>, u64)>,
    name: Seq<char>,
)
    ensures
        visible_names(entries).contains(name) <==> !is_internal(name) && exists|i: int|
            0 <= i < entries.len() && (#[trigger] entries[i]).0 == name,
{
    let names = entries.map_values(|e: (Seq<char>, u64)| e.0);
    let keep = |n: Seq<char>| !is_internal(n);
    broadcast use vstd::seq_lib::group_filter_ensures;

    assert(visible_names(entries) =~= names.filter(keep));
    if visible_names(entries).contains(name) {
        let k = choose|k: int|
            0 <= k < names.filter(keep).len() && names.filter(keep)[k] == name;
        assert(keep(names.filter(keep)[k]));
        lemma_filtered_is_there(names, keep, k);
        let i = choose|i: int| 0 <= i < names.len() && names[i] == name;
        assert(entries[i].0 == name);
    }
    if !is_internal(name) && exists|i: int|
        0 <= i < entries.len() && (#[trigger] entries[i]).0 == name {
        let i = choose|i: int| 0 <= i < entries.len() && (#[trigger] entries[i]).0 == name;
        assert(names[i] == name);
        assert(keep(names[i]));
        assert(names.filter(keep).contains(names[i]));
    }
}

/// What a filter keeps was there before.
proof fn lemma_filtered_is_there(s: Seq<Seq<char>>, keep: spec_fn(Seq<char>) -> bool, k: int)
    requires
        0 <= k < s.filter(keep).len(),
    ensures
        s.contains(s.filter(keep)[k]),
    decreases s.len(),
{
    reveal(Seq::filter);
    if s.len() > 0 {
        let before = s.drop_last();
        if k < before.filter(keep).len() {
            lemma_filtered_is_there(before, keep, k);
            let i = choose|i: int| 0 <= i < before.len() && before[i] == before.filter(keep)[k];
            assert(s[i] == before[i]);
        } else {
            assert(s[s.len() - 1] == s.last());
        }
    }
}

proof fn lemma_named_stable<R: BlockRead>(
    members: Seq<PoolMember<R>>,
    layout: Layout,
    array: DnodeView,
    map: u64,
    name: Seq<char>,
    missing: &'static str,
    order: EndianOrder,
)
    requires
        all_stable(members),
    ensures
        named_object(members, layout, array, map, name, missing, order).members == members,
{
    reveal(named_object);
    let d = object_at(members, layout, array, map, order);
    lemma_object_stable(members, layout, array, map, order);
    match d.result {
        Ok(dnode) => {
            lemma_map_stable(members, layout, dnode, name, order);
        },
        Err(_) => {},
    }
}

proof fn lemma_object_stable<R: BlockRead>(
    members: Seq<PoolMember<R>>,
    layout: Layout,
    array: DnodeView,
    obj: u64,
    order: EndianOrder,
)
    requires
        all_stable(members),
    ensures
        object_at(members, layout, array, obj, order).members == members,
{
    law_walking_changes_nothing(
        members,
        layout,
        Pointer::Encrypted { order },
        array,
        obj,
        Seq::empty(),
        order,
    );
}

proof fn lemma_map_stable<R: BlockRead>(
    members: Seq<PoolMember<R>>,
    layout: Layout,
    d: DnodeView,
    name: Seq<char>,
    order: EndianOrder,
)
    requires
        all_stable(members),
    ensures
        map_entries(members, layout, d, order).members == members,
        map_value(members, layout, d, name, order).members == members,
{
    law_walking_changes_nothing(
        members,
        layout,
        Pointer::Encrypted { order },
        d,
        0,
        name,
        order,
    );
}

proof fn lemma_directory_stable<R: BlockRead>(
    members: Seq<PoolMember<R>>,
    layout: Layout,
    mos: DnodeView,
    obj: u64,
    order: EndianOrder,
)
    requires
        all_stable(members),
    ensures
        directory_at(members, layout, mos, obj, order).members == members,
{
    reveal(directory_at);
    lemma_object_stable(members, layout, mos, obj, order);
}

proof fn lemma_descendant_stable<R: BlockRead>(
    members: Seq<PoolMember<R>>,
    layout: Layout,
    mos: DnodeView,
    dir: u64,
    names: Seq<Seq<char>>,
    i: nat,
    order: EndianOrder,
)
    requires
        all_stable(members),
    ensures
        descendant(members, layout, mos, dir, names, i, order).members == members,
    decreases names.len() - i,
{
    if i < names.len() {
        lemma_directory_stable(members, layout, mos, dir, order);
        match directory_at(members, layout, mos, dir, order).result {
            Ok(directory) => {
                let map = directory.child_directory_zap_obj;
                lemma_named_stable(
                    members,
                    layout,
                    mos,
                    map,
                    names[i as int],
                    "dataset",
                    order,
                );
                match named_object(
                    members,
                    layout,
                    mos,
                    map,
                    names[i as int],
                    "dataset",
                    order,
                ).result {
                    Ok(obj) => {
                        lemma_descendant_stable(members, layout, mos, obj, names, i + 1, order);
                    },
                    Err(_) => {},
                }
            },
            Err(_) => {},
        }
    }
}

proof fn lemma_dataset_directory_stable<R: BlockRead>(
    members: Seq<PoolMember<R>>,
    layout: Layout,
    mos: DnodeView,
    names: Seq<Seq<char>>,
    order: EndianOrder,
)
    requires
        all_stable(members),
    ensures
        dataset_directory(members, layout, mos, names, order).members == members,
{
    reveal(dataset_directory);
    lemma_named_stable(
        members,
        layout,
        mos,
        MOS_OBJECT_DIRECTORY,
        "root_dataset"@,
        "root_dataset",
        order,
    );
    match named_object(
        members,
        layout,
        mos,
        MOS_OBJECT_DIRECTORY,
        "root_dataset"@,
        "root_dataset",
        order,
    ).result {
        Ok(obj) => {
            lemma_descendant_stable(members, layout, mos, obj, names, 0, order);
            match descendant(members, layout, mos, obj, names, 0, order).result {
                Ok(dir) => {
                    lemma_directory_stable(members, layout, mos, dir, order);
                },
                Err(_) => {},
            }
        },
        Err(_) => {},
    }
}

/// Opening a dataset on stable members, and listing those below it, changes nothing.
pub proof fn law_opening_changes_nothing<R: BlockRead>(
    members: Seq<PoolMember<R>>,
    layout: Layout,
    mos: DnodeView,
    names: Seq<Seq<char>>,
    order: EndianOrder,
)
    requires
        all_stable(members),
    ensures
        named_dataset(members, layout, mos, names, order).members == members,
        child_names(members, layout, mos, names, order).members == members,
{
    reveal(named_dataset);
    reveal(dataset_at);
    reveal(child_names);
    lemma_dataset_directory_stable(members, layout, mos, names, order);
    match dataset_directory(members, layout, mos, names, order).result {
        Ok(dir) => {
            let map = dir.child_directory_zap_obj;
            lemma_object_stable(members, layout, mos, map, order);
            match object_at(members, layout, mos, map, order).result {
                Ok(d) => {
                    lemma_map_stable(members, layout, d, Seq::empty(), order);
                },
                Err(_) => {},
            }
            match dir.head_dataset_obj {
                Some(obj) => {
                    lemma_object_stable(members, layout, mos, obj, order);
                    match object_at(members, layout, mos, obj, order).result {
                        Ok(d) => match dataset_of(d.bonus, order) {
                            Ok(Some(p)) => {
                                law_walking_changes_nothing(
                                    members,
                                    layout,
                                    p,
                                    d,
                                    obj,
                                    Seq::empty(),
                                    order,
                                );
                            },
                            _ => {},
                        },
                        Err(_) => {},
                    }
                },
                None => {},
            }
        },
        Err(_) => {},
    }
}

proof fn lemma_below_stable<R: BlockRead>(
    members: Seq<PoolMember<R>>,
    layout: Layout,
    meta: DnodeView,
    dir: u64,
    components: Seq<Seq<char>>,
    i: nat,
    order: EndianOrder,
)
    requires
        all_stable(members),
    ensures
        entry_below(members, layout, meta, dir, components, i, order).members == members,
    decreases components.len() - i,
{
    if i < components.len() {
        lemma_named_stable(members, layout, meta, dir, components[i as int], "path", order);
        match named_object(
            members,
            layout,
            meta,
            dir,
            components[i as int],
            "path",
            order,
        ).result {
            Ok(value) => {
                lemma_below_stable(
                    members,
                    layout,
                    meta,
                    entry_object(value),
                    components,
                    i + 1,
                    order,
                );
            },
            Err(_) => {},
        }
    }
}

/// Resolving a path on stable members, and listing a directory, changes nothing.
pub proof fn law_resolving_changes_nothing<R: BlockRead>(
    members: Seq<PoolMember<R>>,
    layout: Layout,
    meta: DnodeView,
    dir: u64,
    components: Seq<Seq<char>>,
    order: EndianOrder,
)
    requires
        all_stable(members),
    ensures
        root_directory(members, layout, meta, order).members == members,
        directory_entries(members, layout, meta, dir, order).members == members,
        entry_at(members, layout, meta, components, order).members == members,
{
    reveal(directory_entries);
    reveal(entry_at);
    lemma_named_stable(members, layout, meta, ZPL_MASTER_NODE, "ROOT"@, "ROOT", order);
    match root_directory(members, layout, meta, order).result {
        Ok(root) => {
            lemma_below_stable(members, layout, meta, root, components, 0, order);
        },
        Err(_) => {},
    }
    lemma_object_stable(members, layout, meta, dir, order);
    match object_at(members, layout, meta, dir, order).result {
        Ok(d) => {
            lemma_map_stable(members, layout, d, Seq::empty(), order);
        },
        Err(_) => {},
    }
}

/// What the name `name` is in what an entry with `value` names.
pub open spec fn step_into<R: BlockRead>(
    members: Seq<PoolMember<R>>,
    layout: Layout,
    meta: DnodeView,
    value: u64,
    name: Seq<char>,
    order: EndianOrder,
) -> Result<(u64, u64), Error> {
    if entry_kind(value) != EntryKind::Directory {
        Err(Error::NotADirectory)
    } else {
        match named_object(
            members,
            layout,
            meta,
            entry_object(value),
            name,
            "path",
            order,
        ).result {
            Err(e) => Err(e),
            Ok(v) => Ok((entry_object(v), v)),
        }
    }
}

proof fn lemma_below_step<R: BlockRead>(
    members: Seq<PoolMember<R>>,
    layout: Layout,
    meta: DnodeView,
    dir: u64,
    components: Seq<Seq<char>>,
    name: Seq<char>,
    i: nat,
    order: EndianOrder,
)
    requires
        all_stable(members),
        i < components.len(),
        entry_below(members, layout, meta, dir, components, i, order).result is Ok,
    ensures
        entry_below(members, layout, meta, dir, components.push(name), i, order).result
            == step_into(
            members,
            layout,
            meta,
            entry_below(members, layout, meta, dir, components, i, order).result->Ok_0.1,
            name,
            order,
        ),
    decreases components.len() - i,
{
    let longer = components.push(name);
    assert(longer[i as int] == components[i as int]);
    lemma_named_stable(members, layout, meta, dir, components[i as int], "path", order);
    let value = named_object(
        members,
        layout,
        meta,
        dir,
        components[i as int],
        "path",
        order,
    ).result->Ok_0;
    let next = entry_object(value);
    if i + 1 == components.len() {
        lemma_named_stable(members, layout, meta, next, name, "path", order);
        reveal_with_fuel(entry_below, 2);
        assert(longer[(i + 1) as int] == name);
    } else {
        lemma_below_step(members, layout, meta, next, components, name, i + 1, order);
    }
}

/// A path is resolved step by step: one component more is looked up in the directory
/// that the path before it names, and there is nothing to be found in what is not a
/// directory.
pub proof fn law_paths_resolve_step_by_step<R: BlockRead>(
    members: Seq<PoolMember<R>>,
    layout: Layout,
    meta: DnodeView,
    components: Seq<Seq<char>>,
    name: Seq<char>,
    order: EndianOrder,
)
    requires
        all_stable(members),
        components.len() > 0,
        entry_at(members, layout, meta, components, order).result is Ok,
    ensures
        entry_at(members, layout, meta, components.push(name), order).result == step_into(
            members,
            layout,
            meta,
            entry_at(members, layout, meta, components, order).result->Ok_0.1,
            name,
            order,
        ),
{
    reveal(entry_at);
    lemma_named_stable(members, layout, meta, ZPL_MASTER_NODE, "ROOT"@, "ROOT", order);
    let dir = root_directory(members, layout, meta, order).result->Ok_0;
    lemma_below_step(members, layout, meta, dir, components, name, 0, order);
}

/// What is listed is what can be resolved: a name of the root directory resolves to its
/// first entry in the listing, and a name that is not listed does not resolve.
pub proof fn law_listed_is_resolved<R: BlockRead>(
    members: Seq<PoolMember<R>>,
    layout: Layout,
    meta: DnodeView,
    dir: u64,
    entries: Seq<(Seq<char>, u64)>,
    name: Seq<char>,
    order: EndianOrder,
)
    requires
        all_stable(members),
        root_directory(members, layout, meta, order).result == Ok::<u64, Error>(dir),
        directory_entries(members, layout, meta, dir, order).result == Ok::<
            Seq<(Seq<char>, u64)>,
            Error,
        >(entries),
    ensures
        entry_at(members, layout, meta, seq![name], order).result == match lookup(entries, name) {
            Some(value) => Ok::<(u64, u64), Error>((entry_object(value), value)),
            None => Err(Error::NotFound { component: "path" }),
        },
{
    reveal(entry_at);
    reveal(directory_entries);
    reveal(named_object);
    reveal(map_value);
    lemma_named_stable(members, layout, meta, ZPL_MASTER_NODE, "ROOT"@, "ROOT", order);
    lemma_object_stable(members, layout, meta, dir, order);
    reveal_with_fuel(entry_below, 2);
}

/// The value of a directory entry is made up of a type in its highest four bits and an object
/// number in its lowest 48; what is between them does not matter. Of the types, 4 is a
/// directory, 8 a regular file, and 10 a symbolic link.
pub proof fn law_layout_of_directory_entries(kind: int, between: int, obj: int)
    requires
        0 <= kind < 16,
        0 <= between < 0x1000,
        0 <= obj < 0x1_0000_0000_0000,
    ensures
        ({
            let value = (kind * 0x1000_0000_0000_0000 + between * 0x1_0000_0000_0000 + obj) as u64;
            &&& entry_object(value) == obj
            &&& entry_kind(value) == EntryKind::Directory <==> kind == 4
            &&& entry_kind(value) == EntryKind::Regular <==> kind == 8
            &&& entry_kind(value) == EntryKind::Symlink <==> kind == 10
        }),
{
}

/// The attributes of a file: a magic number, and a half-word whose highest six bits are the
/// size of the header in units of eight bytes. The second word behind the header is the size
/// of the file.
pub proof fn law_layout_of_file_sizes(
    bonus: Seq<u8>,
    order: EndianOrder,
    header: int,
    layout: int,
)
    requires
        0 <= header < 64,
        0 <= layout < 1024,
        bonus.len() >= 6,
        u32_at(bonus, 0, order) == 0x2f_505a,
        u16_at(bonus, 4, order) == header * 1024 + layout,
    ensures
        file_size_of(bonus, order) == (if bonus.len() >= 8 * header + 16 {
            Ok::<u64, Error>(u64_at(bonus, 8 * header + 8, order))
        } else {
            Err(Error::UnsupportedFeature("sa_layout"))
        }),
{
}

/// Attributes that start with another magic number are not known.
pub proof fn law_other_attributes_are_refused(bonus: Seq<u8>, order: EndianOrder)
    requires
        bonus.len() < 6 || u32_at(bonus, 0, order) != 0x2f_505a,
    ensures
        file_size_of(bonus, order) == Err::<u64, Error>(Error::UnsupportedFeature("sa_layout")),
{
}

/// What a name stands for is the value of its first entry in the map that is object `map`.
pub proof fn law_names_are_looked_up<R: BlockRead>(
    members: Seq<PoolMember<R>>,
    layout: Layout,
    array: DnodeView,
    map: u64,
    d: DnodeView,
    entries: Seq<(Seq<char>, u64)>,
    name: Seq<char>,
    missing: &'static str,
    order: EndianOrder,
)
    requires
        all_stable(members),
        object_at(members, layout, array, map, order).result == Ok::<DnodeView, Error>(d),
        map_entries(members, layout, d, order).result == Ok::<Seq<(Seq<char>, u64)>, Error>(
            entries,
        ),
    ensures
        match named_object(members, layout, array, map, name, missing, order).result {
            Ok(value) => exists|i: int|
                0 <= i < entries.len() && #[trigger] entries[i] == (name, value) && forall|j: int|
                    0 <= j < i ==> (#[trigger] entries[j]).0 != name,
            Err(e) => e == (Error::NotFound { component: missing }) && forall|i: int|
                0 <= i < entries.len() ==> (#[trigger] entries[i]).0 != name,
        },
{
    reveal(named_object);
    reveal(map_value);
    lemma_object_stable(members, layout, array, map, order);
    law_lookup_finds_the_first(entries, name);
}

/// The root directory of a dataset is what its object 1 says under `ROOT`, and a name of it
/// resolves to the object number of its entry.
pub proof fn law_paths_start_at_the_root<R: BlockRead>(
    members: Seq<PoolMember<R>>,
    layout: Layout,
    meta: DnodeView,
    root: u64,
    name: Seq<char>,
    kind: int,
    between: int,
    obj: int,
    order: EndianOrder,
)
    requires
        all_stable(members),
        0 <= kind < 16,
        0 <= between < 0x1000,
        0 <= obj < 0x1_0000_0000_0000,
        named_object(members, layout, meta, 1, "ROOT"@, "ROOT", order).result == Ok::<u64, Error>(
            root,
        ),
        named_object(members, layout, meta, root, name, "path", order).result == Ok::<u64, Error>(
            (kind * 0x1000_0000_0000_0000 + between * 0x1_0000_0000_0000 + obj) as u64,
        ),
    ensures
        root_directory(members, layout, meta, order).result == Ok::<u64, Error>(root),
        entry_at(members, layout, meta, seq![name], order).result matches Ok((o, _)) && o == obj,
{
    reveal(entry_at);
    law_layout_of_directory_entries(kind, between, obj);
    lemma_named_stable(members, layout, meta, 1, "ROOT"@, "ROOT", order);
    reveal_with_fuel(entry_below, 2);
}

/// One component more of a path is looked up in the object that the path before it resolves
/// to, if that is a directory, which is type 4.
pub proof fn law_paths_go_through_directories<R: BlockRead>(
    members: Seq<PoolMember<R>>,
    layout: Layout,
    meta: DnodeView,
    components: Seq<Seq<char>>,
    kind: int,
    between: int,
    obj: int,
    name: Seq<char>,
    order: EndianOrder,
)
    requires
        all_stable(members),
        components.len() > 0,
        0 <= kind < 16,
        0 <= between < 0x1000,
        0 <= obj < 0x1_0000_0000_0000,
        entry_at(members, layout, meta, components, order).result matches Ok((_, value)) && value
            == kind * 0x1000_0000_0000_0000 + between * 0x1_0000_0000_0000 + obj,
    ensures
        ({
            let result = entry_at(members, layout, meta, components.push(name), order).result;
            if kind != 4 {
                result == Err::<(u64, u64), Error>(Error::NotADirectory)
            } else {
                match named_object(
                    members,
                    layout,
                    meta,
                    obj as u64,
                    name,
                    "path",
                    order,
                ).result {
                    Err(e) => result == Err::<(u64, u64), Error>(e),
                    Ok(v) => result == Ok::<(u64, u64), Error>(
                        ((v as int % 0x1_0000_0000_0000) as u64, v),
                    ),
                }
            }
        }),
{
    law_layout_of_directory_entries(kind, between, obj);
    law_paths_resolve_step_by_step(members, layout, meta, components, name, order);
}

/// The root dataset is what object 1 of the meta object set says under `root_dataset`.
pub proof fn law_datasets_start_at_the_root<R: BlockRead>(
    members: Seq<PoolMember<R>>,
    layout: Layout,
    mos: DnodeView,
    root: u64,
    order: EndianOrder,
)
    requires
        all_stable(members),
        named_object(members, layout, mos, 1, "root_dataset"@, "root_dataset", order).result == Ok::<
            u64,
            Error,
        >(root),
    ensures
        dataset_directory(members, layout, mos, Seq::empty(), order).result == directory_at(
            members,
            layout,
            mos,
            root,
            order,
        ).result,
{
    reveal(dataset_directory);
    lemma_named_stable(members, layout, mos, 1, "root_dataset"@, "root_dataset", order);
}

proof fn lemma_descendant_step<R: BlockRead>(
    members: Seq<PoolMember<R>>,
    layout: Layout,
    mos: DnodeView,
    dir: u64,
    names: Seq<Seq<char>>,
    name: Seq<char>,
    i: nat,
    order: EndianOrder,
)
    requires
        all_stable(members),
        i <= names.len(),
    ensures
        ({
            let longer = descendant(members, layout, mos, dir, names.push(name), i, order).result;
            match descendant(members, layout, mos, dir, names, i, order).result {
                Err(e) => longer == Err::<u64, Error>(e),
                Ok(last) => match directory_at(members, layout, mos, last, order).result {
                    Err(e) => longer == Err::<u64, Error>(e),
                    Ok(d) => longer == named_object(
                        members,
                        layout,
                        mos,
                        d.child_directory_zap_obj,
                        name,
                        "dataset",
                        order,
                    ).result,
                },
            }
        }),
    decreases names.len() - i,
{
    let longer = names.push(name);
    lemma_directory_stable(members, layout, mos, dir, order);
    match directory_at(members, layout, mos, dir, order).result {
        Ok(directory) => {
            let map = directory.child_directory_zap_obj;
            lemma_named_stable(members, layout, mos, map, longer[i as int], "dataset", order);
            if i < names.len() {
                assert(longer[i as int] == names[i as int]);
                match named_object(
                    members,
                    layout,
                    mos,
                    map,
                    names[i as int],
                    "dataset",
                    order,
                ).result {
                    Ok(obj) => {
                        lemma_descendant_step(
                            members,
                            layout,
                            mos,
                            obj,
                            names,
                            name,
                            i + 1,
                            order,
                        );
                    },
                    Err(_) => {},
                }
            } else {
                reveal_with_fuel(descendant, 2);
            }
        },
        Err(_) => {},
    }
}

/// A dataset below another is what the map of the other's children says under its name.
pub proof fn law_datasets_are_found_step_by_step<R: BlockRead>(
    members: Seq<PoolMember<R>>,
    layout: Layout,
    mos: DnodeView,
    names: Seq<Seq<char>>,
    dir: DslDirectory,
    name: Seq<char>,
    order: EndianOrder,
)
    requires
        all_stable(members),
        dataset_directory(members, layout, mos, names, order).result == Ok::<DslDirectory, Error>(
            dir,
        ),
    ensures
        ({
            let result = dataset_directory(members, layout, mos, names.push(name), order).result;
            match named_object(
                members,
                layout,
                mos,
                dir.child_directory_zap_obj,
                name,
                "dataset",
                order,
            ).result {
                Err(e) => result == Err::<DslDirectory, Error>(e),
                Ok(obj) => result == directory_at(members, layout, mos, obj, order).result,
            }
        }),
{
    reveal(dataset_directory);
    lemma_named_stable(members, layout, mos, 1, "root_dataset"@, "root_dataset", order);
    let root = named_object(
        members,
        layout,
        mos,
        1,
        "root_dataset"@,
        "root_dataset",
        order,
    ).result->Ok_0;
    lemma_descendant_stable(members, layout, mos, root, names, 0, order);
    lemma_descendant_stable(members, layout, mos, root, names.push(name), 0, order);
    lemma_descendant_step(members, layout, mos, root, names, name, 0, order);
}

/// Opening a dataset reads the object set that its own object points to, the one that its
/// directory names; listing the datasets below it reads the map of its children.
pub proof fn law_open_datasets<R: BlockRead>(
    members: Seq<PoolMember<R>>,
    layout: Layout,
    mos: DnodeView,
    names: Seq<Seq<char>>,
    dir: DslDirectory,
    order: EndianOrder,
)
    requires
        all_stable(members),
        dataset_directory(members, layout, mos, names, order).result == Ok::<DslDirectory, Error>(
            dir,
        ),
    ensures
        dir.head_dataset_obj is None ==> named_dataset(members, layout, mos, names, order).result
            == Err::<DnodeView, Error>(Error::NotFound { component: "head_dataset" }),
        dir.head_dataset_obj matches Some(obj) ==> (object_at(
            members,
            layout,
            mos,
            obj,
            order,
        ).result matches Ok(d) ==> (dataset_of(d.bonus, order) matches Ok(Some(p))
            ==> named_dataset(members, layout, mos, names, order).result == objset_at(
            members,
            layout,
            p,
            order,
        ).result)),
        object_at(members, layout, mos, dir.child_directory_zap_obj, order).result matches Ok(d)
            ==> (map_entries(members, layout, d, order).result matches Ok(entries) ==> (
        child_names(members, layout, mos, names, order).result matches Ok(children)
            && forall|name: Seq<char>|
            #[trigger] children.contains(name) <==> !(name.len() > 0 && name[0] == '$') && exists|i: int|
                0 <= i < entries.len() && (#[trigger] entries[i]).0 == name)),
{
    reveal(named_dataset);
    reveal(dataset_at);
    reveal(child_names);
    lemma_dataset_directory_stable(members, layout, mos, names, order);
    match dir.head_dataset_obj {
        Some(obj) => {
            lemma_object_stable(members, layout, mos, obj, order);
        },
        None => {},
    }
    lemma_object_stable(members, layout, mos, dir.child_directory_zap_obj, order);
    match object_at(members, layout, mos, dir.child_directory_zap_obj, order).result {
        Ok(d) => match map_entries(members, layout, d, order).result {
            Ok(entries) => {
                assert forall|name: Seq<char>|
                    #[trigger] visible_names(entries).contains(name) <==> !(name.len() > 0 && name[0] == '$')
                        && exists|i: int|
                        0 <= i < entries.len() && (#[trigger] entries[i]).0 == name by {
                    law_only_internal_datasets_are_hidden(entries, name);
                }
            },
            Err(_) => {},
        },
        Err(_) => {},
    }
}

/// The names of datasets are listed in the order of their entries, each as often as it is
/// there, without those that start with `$`.
pub proof fn law_datasets_are_listed_in_order(
    entries: Seq<(Seq<char>, u64)>,
    name: Seq<char>,
    value: u64,
)
    ensures
        visible_names(Seq::empty()) == Seq::<Seq<char>>::empty(),
        visible_names(entries.push((name, value))) == (if name.len() > 0 && name[0] == '$' {
            visible_names(entries)
        } else {
            visible_names(entries).push(name)
        }),
{
    reveal(Seq::filter);
    let take = |e: (Seq<char>, u64)| e.0;
    let keep = |n: Seq<char>| !is_internal(n);
    let names = entries.map_values(take);
    let more = entries.push((name, value)).map_values(take);
    assert(more =~= names.push(name));
    assert(more.drop_last() =~= names);
    assert(Seq::<(Seq<char>, u64)>::empty().map_values(take) =~= Seq::empty());
    assert(visible_names(Seq::empty()) =~= Seq::empty());
}

} // verus!
