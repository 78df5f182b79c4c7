//! An imported pool, and what can be read from it.

use crate::block_read::{BlockRead, PoolMember, Run};
use crate::dataset::{
    child_dataset_names, child_names, dataset_result, directory_entries, entry_at, entry_kind,
    file_size_of, law_opening_changes_nothing, law_resolving_changes_nothing, list_dir,
    named_dataset, names_result, open_dataset, resolve_path, root_dir_obj, root_directory,
    sa_file_size, strings_view, texts, Dataset, EntryKind,
};
use crate::error::{bytes_of, Error, Location};
use crate::file::{
    law_range_is_bytes, law_range_is_readable_bytewise, read_dnode_range, read_range,
};
use crate::phys::dnode::{Dnode, DnodeView};
use crate::phys::zap::entries_view;
use crate::pool::{import, imported, ImportedPool, PoolView};
use crate::redundancy::all_stable;
use crate::walk::{law_walking_changes_nothing, object_at, read_object_dnode};
use vstd::prelude::*;

verus! {

/// Largest number of bytes that is read from a file at a time, 1 GiB. To ask for more of a
/// larger file is an error, which tells the size of the file.
pub const MAX_FILE_BYTES: u64 = 0x4000_0000;

/// Largest number of datasets that are listed. The walk over them is bounded, so that it
/// ends on a pool whose datasets go round in a circle.
pub const MAX_DATASETS: usize = 0x1000;

/// A pool to read from.
pub struct Zfs<R: BlockRead> {
    members: Vec<PoolMember<R>>,
    pool: ImportedPool,
}

/// An entry of a directory.
#[derive(Debug, Clone, PartialEq, Eq)]
pub struct DirEntry {
    /// Name.
    pub name: String,
    /// Kind.
    pub kind: EntryKind,
}

/// What is known of a file or a directory.
#[derive(Debug, Clone, Copy, PartialEq, Eq, Structural)]
pub struct Metadata {
    /// Kind.
    pub kind: EntryKind,
    /// Size in bytes.
    pub size: u64,
}

/// Names and kinds.
pub open spec fn listing(entries: Seq<(Seq<char>, u64)>) -> Seq<(Seq<char>, EntryKind)> {
    entries.map_values(|e: (Seq<char>, u64)| (e.0, entry_kind(e.1)))
}

/// The names and kinds of entries.
pub open spec fn dir_view(entries: Seq<DirEntry>) -> Seq<(Seq<char>, EntryKind)> {
    entries.map_values(|e: DirEntry| (e.name@, e.kind))
}

/// The outcome of a listing, as names and kinds.
pub open spec fn dir_result(r: Result<Vec<DirEntry>, Error>) -> Result<
    Seq<(Seq<char>, EntryKind)>,
    Error,
> {
    match r {
        Ok(entries) => Ok(dir_view(entries@)),
        Err(e) => Err(e),
    }
}

/// The number of the directory that a path names.
pub open spec fn directory_object<R: BlockRead>(
    members: Seq<PoolMember<R>>,
    pool: PoolView,
    meta: DnodeView,
    path: Seq<Seq<char>>,
) -> Run<R, u64> {
    if path.len() == 0 {
        root_directory(members, pool.layout, meta, pool.order)
    } else {
        let run = entry_at(members, pool.layout, meta, path, pool.order);
        Run {
            members: run.members,
            result: match run.result {
                Err(e) => Err(e),
                Ok((obj, value)) => if entry_kind(value) == EntryKind::Directory {
                    Ok(obj)
                } else {
                    Err(Error::NotADirectory)
                },
            },
        }
    }
}

/// The listing of a directory of a dataset.
#[verifier::opaque]
pub open spec fn directory_listing<R: BlockRead>(
    members: Seq<PoolMember<R>>,
    pool: PoolView,
    ds: Seq<Seq<char>>,
    path: Seq<Seq<char>>,
) -> Run<R, Seq<(Seq<char>, EntryKind)>> {
    let dataset = named_dataset(members, pool.layout, pool.mos, ds, pool.order);
    match dataset.result {
        Err(e) => Run { members: dataset.members, result: Err(e) },
        Ok(meta) => {
            let dir = directory_object(dataset.members, pool, meta, path);
            match dir.result {
                Err(e) => Run { members: dir.members, result: Err(e) },
                Ok(obj) => {
                    let run = directory_entries(
                        dir.members,
                        pool.layout,
                        meta,
                        obj,
                        pool.order,
                    );
                    Run {
                        members: run.members,
                        result: match run.result {
                            Err(e) => Err(e),
                            Ok(entries) => Ok(listing(entries)),
                        },
                    }
                },
            }
        },
    }
}

/// The kind and the dnode of what a path of a dataset names.
#[verifier::opaque]
pub open spec fn target<R: BlockRead>(
    members: Seq<PoolMember<R>>,
    pool: PoolView,
    ds: Seq<Seq<char>>,
    path: Seq<Seq<char>>,
) -> Run<R, (EntryKind, DnodeView)> {
    let dataset = named_dataset(members, pool.layout, pool.mos, ds, pool.order);
    match dataset.result {
        Err(e) => Run { members: dataset.members, result: Err(e) },
        Ok(meta) => {
            let entry = entry_at(dataset.members, pool.layout, meta, path, pool.order);
            match entry.result {
                Err(e) => Run { members: entry.members, result: Err(e) },
                Ok((obj, value)) => {
                    let run = object_at(entry.members, pool.layout, meta, obj, pool.order);
                    Run {
                        members: run.members,
                        result: match run.result {
                            Err(e) => Err(e),
                            Ok(d) => Ok((entry_kind(value), d)),
                        },
                    }
                },
            }
        },
    }
}

/// The dnode and the size of the regular file that a path of a dataset names.
#[verifier::opaque]
pub open spec fn file_at<R: BlockRead>(
    members: Seq<PoolMember<R>>,
    pool: PoolView,
    ds: Seq<Seq<char>>,
    path: Seq<Seq<char>>,
) -> Run<R, (DnodeView, u64)> {
    let run = target(members, pool, ds, path);
    Run {
        members: run.members,
        result: match run.result {
            Err(e) => Err(e),
            Ok((kind, d)) => if kind != EntryKind::Regular {
                Err(Error::NotARegularFile)
            } else {
                match file_size_of(d.bonus, pool.order) {
                    Err(e) => Err(e),
                    Ok(size) => Ok((d, size)),
                }
            },
        },
    }
}

/// How many of `len` bytes from `offset` on a file of a size has.
pub open spec fn available(size: u64, offset: u64, len: nat) -> nat {
    if offset >= size {
        0
    } else if len <= size - offset {
        len
    } else {
        (size - offset) as nat
    }
}

/// The bytes of a regular file from `offset` on: as many as there are, or else `len`.
#[verifier::opaque]
pub open spec fn file_window<R: BlockRead>(
    members: Seq<PoolMember<R>>,
    pool: PoolView,
    ds: Seq<Seq<char>>,
    path: Seq<Seq<char>>,
    offset: u64,
    len: nat,
) -> Run<R, Seq<u8>> {
    let run = file_at(members, pool, ds, path);
    match run.result {
        Err(e) => Run { members: run.members, result: Err(e) },
        Ok((d, size)) => {
            let n = available(size, offset, len);
            if n > MAX_FILE_BYTES {
                Run {
                    members: run.members,
                    result: Err(Error::FileTooLarge { size, max: MAX_FILE_BYTES }),
                }
            } else {
                read_range(run.members, pool.layout, d, offset, n, pool.order)
            }
        },
    }
}

/// The whole of a regular file.
pub open spec fn file_contents<R: BlockRead>(
    members: Seq<PoolMember<R>>,
    pool: PoolView,
    ds: Seq<Seq<char>>,
    path: Seq<Seq<char>>,
) -> Run<R, Seq<u8>> {
    file_window(members, pool, ds, path, 0, u64::MAX as nat)
}

/// The kind and the size of what a path of a dataset names.
#[verifier::opaque]
pub open spec fn metadata_at<R: BlockRead>(
    members: Seq<PoolMember<R>>,
    pool: PoolView,
    ds: Seq<Seq<char>>,
    path: Seq<Seq<char>>,
) -> Run<R, Metadata> {
    let run = target(members, pool, ds, path);
    Run {
        members: run.members,
        result: match run.result {
            Err(e) => Err(e),
            Ok((kind, d)) => match file_size_of(d.bonus, pool.order) {
                Err(e) => Err(e),
                Ok(size) => Ok(Metadata { kind, size }),
            },
        },
    }
}

/// Whether an entry is there, by what looking for it came to.
pub open spec fn presence<T>(found: Result<T, Error>) -> Result<bool, Error> {
    match found {
        Ok(_) => Ok(true),
        Err(Error::NotFound { .. }) => Ok(false),
        Err(Error::NotADirectory) => Ok(false),
        Err(e) => Err(e),
    }
}

/// A path for each name below a path.
pub open spec fn paths_below(path: Seq<Seq<char>>, names: Seq<Seq<char>>) -> Seq<Seq<Seq<char>>> {
    names.map_values(|n: Seq<char>| path.push(n))
}

/// The datasets below those from `i` on, after all that are known.
pub open spec fn datasets_below<R: BlockRead>(
    members: Seq<PoolMember<R>>,
    pool: PoolView,
    known: Seq<Seq<Seq<char>>>,
    i: nat,
) -> Run<R, Seq<Seq<Seq<char>>>>
    decreases MAX_DATASETS + 1 - i,
{
    if known.len() > MAX_DATASETS {
        Run {
            members,
            result: Err(
                Error::Inconsistent { token: "dataset_limit", where_: Location::Dsl { obj: 0 } },
            ),
        }
    } else if i >= known.len() || i > MAX_DATASETS {
        Run { members, result: Ok(known) }
    } else {
        let run = child_names(members, pool.layout, pool.mos, known[i as int], pool.order);
        match run.result {
            Err(e) => Run { members: run.members, result: Err(e) },
            Ok(names) => datasets_below(
                run.members,
                pool,
                known + paths_below(known[i as int], names),
                i + 1,
            ),
        }
    }
}

/// The paths of strings.
pub open spec fn paths_view(paths: Seq<Vec<String>>) -> Seq<Seq<Seq<char>>> {
    paths.map_values(|p: Vec<String>| strings_view(p@))
}

/// Borrows strings.
fn borrowed(path: &Vec<String>) -> (r: Vec<&str>)
    ensures
        texts(r@) == strings_view(path@),
{
    let mut out: Vec<&str> = Vec::new();
    let mut i: usize = 0;
    assert(texts(out@) =~= strings_view(path@.take(0)));
    while i < path.len()
        invariant
            i <= path@.len(),
            texts(out@) == strings_view(path@.take(i as int)),
        decreases path@.len() - i,
    {
        let ghost before = out@;
        out.push(path[i].as_str());
        i += 1;
        assert(texts(out@) =~= strings_view(path@.take(i as int))) by {
            assert(texts(before).len() == before.len());
            assert forall|k: int| 0 <= k < i implies texts(out@)[k] == strings_view(
                path@.take(i as int),
            )[k] by {
                if k < i - 1 {
                    assert(texts(before)[k] == strings_view(path@.take(i - 1))[k]);
                }
            }
        }
    }
    assert(path@.take(i as int) =~= path@);
    out
}

/// Copies strings.
fn extended(path: &Vec<String>, name: &String) -> (r: Vec<String>)
    ensures
        strings_view(r@) == strings_view(path@).push(name@),
{
    let mut out: Vec<String> = Vec::new();
    let mut i: usize = 0;
    while i < path.len()
        invariant
            i <= path@.len(),
            out@ =~= path@.take(i as int),
        decreases path@.len() - i,
    {
        out.push(path[i].clone());
        i += 1;
    }
    out.push(name.clone());
    assert(strings_view(out@) =~= strings_view(path@).push(name@));
    out
}

impl<R: BlockRead> Zfs<R> {
    /// The members.
    pub closed spec fn devices(&self) -> Seq<PoolMember<R>> {
        self.members@
    }

    /// What the pool is.
    pub closed spec fn pool_view(&self) -> PoolView {
        self.pool@
    }

    /// Imports a pool from its members.
    pub fn import(members: Vec<PoolMember<R>>) -> (r: Result<Zfs<R>, Error>)
        ensures
            match r {
                Ok(z) => imported(members@).result == Ok::<PoolView, Error>(z.pool_view())
                    && imported(members@).members == z.devices(),
                Err(e) => imported(members@).result == Err::<PoolView, Error>(e),
            },
    {
        let mut members = members;
        match import(members.as_mut_slice()) {
            Ok(pool) => Ok(Zfs { members, pool }),
            Err(e) => Err(e),
        }
    }

    /// Identifier of the pool.
    pub fn pool_guid(&self) -> (r: u64)
        ensures
            r == self.pool_view().guid,
    {
        self.pool.pool_guid
    }

    /// Name of the pool.
    pub fn pool_name(&self) -> (r: &str)
        ensures
            r@ == self.pool_view().name,
    {
        self.pool.pool_name.as_str()
    }

    /// Transaction group of the active uberblock.
    pub fn txg(&self) -> (r: u64)
        ensures
            r == self.pool_view().uberblock.txg,
    {
        self.pool.uberblock.txg
    }

    /// Number of members.
    pub fn member_count(&self) -> (r: usize)
        ensures
            r == self.devices().len(),
    {
        self.members.len()
    }

    fn open(&mut self, ds: &[&str]) -> (v: Result<Dataset, Error>)
        ensures
            final(self).pool_view() == old(self).pool_view(),
            final(self).devices() == named_dataset(
                old(self).devices(),
                old(self).pool_view().layout,
                old(self).pool_view().mos,
                texts(ds@),
                old(self).pool_view().order,
            ).members,
            dataset_result(v) == named_dataset(
                old(self).devices(),
                old(self).pool_view().layout,
                old(self).pool_view().mos,
                texts(ds@),
                old(self).pool_view().order,
            ).result,
    {
        open_dataset(
            self.members.as_mut_slice(),
            &self.pool.vdev,
            &self.pool.mos_dnode,
            self.pool.order,
            ds,
        )
    }

    /// Lists the root directory of a dataset.
    pub fn read_dir(&mut self, ds: &[&str]) -> (v: Result<Vec<DirEntry>, Error>)
        ensures
            final(self).pool_view() == old(self).pool_view(),
            final(self).devices() == directory_listing(
                old(self).devices(),
                old(self).pool_view(),
                texts(ds@),
                Seq::empty(),
            ).members,
            dir_result(v) == directory_listing(
                old(self).devices(),
                old(self).pool_view(),
                texts(ds@),
                Seq::empty(),
            ).result,
    {
        let root: &[&str] = &[];
        assert(texts(root@) =~= Seq::empty());
        self.read_dir_at(ds, root)
    }

    /// Lists a directory of a dataset.
    pub fn read_dir_at(&mut self, ds: &[&str], path: &[&str]) -> (v: Result<Vec<DirEntry>, Error>)
        ensures
            final(self).pool_view() == old(self).pool_view(),
            final(self).devices() == directory_listing(
                old(self).devices(),
                old(self).pool_view(),
                texts(ds@),
                texts(path@),
            ).members,
            dir_result(v) == directory_listing(
                old(self).devices(),
                old(self).pool_view(),
                texts(ds@),
                texts(path@),
            ).result,
    {
        reveal(directory_listing);
        let dataset = match self.open(ds) {
            Ok(dataset) => dataset,
            Err(e) => {
                return Err(e);
            },
        };
        let order = self.pool.order;
        let dir: u64 = if path.len() == 0 {
            match root_dir_obj(
                self.members.as_mut_slice(),
                &self.pool.vdev,
                &dataset,
                order,
            ) {
                Ok(obj) => obj,
                Err(e) => {
                    return Err(e);
                },
            }
        } else {
            match resolve_path(
                self.members.as_mut_slice(),
                &self.pool.vdev,
                &dataset,
                order,
                path,
            ) {
                Ok((obj, value)) => {
                    if EntryKind::of(value) != EntryKind::Directory {
                        return Err(Error::NotADirectory);
                    }
                    obj
                },
                Err(e) => {
                    return Err(e);
                },
            }
        };
        match list_dir(
            self.members.as_mut_slice(),
            &self.pool.vdev,
            &dataset,
            dir,
            order,
        ) {
            Ok(entries) => Ok(with_kinds(&entries)),
            Err(e) => Err(e),
        }
    }

    /// Finds what a path of a dataset names.
    fn find(&mut self, ds: &[&str], path: &[&str]) -> (v: Result<(EntryKind, Dnode), Error>)
        ensures
            final(self).pool_view() == old(self).pool_view(),
            final(self).devices() == target(
                old(self).devices(),
                old(self).pool_view(),
                texts(ds@),
                texts(path@),
            ).members,
            match v {
                Ok((kind, d)) => target(
                    old(self).devices(),
                    old(self).pool_view(),
                    texts(ds@),
                    texts(path@),
                ).result == Ok::<(EntryKind, DnodeView), Error>((kind, d@)),
                Err(e) => target(
                    old(self).devices(),
                    old(self).pool_view(),
                    texts(ds@),
                    texts(path@),
                ).result == Err::<(EntryKind, DnodeView), Error>(e),
            },
    {
        reveal(target);
        let dataset = match self.open(ds) {
            Ok(dataset) => dataset,
            Err(e) => {
                return Err(e);
            },
        };
        let order = self.pool.order;
        match resolve_path(
            self.members.as_mut_slice(),
            &self.pool.vdev,
            &dataset,
            order,
            path,
        ) {
            Err(e) => Err(e),
            Ok((obj, value)) => match read_object_dnode(
                self.members.as_mut_slice(),
                &self.pool.vdev,
                &dataset.meta_dnode,
                obj,
                order,
            ) {
                Ok(d) => Ok((EntryKind::of(value), d)),
                Err(e) => Err(e),
            },
        }
    }

    /// Reads the bytes of a regular file from `offset` on: as many as there are, or else
    /// `len`.
    fn window(&mut self, ds: &[&str], path: &[&str], offset: u64, len: u64) -> (v: Result<
        Vec<u8>,
        Error,
    >)
        ensures
            final(self).pool_view() == old(self).pool_view(),
            final(self).devices() == file_window(
                old(self).devices(),
                old(self).pool_view(),
                texts(ds@),
                texts(path@),
                offset,
                len as nat,
            ).members,
            bytes_of(v) == file_window(
                old(self).devices(),
                old(self).pool_view(),
                texts(ds@),
                texts(path@),
                offset,
                len as nat,
            ).result,
            v matches Ok(bytes) ==> bytes@.len() <= MAX_FILE_BYTES && bytes@.len() <= len,
    {
        reveal(file_window);
        reveal(file_at);
        let (kind, d) = match self.find(ds, path) {
            Ok(found) => found,
            Err(e) => {
                return Err(e);
            },
        };
        if kind != EntryKind::Regular {
            return Err(Error::NotARegularFile);
        }
        let order = self.pool.order;
        let size: u64 = match sa_file_size(d.bonus_used(), order) {
            Ok(size) => size,
            Err(e) => {
                return Err(e);
            },
        };
        let n: u64 = if offset >= size {
            0
        } else if len <= size - offset {
            len
        } else {
            size - offset
        };
        if n > MAX_FILE_BYTES {
            return Err(Error::FileTooLarge { size, max: MAX_FILE_BYTES });
        }
        read_dnode_range(
            self.members.as_mut_slice(),
            &self.pool.vdev,
            &d,
            offset,
            n as usize,
            order,
        )
    }

    /// Reads a regular file of a dataset.
    pub fn read(&mut self, ds: &[&str], path: &[&str]) -> (v: Result<Vec<u8>, Error>)
        ensures
            final(self).pool_view() == old(self).pool_view(),
            final(self).devices() == file_contents(
                old(self).devices(),
                old(self).pool_view(),
                texts(ds@),
                texts(path@),
            ).members,
            bytes_of(v) == file_contents(
                old(self).devices(),
                old(self).pool_view(),
                texts(ds@),
                texts(path@),
            ).result,
            v matches Ok(bytes) ==> bytes@.len() <= MAX_FILE_BYTES,
    {
        self.window(ds, path, 0, u64::MAX)
    }

    /// Reads the bytes of a regular file from `offset` on: as many as there are, or else
    /// `len`.
    pub fn read_at(&mut self, ds: &[&str], path: &[&str], offset: u64, len: usize) -> (v: Result<
        Vec<u8>,
        Error,
    >)
        ensures
            final(self).pool_view() == old(self).pool_view(),
            final(self).devices() == file_window(
                old(self).devices(),
                old(self).pool_view(),
                texts(ds@),
                texts(path@),
                offset,
                len as nat,
            ).members,
            bytes_of(v) == file_window(
                old(self).devices(),
                old(self).pool_view(),
                texts(ds@),
                texts(path@),
                offset,
                len as nat,
            ).result,
            v matches Ok(bytes) ==> bytes@.len() <= MAX_FILE_BYTES && bytes@.len() <= len,
    {
        self.window(ds, path, offset, len as u64)
    }

    /// Reads the kind and the size of what a path of a dataset names.
    pub fn stat(&mut self, ds: &[&str], path: &[&str]) -> (v: Result<Metadata, Error>)
        ensures
            final(self).pool_view() == old(self).pool_view(),
            final(self).devices() == metadata_at(
                old(self).devices(),
                old(self).pool_view(),
                texts(ds@),
                texts(path@),
            ).members,
            v == metadata_at(
                old(self).devices(),
                old(self).pool_view(),
                texts(ds@),
                texts(path@),
            ).result,
    {
        reveal(metadata_at);
        match self.find(ds, path) {
            Err(e) => Err(e),
            Ok((kind, d)) => match sa_file_size(d.bonus_used(), self.pool.order) {
                Ok(size) => Ok(Metadata { kind, size }),
                Err(e) => Err(e),
            },
        }
    }

    /// Whether a path of a dataset names anything.
    pub fn path_exists(&mut self, ds: &[&str], path: &[&str]) -> (v: Result<bool, Error>)
        ensures
            final(self).pool_view() == old(self).pool_view(),
            final(self).devices() == target(
                old(self).devices(),
                old(self).pool_view(),
                texts(ds@),
                texts(path@),
            ).members,
            v == presence(
                target(
                    old(self).devices(),
                    old(self).pool_view(),
                    texts(ds@),
                    texts(path@),
                ).result,
            ),
    {
        match self.find(ds, path) {
            Ok(_) => Ok(true),
            Err(Error::NotFound { .. }) => Ok(false),
            Err(Error::NotADirectory) => Ok(false),
            Err(e) => Err(e),
        }
    }

    /// Reads the names of the datasets directly below a dataset.
    pub fn child_datasets(&mut self, parent: &[&str]) -> (v: Result<Vec<String>, Error>)
        ensures
            final(self).pool_view() == old(self).pool_view(),
            final(self).devices() == child_names(
                old(self).devices(),
                old(self).pool_view().layout,
                old(self).pool_view().mos,
                texts(parent@),
                old(self).pool_view().order,
            ).members,
            names_result(v) == child_names(
                old(self).devices(),
                old(self).pool_view().layout,
                old(self).pool_view().mos,
                texts(parent@),
                old(self).pool_view().order,
            ).result,
    {
        child_dataset_names(
            self.members.as_mut_slice(),
            &self.pool.vdev,
            &self.pool.mos_dnode,
            self.pool.order,
            parent,
        )
    }

    /// Reads the paths of all datasets. The root dataset, whose path is empty, comes
    /// first, and each dataset before those below it. If there are more than
    /// [`MAX_DATASETS`], 4096, the error is [`Error::Inconsistent`] with the token
    /// `dataset_limit`.
    pub fn datasets(&mut self) -> (v: Result<Vec<Vec<String>>, Error>)
        ensures
            final(self).pool_view() == old(self).pool_view(),
            final(self).devices() == datasets_below(
                old(self).devices(),
                old(self).pool_view(),
                seq![Seq::empty()],
                0,
            ).members,
            match v {
                Ok(paths) => datasets_below(
                    old(self).devices(),
                    old(self).pool_view(),
                    seq![Seq::empty()],
                    0,
                ).result == Ok::<Seq<Seq<Seq<char>>>, Error>(paths_view(paths@)),
                Err(e) => datasets_below(
                    old(self).devices(),
                    old(self).pool_view(),
                    seq![Seq::empty()],
                    0,
                ).result == Err::<Seq<Seq<Seq<char>>>, Error>(e),
            },
    {
        let root: Vec<String> = Vec::new();
        let mut known: Vec<Vec<String>> = Vec::new();
        assert(strings_view(root@) =~= Seq::empty());
        known.push(root);
        assert(paths_view(known@) =~= seq![Seq::empty()]);
        let ghost whole = datasets_below(
            old(self).devices(),
            old(self).pool_view(),
            seq![Seq::empty()],
            0,
        );
        let mut i: usize = 0;
        while i < known.len() && known.len() <= MAX_DATASETS
            invariant
                i <= known@.len(),
                i <= MAX_DATASETS + 1,
                self.pool_view() == old(self).pool_view(),
                whole == datasets_below(
                    old(self).devices(),
                    old(self).pool_view(),
                    seq![Seq::empty()],
                    0,
                ),
                whole == datasets_below(
                    self.devices(),
                    self.pool_view(),
                    paths_view(known@),
                    i as nat,
                ),
            decreases MAX_DATASETS + 1 - i,
        {
            let path = borrowed(&known[i]);
            assert(paths_view(known@)[i as int] == strings_view(known@[i as int]@));
            let names = match self.child_datasets(path.as_slice()) {
                Ok(names) => names,
                Err(e) => {
                    return Err(e);
                },
            };
            add_below(&mut known, i, &names);
            i += 1;
        }
        if known.len() > MAX_DATASETS {
            return Err(
                Error::Inconsistent { token: "dataset_limit", where_: Location::Dsl { obj: 0 } },
            );
        }
        Ok(known)
    }
}

/// Adds a path for each name below the path at `i`.
fn add_below(known: &mut Vec<Vec<String>>, i: usize, names: &Vec<String>)
    requires
        i < old(known)@.len(),
    ensures
        paths_view(final(known)@) == paths_view(old(known)@) + paths_below(
            paths_view(old(known)@)[i as int],
            strings_view(names@),
        ),
{
    let ghost before = known@;
    let ghost all = paths_below(paths_view(before)[i as int], strings_view(names@));
    let mut k: usize = 0;
    assert(paths_view(known@) =~= paths_view(before) + all.take(0));
    while k < names.len()
        invariant
            k <= names@.len(),
            i < before.len(),
            before == old(known)@,
            known@.len() == before.len() + k,
            forall|j: int| 0 <= j < before.len() ==> known@[j] == before[j],
            all == paths_below(paths_view(before)[i as int], strings_view(names@)),
            paths_view(known@) == paths_view(before) + all.take(k as int),
        decreases names@.len() - k,
    {
        let ghost last = known@;
        let path = extended(&known[i], &names[k]);
        known.push(path);
        proof {
            assert(strings_view(path@) == all[k as int]);
            assert(paths_view(known@) =~= paths_view(last).push(strings_view(path@)));
            assert(all.take(k + 1) =~= all.take(k as int).push(all[k as int]));
        }
        k += 1;
        assert(paths_view(known@) =~= paths_view(before) + all.take(k as int));
    }
    assert(all.take(k as int) =~= all);
}

/// Takes the kinds out of the values of entries.
fn with_kinds(entries: &Vec<(String, u64)>) -> (r: Vec<DirEntry>)
    ensures
        dir_view(r@) == listing(entries_view(entries@)),
{
    let mut out: Vec<DirEntry> = Vec::new();
    let mut i: usize = 0;
    while i < entries.len()
        invariant
            i <= entries@.len(),
            out@.len() == i,
            forall|k: int|
                0 <= k < i ==> (#[trigger] out@[k]).name@ == entries@[k].0@ && out@[k].kind
                    == entry_kind(entries@[k].1),
        decreases entries@.len() - i,
    {
        out.push(DirEntry { name: entries[i].0.clone(), kind: EntryKind::of(entries[i].1) });
        i += 1;
    }
    assert(dir_view(out@) =~= listing(entries_view(entries@)));
    out
}

proof fn lemma_target_stable<R: BlockRead>(
    members: Seq<PoolMember<R>>,
    pool: PoolView,
    ds: Seq<Seq<char>>,
    path: Seq<Seq<char>>,
)
    requires
        all_stable(members),
    ensures
        target(members, pool, ds, path).members == members,
{
    reveal(target);
    law_opening_changes_nothing(members, pool.layout, pool.mos, ds, pool.order);
    match named_dataset(members, pool.layout, pool.mos, ds, pool.order).result {
        Ok(meta) => {
            law_resolving_changes_nothing(members, pool.layout, meta, 0, path, pool.order);
            match entry_at(members, pool.layout, meta, path, pool.order).result {
                Ok((obj, value)) => {
                    law_resolving_changes_nothing(
                        members,
                        pool.layout,
                        meta,
                        obj,
                        path,
                        pool.order,
                    );
                    law_walking_changes_nothing(
                        members,
                        pool.layout,
                        pool.uberblock.ptr,
                        meta,
                        obj,
                        Seq::empty(),
                        pool.order,
                    );
                },
                Err(_) => {},
            }
        },
        Err(_) => {},
    }
}

/// Reading from a pool on stable members changes nothing: the same question has the same
/// answer every time.
pub proof fn law_asking_changes_nothing<R: BlockRead>(
    members: Seq<PoolMember<R>>,
    pool: PoolView,
    ds: Seq<Seq<char>>,
    path: Seq<Seq<char>>,
    offset: u64,
    len: nat,
)
    requires
        all_stable(members),
    ensures
        directory_listing(members, pool, ds, path).members == members,
        target(members, pool, ds, path).members == members,
        metadata_at(members, pool, ds, path).members == members,
        file_window(members, pool, ds, path, offset, len).members == members,
        file_contents(members, pool, ds, path).members == members,
{
    reveal(directory_listing);
    reveal(metadata_at);
    reveal(file_at);
    reveal(file_window);
    lemma_target_stable(members, pool, ds, path);
    law_opening_changes_nothing(members, pool.layout, pool.mos, ds, pool.order);
    match named_dataset(members, pool.layout, pool.mos, ds, pool.order).result {
        Ok(meta) => {
            law_resolving_changes_nothing(members, pool.layout, meta, 0, path, pool.order);
            match directory_object(members, pool, meta, path).result {
                Ok(obj) => {
                    law_resolving_changes_nothing(
                        members,
                        pool.layout,
                        meta,
                        obj,
                        path,
                        pool.order,
                    );
                },
                Err(_) => {},
            }
        },
        Err(_) => {},
    }
    match file_at(members, pool, ds, path).result {
        Ok((d, size)) => {
            law_range_is_bytes(
                members,
                pool.layout,
                d,
                offset,
                available(size, offset, len),
                pool.order,
            );
            law_range_is_bytes(
                members,
                pool.layout,
                d,
                0,
                available(size, 0, u64::MAX as nat),
                pool.order,
            );
        },
        Err(_) => {},
    }
}

/// A ranged read is a window of the whole file: where the whole can be read, so can any
/// range, and it gives the bytes of the whole from `offset` on, as many as there are, or
/// else `len`.
pub proof fn law_ranged_read_is_a_window<R: BlockRead>(
    members: Seq<PoolMember<R>>,
    pool: PoolView,
    ds: Seq<Seq<char>>,
    path: Seq<Seq<char>>,
    offset: u64,
    len: nat,
)
    requires
        all_stable(members),
        file_contents(members, pool, ds, path).result is Ok,
    ensures
        ({
            let whole = file_contents(members, pool, ds, path).result->Ok_0;
            let from = if offset < whole.len() {
                offset as int
            } else {
                whole.len() as int
            };
            let to = if from + len < whole.len() {
                from + len
            } else {
                whole.len() as int
            };
            file_window(members, pool, ds, path, offset, len).result == Ok::<Seq<u8>, Error>(
                whole.subrange(from, to),
            )
        }),
{
    reveal(file_window);
    reveal(file_at);
    lemma_target_stable(members, pool, ds, path);
    let (d, size) = file_at(members, pool, ds, path).result->Ok_0;
    let order = pool.order;
    let layout = pool.layout;
    let whole = file_contents(members, pool, ds, path).result->Ok_0;
    let n = available(size, offset, len);
    assert(d.data_block_size_sectors > 0) by {
        reveal(read_range);
    }
    law_range_is_bytes(members, layout, d, 0, size as nat, order);
    law_range_is_readable_bytewise(members, layout, d, 0, size as nat, order);
    law_range_is_bytes(members, layout, d, offset, n, order);
    law_range_is_readable_bytewise(members, layout, d, offset, n, order);
    let window = read_range(members, layout, d, offset, n, order).result->Ok_0;
    let from = if offset < whole.len() {
        offset as int
    } else {
        whole.len() as int
    };
    assert(window =~= whole.subrange(from, from + n));
}

/// A file is read as a whole: what the path resolves to has to be a regular file, which is type
/// 8 of a directory entry, and its contents are as many bytes of its object, from the first
/// on, as its attributes say. More than 1 GiB is refused.
pub proof fn law_contents_of_files<R: BlockRead>(
    members: Seq<PoolMember<R>>,
    pool: PoolView,
    ds: Seq<Seq<char>>,
    path: Seq<Seq<char>>,
    meta: DnodeView,
    obj: u64,
    value: u64,
    d: DnodeView,
)
    requires
        all_stable(members),
        named_dataset(members, pool.layout, pool.mos, ds, pool.order).result == Ok::<
            DnodeView,
            Error,
        >(meta),
        entry_at(members, pool.layout, meta, path, pool.order).result == Ok::<(u64, u64), Error>(
            (obj, value),
        ),
        object_at(members, pool.layout, meta, obj, pool.order).result == Ok::<DnodeView, Error>(d),
    ensures
        value / 0x1000_0000_0000_0000 != 8 ==> file_contents(members, pool, ds, path).result
            == Err::<Seq<u8>, Error>(Error::NotARegularFile),
        file_size_of(d.bonus, pool.order) matches Ok(size) ==> {
            &&& metadata_at(members, pool, ds, path).result matches Ok(m) && m.size == size && (
            m.kind == EntryKind::Regular <==> value / 0x1000_0000_0000_0000 == 8) && (m.kind
                == EntryKind::Directory <==> value / 0x1000_0000_0000_0000 == 4) && (m.kind
                == EntryKind::Symlink <==> value / 0x1000_0000_0000_0000 == 10)
            &&& value / 0x1000_0000_0000_0000 == 8 ==> file_contents(
                members,
                pool,
                ds,
                path,
            ).result == (if size <= 0x4000_0000 {
                read_range(members, pool.layout, d, 0, size as nat, pool.order).result
            } else {
                Err::<Seq<u8>, Error>(Error::FileTooLarge { size, max: 0x4000_0000 })
            })
        },
        file_size_of(d.bonus, pool.order) matches Err(e) ==> metadata_at(
            members,
            pool,
            ds,
            path,
        ).result == Err::<Metadata, Error>(e),
{
    reveal(target);
    reveal(metadata_at);
    reveal(file_at);
    reveal(file_window);
    law_opening_changes_nothing(members, pool.layout, pool.mos, ds, pool.order);
    law_resolving_changes_nothing(members, pool.layout, meta, 0, path, pool.order);
    lemma_target_stable(members, pool, ds, path);
}

/// Where the path, the dataset or the object fails, so does every question about it, in the
/// same way; and an entry that is not found, or looked for in what is not a directory, is the
/// only one that is not there.
pub proof fn law_failures_are_passed_on<R: BlockRead>(
    members: Seq<PoolMember<R>>,
    pool: PoolView,
    ds: Seq<Seq<char>>,
    path: Seq<Seq<char>>,
    e: Error,
)
    requires
        target(members, pool, ds, path).result == Err::<(EntryKind, DnodeView), Error>(e),
    ensures
        metadata_at(members, pool, ds, path).result == Err::<Metadata, Error>(e),
        file_contents(members, pool, ds, path).result == Err::<Seq<u8>, Error>(e),
        presence(metadata_at(members, pool, ds, path).result) == (if e is NotFound || e
            is NotADirectory {
            Ok::<bool, Error>(false)
        } else {
            Err(e)
        }),
{
    reveal(metadata_at);
    reveal(file_at);
    reveal(file_window);
}

/// A listing has a name and a kind for each entry of the directory, in order: of the types of
/// entries, 4 is a directory, 8 a regular file, and 10 a symbolic link.
pub proof fn law_listings_have_all_entries<R: BlockRead>(
    members: Seq<PoolMember<R>>,
    pool: PoolView,
    ds: Seq<Seq<char>>,
    path: Seq<Seq<char>>,
    meta: DnodeView,
    obj: u64,
    entries: Seq<(Seq<char>, u64)>,
)
    requires
        all_stable(members),
        named_dataset(members, pool.layout, pool.mos, ds, pool.order).result == Ok::<
            DnodeView,
            Error,
        >(meta),
        if path.len() == 0 {
            root_directory(members, pool.layout, meta, pool.order).result == Ok::<u64, Error>(obj)
        } else {
            entry_at(members, pool.layout, meta, path, pool.order).result matches Ok((o, value)) && o
                == obj && value / 0x1000_0000_0000_0000 == 4
        },
        directory_entries(members, pool.layout, meta, obj, pool.order).result == Ok::<
            Seq<(Seq<char>, u64)>,
            Error,
        >(entries),
    ensures
        directory_listing(members, pool, ds, path).result matches Ok(listed) && listed.len()
            == entries.len() && forall|i: int| #![trigger listed[i]]
            0 <= i < entries.len() ==> {
                let kind = entries[i].1 / 0x1000_0000_0000_0000;
                &&& listed[i].0 == entries[i].0
                &&& listed[i].1 == EntryKind::Directory <==> kind == 4
                &&& listed[i].1 == EntryKind::Regular <==> kind == 8
                &&& listed[i].1 == EntryKind::Symlink <==> kind == 10
            },
{
    reveal(directory_listing);
    law_opening_changes_nothing(members, pool.layout, pool.mos, ds, pool.order);
    law_resolving_changes_nothing(members, pool.layout, meta, obj, path, pool.order);
}

/// What is not a directory cannot be listed.
pub proof fn law_only_directories_are_listed<R: BlockRead>(
    members: Seq<PoolMember<R>>,
    pool: PoolView,
    ds: Seq<Seq<char>>,
    path: Seq<Seq<char>>,
    meta: DnodeView,
    obj: u64,
    value: u64,
)
    requires
        all_stable(members),
        path.len() > 0,
        named_dataset(members, pool.layout, pool.mos, ds, pool.order).result == Ok::<
            DnodeView,
            Error,
        >(meta),
        entry_at(members, pool.layout, meta, path, pool.order).result == Ok::<(u64, u64), Error>(
            (obj, value),
        ),
        value / 0x1000_0000_0000_0000 != 4,
    ensures
        directory_listing(members, pool, ds, path).result == Err::<
            Seq<(Seq<char>, EntryKind)>,
            Error,
        >(Error::NotADirectory),
{
    reveal(directory_listing);
    law_opening_changes_nothing(members, pool.layout, pool.mos, ds, pool.order);
}

/// Whether `path` is that of a dataset directly below the one at `parent`.
pub open spec fn is_directly_below<R: BlockRead>(
    members: Seq<PoolMember<R>>,
    pool: PoolView,
    parent: Seq<Seq<char>>,
    path: Seq<Seq<char>>,
) -> bool {
    &&& path.len() > 0
    &&& path.drop_last() == parent
    &&& child_names(members, pool.layout, pool.mos, parent, pool.order).result matches Ok(names)
        && names.contains(path.last())
}

/// Whether path `k` of a list is directly below one that comes before it.
pub open spec fn follows_its_parent<R: BlockRead>(
    members: Seq<PoolMember<R>>,
    pool: PoolView,
    all: Seq<Seq<Seq<char>>>,
    k: int,
) -> bool {
    exists|p: int| 0 <= p < k && is_directly_below(members, pool, #[trigger] all[p], all[k])
}

proof fn lemma_datasets<R: BlockRead>(
    members: Seq<PoolMember<R>>,
    pool: PoolView,
    known: Seq<Seq<Seq<char>>>,
    i: nat,
)
    requires
        all_stable(members),
        i <= known.len(),
        datasets_below(members, pool, known, i).result is Ok,
    ensures
        ({
            let all = datasets_below(members, pool, known, i).result->Ok_0;
            &&& known.len() <= all.len()
            &&& forall|k: int| 0 <= k < known.len() ==> #[trigger] all[k] == known[k]
            &&& forall|k: int, path: Seq<Seq<char>>|
                i <= k < all.len() && #[trigger] is_directly_below(members, pool, all[k], path)
                    ==> all.contains(path)
            &&& forall|k: int|
                known.len() <= k < all.len() ==> #[trigger] follows_its_parent(
                    members,
                    pool,
                    all,
                    k,
                )
        }),
    decreases MAX_DATASETS + 1 - i,
{
    let all = datasets_below(members, pool, known, i).result->Ok_0;
    if i < known.len() {
        let at = known[i as int];
        law_opening_changes_nothing(members, pool.layout, pool.mos, at, pool.order);
        let names = child_names(members, pool.layout, pool.mos, at, pool.order).result->Ok_0;
        let more = known + paths_below(at, names);
        lemma_datasets(members, pool, more, i + 1);
        assert(all[i as int] == more[i as int]);
        assert(more[i as int] == at);
        assert forall|k: int, path: Seq<Seq<char>>|
            i <= k < all.len() && #[trigger] is_directly_below(
                members,
                pool,
                all[k],
                path,
            ) implies all.contains(path) by {
            if k == i {
                let j = choose|j: int| 0 <= j < names.len() && names[j] == path.last();
                assert(at.push(names[j]) =~= path);
                assert(more[known.len() + j] == path);
                assert(all[known.len() + j] == more[known.len() + j]);
            }
        }
        assert forall|k: int| 0 <= k < known.len() implies #[trigger] all[k] == known[k] by {
            assert(all[k] == more[k]);
        }
        assert forall|k: int| known.len() <= k < all.len() implies #[trigger] follows_its_parent(
            members,
            pool,
            all,
            k,
        ) by {
            if k < more.len() {
                let j = k - known.len();
                assert(all[k] == more[k]);
                assert(more[k] == at.push(names[j]));
                assert(at.push(names[j]).drop_last() =~= at);
                assert(names.contains(names[j]));
                assert(is_directly_below(members, pool, all[i as int], all[k]));
            }
        }
    }
}

/// The list of datasets is complete and has nothing else: it starts with the root dataset,
/// whose path is empty; it has the datasets directly below each of those that it has; and each
/// of the others is below one that comes before it.
pub proof fn law_all_datasets_are_listed<R: BlockRead>(
    members: Seq<PoolMember<R>>,
    pool: PoolView,
    all: Seq<Seq<Seq<char>>>,
)
    requires
        all_stable(members),
        datasets_below(members, pool, seq![Seq::empty()], 0).result == Ok::<
            Seq<Seq<Seq<char>>>,
            Error,
        >(all),
    ensures
        all.len() > 0,
        all[0] == Seq::<Seq<char>>::empty(),
        forall|k: int, path: Seq<Seq<char>>|
            0 <= k < all.len() && #[trigger] is_directly_below(members, pool, all[k], path)
                ==> all.contains(path),
        forall|k: int|
            1 <= k < all.len() ==> #[trigger] follows_its_parent(members, pool, all, k),
{
    let root = seq![Seq::<Seq<char>>::empty()];
    lemma_datasets(members, pool, root, 0);
    assert(all[0] == root[0]);
}

/// A part of a file is as many bytes of its object from `offset` on as the file has there, but
/// no more than asked for, which may be up to 1 GiB however large the file is.
pub proof fn law_parts_of_files<R: BlockRead>(
    members: Seq<PoolMember<R>>,
    pool: PoolView,
    ds: Seq<Seq<char>>,
    path: Seq<Seq<char>>,
    d: DnodeView,
    size: u64,
    offset: u64,
    len: nat,
    n: nat,
)
    requires
        all_stable(members),
        target(members, pool, ds, path).result == Ok::<(EntryKind, DnodeView), Error>(
            (EntryKind::Regular, d),
        ),
        file_size_of(d.bonus, pool.order) == Ok::<u64, Error>(size),
        n == (if offset >= size {
            0int
        } else if offset + len > size {
            size - offset
        } else {
            len as int
        }),
    ensures
        file_window(members, pool, ds, path, offset, len).result == (if n <= 0x4000_0000 {
            read_range(members, pool.layout, d, offset, n, pool.order).result
        } else {
            Err::<Seq<u8>, Error>(Error::FileTooLarge { size, max: 0x4000_0000 })
        }),
        presence(metadata_at(members, pool, ds, path).result) == Ok::<bool, Error>(true),
{
    reveal(file_at);
    reveal(file_window);
    reveal(metadata_at);
    lemma_target_stable(members, pool, ds, path);
}

/// The paths of the datasets directly below the one at `path`, in the order in which they are
/// listed there.
pub open spec fn below<R: BlockRead>(
    members: Seq<PoolMember<R>>,
    pool: PoolView,
    path: Seq<Seq<char>>,
) -> Seq<Seq<Seq<char>>> {
    match child_names(members, pool.layout, pool.mos, path, pool.order).result {
        Ok(names) => names.map_values(|n: Seq<char>| path.push(n)),
        Err(_) => Seq::empty(),
    }
}

proof fn lemma_datasets_exact<R: BlockRead>(
    members: Seq<PoolMember<R>>,
    pool: PoolView,
    known: Seq<Seq<Seq<char>>>,
    i: nat,
)
    requires
        all_stable(members),
        i <= known.len(),
        datasets_below(members, pool, known, i).result is Ok,
    ensures
        ({
            let all = datasets_below(members, pool, known, i).result->Ok_0;
            &&& i <= all.len()
            &&& all == known + all.skip(i as int).map_values(
                |p: Seq<Seq<char>>| below(members, pool, p),
            ).flatten()
        }),
    decreases MAX_DATASETS + 1 - i,
{
    let all = datasets_below(members, pool, known, i).result->Ok_0;
    let f = |p: Seq<Seq<char>>| below(members, pool, p);
    if i >= known.len() {
        assert(all.skip(i as int).map_values(f) =~= Seq::empty());
        assert(all =~= known + Seq::<Seq<Seq<char>>>::empty());
    } else {
        let at = known[i as int];
        law_opening_changes_nothing(members, pool.layout, pool.mos, at, pool.order);
        let names = child_names(members, pool.layout, pool.mos, at, pool.order).result->Ok_0;
        let more = known + paths_below(at, names);
        lemma_datasets_exact(members, pool, more, i + 1);
        let rest = all.skip(i as int + 1).map_values(f);
        assert(all[i as int] == at);
        assert(all.skip(i as int).map_values(f) =~= seq![f(at)] + rest);
        assert((seq![f(at)] + rest).drop_first() =~= rest);
        assert(f(at) == paths_below(at, names));
        assert(more + rest.flatten() =~= known + (paths_below(at, names) + rest.flatten()));
    }
}

/// The list of datasets is the root dataset, and then for each dataset of the list, in order,
/// those directly below it.
pub proof fn law_datasets_are_listed_once<R: BlockRead>(
    members: Seq<PoolMember<R>>,
    pool: PoolView,
    all: Seq<Seq<Seq<char>>>,
)
    requires
        all_stable(members),
        datasets_below(members, pool, seq![Seq::empty()], 0).result == Ok::<
            Seq<Seq<Seq<char>>>,
            Error,
        >(all),
    ensures
        all == seq![Seq::<Seq<char>>::empty()] + all.map_values(
            |p: Seq<Seq<char>>| below(members, pool, p),
        ).flatten(),
{
    lemma_datasets_exact(members, pool, seq![Seq::empty()], 0);
    assert(all.skip(0) =~= all);
}

/// Whether `known` is a part of the list of datasets: it starts with the root dataset, and each
/// of the others is directly below one that comes before it.
pub open spec fn is_known<R: BlockRead>(
    members: Seq<PoolMember<R>>,
    pool: PoolView,
    known: Seq<Seq<Seq<char>>>,
) -> bool {
    &&& known.len() > 0
    &&& known[0] == Seq::<Seq<char>>::empty()
    &&& forall|k: int| 1 <= k < known.len() ==> #[trigger] follows_its_parent(members, pool, known, k)
}

proof fn lemma_datasets_failed<R: BlockRead>(
    members: Seq<PoolMember<R>>,
    pool: PoolView,
    known: Seq<Seq<Seq<char>>>,
    i: nat,
    e: Error,
) -> (all: Seq<Seq<Seq<char>>>)
    requires
        all_stable(members),
        i <= known.len(),
        is_known(members, pool, known),
        datasets_below(members, pool, known, i).result == Err::<Seq<Seq<Seq<char>>>, Error>(e),
    ensures
        is_known(members, pool, all),
        all.len() > 4096 || exists|p: int|
            0 <= p < all.len() && child_names(
                members,
                pool.layout,
                pool.mos,
                #[trigger] all[p],
                pool.order,
            ).result == Err::<Seq<Seq<char>>, Error>(e),
    decreases MAX_DATASETS + 1 - i,
{
    if known.len() > MAX_DATASETS {
        known
    } else {
        let at = known[i as int];
        law_opening_changes_nothing(members, pool.layout, pool.mos, at, pool.order);
        match child_names(members, pool.layout, pool.mos, at, pool.order).result {
            Err(_) => known,
            Ok(names) => {
                let more = known + paths_below(at, names);
                assert forall|k: int| 1 <= k < more.len() implies #[trigger] follows_its_parent(
                    members,
                    pool,
                    more,
                    k,
                ) by {
                    if k < known.len() {
                        assert(follows_its_parent(members, pool, known, k));
                        let p = choose|p: int|
                            0 <= p < k && is_directly_below(
                                members,
                                pool,
                                #[trigger] known[p],
                                known[k],
                            );
                        assert(more[p] == known[p] && more[k] == known[k]);
                    } else {
                        let j = k - known.len();
                        assert(more[k] == at.push(names[j]));
                        assert(at.push(names[j]).drop_last() =~= at);
                        assert(names.contains(names[j]));
                        assert(more[i as int] == at);
                        assert(is_directly_below(members, pool, more[i as int], more[k]));
                    }
                }
                lemma_datasets_failed(members, pool, more, i + 1, e)
            },
        }
    }
}

/// Datasets cannot be listed only if there are more than 4096 of them, or if those below one
/// of them cannot be listed, which is then the error.
pub proof fn law_up_to_4096_datasets_are_listed<R: BlockRead>(
    members: Seq<PoolMember<R>>,
    pool: PoolView,
    e: Error,
)
    requires
        all_stable(members),
        datasets_below(members, pool, seq![Seq::empty()], 0).result == Err::<
            Seq<Seq<Seq<char>>>,
            Error,
        >(e),
    ensures
        exists|known: Seq<Seq<Seq<char>>>| #[trigger]
            is_known(members, pool, known) && (known.len() > 4096 || exists|p: int|
                0 <= p < known.len() && child_names(
                    members,
                    pool.layout,
                    pool.mos,
                    #[trigger] known[p],
                    pool.order,
                ).result == Err::<Seq<Seq<char>>, Error>(e)),
{
    let known = lemma_datasets_failed(members, pool, seq![Seq::empty()], 0, e);
    assert(is_known(members, pool, known));
}

} // verus!
