//! Operations on files and directories by path.

use vstd::prelude::*;

use crate::datetime::DateTime;
use crate::dir::{DirectoryEntry, EntryLocation, FATX_ATTR_DIRECTORY};
#[allow(unused_imports)]
use crate::dir::{is_file_name, EntryView, FATX_DELETED_FILE_MARKER, FATX_END_OF_DIR_MARKER};
use crate::error::Error;
use crate::fat::ClusterId;
use crate::path::VirtualPath;
#[allow(unused_imports)]
use crate::path::PathView;
use crate::volume::FatxFs;
#[allow(unused_imports)]
use crate::volume::FsView;
use crate::walk::{
    alloc_entry, directory_is_empty, mark_end_of_directory, mark_entry_deleted,
};
#[allow(unused_imports)]
use crate::walk::found;

verus! {

impl FsView {
    /// The directory a path lies in, and its name within that.
    pub open spec fn split_parent(self, path: PathView) -> Result<(ClusterId, Seq<u8>), Error> {
        if path.comps.len() == 0 {
            Err(Error::IsRootDirectory)
        } else {
            match self.lookup(path.parent()) {
                Err(e) => Err(e),
                Ok((parent, _)) => if parent.is_directory() {
                    Ok((parent.first_cluster, path.comps.last()))
                } else {
                    Err(Error::NotADirectory)
                },
            }
        }
    }

    /// Put a new entry for an already allocated chain into a directory.
    pub open spec fn link_node(
        self,
        parent: ClusterId,
        name: Seq<u8>,
        attributes: u8,
        cluster: ClusterId,
        now: DateTime,
    ) -> (FsView, Result<(EntryView, EntryLocation), Error>) {
        match self.alloc_entry(parent) {
            (v, Err(e)) => (v, Err(e)),
            (v, Ok(location)) => if !is_file_name(name) {
                (v, Err(Error::InvalidFileName))
            } else {
                let entry = EntryView::new_node(name, attributes, cluster, now, self.geo.variant);
                match v.put_entry(location, entry) {
                    (w, Err(e)) => (w, Err(e)),
                    (w, Ok(())) => (w, Ok((entry, location))),
                }
            },
        }
    }

    /// Create a file or directory that is not there yet.
    ///
    /// Every node owns a cluster from the moment it is created. It is given
    /// back if no entry can be made for it.
    #[verifier::opaque]
    pub open spec fn create_node(self, path: PathView, attributes: u8, now: DateTime) -> (
        FsView,
        Result<(EntryView, EntryLocation), Error>,
    ) {
        if !self.geo.writable {
            (self, Err(Error::ReadOnlyFilesystem))
        } else {
            match self.lookup(path) {
                Ok(_) => (self, Err(Error::AlreadyExists)),
                Err(Error::NotFound) => match self.split_parent(path) {
                    Err(e) => (self, Err(e)),
                    Ok((parent, name)) => match self.alloc_cluster(true) {
                        (v, Err(e)) => (v, Err(e)),
                        (v, Ok(cluster)) => match v.link_node(
                            parent,
                            name,
                            attributes,
                            cluster,
                            now,
                        ) {
                            (w, Ok(node)) => (w.flush_fat(), Ok(node)),
                            (w, Err(e)) => (w.free_cluster_chain(cluster).0.flush_fat(), Err(e)),
                        },
                    },
                },
                Err(e) => (self, Err(e)),
            }
        }
    }

    /// Create a directory. Its first entry is the marker that ends it.
    pub open spec fn mkdir(self, path: PathView, now: DateTime) -> (FsView, Result<(), Error>) {
        match self.create_node(path, FATX_ATTR_DIRECTORY, now) {
            (v, Err(e)) => (v, Err(e)),
            (v, Ok((entry, _))) => v.put_marker(
                EntryLocation { cluster: entry.first_cluster, index: 0 },
                FATX_END_OF_DIR_MARKER,
            ),
        }
    }

    /// Give back the clusters of a node and delete its entry.
    pub open spec fn remove(self, entry: EntryView, location: EntryLocation) -> (
        FsView,
        Result<(), Error>,
    ) {
        let freed = if entry.first_cluster != 0 {
            self.free_cluster_chain(entry.first_cluster)
        } else {
            (self, Ok(()))
        };
        match freed {
            (v, Err(e)) => (v, Err(e)),
            (v, Ok(())) => match v.put_marker(location, FATX_DELETED_FILE_MARKER) {
                (w, Err(e)) => (w, Err(e)),
                (w, Ok(())) => (w.flush_fat(), Ok(())),
            },
        }
    }

    /// Remove a file.
    pub open spec fn unlink(self, path: PathView) -> (FsView, Result<(), Error>) {
        if !self.geo.writable {
            (self, Err(Error::ReadOnlyFilesystem))
        } else {
            match self.lookup(path) {
                Err(e) => (self, Err(e)),
                Ok((_, None)) => (self, Err(Error::IsRootDirectory)),
                Ok((entry, Some(location))) => if entry.is_directory() {
                    (self, Err(Error::IsADirectory))
                } else {
                    self.remove(entry, location)
                },
            }
        }
    }

    /// Remove an empty directory.
    pub open spec fn rmdir(self, path: PathView) -> (FsView, Result<(), Error>) {
        if !self.geo.writable {
            (self, Err(Error::ReadOnlyFilesystem))
        } else {
            match self.lookup(path) {
                Err(e) => (self, Err(e)),
                Ok((_, None)) => (self, Err(Error::IsRootDirectory)),
                Ok((entry, Some(location))) => if !entry.is_directory() {
                    (self, Err(Error::NotADirectory))
                } else {
                    match self.directory_is_empty(entry.first_cluster) {
                        Err(e) => (self, Err(e)),
                        Ok(false) => (self, Err(Error::DirectoryNotEmpty)),
                        Ok(true) => self.remove(entry, location),
                    }
                },
            }
        }
    }

    /// The entry of a file that owns a cluster, which it is given if need be.
    pub open spec fn ensure_first_cluster(self, entry: EntryView) -> (
        FsView,
        Result<EntryView, Error>,
    ) {
        if entry.first_cluster != 0 {
            (self, Ok(entry))
        } else {
            match self.alloc_cluster(true) {
                (v, Err(e)) => (v, Err(e)),
                (v, Ok(cluster)) => (v, Ok(entry.starting_at(cluster))),
            }
        }
    }

    /// Set the length of a file, padding with zeroes if it grows.
    pub open spec fn truncate(self, path: PathView, size: u64, now: DateTime) -> (
        FsView,
        Result<(), Error>,
    ) {
        if !self.geo.writable {
            (self, Err(Error::ReadOnlyFilesystem))
        } else {
            match self.lookup(path) {
                Err(e) => (self, Err(e)),
                Ok((_, None)) => (self, Err(Error::IsADirectory)),
                Ok((entry, Some(location))) => if entry.is_directory() {
                    (self, Err(Error::IsADirectory))
                } else if size > u32::MAX {
                    (self, Err(Error::FileTooLarge))
                } else {
                    self.truncate_entry(entry, location, size as u32, now)
                },
            }
        }
    }

    /// Set the length of the file with a given entry.
    pub open spec fn truncate_entry(
        self,
        entry: EntryView,
        location: EntryLocation,
        size: u32,
        now: DateTime,
    ) -> (FsView, Result<(), Error>) {
        match self.ensure_first_cluster(entry) {
            (v, Err(e)) => (v, Err(e)),
            (v, Ok(owner)) => match v.resize_chain(
                owner.first_cluster,
                owner.file_size as nat,
                size as nat,
            ) {
                (w, Err(e)) => (w, Err(e)),
                (w, Ok(())) => match w.put_entry(
                    location,
                    owner.sized(size).modified_at(now, self.geo.variant),
                ) {
                    (x, Err(e)) => (x, Err(e)),
                    (x, Ok(())) => (x.flush_fat(), Ok(())),
                },
            },
        }
    }

    /// Take away whatever is at a path, if anything is.
    pub open spec fn replace(self, path: PathView) -> (FsView, Result<(), Error>) {
        match self.lookup(path) {
            Ok((existing, _)) => if existing.is_directory() {
                self.rmdir(path)
            } else {
                self.unlink(path)
            },
            Err(Error::NotFound) => (self, Ok(())),
            Err(e) => (self, Err(e)),
        }
    }

    /// Put an entry in a new place in place of whatever is at a path, and
    /// delete it from the old one.
    pub open spec fn move_entry(
        self,
        entry: EntryView,
        from_location: EntryLocation,
        to: PathView,
        to_parent: ClusterId,
    ) -> (FsView, Result<(), Error>) {
        match self.alloc_entry(to_parent) {
            (v, Err(e)) => (v, Err(e)),
            (v, Ok(to_location)) => match v.replace(to) {
                (w, Err(e)) => (w, Err(e)),
                (w, Ok(())) => match w.put_entry(to_location, entry) {
                    (x, Err(e)) => (x, Err(e)),
                    (x, Ok(())) => match x.put_marker(from_location, FATX_DELETED_FILE_MARKER) {
                        (y, Err(e)) => (y, Err(e)),
                        (y, Ok(())) => (y.flush_fat(), Ok(())),
                    },
                },
            },
        }
    }

    /// Move or rename a file or directory, replacing the destination if it
    /// already exists.
    pub open spec fn rename(self, from: PathView, to: PathView) -> (FsView, Result<(), Error>) {
        if !self.geo.writable {
            (self, Err(Error::ReadOnlyFilesystem))
        } else if from == to {
            (self, Ok(()))
        } else {
            match self.lookup(from) {
                Err(e) => (self, Err(e)),
                Ok((_, None)) => (self, Err(Error::IsRootDirectory)),
                Ok((entry, Some(from_location))) => if entry.is_directory() && to.starts_with(
                    from,
                ) {
                    (self, Err(Error::InvalidRename))
                } else {
                    match self.split_parent(to) {
                        Err(e) => (self, Err(e)),
                        Ok((to_parent, to_name)) => if !is_file_name(to_name) {
                            (self, Err(Error::InvalidFileName))
                        } else {
                            self.move_entry(entry.renamed(to_name), from_location, to, to_parent)
                        },
                    }
                },
            }
        }
    }

    /// Overwrite the timestamps of an existing node.
    pub open spec fn set_times(
        self,
        path: PathView,
        accessed: Option<DateTime>,
        modified: Option<DateTime>,
    ) -> (FsView, Result<(), Error>) {
        if !self.geo.writable {
            (self, Err(Error::ReadOnlyFilesystem))
        } else {
            match self.lookup(path) {
                Err(e) => (self, Err(e)),
                Ok((_, None)) => (self, Err(Error::IsRootDirectory)),
                Ok((entry, Some(location))) => {
                    let entry = match accessed {
                        Some(dt) => entry.accessed_at(dt, self.geo.variant),
                        None => entry,
                    };
                    let entry = match modified {
                        Some(dt) => entry.modified_at(dt, self.geo.variant),
                        None => entry,
                    };
                    self.put_entry(location, entry)
                },
            }
        }
    }
}

/// A filesystem that was not opened for writing refuses every change, and
/// stays as it is.
pub proof fn law_read_only_stays_as_it_is(
    v: FsView,
    path: PathView,
    to: PathView,
    attributes: u8,
    size: u64,
    now: DateTime,
    accessed: Option<DateTime>,
    modified: Option<DateTime>,
    cluster: ClusterId,
    zero: bool,
)
    requires
        !v.geo.writable,
    ensures
        v.create_node(path, attributes, now) == (
            v,
            Err::<(EntryView, EntryLocation), Error>(Error::ReadOnlyFilesystem),
        ),
        v.mkdir(path, now) == (v, Err::<(), Error>(Error::ReadOnlyFilesystem)),
        v.unlink(path) == (v, Err::<(), Error>(Error::ReadOnlyFilesystem)),
        v.rmdir(path) == (v, Err::<(), Error>(Error::ReadOnlyFilesystem)),
        v.truncate(path, size, now) == (v, Err::<(), Error>(Error::ReadOnlyFilesystem)),
        v.rename(path, to) == (v, Err::<(), Error>(Error::ReadOnlyFilesystem)),
        v.set_times(path, accessed, modified) == (
            v,
            Err::<(), Error>(Error::ReadOnlyFilesystem),
        ),
        v.alloc_cluster(zero) == (v, Err::<ClusterId, Error>(Error::ReadOnlyFilesystem)),
        v.grow_chain(cluster) == (v, Err::<ClusterId, Error>(Error::ReadOnlyFilesystem)),
        v.free_cluster_chain(cluster) == (v, Err::<(), Error>(Error::ReadOnlyFilesystem)),
{
    reveal(FsView::create_node);
    reveal(FsView::grow_chain);
    reveal(FsView::free_cluster_chain);
}

/// How much room there is on a filesystem.
#[derive(Debug, Clone, Copy, PartialEq, Eq, Structural)]
pub struct Space {
    pub bytes_per_cluster: u64,
    pub total_bytes: u64,
    pub free_bytes: u64,
}

impl Space {
    /// How much of the room is taken.
    pub fn used_bytes(&self) -> (n: u64)
        requires
            self.free_bytes <= self.total_bytes,
        ensures
            n == self.total_bytes - self.free_bytes,
    {
        self.total_bytes - self.free_bytes
    }
}

impl FsView {
    /// How many clusters can ever be handed out.
    pub open spec fn allocatable(self) -> nat {
        if self.alloc_end() < 2 {
            0
        } else {
            (self.alloc_end() - 2) as nat
        }
    }

    pub open spec fn is_space(self, space: Space) -> bool {
        &&& space.bytes_per_cluster == self.bpc()
        &&& space.total_bytes == self.allocatable() * self.bpc()
        &&& space.free_bytes == self.count_free(2, self.alloc_end()) * self.bpc()
    }
}

/// No more clusters are free than there are.
pub proof fn lemma_count_free(v: FsView, from: u32, to: u32)
    ensures
        from <= to ==> v.count_free(from, to) <= to - from,
        from >= to ==> v.count_free(from, to) == 0,
    decreases to - from,
{
    if from < to {
        lemma_count_free(v, (from + 1) as u32, to);
    }
}

impl FatxFs {
    /// Resolve the parent directory of a path, and the name within it.
    fn split_parent(&self, path: &VirtualPath) -> (r: Result<(ClusterId, Vec<u8>), Error>)
        requires
            self.inv(),
        ensures
            (match r {
                Err(e) => Err(e),
                Ok((parent, name)) => Ok((parent, name@)),
            }) == self@.split_parent(path@),
    {
        let n: usize = path.len();
        if n == 0 {
            return Err(Error::IsRootDirectory);
        }
        let parent = DirectoryEntry::from_path(self, &path.parent())?;
        if !parent.is_directory() {
            return Err(Error::NotADirectory);
        }
        Ok((parent.first_cluster(), crate::bytes::to_vec(path.component(n - 1))))
    }

    /// Put a new entry for an already allocated chain into a directory.
    fn link_node(
        &mut self,
        parent_cluster: ClusterId,
        name: &[u8],
        attributes: u8,
        cluster: ClusterId,
        now: &DateTime,
    ) -> (r: Result<(DirectoryEntry, EntryLocation), Error>)
        requires
            old(self).inv(),
        ensures
            final(self).inv(),
            (final(self)@, found(r)) == old(self)@.link_node(
                parent_cluster,
                name@,
                attributes,
                cluster,
                *now,
            ),
            r matches Ok((_, location)) ==> location.index < old(self)@.epc(),
            final(self)@.geo == old(self)@.geo,
            final(self).marked() == old(self).marked(),
    {
        let location = alloc_entry(self, parent_cluster)?;
        let entry = DirectoryEntry::new_node(
            name,
            attributes,
            cluster,
            now,
            self.geometry().variant,
        )?;
        entry.write_at(self, location)?;
        Ok((entry, location))
    }

    /// Create a file or directory and return its entry.
    pub fn create_node(&mut self, path: &VirtualPath, attributes: u8, now: &DateTime) -> (r: Result<
        (DirectoryEntry, EntryLocation),
        Error,
    >)
        requires
            old(self).inv(),
        ensures
            final(self).inv(),
            (final(self)@, found(r)) == old(self)@.create_node(path@, attributes, *now),
            r matches Ok((_, location)) ==> location.index < old(self)@.epc(),
            final(self)@.geo == old(self)@.geo,
            final(self).marked() == old(self).marked(),
    {
        proof {
            reveal(FsView::create_node);
        }
        self.ensure_writable()?;
        match DirectoryEntry::lookup(self, path) {
            Ok(_) => {
                return Err(Error::AlreadyExists);
            },
            Err(Error::NotFound) => {},
            Err(err) => {
                return Err(err);
            },
        }
        let (parent_cluster, name) = self.split_parent(path)?;

        // Every node owns a cluster from the moment it is created, as the
        // consoles' own filesystem does: a directory needs one to hold its end
        // marker, and giving files one too keeps the chain walk uniform.
        let cluster: ClusterId = self.alloc_cluster(true)?;
        assert(self@.geo == old(self)@.geo);

        let result = self.link_node(parent_cluster, &name, attributes, cluster, now);
        if result.is_err() {
            // Give the cluster back rather than leaking it.
            let ghost before = self@;
            let _ = self.free_cluster_chain(cluster);
            proof {
                lemma_free_keeps_geo(before, cluster);
            }
        }
        self.flush_fat()?;
        result
    }

    /// Create a directory.
    pub fn mkdir(&mut self, path: &VirtualPath, now: &DateTime) -> (r: Result<(), Error>)
        requires
            old(self).inv(),
        ensures
            final(self).inv(),
            (final(self)@, r) == old(self)@.mkdir(path@, *now),
            final(self).marked() == old(self).marked(),
    {
        proof {
            self.lemma_inv();
        }
        let (dirent, _) = self.create_node(path, FATX_ATTR_DIRECTORY, now)?;

        // The cluster was allocated zeroed, which already reads as the end of
        // the directory, but the marker is written explicitly so that the
        // bytes on disk match what the consoles write.
        mark_end_of_directory(
            self,
            EntryLocation { cluster: dirent.first_cluster(), index: 0 },
        )
    }

    /// Give back the clusters of a node and delete its entry.
    fn remove(&mut self, dirent: &DirectoryEntry, location: EntryLocation) -> (r: Result<(), Error>)
        requires
            old(self).inv(),
            location.index < old(self)@.epc(),
        ensures
            final(self).inv(),
            (final(self)@, r) == old(self)@.remove(dirent@, location),
            final(self)@.geo == old(self)@.geo,
            final(self).marked() == old(self).marked(),
    {
        // An empty file written by another tool may own no cluster at all,
        // and there would be no chain to give back.
        if dirent.first_cluster() != 0 {
            proof {
                lemma_free_keeps_geo(self@, dirent@.first_cluster);
            }
            self.free_cluster_chain(dirent.first_cluster())?;
        }
        mark_entry_deleted(self, location)?;
        self.flush_fat()
    }

    /// Remove a file.
    pub fn unlink(&mut self, path: &VirtualPath) -> (r: Result<(), Error>)
        requires
            old(self).inv(),
        ensures
            final(self).inv(),
            (final(self)@, r) == old(self)@.unlink(path@),
            final(self)@.geo == old(self)@.geo,
            final(self).marked() == old(self).marked(),
    {
        self.ensure_writable()?;
        let (dirent, location) = DirectoryEntry::lookup(self, path)?;
        let location = match location {
            Some(location) => location,
            None => {
                return Err(Error::IsRootDirectory);
            },
        };
        if dirent.is_directory() {
            return Err(Error::IsADirectory);
        }
        self.remove(&dirent, location)
    }

    /// Remove an empty directory.
    pub fn rmdir(&mut self, path: &VirtualPath) -> (r: Result<(), Error>)
        requires
            old(self).inv(),
        ensures
            final(self).inv(),
            (final(self)@, r) == old(self)@.rmdir(path@),
            final(self)@.geo == old(self)@.geo,
            final(self).marked() == old(self).marked(),
    {
        self.ensure_writable()?;
        let (dirent, location) = DirectoryEntry::lookup(self, path)?;
        let location = match location {
            Some(location) => location,
            None => {
                return Err(Error::IsRootDirectory);
            },
        };
        if !dirent.is_directory() {
            return Err(Error::NotADirectory);
        }
        if !directory_is_empty(self, dirent.first_cluster())? {
            return Err(Error::DirectoryNotEmpty);
        }
        self.remove(&dirent, location)
    }

    /// Give a file a first cluster if it does not have one.
    ///
    /// Files this library creates always own a cluster, but an empty file
    /// written by another tool may have none, and a chain has to start
    /// somewhere before anything can be written to it.
    pub fn ensure_first_cluster(&mut self, dirent: &mut DirectoryEntry) -> (r: Result<
        ClusterId,
        Error,
    >)
        requires
            old(self).inv(),
        ensures
            final(self).inv(),
            match (r, old(self)@.ensure_first_cluster(old(dirent)@)) {
                (Ok(cluster), (v, Ok(owner))) => {
                    &&& final(self)@ == v
                    &&& final(dirent)@ == owner
                    &&& cluster == owner.first_cluster
                },
                (Err(e), (v, Err(error))) => {
                    &&& final(self)@ == v
                    &&& *final(dirent) == *old(dirent)
                    &&& e == error
                },
                _ => false,
            },
            final(self)@.geo == old(self)@.geo,
            final(self).marked() == old(self).marked(),
    {
        let cluster: ClusterId = dirent.first_cluster();
        if cluster != 0 {
            return Ok(cluster);
        }
        let cluster: ClusterId = self.alloc_cluster(true)?;
        dirent.set_first_cluster(cluster);
        Ok(cluster)
    }

    /// Grow or shrink a file, and update its entry.
    pub fn truncate(&mut self, path: &VirtualPath, size: u64, now: &DateTime) -> (r: Result<
        (),
        Error,
    >)
        requires
            old(self).inv(),
        ensures
            final(self).inv(),
            (final(self)@, r) == old(self)@.truncate(path@, size, *now),
            final(self).marked() == old(self).marked(),
    {
        self.ensure_writable()?;
        let (dirent, location) = DirectoryEntry::lookup(self, path)?;
        let location = match location {
            Some(location) => location,
            None => {
                return Err(Error::IsADirectory);
            },
        };
        if dirent.is_directory() {
            return Err(Error::IsADirectory);
        }
        if size > u32::MAX as u64 {
            return Err(Error::FileTooLarge);
        }
        self.truncate_entry(dirent, location, size as u32, now)
    }

    /// Grow or shrink the file with a given entry.
    fn truncate_entry(
        &mut self,
        dirent: DirectoryEntry,
        location: EntryLocation,
        size: u32,
        now: &DateTime,
    ) -> (r: Result<(), Error>)
        requires
            old(self).inv(),
            location.index < old(self)@.epc(),
        ensures
            final(self).inv(),
            (final(self)@, r) == old(self)@.truncate_entry(dirent@, location, size, *now),
            final(self).marked() == old(self).marked(),
    {
        let mut dirent: DirectoryEntry = dirent;
        let old_size: u64 = dirent.file_size() as u64;
        let first_cluster: ClusterId = self.ensure_first_cluster(&mut dirent)?;
        proof {
            lemma_resize_keeps_geo(self@, first_cluster, old_size as nat, size as nat);
        }
        self.resize_chain(first_cluster, old_size, size as u64)?;
        dirent.set_file_size(size);
        dirent.set_modified(now, self.geometry().variant);
        dirent.write_at(self, location)?;
        self.flush_fat()
    }

    /// Take away whatever is at a path, if anything is.
    fn replace(&mut self, path: &VirtualPath) -> (r: Result<(), Error>)
        requires
            old(self).inv(),
        ensures
            final(self).inv(),
            (final(self)@, r) == old(self)@.replace(path@),
            final(self)@.geo == old(self)@.geo,
            final(self).marked() == old(self).marked(),
    {
        match DirectoryEntry::lookup(self, path) {
            Ok((existing, _)) => {
                if existing.is_directory() {
                    self.rmdir(path)
                } else {
                    self.unlink(path)
                }
            },
            Err(Error::NotFound) => Ok(()),
            Err(err) => Err(err),
        }
    }

    /// Move or rename a file or directory.
    ///
    /// The entry is copied to its new home and the old one marked deleted; the
    /// cluster chain itself is untouched, so the contents never move.
    pub fn rename(&mut self, from: &VirtualPath, to: &VirtualPath) -> (r: Result<(), Error>)
        requires
            old(self).inv(),
        ensures
            final(self).inv(),
            (final(self)@, r) == old(self)@.rename(from@, to@),
            final(self).marked() == old(self).marked(),
    {
        self.ensure_writable()?;
        if from.same(to) {
            return Ok(());
        }
        let (mut dirent, from_location) = DirectoryEntry::lookup(self, from)?;
        let from_location = match from_location {
            Some(location) => location,
            None => {
                return Err(Error::IsRootDirectory);
            },
        };

        // Moving a directory into itself would detach it from the tree.
        if dirent.is_directory() && to.starts_with(from) {
            return Err(Error::InvalidRename);
        }
        let (to_parent_cluster, to_name) = self.split_parent(to)?;
        dirent.set_file_name(&to_name)?;
        self.move_entry(&dirent, from_location, to, to_parent_cluster)
    }

    /// Put an entry in a new place in place of whatever is at a path, and
    /// delete it from the old one.
    fn move_entry(
        &mut self,
        dirent: &DirectoryEntry,
        from_location: EntryLocation,
        to: &VirtualPath,
        to_parent_cluster: ClusterId,
    ) -> (r: Result<(), Error>)
        requires
            old(self).inv(),
            from_location.index < old(self)@.epc(),
        ensures
            final(self).inv(),
            (final(self)@, r) == old(self)@.move_entry(
                dirent@,
                from_location,
                to@,
                to_parent_cluster,
            ),
            final(self).marked() == old(self).marked(),
    {
        // Claim a slot for the new entry before touching anything else. The
        // claim is what can run the filesystem out of space, and doing it
        // first means a full disk leaves both ends of the rename intact rather
        // than taking the destination away and then failing.
        let to_location = alloc_entry(self, to_parent_cluster)?;

        // Replace whatever is already at the destination.
        self.replace(to)?;

        dirent.write_at(self, to_location)?;

        // Only the entry is removed: the chain now belongs to the new entry.
        mark_entry_deleted(self, from_location)?;
        self.flush_fat()
    }

    /// Overwrite the timestamps of an existing node.
    pub fn set_times(
        &mut self,
        path: &VirtualPath,
        accessed: Option<DateTime>,
        modified: Option<DateTime>,
    ) -> (r: Result<(), Error>)
        requires
            old(self).inv(),
        ensures
            final(self).inv(),
            (final(self)@, r) == old(self)@.set_times(path@, accessed, modified),
            final(self).marked() == old(self).marked(),
    {
        self.ensure_writable()?;
        let (mut dirent, location) = DirectoryEntry::lookup(self, path)?;
        let location = match location {
            Some(location) => location,
            None => {
                return Err(Error::IsRootDirectory);
            },
        };
        let variant = self.geometry().variant;
        if let Some(dt) = accessed {
            dirent.set_accessed(&dt, variant);
        }
        if let Some(dt) = modified {
            dirent.set_modified(&dt, variant);
        }
        dirent.write_at(self, location)
    }

    /// How much room there is.
    pub fn space(&self) -> (space: Space)
        requires
            self.inv(),
        ensures
            self@.is_space(space),
            space.free_bytes <= space.total_bytes,
    {
        proof {
            self.lemma_inv();
            lemma_count_free(self@, 2, self@.alloc_end());
        }
        let geo = self.geometry();
        let entries: u32 = self.num_fat_entries();
        let last: u32 = if geo.num_clusters <= entries {
            geo.num_clusters
        } else {
            entries
        };
        let total: u32 = if last < 2 {
            0
        } else {
            last - 2
        };
        let free: u32 = self.count_free();
        let bpc: u64 = geo.num_bytes_per_cluster;
        assert(0 <= free * bpc <= total * bpc <= 0xffff_ffff * 524288) by (nonlinear_arith)
            requires
                free <= total <= 0xffff_ffff,
                0 <= bpc <= 524288,
        ;
        Space {
            bytes_per_cluster: bpc,
            total_bytes: total as u64 * bpc,
            free_bytes: free as u64 * bpc,
        }
    }
}

proof fn lemma_free_links_keeps_geo(v: FsView, cluster: ClusterId, left: nat)
    ensures
        v.free_links(cluster, left).0.geo == v.geo,
        v.free_links(cluster, left).0.dev == v.dev,
    decreases left,
{
    if left > 0 {
        match v.next_cluster(cluster) {
            Ok(Some(n)) => {
                let w = FsView {
                    fat: v.fat.set(cluster, crate::fat::FatEntry::Available, v.geo.variant).0,
                    hint: if cluster < v.hint {
                        cluster
                    } else {
                        v.hint
                    },
                    ..v
                };
                lemma_free_links_keeps_geo(w, n, (left - 1) as nat);
            },
            _ => {},
        }
    }
}

/// Freeing a chain neither moves anything nor touches the device.
pub proof fn lemma_free_keeps_geo(v: FsView, first: ClusterId)
    ensures
        v.free_cluster_chain(first).0.geo == v.geo,
        v.free_cluster_chain(first).0.dev == v.dev,
{
    reveal(FsView::free_cluster_chain);
    lemma_free_links_keeps_geo(v, first, v.fat.entries + 1);
}

proof fn lemma_wipe_on_keeps_geo(
    v: FsView,
    cluster: ClusterId,
    k: nat,
    n: nat,
    old_size: nat,
    size: nat,
)
    ensures
        v.wipe_on(cluster, k, n, old_size, size).0.geo == v.geo,
    decreases n - k,
{
    if k < n {
        match v.wipe(cluster, k, old_size, size) {
            (w, Ok(())) => match w.next_cluster(cluster) {
                Ok(Some(next)) => lemma_wipe_on_keeps_geo(w, next, k + 1, n, old_size, size),
                _ => {},
            },
            _ => {},
        }
    }
}

pub proof fn lemma_resize_keeps_geo(v: FsView, first: ClusterId, old_size: nat, size: nat)
    ensures
        v.resize_chain(first, old_size, size).0.geo == v.geo,
{
    reveal(FsView::resize_chain);
    let wanted = v.clusters_for(size);
    crate::file::lemma_advance_keeps_geo(v, first, (wanted - 1) as nat, true);
    match v.advance(first, (wanted - 1) as nat, true) {
        (x, Ok(last)) => {
            match x.next_cluster(last) {
                Ok(Some(next)) => {
                    lemma_free_keeps_geo(x, next);
                },
                _ => {},
            }
            lemma_wipe_on_keeps_geo(
                x.cut_chain(last).0,
                first,
                0,
                v.held(first, wanted),
                old_size,
                size,
            );
        },
        _ => {},
    }
}

} // verus!
