//! The requests a mounted filesystem answers.
//!
//! Every request is made of the number of a node, or of that of a directory and
//! a name in it. A request that needs more of the device than has been loaded
//! changes nothing and says which part it needs; it is to be made again once
//! that part has been loaded.

use vstd::prelude::*;

use crate::attr::{dirent_to_attr, list_directory, page_from, statfs, Attributes, Listed, StatFs};
#[allow(unused_imports)]
use crate::attr::is_page;
use crate::datetime::DateTime;
use crate::device::DeviceWrite;
#[allow(unused_imports)]
use crate::device::DeviceView;
use crate::dir::DirectoryEntry;
#[allow(unused_imports)]
use crate::dir::EntryView;
#[allow(unused_imports)]
use crate::disk::{
    drained, lemma_create_follows, lemma_follows, lemma_mkdir_follows, lemma_set_times_follows,
    lemma_truncate_follows,
};
use crate::error::{Errno, Error, ErrorKind, IoError};
#[allow(unused_imports)]
use crate::error::wants_more;
use crate::file::SeekFrom;
#[allow(unused_imports)]
use crate::file::FileView;
use crate::fs::{error_of, FatxFsHandle};
#[allow(unused_imports)]
use crate::fs::{named, settled};
use crate::inode::{child_path, Inode, InodeTracker};
#[allow(unused_imports)]
use crate::inode::{is_dir_name, joined, without_path, TrackerView};
use crate::ops::Space;
use crate::path::VirtualPath;
#[allow(unused_imports)]
use crate::path::PathView;
#[allow(unused_imports)]
use crate::volume::FsView;
#[allow(unused_imports)]
use crate::walk::{entry_views, lemma_collected};

verus! {

/// Why a request has not been done.
#[derive(Debug, Clone, Copy, PartialEq, Eq, Structural)]
pub enum Stop {
    /// Part of the device has to be loaded, and the request made again.
    Load { offset: u64, len: u64 },
    /// The answer is an error.
    Answer(Errno),
}

/// What stops a request that has failed, where a failure proper is answered
/// with a given error.
pub open spec fn stopped(e: Error, errno: Errno) -> Stop {
    match e {
        Error::Io(IoError::NotLoaded { offset, len }) => Stop::Load { offset, len },
        _ => Stop::Answer(errno),
    }
}

fn stop(e: Error, errno: Errno) -> (s: Stop)
    ensures
        s == stopped(e, errno),
{
    match e {
        Error::Io(IoError::NotLoaded { offset, len }) => Stop::Load { offset, len },
        _ => Stop::Answer(errno),
    }
}

/// What a driver holds: the filesystem, and which number stands for which path.
#[verifier::ext_equal]
pub struct DriverView {
    pub fs: FsView,
    pub inodes: TrackerView,
}

impl FsView {
    /// The entry of a path.
    pub open spec fn entry_of(self, path: PathView) -> Result<EntryView, Error> {
        match self.lookup(path) {
            Err(e) => Err(e),
            Ok((e, _)) => Ok(e),
        }
    }

    /// Create an empty file, and look its entry up.
    pub open spec fn create_entry(self, path: PathView, now: DateTime) -> (
        FsView,
        Result<EntryView, Error>,
    ) {
        match self.create(path, now) {
            (v, Err(e)) => (v, Err(e)),
            (v, Ok(_)) => (v, v.entry_of(path)),
        }
    }

    /// Create a directory, and look its entry up.
    pub open spec fn mkdir_entry(self, path: PathView, now: DateTime) -> (
        FsView,
        Result<EntryView, Error>,
    ) {
        match self.mkdir(path, now) {
            (v, Err(e)) => (v, Err(e)),
            (v, Ok(())) => (v, v.entry_of(path)),
        }
    }

    /// Give a node a new size, if one is asked for.
    pub open spec fn resize_entry(self, path: PathView, size: Option<u64>, now: DateTime) -> (
        FsView,
        Result<(), Error>,
    ) {
        match size {
            None => (self, Ok(())),
            Some(size) => self.truncate(path, size, now),
        }
    }

    /// Give a node new timestamps, if any are asked for. The root directory has
    /// no entry of its own to keep them in, so there is nothing to write then.
    pub open spec fn touch_entry(
        self,
        path: PathView,
        accessed: Option<DateTime>,
        modified: Option<DateTime>,
    ) -> (FsView, Result<(), Error>) {
        if accessed is None && modified is None {
            (self, Ok(()))
        } else {
            match self.set_times(path, accessed, modified) {
                (v, Err(Error::IsRootDirectory)) => (v, Ok(())),
                (v, r) => (v, r),
            }
        }
    }

    /// Give a node a new size and new timestamps, as far as they are asked for,
    /// and look its entry up.
    pub open spec fn change_entry(
        self,
        path: PathView,
        size: Option<u64>,
        accessed: Option<DateTime>,
        modified: Option<DateTime>,
        now: DateTime,
    ) -> (FsView, Result<EntryView, Error>) {
        match self.resize_entry(path, size, now) {
            (v, Err(e)) => (v, Err(e)),
            (v, Ok(())) => match v.touch_entry(path, accessed, modified) {
                (w, Err(e)) => (w, Err(e)),
                (w, Ok(())) => (w, w.entry_of(path)),
            },
        }
    }

    /// Read from a file.
    pub open spec fn read_file(self, path: PathView, offset: u64, want: nat) -> Result<
        Seq<u8>,
        Error,
    > {
        match self.open(path) {
            Err(e) => Err(e),
            Ok(f) => match f.seek(SeekFrom::Start(offset)) {
                (_, Err(e)) => Err(e),
                (g, Ok(_)) => g.read(self, want).1,
            },
        }
    }

    /// Write to a file.
    pub open spec fn write_file(self, path: PathView, offset: u64, data: Seq<u8>, now: DateTime) -> (
        FsView,
        Result<(), Stop>,
    ) {
        match self.open(path) {
            Err(e) => (self, Err(stopped(e, e.spec_kind().spec_errno()))),
            Ok(f) => match f.seek(SeekFrom::Start(offset)) {
                (_, Err(e)) => (self, Err(stopped(e, e.spec_kind().spec_errno()))),
                (g, Ok(_)) => match g.write_all(self, data, now) {
                    (_, v, Err(kind)) => (v, Err(Stop::Answer(kind.spec_errno()))),
                    (_, v, Ok(())) => (v, Ok(())),
                },
            },
        }
    }

    /// List a directory.
    pub open spec fn entries_of(self, path: PathView) -> Result<Seq<EntryView>, Error> {
        match self.read_dir(path) {
            Err(e) => Err(e),
            Ok(it) => it.collect(self),
        }
    }
}

impl FileView {
    /// Write some bytes, as often as it takes. A write that puts nothing down
    /// at all is a failure too.
    pub open spec fn write_all(self, v: FsView, data: Seq<u8>, now: DateTime) -> (
        FileView,
        FsView,
        Result<(), ErrorKind>,
    )
        decreases data.len(),
    {
        if data.len() == 0 {
            (self, v, Ok(()))
        } else {
            match self.write(v, data, now) {
                (g, w, Err(e)) => (g, w, Err(e.spec_kind())),
                (g, w, Ok(n)) => if n == 0 || n > data.len() {
                    (g, w, Err(ErrorKind::Other))
                } else {
                    g.write_all(w, data.skip(n as int), now)
                },
            }
        }
    }
}

impl DriverView {
    /// The path of a name in a directory that is known by its number.
    pub open spec fn child(self, parent: Inode, name: Seq<char>) -> Option<Seq<char>> {
        if self.inodes.paths.contains_key(parent) {
            Some(joined(self.inodes.paths[parent], name))
        } else {
            None
        }
    }

    /// Whether the path of a name in a directory, if that is known, is one that
    /// what lies beneath it can be told by.
    pub open spec fn can_move(self, parent: Inode, name: Seq<char>) -> bool {
        self.child(parent, name) matches Some(path) ==> is_dir_name(path)
    }

    /// Whether an answer tells of a node that has been looked up: its number,
    /// which it is given if it has none yet, and its attributes.
    pub open spec fn tells_of(
        self,
        path: Seq<char>,
        entry: EntryView,
        after: TrackerView,
        r: Result<Attributes, Stop>,
        otherwise: Errno,
    ) -> bool {
        let (inodes, ino) = self.inodes.numbered(path);
        &&& after == inodes
        &&& match r {
            Ok(attr) => attr.describes(ino, entry, self.fs.geo.variant),
            Err(s) => entry.node_kind() is None && s == Stop::Answer(otherwise),
        }
    }

    /// Whether an answer is the one to a request that ends in looking up an
    /// entry.
    pub open spec fn answers(
        self,
        path: Seq<char>,
        outcome: (FsView, Result<EntryView, Error>),
        after: DriverView,
        r: Result<Attributes, Stop>,
    ) -> bool {
        &&& after.fs == settled(self.fs, outcome).0
        &&& match outcome.1 {
            Err(e) => {
                &&& after.inodes == self.inodes
                &&& r == Err::<Attributes, Stop>(stopped(e, e.spec_errno()))
            },
            Ok(e) => self.tells_of(path, e, after.inodes, r, Errno::Eio),
        }
    }
}

/// A mounted filesystem.
pub struct Driver {
    fatx: FatxFsHandle,
    inodes: InodeTracker,
}

impl Driver {
    pub closed spec fn view(self) -> DriverView {
        DriverView { fs: self.fatx@, inodes: self.inodes@ }
    }

    pub closed spec fn inv(self) -> bool {
        self.fatx.inv() && self.inodes@.wf()
    }

    pub fn new(fatx: FatxFsHandle) -> (driver: Self)
        requires
            fatx.inv(),
        ensures
            driver.inv(),
            driver@ == (DriverView {
                fs: fatx@,
                inodes: TrackerView { paths: map![1u64 => "/"@], next: 2 },
            }),
    {
        Self { fatx, inodes: InodeTracker::new() }
    }

    /// Whether there are more numbers left than a directory can have entries.
    pub fn has_numbers(&self) -> (b: bool)
        ensures
            b == self@.inodes.has_numbers(),
    {
        self.inodes.has_numbers()
    }

    /// Take in one sector of the real device. Writes that are waiting have to
    /// be carried out first.
    pub fn load(&mut self, sector: u64, data: Vec<u8>)
        requires
            old(self).inv(),
            data@.len() == 512,
            old(self)@.fs.dev.outbox.len() == 0,
        ensures
            final(self).inv(),
            final(self)@.inodes == old(self)@.inodes,
            final(self)@.fs == (FsView {
                dev: DeviceView {
                    known: Map::new(
                        |i: int|
                            old(self)@.fs.dev.known.contains_key(i) || sector * 512 <= i < sector
                                * 512 + 512,
                        |i: int|
                            if sector * 512 <= i < sector * 512 + 512 {
                                data@[i - sector * 512]
                            } else {
                                old(self)@.fs.dev.known[i]
                            },
                    ),
                    ..old(self)@.fs.dev
                },
                ..old(self)@.fs
            }),
    {
        self.fatx.load(sector, data);
    }

    /// Hand over the writes that are waiting, in the order they were made.
    pub fn take_writes(&mut self) -> (writes: Vec<DeviceWrite>)
        requires
            old(self).inv(),
        ensures
            final(self).inv(),
            writes@.map_values(|w: DeviceWrite| w.view()) == old(self)@.fs.dev.outbox,
            final(self)@ == (DriverView { fs: drained(old(self)@.fs), ..old(self)@ }),
    {
        self.fatx.take_writes()
    }

    /// The path of a name in a directory that is known by its number.
    fn child(&self, parent: Inode, name: &str) -> (path: Option<String>)
        ensures
            match path {
                Some(path) => self@.child(parent, name@) == Some(path@),
                None => self@.child(parent, name@) is None,
            },
    {
        match self.inodes.get_path(parent) {
            Some(dir) => Some(child_path(dir.as_str(), name)),
            None => None,
        }
    }

    /// The number and the attributes of a node that has been looked up.
    fn tell(&mut self, path: &str, dirent: &DirectoryEntry, otherwise: Errno) -> (r: Result<
        Attributes,
        Stop,
    >)
        requires
            old(self).inv(),
            old(self)@.inodes.has_numbers(),
        ensures
            final(self).inv(),
            final(self)@.fs == old(self)@.fs,
            old(self)@.tells_of(path@, dirent@, final(self)@.inodes, r, otherwise),
    {
        let ino: Inode = self.inodes.get_or_create_inode(path);
        let variant = self.fatx.variant();
        match dirent_to_attr(ino, dirent, variant) {
            Some(attr) => Ok(attr),
            None => Err(Stop::Answer(otherwise)),
        }
    }

    /// Undo a request that needs more of the device, or answer it with what has
    /// been looked up.
    fn conclude(&mut self, path: &str, looked: Result<DirectoryEntry, Error>) -> (r: Result<
        Attributes,
        Stop,
    >)
        requires
            old(self).inv(),
            old(self).fatx.fs.marked().wf(),
            old(self)@.inodes.has_numbers(),
        ensures
            final(self).inv(),
            final(self)@.fs == (if wants_more(looked) {
                old(self).fatx.fs.marked()
            } else {
                old(self)@.fs
            }),
            match looked {
                Err(e) => {
                    &&& final(self)@.inodes == old(self)@.inodes
                    &&& r == Err::<Attributes, Stop>(stopped(e, e.spec_errno()))
                },
                Ok(dirent) => old(self)@.tells_of(
                    path@,
                    dirent@,
                    final(self)@.inodes,
                    r,
                    Errno::Eio,
                ),
            },
    {
        self.fatx.settle(error_of(&looked));
        match looked {
            Err(e) => Err(stop(e, e.errno())),
            Ok(dirent) => self.tell(path, &dirent, Errno::Eio),
        }
    }

    /// Look up a name in a directory.
    ///
    /// Whatever goes wrong on the way, the answer is that there is no such
    /// node.
    pub fn lookup(&mut self, parent: Inode, name: &str) -> (r: Result<Attributes, Stop>)
        requires
            old(self).inv(),
            old(self)@.inodes.has_numbers(),
        ensures
            final(self).inv(),
            final(self)@.fs == old(self)@.fs,
            match old(self)@.child(parent, name@) {
                None => r == Err::<Attributes, Stop>(Stop::Answer(Errno::Enoent))
                    && final(self)@.inodes == old(self)@.inodes,
                Some(path) => match old(self)@.fs.entry_of(named(path)) {
                    Err(e) => r == Err::<Attributes, Stop>(stopped(e, Errno::Enoent))
                        && final(self)@.inodes == old(self)@.inodes,
                    Ok(e) => old(self)@.tells_of(
                        path,
                        e,
                        final(self)@.inodes,
                        r,
                        Errno::Enoent,
                    ),
                },
            },
    {
        let path = match self.child(parent, name) {
            Some(path) => path,
            None => {
                return Err(Stop::Answer(Errno::Enoent));
            },
        };
        match self.fatx.stat(path.as_str()) {
            Err(e) => Err(stop(e, Errno::Enoent)),
            Ok(dirent) => self.tell(path.as_str(), &dirent, Errno::Enoent),
        }
    }

    /// The attributes of a node.
    pub fn getattr(&self, ino: Inode) -> (r: Result<Attributes, Stop>)
        requires
            self.inv(),
        ensures
            if !self@.inodes.paths.contains_key(ino) {
                r == Err::<Attributes, Stop>(Stop::Answer(Errno::Enoent))
            } else {
                match self@.fs.entry_of(named(self@.inodes.paths[ino])) {
                    Err(e) => r == Err::<Attributes, Stop>(stopped(e, Errno::Enoent)),
                    Ok(e) => match r {
                        Ok(attr) => attr.describes(ino, e, self@.fs.geo.variant),
                        Err(s) => e.node_kind() is None && s == Stop::Answer(Errno::Enoent),
                    },
                }
            },
    {
        let path = match self.inodes.get_path(ino) {
            Some(path) => path,
            None => {
                return Err(Stop::Answer(Errno::Enoent));
            },
        };
        let dirent = match self.fatx.stat(path.as_str()) {
            Err(e) => {
                return Err(stop(e, Errno::Enoent));
            },
            Ok(dirent) => dirent,
        };
        match dirent_to_attr(ino, &dirent, self.fatx.variant()) {
            Some(attr) => Ok(attr),
            None => Err(Stop::Answer(Errno::Enoent)),
        }
    }

    /// Read from a file. A short read is normal at its end, so the answer holds
    /// only what was actually there.
    pub fn read(&self, ino: Inode, offset: u64, size: u32) -> (r: Result<Vec<u8>, Stop>)
        requires
            self.inv(),
        ensures
            if !self@.inodes.paths.contains_key(ino) {
                r == Err::<Vec<u8>, Stop>(Stop::Answer(Errno::Enoent))
            } else {
                match (r, self@.fs.read_file(named(self@.inodes.paths[ino]), offset, size as nat)) {
                    (Ok(data), Ok(want)) => data@ == want,
                    (Err(s), Err(e)) => s == stopped(e, e.spec_kind().spec_errno()),
                    _ => false,
                }
            },
    {
        let path = match self.inodes.get_path(ino) {
            Some(path) => path,
            None => {
                return Err(Stop::Answer(Errno::Enoent));
            },
        };
        let mut file = match self.fatx.open(path.as_str()) {
            Err(e) => {
                return Err(stop(e, e.kind().errno()));
            },
            Ok(file) => file,
        };
        if let Err(e) = file.seek(SeekFrom::Start(offset)) {
            return Err(stop(e, e.kind().errno()));
        }
        match file.read_vec(&self.fatx.fs, size as usize) {
            Err(e) => Err(stop(e, e.kind().errno())),
            Ok(data) => Ok(data),
        }
    }

    /// List a directory from an offset on: itself, the directory it lies in, and
    /// its entries. Each line comes with the offset to go on from after it.
    ///
    /// A number that stands for nothing is answered as a failed access.
    pub fn readdir(&mut self, ino: Inode, offset: u64) -> (r: Result<Vec<(Listed, u64)>, Stop>)
        requires
            old(self).inv(),
            old(self)@.inodes.has_numbers(),
        ensures
            final(self).inv(),
            final(self)@.fs == old(self)@.fs,
            if !old(self)@.inodes.paths.contains_key(ino) {
                r == Err::<Vec<(Listed, u64)>, Stop>(Stop::Answer(Errno::Eio)) && final(self)@
                    == old(self)@
            } else {
                let dir = old(self)@.inodes.paths[ino];
                match (r, old(self)@.fs.entries_of(named(dir))) {
                    (Ok(page), Ok(entries)) => {
                        let (t, all) = old(self)@.inodes.list(ino, dir, entries);
                        &&& final(self)@.inodes == t
                        &&& is_page(page@, all, offset)
                    },
                    (Err(s), Err(e)) => s == stopped(e, e.spec_errno()) && final(self)@ == old(
                        self,
                    )@,
                    _ => false,
                }
            },
    {
        let path = match self.inodes.get_path(ino) {
            Some(path) => path,
            None => {
                return Err(Stop::Answer(Errno::Eio));
            },
        };
        let it = match self.fatx.read_dir(path.as_str()) {
            Err(e) => {
                return Err(stop(e, e.errno()));
            },
            Ok(it) => it,
        };
        let entries = match it.collect(&self.fatx.fs) {
            Err(e) => {
                return Err(stop(e, e.errno()));
            },
            Ok(entries) => entries,
        };
        proof {
            self.fatx.fs.lemma_inv();
            lemma_collected(it@, self.fatx@);
            let n = self.fatx@.fat.entries as int;
            let epc = self.fatx@.epc() as int;
            assert(n * epc <= 0x1_0000_0000 * 8192) by (nonlinear_arith)
                requires
                    0 <= n <= 0x1_0000_0000,
                    0 <= epc <= 8192,
            ;
            assert(entry_views(entries@).len() == entries@.len());
        }
        let listing = list_directory(&mut self.inodes, ino, path.as_str(), &entries);
        Ok(page_from(&listing, offset))
    }

    /// Create an empty file.
    pub fn create(&mut self, parent: Inode, name: &str, now: &DateTime) -> (r: Result<
        Attributes,
        Stop,
    >)
        requires
            old(self).inv(),
            old(self)@.inodes.has_numbers(),
        ensures
            final(self).inv(),
            match old(self)@.child(parent, name@) {
                None => r == Err::<Attributes, Stop>(Stop::Answer(Errno::Enoent)) && final(self)@
                    == old(self)@,
                Some(path) => old(self)@.answers(
                    path,
                    old(self)@.fs.create_entry(named(path), *now),
                    final(self)@,
                    r,
                ),
            },
    {
        let path = match self.child(parent, name) {
            Some(path) => path,
            None => {
                return Err(Stop::Answer(Errno::Enoent));
            },
        };
        self.fatx.begin();
        let at = VirtualPath::new(path.as_str());
        proof {
            self.fatx.fs.lemma_inv();
            lemma_create_follows(self.fatx@, at@, 0, *now);
            lemma_follows(self.fatx@, self.fatx@.create_node(at@, 0, *now).0);
        }
        let looked = match self.fatx.fs.create(&at, now) {
            Err(e) => Err(e),
            Ok(_) => DirectoryEntry::from_path(&self.fatx.fs, &at),
        };
        self.conclude(path.as_str(), looked)
    }

    /// Create a directory.
    pub fn mkdir(&mut self, parent: Inode, name: &str, now: &DateTime) -> (r: Result<
        Attributes,
        Stop,
    >)
        requires
            old(self).inv(),
            old(self)@.inodes.has_numbers(),
        ensures
            final(self).inv(),
            match old(self)@.child(parent, name@) {
                None => r == Err::<Attributes, Stop>(Stop::Answer(Errno::Enoent)) && final(self)@
                    == old(self)@,
                Some(path) => old(self)@.answers(
                    path,
                    old(self)@.fs.mkdir_entry(named(path), *now),
                    final(self)@,
                    r,
                ),
            },
    {
        let path = match self.child(parent, name) {
            Some(path) => path,
            None => {
                return Err(Stop::Answer(Errno::Enoent));
            },
        };
        self.fatx.begin();
        let at = VirtualPath::new(path.as_str());
        proof {
            self.fatx.fs.lemma_inv();
            lemma_mkdir_follows(self.fatx@, at@, *now);
            lemma_follows(self.fatx@, self.fatx@.mkdir(at@, *now).0);
        }
        let looked = match self.fatx.fs.mkdir(&at, now) {
            Err(e) => Err(e),
            Ok(()) => DirectoryEntry::from_path(&self.fatx.fs, &at),
        };
        self.conclude(path.as_str(), looked)
    }

    /// Change the size and the timestamps of a node.
    ///
    /// A touch on the mount point is quietly accepted.
    pub fn setattr(
        &mut self,
        ino: Inode,
        size: Option<u64>,
        accessed: Option<DateTime>,
        modified: Option<DateTime>,
        now: &DateTime,
    ) -> (r: Result<Attributes, Stop>)
        requires
            old(self).inv(),
            old(self)@.inodes.has_numbers(),
        ensures
            final(self).inv(),
            if !old(self)@.inodes.paths.contains_key(ino) {
                r == Err::<Attributes, Stop>(Stop::Answer(Errno::Enoent)) && final(self)@ == old(
                    self,
                )@
            } else {
                let path = old(self)@.inodes.paths[ino];
                old(self)@.answers(
                    path,
                    old(self)@.fs.change_entry(named(path), size, accessed, modified, *now),
                    final(self)@,
                    r,
                )
            },
    {
        let path = match self.inodes.get_path(ino) {
            Some(path) => path,
            None => {
                return Err(Stop::Answer(Errno::Enoent));
            },
        };
        self.fatx.begin();
        let at = VirtualPath::new(path.as_str());
        let looked = self.change(&at, size, accessed, modified, now);
        self.conclude(path.as_str(), looked)
    }

    /// Change the size and the timestamps of a node, and look its entry up.
    fn change(
        &mut self,
        at: &VirtualPath,
        size: Option<u64>,
        accessed: Option<DateTime>,
        modified: Option<DateTime>,
        now: &DateTime,
    ) -> (r: Result<DirectoryEntry, Error>)
        requires
            old(self).inv(),
        ensures
            final(self).inv(),
            final(self)@.inodes == old(self)@.inodes,
            final(self).fatx.fs.marked() == old(self).fatx.fs.marked(),
            final(self)@.fs.geo == old(self)@.fs.geo,
            match (r, old(self)@.fs.change_entry(at@, size, accessed, modified, *now)) {
                (Ok(dirent), (v, Ok(e))) => final(self)@.fs == v && dirent@ == e,
                (Err(e), (v, Err(error))) => final(self)@.fs == v && e == error,
                _ => false,
            },
    {
        if let Some(size) = size {
            proof {
                self.fatx.fs.lemma_inv();
                lemma_truncate_follows(self.fatx@, at@, size, *now);
                lemma_follows(self.fatx@, self.fatx@.truncate(at@, size, *now).0);
            }
            self.fatx.fs.truncate(at, size, now)?;
        }
        proof {
            self.fatx.fs.lemma_inv();
            lemma_set_times_follows(self.fatx@, at@, accessed, modified);
            lemma_follows(self.fatx@, self.fatx@.set_times(at@, accessed, modified).0);
        }
        if accessed.is_some() || modified.is_some() {
            match self.fatx.fs.set_times(at, accessed, modified) {
                Err(Error::IsRootDirectory) => {},
                Err(e) => {
                    return Err(e);
                },
                Ok(()) => {},
            }
        }
        DirectoryEntry::from_path(&self.fatx.fs, at)
    }

    /// Write to a file, all that is asked for.
    pub fn write(&mut self, ino: Inode, offset: u64, data: &[u8], now: &DateTime) -> (r: Result<
        (),
        Stop,
    >)
        requires
            old(self).inv(),
        ensures
            final(self).inv(),
            final(self)@.inodes == old(self)@.inodes,
            if !old(self)@.inodes.paths.contains_key(ino) {
                r == Err::<(), Stop>(Stop::Answer(Errno::Enoent)) && final(self)@ == old(self)@
            } else {
                (final(self)@.fs, r) == old(self)@.fs.write_file(
                    named(old(self)@.inodes.paths[ino]),
                    offset,
                    data@,
                    *now,
                )
            },
    {
        let path = match self.inodes.get_path(ino) {
            Some(path) => path,
            None => {
                return Err(Stop::Answer(Errno::Enoent));
            },
        };
        let mut file = match self.fatx.open(path.as_str()) {
            Err(e) => {
                return Err(stop(e, e.kind().errno()));
            },
            Ok(file) => file,
        };
        if let Err(e) = file.seek(SeekFrom::Start(offset)) {
            return Err(stop(e, e.kind().errno()));
        }
        let ghost f = file@;
        let ghost v = self.fatx@;
        let len: usize = data.len();
        let mut done: usize = 0;
        assert(data@.skip(0) =~= data@);
        while done < len
            invariant
                self.inv(),
                self@.inodes == old(self)@.inodes,
                file.fits(self.fatx@),
                done <= len,
                len == data@.len(),
                file@.write_all(self.fatx@, data@.skip(done as int), *now) == f.write_all(
                    v,
                    data@,
                    *now,
                ),
                old(self)@.inodes.paths.contains_key(ino),
                old(self)@.fs.write_file(
                    named(old(self)@.inodes.paths[ino]),
                    offset,
                    data@,
                    *now,
                ) == (match f.write_all(v, data@, *now) {
                    (_, w, Err(kind)) => (w, Err(Stop::Answer(kind.spec_errno()))),
                    (_, w, Ok(())) => (w, Ok(())),
                }),
            decreases len - done,
        {
            let rest: &[u8] = &data[done..len];
            assert(rest@ =~= data@.skip(done as int));
            match file.write_at(&mut self.fatx.fs, rest, now) {
                Err(e) => {
                    return Err(Stop::Answer(e.kind().errno()));
                },
                Ok(n) => {
                    if n == 0 || n > len - done {
                        return Err(Stop::Answer(ErrorKind::Other.errno()));
                    }
                    assert(rest@.skip(n as int) =~= data@.skip(done + n));
                    done += n;
                },
            }
        }
        Ok(())
    }

    /// Remove a file.
    pub fn unlink(&mut self, parent: Inode, name: &str) -> (r: Result<(), Stop>)
        requires
            old(self).inv(),
        ensures
            final(self).inv(),
            match old(self)@.child(parent, name@) {
                None => r == Err::<(), Stop>(Stop::Answer(Errno::Enoent)) && final(self)@ == old(
                    self,
                )@,
                Some(path) => {
                    let (v, outcome) = settled(
                        old(self)@.fs,
                        old(self)@.fs.unlink(named(path)),
                    );
                    (final(self)@, r) == old(self)@.forgot(path, v, outcome)
                },
            },
    {
        let path = match self.child(parent, name) {
            Some(path) => path,
            None => {
                return Err(Stop::Answer(Errno::Enoent));
            },
        };
        match self.fatx.unlink(path.as_str()) {
            Ok(()) => {
                self.inodes.forget_path(path.as_str());
                Ok(())
            },
            Err(e) => Err(stop(e, e.errno())),
        }
    }

    /// Remove an empty directory.
    pub fn rmdir(&mut self, parent: Inode, name: &str) -> (r: Result<(), Stop>)
        requires
            old(self).inv(),
        ensures
            final(self).inv(),
            match old(self)@.child(parent, name@) {
                None => r == Err::<(), Stop>(Stop::Answer(Errno::Enoent)) && final(self)@ == old(
                    self,
                )@,
                Some(path) => {
                    let (v, outcome) = settled(
                        old(self)@.fs,
                        old(self)@.fs.rmdir(named(path)),
                    );
                    (final(self)@, r) == old(self)@.forgot(path, v, outcome)
                },
            },
    {
        let path = match self.child(parent, name) {
            Some(path) => path,
            None => {
                return Err(Stop::Answer(Errno::Enoent));
            },
        };
        match self.fatx.rmdir(path.as_str()) {
            Ok(()) => {
                self.inodes.forget_path(path.as_str());
                Ok(())
            },
            Err(e) => Err(stop(e, e.errno())),
        }
    }

    /// Whether a name in a directory can be renamed. One that ends in several
    /// slashes cannot: more than one path beneath it could end up at the same
    /// place.
    pub fn can_move(&self, parent: Inode, name: &str) -> (b: bool)
        requires
            self.inv(),
        ensures
            b == self@.can_move(parent, name@),
    {
        match self.child(parent, name) {
            None => true,
            Some(path) => {
                let n: usize = path.as_str().unicode_len();
                n < 2 || path.as_str().get_char(n - 1) != '/' || path.as_str().get_char(n - 2)
                    != '/'
            },
        }
    }

    /// Move or rename a node.
    ///
    /// Flags ask for guarantees that cannot be made here: that nothing is
    /// replaced, or that two nodes are swapped at once. Refusing them lets the
    /// caller fall back rather than quietly doing the opposite of what it asked.
    pub fn rename(
        &mut self,
        parent: Inode,
        name: &str,
        newparent: Inode,
        newname: &str,
        flags: u32,
    ) -> (r: Result<(), Stop>)
        requires
            old(self).inv(),
            old(self)@.can_move(parent, name@),
        ensures
            final(self).inv(),
            if flags != 0 {
                r == Err::<(), Stop>(Stop::Answer(Errno::Einval)) && final(self)@ == old(self)@
            } else {
                match (old(self)@.child(parent, name@), old(self)@.child(newparent, newname@)) {
                    (Some(from), Some(to)) => {
                        let (v, outcome) = settled(
                            old(self)@.fs,
                            old(self)@.fs.rename(named(from), named(to)),
                        );
                        &&& final(self)@.fs == v
                        &&& match outcome {
                            Ok(()) => r == Ok::<(), Stop>(()) && final(self)@.inodes == old(
                                self,
                            )@.inodes.renamed(from, to),
                            Err(e) => r == Err::<(), Stop>(stopped(e, e.spec_errno()))
                                && final(self)@.inodes == old(self)@.inodes,
                        }
                    },
                    _ => r == Err::<(), Stop>(Stop::Answer(Errno::Enoent)) && final(self)@ == old(
                        self,
                    )@,
                }
            },
    {
        if flags != 0 {
            return Err(Stop::Answer(Errno::Einval));
        }
        let from = match self.child(parent, name) {
            Some(path) => path,
            None => {
                return Err(Stop::Answer(Errno::Enoent));
            },
        };
        let to = match self.child(newparent, newname) {
            Some(path) => path,
            None => {
                return Err(Stop::Answer(Errno::Enoent));
            },
        };
        match self.fatx.rename(from.as_str(), to.as_str()) {
            Ok(()) => {
                self.inodes.rename_path(from.as_str(), to.as_str());
                Ok(())
            },
            Err(e) => Err(stop(e, e.errno())),
        }
    }

    /// Queue up everything held in memory to go to the device, and tell whether
    /// the device has to be asked to persist it: one that was not opened for
    /// writing holds nothing back.
    pub fn fsync(&mut self) -> (persist: bool)
        requires
            old(self).inv(),
        ensures
            final(self).inv(),
            final(self)@ == (DriverView { fs: old(self)@.fs.flush_fat(), ..old(self)@ }),
            persist == old(self)@.fs.geo.writable,
    {
        let persist: bool = self.fatx.is_writable();
        let _ = self.fatx.sync();
        persist
    }

    /// How much of the filesystem is in use.
    pub fn statfs(&self) -> (r: StatFs)
        requires
            self.inv(),
        ensures
            exists|space: Space| #[trigger]
                self@.fs.is_space(space) && r == StatFs::of(space),
    {
        proof {
            self.fatx.fs.lemma_inv();
        }
        let space = self.fatx.space();
        statfs(&space)
    }
}

impl DriverView {
    /// A driver once a path has been removed, if that worked out.
    pub open spec fn forgot(self, path: Seq<char>, v: FsView, outcome: Result<(), Error>) -> (
        DriverView,
        Result<(), Stop>,
    ) {
        match outcome {
            Ok(()) => (
                DriverView {
                    fs: v,
                    inodes: TrackerView {
                        paths: without_path(self.inodes.paths, path),
                        ..self.inodes
                    },
                },
                Ok(()),
            ),
            Err(e) => (DriverView { fs: v, ..self }, Err(stopped(e, e.spec_errno()))),
        }
    }
}

} // verus!
