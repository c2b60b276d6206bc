//! Walking through directories: finding entries, and finding room for them.

use vstd::prelude::*;

use crate::dir::{
    DirectoryEntry, DirectoryEntryKind, EntryLocation, DIRENT_SIZE, FATX_DELETED_FILE_MARKER,
    FATX_END_OF_DIR_MARKER,
};
#[allow(unused_imports)]
use crate::dir::{law_entry_reads_back, EntryView};
use crate::error::Error;
#[allow(unused_imports)]
use crate::error::wants_more;
use crate::fat::{ClusterId, FatEntry};
use crate::path::VirtualPath;
#[allow(unused_imports)]
use crate::path::PathView;
use crate::volume::FatxFs;
#[allow(unused_imports)]
use crate::volume::FsView;

verus! {

/// How a walk through a directory came to its end.
pub enum WalkEnd {
    /// At an entry that was looked for, or the one that ends the directory.
    Stopped(EntryLocation, EntryView),
    /// In this cluster, where the chain ends without an end marker.
    Exhausted(ClusterId),
    Failed(Error),
}

impl FsView {
    /// The directory entry at some place.
    pub open spec fn entry_at(self, cluster: ClusterId, index: nat) -> Result<EntryView, Error> {
        match self.geo.byte_offset(cluster) {
            Err(e) => Err(e),
            Ok(start) => match self.dev.read_exact((start + index * 64) as nat, 64) {
                Err(e) => Err(e),
                Ok(b) => Ok(EntryView::decode(b, self.geo.variant)),
            },
        }
    }

    /// Write an entry over the one at some place.
    pub open spec fn put_entry(self, location: EntryLocation, entry: EntryView) -> (
        FsView,
        Result<(), Error>,
    ) {
        self.put_in_cluster(
            location.cluster,
            location.index * 64,
            entry.encode(self.geo.variant),
        )
    }

    /// Overwrite just the length byte of an entry.
    pub open spec fn put_marker(self, location: EntryLocation, marker: u8) -> (
        FsView,
        Result<(), Error>,
    ) {
        self.put_in_cluster(location.cluster, location.index * 64, seq![marker])
    }

    /// Walk through a directory from some place on, to the first entry that is
    /// looked for. At most `left` further clusters are visited, which is more
    /// than a chain that does not run in circles can have.
    pub open spec fn walk(
        self,
        cluster: ClusterId,
        index: nat,
        left: nat,
        stop: spec_fn(EntryView) -> bool,
    ) -> WalkEnd
        decreases left, self.epc() - index,
    {
        if index >= self.epc() {
            match self.link(cluster) {
                Err(e) => WalkEnd::Failed(e),
                Ok(FatEntry::Data(next)) => if left == 0 {
                    WalkEnd::Failed(Error::InvalidClusterChain)
                } else if self.epc() == 0 {
                    WalkEnd::Failed(Error::InvalidClusterChain)
                } else {
                    self.walk(next, 0, (left - 1) as nat, stop)
                },
                Ok(FatEntry::End) => WalkEnd::Exhausted(cluster),
                Ok(_) => WalkEnd::Failed(Error::InvalidClusterChain),
            }
        } else {
            match self.entry_at(cluster, index) {
                Err(e) => WalkEnd::Failed(e),
                Ok(e) => if stop(e) || e.kind() is EndOfDirectory {
                    WalkEnd::Stopped(EntryLocation { cluster, index: index as u64 }, e)
                } else {
                    self.walk(cluster, index + 1, left, stop)
                },
            }
        }
    }

    /// Walk through a whole directory, to the first entry that is looked for.
    pub open spec fn walk_dir(self, dir: ClusterId, stop: spec_fn(EntryView) -> bool) -> WalkEnd {
        self.walk(dir, 0, self.fat.entries, stop)
    }

    /// The entry with a given name in a directory.
    pub open spec fn find_in(self, dir: ClusterId, name: Seq<u8>) -> Result<
        (EntryView, EntryLocation),
        Error,
    > {
        match self.walk_dir(dir, |e: EntryView| e.has_name(name)) {
            WalkEnd::Stopped(location, e) => if e.has_name(name) {
                Ok((e, location))
            } else {
                Err(Error::NotFound)
            },
            WalkEnd::Exhausted(_) => Err(Error::NotFound),
            WalkEnd::Failed(e) => Err(e),
        }
    }

    /// The entry the components from `k` on lead to, starting in a directory.
    pub open spec fn descend(self, dir: ClusterId, comps: Seq<Seq<u8>>, k: nat) -> Result<
        (EntryView, EntryLocation),
        Error,
    >
        decreases comps.len() - k,
    {
        match self.find_in(dir, comps[k as int]) {
            Err(e) => Err(e),
            Ok((e, location)) => if k + 1 >= comps.len() {
                Ok((e, location))
            } else if e.is_directory() {
                self.descend(e.first_cluster, comps, k + 1)
            } else {
                Err(Error::NotADirectory)
            },
        }
    }

    /// Resolve a path to its entry and the place that entry occupies on disk.
    ///
    /// The root directory has no entry of its own, so a synthetic one without a
    /// place stands in for it. Only a path that starts at the root leads
    /// anywhere.
    pub open spec fn lookup(self, path: PathView) -> Result<
        (EntryView, Option<EntryLocation>),
        Error,
    > {
        if !path.absolute {
            if path.comps.len() == 0 {
                Err(Error::NotADirectory)
            } else {
                Err(Error::NotFound)
            }
        } else if path.comps.len() == 0 {
            Ok((EntryView::root(self.geo.root_cluster), None))
        } else {
            match self.descend(self.geo.root_cluster, path.comps, 0) {
                Err(e) => Err(e),
                Ok((e, location)) => Ok((e, Some(location))),
            }
        }
    }

    /// The cluster following `cluster` in a directory, which is made longer if
    /// it ends there.
    pub open spec fn next_directory_cluster(self, cluster: ClusterId) -> (
        FsView,
        Result<ClusterId, Error>,
    ) {
        match self.next_cluster(cluster) {
            Err(e) => (self, Err(e)),
            Ok(Some(next)) => (self, Ok(next)),
            Ok(None) => self.grow_chain(cluster),
        }
    }

    /// Where a new entry of a directory can go: in place of a deleted one if
    /// there is one, and else in place of the end marker, which moves on.
    pub open spec fn alloc_entry(self, dir: ClusterId) -> (FsView, Result<EntryLocation, Error>) {
        match self.walk_dir(dir, |e: EntryView| !(e.kind() is Valid)) {
            WalkEnd::Failed(e) => (self, Err(e)),
            WalkEnd::Stopped(location, e) => if e.kind() is Deleted {
                (self, Ok(location))
            } else if location.index + 1 < self.epc() {
                match self.put_marker(
                    EntryLocation {
                        cluster: location.cluster,
                        index: (location.index + 1) as u64,
                    },
                    FATX_END_OF_DIR_MARKER,
                ) {
                    (v, Err(e)) => (v, Err(e)),
                    (v, Ok(())) => (v, Ok(location)),
                }
            } else {
                match self.next_directory_cluster(location.cluster) {
                    (v, Err(e)) => (v, Err(e)),
                    (v, Ok(next)) => match v.put_marker(
                        EntryLocation { cluster: next, index: 0 },
                        FATX_END_OF_DIR_MARKER,
                    ) {
                        (w, Err(e)) => (w, Err(e)),
                        (w, Ok(())) => (w, Ok(location)),
                    },
                }
            },
            WalkEnd::Exhausted(last) => match self.grow_chain(last) {
                (v, Err(e)) => (v, Err(e)),
                (v, Ok(cluster)) => match v.put_marker(
                    EntryLocation { cluster, index: 1 },
                    FATX_END_OF_DIR_MARKER,
                ) {
                    (w, Err(e)) => (w, Err(e)),
                    (w, Ok(())) => (w, Ok(EntryLocation { cluster, index: 0 })),
                },
            },
        }
    }

    /// Whether a directory holds no live entries.
    pub open spec fn directory_is_empty(self, dir: ClusterId) -> Result<bool, Error> {
        match self.walk_dir(dir, |e: EntryView| !(e.kind() is Deleted)) {
            WalkEnd::Failed(e) => Err(e),
            WalkEnd::Stopped(_, e) => Ok(!(e.kind() is Valid)),
            WalkEnd::Exhausted(_) => Ok(true),
        }
    }
}

/// How far the iteration over a directory has come.
pub struct IterView {
    pub cluster: ClusterId,
    /// The index of the entry last returned, or -1.
    pub entry: int,
    pub finished: bool,
    /// How many further clusters may be visited.
    pub left: nat,
}

impl IterView {
    pub open spec fn start(dir: ClusterId, left: nat) -> IterView {
        IterView { cluster: dir, entry: -1, finished: false, left }
    }

    /// Fetch the entry at a place the iteration has moved to.
    ///
    /// If more of the device has to be loaded first, the iteration stays where
    /// it is.
    pub open spec fn fetch(self, v: FsView, cluster: ClusterId, at: int, left: nat) -> (
        IterView,
        Option<Result<EntryView, Error>>,
    ) {
        let moved = IterView { cluster, entry: at, finished: false, left };
        match v.entry_at(cluster, at as nat) {
            Err(e) => if wants_more(v.entry_at(cluster, at as nat)) {
                (self, Some(Err(e)))
            } else {
                (IterView { finished: v.geo.has_cluster(cluster), ..moved }, Some(Err(e)))
            },
            Ok(e) => (
                IterView { finished: e.kind() is EndOfDirectory, ..moved },
                Some(Ok(e)),
            ),
        }
    }

    /// The next entry of a directory, of whatever kind.
    pub open spec fn next(self, v: FsView) -> (IterView, Option<Result<EntryView, Error>>) {
        let done = IterView { finished: true, ..self };
        if self.finished {
            (self, None)
        } else if self.entry + 1 < v.epc() {
            self.fetch(v, self.cluster, self.entry + 1, self.left)
        } else {
            match v.link(self.cluster) {
                Err(e) => (done, Some(Err(e))),
                Ok(FatEntry::Data(next)) => if self.left == 0 {
                    (done, Some(Err(Error::InvalidClusterChain)))
                } else {
                    self.fetch(v, next, 0, (self.left - 1) as nat)
                },
                Ok(FatEntry::End) => (done, None),
                Ok(_) => (done, Some(Err(Error::InvalidClusterChain))),
            }
        }
    }

    /// The next live entry of a directory.
    pub open spec fn next_valid(self, v: FsView) -> (IterView, Option<Result<EntryView, Error>>)
        decreases
                (if self.finished {
                    0int
                } else {
                    1
                }),
                self.left,
                v.epc() - self.entry,
    {
        match self.next(v) {
            (it, Some(Ok(e))) => if e.kind() is Valid || self.finished {
                (it, Some(Ok(e)))
            } else {
                it.next_valid(v)
            },
            (it, r) => (it, r),
        }
    }

    /// Whether one step of an iteration brings it closer to its end.
    pub open spec fn moves_on_to(self, then: IterView, v: FsView) -> bool {
        ||| then.finished && !self.finished
        ||| then.finished == self.finished && (then.left < self.left || (then.left == self.left
            && self.entry < then.entry < v.epc()))
    }

    /// The live entries there are from here on. Those that cannot be read are
    /// passed over, unless more of the device has to be loaded first.
    pub open spec fn collect(self, v: FsView) -> Result<Seq<EntryView>, Error>
        decreases
                (if self.finished {
                    0int
                } else {
                    1
                }),
                self.left,
                v.epc() - self.entry,
    {
        match self.next_valid(v) {
            (it, None) => Ok(Seq::empty()),
            (it, Some(Err(e))) => if wants_more(Err::<(), Error>(e)) || !self.moves_on_to(it, v) {
                Err(e)
            } else {
                it.collect(v)
            },
            (it, Some(Ok(e))) => if !self.moves_on_to(it, v) {
                Ok(seq![e])
            } else {
                match it.collect(v) {
                    Err(e) => Err(e),
                    Ok(rest) => Ok(seq![e] + rest),
                }
            },
        }
    }

    /// What the rest of the directory comes to.
    pub open spec fn rest(self, v: FsView, stop: spec_fn(EntryView) -> bool) -> WalkEnd {
        v.walk(self.cluster, (self.entry + 1) as nat, self.left, stop)
    }

    pub open spec fn location(self) -> EntryLocation {
        EntryLocation { cluster: self.cluster, index: self.entry as u64 }
    }

    pub open spec fn wf(self, v: FsView) -> bool {
        -1 <= self.entry < v.epc()
    }
}

proof fn lemma_walk_fits(
    v: FsView,
    cluster: ClusterId,
    index: nat,
    left: nat,
    stop: spec_fn(EntryView) -> bool,
)
    requires
        v.wf(),
    ensures
        v.walk(cluster, index, left, stop) matches WalkEnd::Stopped(location, e) ==> {
            &&& e.wf()
            &&& location.index < v.epc()
            &&& v.geo.has_cluster(location.cluster)
            &&& v.entry_at(location.cluster, location.index as nat) == Ok::<EntryView, Error>(e)
        },
    decreases left, v.epc() - index,
{
    if index >= v.epc() {
        match v.link(cluster) {
            Ok(FatEntry::Data(next)) => if left > 0 && v.epc() > 0 {
                lemma_walk_fits(v, next, 0, (left - 1) as nat, stop);
            },
            _ => {},
        }
    } else {
        match v.entry_at(cluster, index) {
            Ok(e) => if stop(e) || e.kind() is EndOfDirectory {
                let start = v.geo.byte_offset(cluster)->Ok_0;
                let b = v.dev.read_exact((start + index * 64) as nat, 64)->Ok_0;
                assert(b.len() == 64) by {
                    reveal(crate::device::DeviceView::read);
                }
                assert(b.subrange(2, 44).len() == 42);
            } else {
                lemma_walk_fits(v, cluster, index + 1, left, stop);
            },
            _ => {},
        }
    }
}

proof fn lemma_descend_fits(v: FsView, dir: ClusterId, comps: Seq<Seq<u8>>, k: nat)
    requires
        v.wf(),
    ensures
        v.descend(dir, comps, k) matches Ok((e, location)) ==> {
            &&& e.wf()
            &&& location.index < v.epc()
            &&& v.geo.has_cluster(location.cluster)
            &&& v.entry_at(location.cluster, location.index as nat) == Ok::<EntryView, Error>(e)
        },
    decreases comps.len() - k,
{
    let name = comps[k as int];
    lemma_walk_fits(v, dir, 0, v.fat.entries, |e: EntryView| e.has_name(name));
    match v.find_in(dir, name) {
        Ok((e, _)) => if k + 1 < comps.len() && e.is_directory() {
            lemma_descend_fits(v, e.first_cluster, comps, k + 1);
        },
        _ => {},
    }
}

/// What a path leads to is the entry in a slot that there is.
pub proof fn lemma_found_fits(v: FsView, path: PathView)
    requires
        v.wf(),
    ensures
        v.lookup(path) matches Ok((e, Some(location))) ==> {
            &&& e.wf()
            &&& location.index < v.epc()
            &&& v.geo.has_cluster(location.cluster)
            &&& v.entry_at(location.cluster, location.index as nat) == Ok::<EntryView, Error>(e)
        },
{
    if path.comps.len() > 0 {
        lemma_descend_fits(v, v.geo.root_cluster, path.comps, 0);
    }
}

/// One step of the iteration is one step of the walk.
proof fn lemma_step(it: IterView, v: FsView, stop: spec_fn(EntryView) -> bool)
    requires
        v.wf(),
        it.wf(v),
        !it.finished,
    ensures
        it.next(v).0.wf(v),
        match it.next(v) {
            (after, None) => it.rest(v, stop) == WalkEnd::Exhausted(it.cluster) && after.cluster
                == it.cluster,
            (_, Some(Err(e))) => it.rest(v, stop) == WalkEnd::Failed(e),
            (after, Some(Ok(e))) => {
                &&& 0 <= after.entry < v.epc()
                &&& after.finished == (e.kind() is EndOfDirectory)
                &&& it.rest(v, stop) == (if stop(e) || e.kind() is EndOfDirectory {
                    WalkEnd::Stopped(after.location(), e)
                } else {
                    after.rest(v, stop)
                })
            },
        },
{
    reveal_with_fuel(FsView::walk, 2);
}

/// An iteration over the entries of a directory.
#[derive(Debug, Clone, Copy)]
pub struct DirectoryEntryIterator {
    cluster: ClusterId,
    entry: i64,
    finished: bool,
    left: u32,
}

impl DirectoryEntryIterator {
    pub closed spec fn view(self) -> IterView {
        IterView {
            cluster: self.cluster,
            entry: self.entry as int,
            finished: self.finished,
            left: self.left as nat,
        }
    }

    /// Start at the first entry of a directory.
    pub fn new(fs: &FatxFs, cluster: ClusterId) -> (it: Self)
        requires
            fs.inv(),
        ensures
            it@ == IterView::start(cluster, fs@.fat.entries),
            it@.wf(fs@),
    {
        proof {
            fs.lemma_inv();
        }
        Self { cluster, entry: -1, finished: false, left: fs.num_fat_entries() }
    }

    /// Where the entry just returned by `next` lives on disk.
    pub fn location(&self) -> (location: EntryLocation)
        requires
            self@.entry >= 0,
        ensures
            location == self@.location(),
    {
        EntryLocation { cluster: self.cluster, index: self.entry as u64 }
    }

    /// The cluster the iteration is in.
    pub fn cluster(&self) -> (cluster: ClusterId)
        ensures
            cluster == self@.cluster,
    {
        self.cluster
    }

    /// The next entry of the directory, of whatever kind.
    pub fn next(&mut self, fs: &FatxFs) -> (r: Option<Result<DirectoryEntry, Error>>)
        requires
            fs.inv(),
            old(self)@.wf(fs@),
        ensures
            final(self)@.wf(fs@),
            (final(self)@, entry_result(r)) == old(self)@.next(fs@),
    {
        proof {
            fs.lemma_inv();
        }
        if self.finished {
            return None;
        }
        let geo = fs.geometry();
        let mut cluster: ClusterId = self.cluster;
        let mut at: u64 = (self.entry + 1) as u64;
        let mut left: u32 = self.left;
        if at >= geo.num_entries_per_cluster {
            // Advance to the next cluster.
            match fs.link(self.cluster) {
                Err(err) => {
                    self.finished = true;
                    return Some(Err(err));
                },
                Ok(FatEntry::Data(next_cluster)) => {
                    if left == 0 {
                        self.finished = true;
                        return Some(Err(Error::InvalidClusterChain));
                    }
                    cluster = next_cluster;
                    at = 0;
                    left -= 1;
                },
                Ok(FatEntry::End) => {
                    // The directory has no more clusters. Callers looking to
                    // extend it need to know where the chain ended, which is
                    // the cluster this iterator is still sitting on.
                    self.finished = true;
                    return None;
                },
                Ok(_) => {
                    self.finished = true;
                    return Some(Err(Error::InvalidClusterChain));
                },
            }
        }
        // Fetch the next entry.
        let start: u64 = match fs.cluster_to_byte_offset(cluster) {
            Err(err) => {
                self.cluster = cluster;
                self.entry = at as i64;
                self.left = left;
                return Some(Err(err));
            },
            Ok(start) => start,
        };
        proof {
            fs@.geo.lemma_cluster_fits(cluster);
        }
        match fs.read_exact(start + at * DIRENT_SIZE, DIRENT_SIZE) {
            Err(err) => {
                if !err.is_not_loaded() {
                    self.cluster = cluster;
                    self.entry = at as i64;
                    self.left = left;
                    self.finished = true;
                }
                Some(Err(err))
            },
            Ok(data) => {
                let mut entry = DirectoryEntry::from_bytes(&data);
                entry.normalize(geo.variant);
                self.cluster = cluster;
                self.entry = at as i64;
                self.left = left;
                if entry.kind() == DirectoryEntryKind::EndOfDirectory {
                    self.finished = true;
                }
                Some(Ok(entry))
            },
        }
    }
}

/// The outcome of a step, with the entry as its fields.
pub open spec fn entry_result(r: Option<Result<DirectoryEntry, Error>>) -> Option<
    Result<EntryView, Error>,
> {
    match r {
        None => None,
        Some(Err(e)) => Some(Err(e)),
        Some(Ok(e)) => Some(Ok(e@)),
    }
}

/// The outcome of a search, with the entry as its fields.
pub open spec fn found<L>(r: Result<(DirectoryEntry, L), Error>) -> Result<(EntryView, L), Error> {
    match r {
        Err(e) => Err(e),
        Ok((e, location)) => Ok((e@, location)),
    }
}

/// An iteration over the live entries of a directory.
#[derive(Debug, Clone, Copy)]
pub struct DirectoryEntryIntoIterator {
    entry_iter: DirectoryEntryIterator,
}

impl DirectoryEntryIntoIterator {
    pub closed spec fn view(self) -> IterView {
        self.entry_iter@
    }

    pub fn new(fs: &FatxFs, cluster: ClusterId) -> (it: Self)
        requires
            fs.inv(),
        ensures
            it@ == IterView::start(cluster, fs@.fat.entries),
            it@.wf(fs@),
    {
        Self { entry_iter: DirectoryEntryIterator::new(fs, cluster) }
    }

    /// The next live entry of the directory.
    pub fn next(&mut self, fs: &FatxFs) -> (r: Option<Result<DirectoryEntry, Error>>)
        requires
            fs.inv(),
            old(self)@.wf(fs@),
        ensures
            final(self)@.wf(fs@),
            (final(self)@, entry_result(r)) == old(self)@.next_valid(fs@),
    {
        proof {
            fs.lemma_inv();
        }
        loop
            invariant
                fs.inv(),
                fs@.wf(),
                self@.wf(fs@),
                old(self)@.next_valid(fs@) == self@.next_valid(fs@),
            decreases
                    (if self@.finished {
                        0int
                    } else {
                        1
                    }),
                    self@.left,
                    fs@.epc() - self@.entry,
        {
            let item = self.entry_iter.next(fs);
            if let Some(Ok(dirent)) = item {
                if dirent.kind() == DirectoryEntryKind::Valid {
                    return Some(Ok(dirent));
                }
            } else {
                return item;
            }
        }
    }
}

/// Every step of an iteration but one that has to wait brings it closer to its
/// end.
pub proof fn lemma_moves_on(it: IterView, v: FsView)
    requires
        v.wf(),
        it.wf(v),
    ensures
        ({
            let (then, r) = it.next_valid(v);
            r matches Some(x) && !wants_more(x) ==> it.moves_on_to(then, v)
        }),
    decreases
            (if it.finished {
                0int
            } else {
                1
            }),
            it.left,
            v.epc() - it.entry,
{
    match it.next(v) {
        (then, Some(Ok(e))) => if !(e.kind() is Valid || it.finished) {
            lemma_moves_on(then, v);
        },
        _ => {},
    }
}

/// There are no more entries in a directory than there are slots in all the
/// clusters it can have.
pub proof fn lemma_collected(it: IterView, v: FsView)
    requires
        v.wf(),
        it.wf(v),
    ensures
        it.collect(v) matches Ok(all) ==> all.len() <= it.left * v.epc() + (v.epc() - 1 - it.entry),
    decreases
            (if it.finished {
                0int
            } else {
                1
            }),
            it.left,
            v.epc() - it.entry,
{
    lemma_moves_on(it, v);
    let (then, r) = it.next_valid(v);
    let epc = v.epc() as int;
    assert(it.left * epc >= 0) by (nonlinear_arith)
        requires
            it.left >= 0,
            epc >= 0,
    ;
    if r is Some && !wants_more(r->0) {
        lemma_next_wf(it, v);
        lemma_collected(then, v);
        if then.finished {
            assert(then.next_valid(v).1 is None);
        } else if then.left < it.left {
            assert(then.left * epc + epc <= it.left * epc) by (nonlinear_arith)
                requires
                    then.left + 1 <= it.left,
                    epc >= 0,
            ;
        }
    }
}

proof fn lemma_next_wf(it: IterView, v: FsView)
    requires
        v.wf(),
        it.wf(v),
    ensures
        it.next_valid(v).0.wf(v),
        it.next_valid(v).1 matches Some(x) && !wants_more(x) ==> it.next_valid(v).0.entry >= 0,
        it.next_valid(v).1 matches Some(Ok(_)) ==> !it.next_valid(v).0.finished,
    decreases
            (if it.finished {
                0int
            } else {
                1
            }),
            it.left,
            v.epc() - it.entry,
{
    match it.next(v) {
        (then, Some(Ok(e))) => if !(e.kind() is Valid || it.finished) {
            lemma_next_wf(then, v);
        },
        _ => {},
    }
}

/// The entries of a list of directory entries.
pub open spec fn entry_views(entries: Seq<DirectoryEntry>) -> Seq<EntryView> {
    entries.map_values(|e: DirectoryEntry| e@)
}

impl DirectoryEntryIntoIterator {
    /// The live entries there are from here on. Those that cannot be read are
    /// passed over, unless more of the device has to be loaded first.
    pub fn collect(&self, fs: &FatxFs) -> (r: Result<Vec<DirectoryEntry>, Error>)
        requires
            fs.inv(),
            self@.wf(fs@),
        ensures
            match (r, self@.collect(fs@)) {
                (Ok(entries), Ok(all)) => entry_views(entries@) == all,
                (Err(e), Err(error)) => e == error,
                _ => false,
            },
    {
        proof {
            fs.lemma_inv();
        }
        let mut it: Self = *self;
        let mut entries: Vec<DirectoryEntry> = Vec::new();
        assert(entry_views(entries@) =~= Seq::empty());
        proof {
            match self@.collect(fs@) {
                Ok(all) => assert(entry_views(entries@) + all =~= all),
                Err(_) => {},
            }
        }
        loop
            invariant
                fs.inv(),
                fs@.wf(),
                it@.wf(fs@),
                match it@.collect(fs@) {
                    Ok(rest) => self@.collect(fs@) == Ok::<Seq<EntryView>, Error>(
                        entry_views(entries@) + rest,
                    ),
                    Err(e) => self@.collect(fs@) == Err::<Seq<EntryView>, Error>(e),
                },
            decreases
                    (if it@.finished {
                        0int
                    } else {
                        1
                    }),
                    it@.left,
                    fs@.epc() - it@.entry,
        {
            proof {
                lemma_moves_on(it@, fs@);
            }
            let ghost before = entries@;
            match it.next(fs) {
                None => {
                    assert(entry_views(entries@) + Seq::empty() =~= entry_views(entries@));
                    return Ok(entries);
                },
                Some(Err(e)) => {
                    if e.is_not_loaded() {
                        return Err(e);
                    }
                },
                Some(Ok(dirent)) => {
                    entries.push(dirent);
                    proof {
                        assert(entry_views(entries@) =~= entry_views(before).push(dirent@));
                        match it@.collect(fs@) {
                            Ok(rest) => assert(entry_views(entries@) + rest =~= entry_views(before)
                                + (seq![dirent@] + rest)),
                            Err(_) => {},
                        }
                    }
                },
            }
        }
    }
}

/// The entry with a given name in a directory.
fn find_in(fs: &FatxFs, dir: ClusterId, name: &[u8]) -> (r: Result<
    (DirectoryEntry, EntryLocation),
    Error,
>)
    requires
        fs.inv(),
    ensures
        found(r) == fs@.find_in(dir, name@),
        r matches Ok((_, location)) ==> location.index < fs@.epc(),
{
    proof {
        fs.lemma_inv();
    }
    let ghost stop = |e: EntryView| e.has_name(name@);
    let mut iter = DirectoryEntryIterator::new(fs, dir);
    loop
        invariant
            fs.inv(),
            fs@.wf(),
            iter@.wf(fs@),
            !iter@.finished,
            stop == (|e: EntryView| e.has_name(name@)),
            fs@.walk_dir(dir, stop) == iter@.rest(fs@, stop),
        decreases iter@.left, fs@.epc() - iter@.entry,
    {
        proof {
            lemma_step(iter@, fs@, stop);
        }
        match iter.next(fs) {
            None => {
                return Err(Error::NotFound);
            },
            Some(Err(err)) => {
                return Err(err);
            },
            Some(Ok(dirent)) => {
                if dirent.has_name(name) {
                    return Ok((dirent, iter.location()));
                }
                if dirent.kind() == DirectoryEntryKind::EndOfDirectory {
                    return Err(Error::NotFound);
                }
            },
        }
    }
}

impl DirectoryEntry {
    /// Resolve a path to its directory entry.
    pub fn from_path(fs: &FatxFs, path: &VirtualPath) -> (r: Result<Self, Error>)
        requires
            fs.inv(),
        ensures
            match (r, fs@.lookup(path@)) {
                (Ok(e), Ok((entry, _))) => e@ == entry,
                (Err(e), Err(error)) => e == error,
                _ => false,
            },
    {
        match Self::lookup(fs, path) {
            Ok((dirent, _)) => Ok(dirent),
            Err(e) => Err(e),
        }
    }

    /// Resolve a path to its directory entry and the place that entry occupies
    /// on disk.
    ///
    /// The root directory has no entry of its own, as the superblock describes
    /// it, so a synthetic entry is returned for it, with no location.
    pub fn lookup(fs: &FatxFs, path: &VirtualPath) -> (r: Result<
        (Self, Option<EntryLocation>),
        Error,
    >)
        requires
            fs.inv(),
        ensures
            found(r) == fs@.lookup(path@),
            r matches Ok((_, Some(location))) ==> location.index < fs@.epc(),
    {
        let n: usize = path.len();
        if !path.is_absolute() {
            if n == 0 {
                return Err(Error::NotADirectory);
            }
            return Err(Error::NotFound);
        }
        let root: ClusterId = fs.geometry().root_cluster;
        if n == 0 {
            return Ok((DirectoryEntry::root(root), None));
        }
        // Step through the path components to find the target directory.
        let mut cwd: ClusterId = root;
        let mut k: usize = 0;
        loop
            invariant
                fs.inv(),
                n == path@.comps.len(),
                k < n,
                fs@.descend(root, path@.comps, 0) == fs@.descend(cwd, path@.comps, k as nat),
                fs@.lookup(path@) == (match fs@.descend(root, path@.comps, 0) {
                    Err(e) => Err(e),
                    Ok((e, location)) => Ok((e, Some(location))),
                }),
            decreases n - k,
        {
            let (dirent, location) = find_in(fs, cwd, path.component(k))?;
            if k + 1 == n {
                return Ok((dirent, Some(location)));
            }
            if !dirent.is_directory() {
                return Err(Error::NotADirectory);
            }
            cwd = dirent.first_cluster();
            k += 1;
        }
    }

    /// Write this entry over the one at `location`.
    pub fn write_at(&self, fs: &mut FatxFs, location: EntryLocation) -> (r: Result<(), Error>)
        requires
            old(fs).inv(),
            location.index < old(fs)@.epc(),
        ensures
            final(fs).inv(),
            (final(fs)@, r) == old(fs)@.put_entry(location, self@),
            final(fs).marked() == old(fs).marked(),
    {
        proof {
            fs.lemma_inv();
            self.lemma_wf();
            law_entry_reads_back(self@, fs@.geo.variant);
        }
        let mut raw: DirectoryEntry = *self;
        raw.denormalize(fs.geometry().variant);
        let data: Vec<u8> = raw.to_bytes();
        fs.put_in_cluster(location.cluster, location.byte_offset_in_cluster(), data)
    }
}

/// Overwrite just the length byte of an entry, turning it into a marker.
///
/// Only that one byte distinguishes a live entry from a deleted one or from
/// the end of the directory, so the rest of the entry is left untouched.
pub fn set_entry_marker(fs: &mut FatxFs, location: EntryLocation, marker: u8) -> (r: Result<
    (),
    Error,
>)
    requires
        old(fs).inv(),
        location.index < old(fs)@.epc(),
    ensures
        final(fs).inv(),
        (final(fs)@, r) == old(fs)@.put_marker(location, marker),
        final(fs).marked() == old(fs).marked(),
{
    proof {
        fs.lemma_inv();
    }
    let mut data: Vec<u8> = Vec::new();
    data.push(marker);
    assert(data@ =~= seq![marker]);
    fs.put_in_cluster(location.cluster, location.byte_offset_in_cluster(), data)
}

pub fn mark_entry_deleted(fs: &mut FatxFs, location: EntryLocation) -> (r: Result<(), Error>)
    requires
        old(fs).inv(),
        location.index < old(fs)@.epc(),
    ensures
        final(fs).inv(),
        (final(fs)@, r) == old(fs)@.put_marker(location, FATX_DELETED_FILE_MARKER),
        final(fs).marked() == old(fs).marked(),
{
    set_entry_marker(fs, location, FATX_DELETED_FILE_MARKER)
}

pub fn mark_end_of_directory(fs: &mut FatxFs, location: EntryLocation) -> (r: Result<(), Error>)
    requires
        old(fs).inv(),
        location.index < old(fs)@.epc(),
    ensures
        final(fs).inv(),
        (final(fs)@, r) == old(fs)@.put_marker(location, FATX_END_OF_DIR_MARKER),
        final(fs).marked() == old(fs).marked(),
{
    set_entry_marker(fs, location, FATX_END_OF_DIR_MARKER)
}

/// The first slot of a directory that holds no live entry and what it holds
/// instead, or the cluster in which the directory ends without one.
fn find_slot(fs: &FatxFs, dir_cluster: ClusterId) -> (r: Result<
    (EntryLocation, Option<DirectoryEntryKind>),
    Error,
>)
    requires
        fs.inv(),
    ensures
        match (r, fs@.walk_dir(dir_cluster, |e: EntryView| !(e.kind() is Valid))) {
            (Err(e), WalkEnd::Failed(error)) => e == error,
            (Ok((location, Some(kind))), WalkEnd::Stopped(at, e)) => {
                &&& location == at
                &&& location.index < fs@.epc()
                &&& kind == e.kind()
                &&& !(kind is Valid)
            },
            (Ok((location, None)), WalkEnd::Exhausted(last)) => location.cluster == last,
            _ => false,
        },
{
    proof {
        fs.lemma_inv();
    }
    let ghost stop = |e: EntryView| !(e.kind() is Valid);
    let mut iter = DirectoryEntryIterator::new(fs, dir_cluster);
    loop
        invariant
            fs.inv(),
            fs@.wf(),
            iter@.wf(fs@),
            !iter@.finished,
            stop == (|e: EntryView| !(e.kind() is Valid)),
            fs@.walk_dir(dir_cluster, stop) == iter@.rest(fs@, stop),
        decreases iter@.left, fs@.epc() - iter@.entry,
    {
        proof {
            lemma_step(iter@, fs@, stop);
        }
        match iter.next(fs) {
            None => {
                return Ok((EntryLocation { cluster: iter.cluster(), index: 0 }, None));
            },
            Some(Err(err)) => {
                return Err(err);
            },
            Some(Ok(entry)) => {
                if entry.kind() != DirectoryEntryKind::Valid {
                    return Ok((iter.location(), Some(entry.kind())));
                }
            },
        }
    }
}

/// Find a place in a directory for a new entry.
///
/// A deleted entry is reused if there is one. Otherwise the entry that marks
/// the end of the directory is taken over, and the marker is pushed one slot
/// along, into a freshly allocated cluster if the directory has run out of
/// room in this one.
pub fn alloc_entry(fs: &mut FatxFs, dir_cluster: ClusterId) -> (r: Result<EntryLocation, Error>)
    requires
        old(fs).inv(),
    ensures
        final(fs).inv(),
        (final(fs)@, r) == old(fs)@.alloc_entry(dir_cluster),
        r matches Ok(location) ==> location.index < old(fs)@.epc(),
        final(fs)@.geo == old(fs)@.geo,
        final(fs).marked() == old(fs).marked(),
{
    proof {
        fs.lemma_inv();
    }
    let entries_per_cluster: u64 = fs.geometry().num_entries_per_cluster;
    let (location, kind) = find_slot(fs, dir_cluster)?;
    match kind {
        Some(DirectoryEntryKind::EndOfDirectory) => {
            // Take this slot and push the end marker one along.
            if location.index + 1 < entries_per_cluster {
                mark_end_of_directory(
                    fs,
                    EntryLocation { cluster: location.cluster, index: location.index + 1 },
                )?;
            } else {
                let next: ClusterId = next_directory_cluster(fs, location.cluster)?;
                mark_end_of_directory(fs, EntryLocation { cluster: next, index: 0 })?;
            }
            Ok(location)
        },
        Some(_) => Ok(location),
        None => {
            // Every slot of every cluster of this directory is occupied and the
            // chain ended without an end-of-directory marker. Carry on into a
            // new cluster.
            let cluster: ClusterId = fs.grow_chain(location.cluster)?;
            mark_end_of_directory(fs, EntryLocation { cluster, index: 1 })?;
            Ok(EntryLocation { cluster, index: 0 })
        },
    }
}

/// The cluster following `cluster` in a directory chain, extending the chain if
/// it ends there.
fn next_directory_cluster(fs: &mut FatxFs, cluster: ClusterId) -> (r: Result<ClusterId, Error>)
    requires
        old(fs).inv(),
    ensures
        final(fs).inv(),
        (final(fs)@, r) == old(fs)@.next_directory_cluster(cluster),
        final(fs)@.geo == old(fs)@.geo,
        final(fs).marked() == old(fs).marked(),
{
    if let Some(next) = fs.next_cluster(cluster)? {
        return Ok(next);
    }
    fs.grow_chain(cluster)
}

/// Whether a directory holds no live entries.
pub fn directory_is_empty(fs: &FatxFs, dir_cluster: ClusterId) -> (r: Result<bool, Error>)
    requires
        fs.inv(),
    ensures
        r == fs@.directory_is_empty(dir_cluster),
{
    proof {
        fs.lemma_inv();
    }
    let ghost stop = |e: EntryView| !(e.kind() is Deleted);
    let mut iter = DirectoryEntryIterator::new(fs, dir_cluster);
    loop
        invariant
            fs.inv(),
            fs@.wf(),
            iter@.wf(fs@),
            !iter@.finished,
            stop == (|e: EntryView| !(e.kind() is Deleted)),
            fs@.walk_dir(dir_cluster, stop) == iter@.rest(fs@, stop),
        decreases iter@.left, fs@.epc() - iter@.entry,
    {
        proof {
            lemma_step(iter@, fs@, stop);
        }
        match iter.next(fs) {
            None => {
                return Ok(true);
            },
            Some(Err(err)) => {
                return Err(err);
            },
            Some(Ok(entry)) => match entry.kind() {
                DirectoryEntryKind::Valid => {
                    return Ok(false);
                },
                DirectoryEntryKind::Deleted => {},
                DirectoryEntryKind::EndOfDirectory => {
                    return Ok(true);
                },
            },
        }
    }
}

} // verus!
