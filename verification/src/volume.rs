//! The state of an open filesystem, and the operations on its clusters that
//! everything else is built from.

use vstd::prelude::*;

use crate::bytes::zero_vec;
#[allow(unused_imports)]
use crate::bytes::zeroes;
use crate::device::Device;
#[allow(unused_imports)]
use crate::device::{DeviceView, DEVICE_LIMIT};
use crate::error::Error;
use crate::fat::{ClusterId, Fat, FatEntry};
#[allow(unused_imports)]
use crate::fat::FatView;
use crate::variant::Variant;

verus! {

/// The first cluster a search for free space may return.
///
/// Entry 0 holds the media descriptor and entry 1 is the root directory, so
/// neither is ever handed out.
pub const FATX_FIRST_ALLOCATABLE_CLUSTER: ClusterId = 2;

/// How many entries of the table come before that of the first cluster.
pub const FATX_FAT_RESERVED_ENTRIES_COUNT: u32 = 1;

/// Where the parts of a filesystem are, and how large they are.
#[derive(Debug, Clone, Copy, PartialEq, Eq, Structural)]
pub struct Geometry {
    pub variant: Variant,
    pub writable: bool,
    pub partition_offset_bytes: u64,
    pub partition_size_bytes: u64,
    pub num_clusters: u32,
    pub num_bytes_per_cluster: u64,
    pub num_entries_per_cluster: u64,
    pub root_cluster: u32,
    pub fat_offset_bytes: u64,
    pub cluster_offset_bytes: u64,
}

impl Geometry {
    pub open spec fn wf(self) -> bool {
        &&& self.variant != Variant::Auto
        &&& 512 <= self.num_bytes_per_cluster <= 524288
        &&& self.num_bytes_per_cluster == self.num_entries_per_cluster * 64
        &&& self.partition_offset_bytes <= self.fat_offset_bytes <= self.cluster_offset_bytes
        &&& self.cluster_offset_bytes + self.num_clusters * self.num_bytes_per_cluster
            <= DEVICE_LIMIT
        &&& self.clusters_fit()
    }

    /// Whether the clusters that can be handed out lie within the partition.
    pub open spec fn clusters_fit(self) -> bool {
        self.cluster_offset_bytes + (self.num_clusters - 1) * self.num_bytes_per_cluster
            <= self.partition_offset_bytes + self.partition_size_bytes
    }

    /// Where a cluster starts on the device.
    pub open spec fn start_of(self, cluster: ClusterId) -> int {
        self.cluster_offset_bytes + (cluster - 1) * self.num_bytes_per_cluster
    }

    /// Whether there is such a cluster.
    pub open spec fn has_cluster(self, cluster: ClusterId) -> bool {
        &&& 1 <= cluster <= self.num_clusters
        &&& self.start_of(cluster) < self.partition_offset_bytes + self.partition_size_bytes
    }

    /// Where a cluster starts, if there is such a cluster.
    pub open spec fn byte_offset(self, cluster: ClusterId) -> Result<u64, Error> {
        if self.has_cluster(cluster) {
            Ok(self.start_of(cluster) as u64)
        } else {
            Err(Error::InvalidClusterNumber)
        }
    }

    /// A cluster that exists can be addressed to its last byte.
    pub proof fn lemma_cluster_fits(self, cluster: ClusterId)
        requires
            self.wf(),
            self.has_cluster(cluster),
        ensures
            self.cluster_offset_bytes <= self.start_of(cluster),
            self.start_of(cluster) + self.num_bytes_per_cluster <= DEVICE_LIMIT,
    {
        let bpc = self.num_bytes_per_cluster as int;
        let n = self.num_clusters as int;
        let c = cluster as int;
        assert((c - 1) * bpc + bpc <= n * bpc) by (nonlinear_arith)
            requires
                1 <= c <= n,
                bpc > 0,
        ;
        assert((c - 1) * bpc >= 0) by (nonlinear_arith)
            requires
                1 <= c,
                bpc > 0,
        ;
    }

    /// Every cluster that can be handed out exists.
    pub proof fn lemma_has_cluster(self, cluster: ClusterId)
        requires
            self.wf(),
            1 <= cluster < self.num_clusters,
        ensures
            self.has_cluster(cluster),
    {
        let bpc = self.num_bytes_per_cluster as int;
        let n = self.num_clusters as int;
        let c = cluster as int;
        assert((c - 1) * bpc + bpc <= (n - 1) * bpc) by (nonlinear_arith)
            requires
                c < n,
                bpc > 0,
        ;
    }

    /// Two clusters share no byte.
    pub proof fn lemma_clusters_apart(self, a: ClusterId, b: ClusterId)
        requires
            self.wf(),
            a < b,
        ensures
            self.start_of(a) + self.num_bytes_per_cluster <= self.start_of(b),
    {
        let bpc = self.num_bytes_per_cluster as int;
        let x = a as int;
        let y = b as int;
        assert((x - 1) * bpc + bpc <= (y - 1) * bpc) by (nonlinear_arith)
            requires
                x < y,
                bpc > 0,
        ;
    }
}

/// What an open filesystem knows and holds.
#[verifier::ext_equal]
pub struct FsView {
    pub geo: Geometry,
    pub fat: FatView,
    pub dev: DeviceView,
    /// Where the next search for a free cluster starts.
    pub hint: u32,
}

impl FsView {
    pub open spec fn wf(self) -> bool {
        &&& self.geo.wf()
        &&& self.fat.wf()
        &&& self.geo.cluster_offset_bytes == self.geo.fat_offset_bytes + self.fat.data.len()
    }

    pub open spec fn bpc(self) -> nat {
        self.geo.num_bytes_per_cluster as nat
    }

    pub open spec fn epc(self) -> nat {
        self.geo.num_entries_per_cluster as nat
    }

    /// What the table says of a cluster.
    pub open spec fn link(self, cluster: ClusterId) -> Result<FatEntry, Error> {
        self.fat.entry(cluster, self.geo.variant)
    }

    /// Overwrite what the table says of a cluster.
    pub open spec fn set_link(self, cluster: ClusterId, entry: FatEntry) -> (
        FsView,
        Result<(), Error>,
    ) {
        let (fat, r) = self.fat.set(cluster, entry, self.geo.variant);
        (FsView { fat, ..self }, r)
    }

    /// The state once some bytes have been written to the device.
    pub open spec fn put(self, at: int, data: Seq<u8>) -> FsView {
        FsView { dev: self.dev.written(at as nat, data), ..self }
    }

    /// Write some bytes somewhere in a cluster.
    pub open spec fn put_in_cluster(self, cluster: ClusterId, at: int, data: Seq<u8>) -> (
        FsView,
        Result<(), Error>,
    ) {
        if self.geo.has_cluster(cluster) {
            (self.put(self.geo.start_of(cluster) + at, data), Ok(()))
        } else {
            (self, Err(Error::InvalidClusterNumber))
        }
    }

    /// The cluster following `cluster`, or None if the chain ends there.
    pub open spec fn next_cluster(self, cluster: ClusterId) -> Result<Option<ClusterId>, Error> {
        match self.link(cluster) {
            Ok(FatEntry::Data(next)) => Ok(Some(next)),
            Ok(FatEntry::End) => Ok(None),
            Ok(_) => Err(Error::InvalidClusterChain),
            Err(e) => Err(e),
        }
    }

    pub open spec fn zero_range(self, cluster: ClusterId, at: int, len: nat) -> (
        FsView,
        Result<(), Error>,
    ) {
        if len == 0 {
            (self, Ok(()))
        } else {
            self.put_in_cluster(cluster, at, zeroes(len))
        }
    }

    /// One past the last cluster that can be handed out. One that the table has
    /// no entry for cannot be.
    pub open spec fn alloc_end(self) -> u32 {
        if self.geo.num_clusters <= self.fat.entries {
            self.geo.num_clusters
        } else {
            self.fat.entries as u32
        }
    }

    /// The first free cluster of a range.
    pub open spec fn first_free(self, from: u32, to: u32) -> Option<ClusterId>
        decreases to - from,
    {
        if from >= to {
            None
        } else if self.link(from) == Ok::<FatEntry, Error>(FatEntry::Available) {
            Some(from)
        } else {
            self.first_free((from + 1) as u32, to)
        }
    }

    /// Where the search for a free cluster really starts.
    pub open spec fn search_start(self) -> u32 {
        if self.hint < 2 || self.hint >= self.alloc_end() {
            2
        } else {
            self.hint
        }
    }

    /// The first free cluster from the hint on, wrapping once.
    pub open spec fn find_free(self) -> Option<ClusterId> {
        match self.first_free(self.search_start(), self.alloc_end()) {
            Some(c) => Some(c),
            None => self.first_free(2, self.search_start()),
        }
    }

    /// The state once a cluster has been claimed.
    pub open spec fn claimed(self, cluster: ClusterId) -> FsView {
        FsView {
            fat: self.fat.set(cluster, FatEntry::End, self.geo.variant).0,
            hint: (cluster + 1) as u32,
            ..self
        }
    }

    /// Claim a free cluster and mark it as the end of a chain.
    pub open spec fn alloc_cluster(self, zero: bool) -> (FsView, Result<ClusterId, Error>) {
        if !self.geo.writable {
            (self, Err(Error::ReadOnlyFilesystem))
        } else {
            match self.find_free() {
                None => (self, Err(Error::NoSpaceLeft)),
                Some(c) => if !zero {
                    (self.claimed(c), Ok(c))
                } else {
                    match self.claimed(c).zero_range(c, 0, self.bpc()) {
                        (v, Ok(())) => (v, Ok(c)),
                        (v, Err(e)) => (v, Err(e)),
                    }
                },
            }
        }
    }

    /// Append a cluster to the chain ending at `tail`.
    pub open spec fn attach_cluster(self, tail: ClusterId, cluster: ClusterId) -> (
        FsView,
        Result<(), Error>,
    ) {
        if !self.geo.writable {
            (self, Err(Error::ReadOnlyFilesystem))
        } else {
            match self.link(tail) {
                Err(e) => (self, Err(e)),
                Ok(FatEntry::End) => match self.set_link(tail, FatEntry::Data(cluster)) {
                    (v, Err(e)) => (v, Err(e)),
                    (v, Ok(())) => v.set_link(cluster, FatEntry::End),
                },
                Ok(_) => (self, Err(Error::InvalidClusterChain)),
            }
        }
    }

    /// Claim a zeroed cluster and append it to the chain ending at `tail`.
    #[verifier::opaque]
    pub open spec fn grow_chain(self, tail: ClusterId) -> (FsView, Result<ClusterId, Error>) {
        match self.alloc_cluster(true) {
            (v, Err(e)) => (v, Err(e)),
            (v, Ok(c)) => match v.attach_cluster(tail, c) {
                (w, Err(e)) => (w, Err(e)),
                (w, Ok(())) => (w, Ok(c)),
            },
        }
    }

    /// Mark a chain as free, of which at most `left` clusters are visited.
    ///
    /// A freed cluster is a good place for the next allocation to look.
    pub open spec fn free_links(self, cluster: ClusterId, left: nat) -> (FsView, Result<(), Error>)
        decreases left,
    {
        if left == 0 {
            (self, Err(Error::InvalidClusterChain))
        } else {
            match self.next_cluster(cluster) {
                Err(e) => (self, Err(e)),
                Ok(next) => {
                    let v = FsView {
                        fat: self.fat.set(cluster, FatEntry::Available, self.geo.variant).0,
                        hint: if cluster < self.hint {
                            cluster
                        } else {
                            self.hint
                        },
                        ..self
                    };
                    match next {
                        None => (v, Ok(())),
                        Some(n) => v.free_links(n, (left - 1) as nat),
                    }
                },
            }
        }
    }

    /// Mark every cluster of a chain as free.
    ///
    /// No cluster is visited twice: it is no longer part of a chain by then.
    #[verifier::opaque]
    pub open spec fn free_cluster_chain(self, first: ClusterId) -> (FsView, Result<(), Error>) {
        if !self.geo.writable {
            (self, Err(Error::ReadOnlyFilesystem))
        } else {
            self.free_links(first, self.fat.entries + 1)
        }
    }

    /// Write the modified part of the table back to the device.
    pub open spec fn flush_fat(self) -> FsView {
        match self.fat.dirty {
            None => self,
            Some((start, end)) => FsView {
                fat: FatView { dirty: None, ..self.fat },
                ..self.put(
                    self.geo.fat_offset_bytes + start,
                    self.fat.data.subrange(start as int, end as int),
                )
            },
        }
    }

    /// Follow a chain for some steps. With `alloc` set, a chain that ends
    /// before that is made longer.
    pub open spec fn advance(self, cluster: ClusterId, steps: nat, alloc: bool) -> (
        FsView,
        Result<ClusterId, Error>,
    )
        decreases steps,
    {
        if steps == 0 {
            (self, Ok(cluster))
        } else {
            match self.next_cluster(cluster) {
                Err(e) => (self, Err(e)),
                Ok(Some(next)) => self.advance(next, (steps - 1) as nat, alloc),
                Ok(None) => if !alloc {
                    (self, Err(Error::InvalidClusterChain))
                } else {
                    match self.grow_chain(cluster) {
                        (v, Err(e)) => (v, Err(e)),
                        (v, Ok(next)) => v.advance(next, (steps - 1) as nat, alloc),
                    }
                },
            }
        }
    }

    /// Put zeroes into the part of the `k`th cluster of a chain that lies
    /// between two sizes of its file.
    pub open spec fn wipe(self, cluster: ClusterId, k: nat, old_size: nat, size: nat) -> (
        FsView,
        Result<(), Error>,
    ) {
        let start = k * self.bpc();
        let lo = if old_size > start {
            old_size
        } else {
            start
        };
        let hi = if size < start + self.bpc() {
            size
        } else {
            start + self.bpc()
        };
        if lo < hi {
            self.zero_range(cluster, lo - start, (hi - lo) as nat)
        } else {
            (self, Ok(()))
        }
    }

    /// How many clusters a chain has, if that is no more than are wanted.
    pub open spec fn held(self, cluster: ClusterId, wanted: nat) -> nat
        decreases wanted,
    {
        if wanted == 0 {
            0
        } else {
            match self.next_cluster(cluster) {
                Ok(Some(next)) => 1 + self.held(next, (wanted - 1) as nat),
                _ => 1,
            }
        }
    }

    /// Put zeroes between two sizes of a file into its clusters from the `k`th up
    /// to the `n`th.
    pub open spec fn wipe_on(self, cluster: ClusterId, k: nat, n: nat, old_size: nat, size: nat) -> (
        FsView,
        Result<(), Error>,
    )
        decreases n - k,
    {
        if k >= n {
            (self, Ok(()))
        } else {
            match self.wipe(cluster, k, old_size, size) {
                (v, Err(e)) => (v, Err(e)),
                (v, Ok(())) => if k + 1 >= n {
                    (v, Ok(()))
                } else {
                    match v.next_cluster(cluster) {
                        Err(e) => (v, Err(e)),
                        Ok(None) => (v, Err(Error::InvalidClusterChain)),
                        Ok(Some(next)) => v.wipe_on(next, k + 1, n, old_size, size),
                    }
                },
            }
        }
    }

    /// End a chain at one of its clusters and free what came after it.
    pub open spec fn cut_chain(self, last: ClusterId) -> (FsView, Result<(), Error>) {
        match self.next_cluster(last) {
            Err(e) => (self, Err(e)),
            Ok(None) => (self, Ok(())),
            Ok(Some(next)) => match self.free_cluster_chain(next) {
                (v, Err(e)) => (v, Err(e)),
                (v, Ok(())) => v.set_link(last, FatEntry::End),
            },
        }
    }

    /// How many clusters a file of a given size has. It keeps at least its
    /// first, so that its entry always points at a real chain.
    pub open spec fn clusters_for(self, size: nat) -> nat {
        if size == 0 {
            1
        } else {
            ((size + self.bpc() - 1) / self.bpc() as int) as nat
        }
    }

    /// Make a chain as long as a new size of its file needs, neither more nor
    /// less, with zeroes where the file has grown. Nothing is wiped before the
    /// chain is as long as that.
    #[verifier::opaque]
    pub open spec fn resize_chain(self, first: ClusterId, old_size: nat, size: nat) -> (
        FsView,
        Result<(), Error>,
    ) {
        let wanted = self.clusters_for(size);
        match self.advance(first, (wanted - 1) as nat, true) {
            (v, Err(e)) => (v, Err(e)),
            (v, Ok(last)) => match v.cut_chain(last) {
                (w, Err(e)) => (w, Err(e)),
                (w, Ok(())) => w.wipe_on(first, 0, self.held(first, wanted), old_size, size),
            },
        }
    }

    /// How many clusters of a range are free.
    pub open spec fn count_free(self, from: u32, to: u32) -> nat
        decreases to - from,
    {
        if from >= to {
            0
        } else {
            (if self.link(from) == Ok::<FatEntry, Error>(FatEntry::Available) {
                1nat
            } else {
                0
            }) + self.count_free((from + 1) as u32, to)
        }
    }
}

/// An open filesystem.
pub struct FatxFs {
    geo: Geometry,
    fat: Fat,
    device: Device,
    /// Where the next search for a free cluster starts.
    ///
    /// Allocation walks the table from here and wraps, so filling a filesystem
    /// does not rescan the same occupied entries over and over.
    alloc_hint: ClusterId,
    /// Where a rollback returns to.
    mark_hint: ClusterId,
}

impl FatxFs {
    pub closed spec fn view(self) -> FsView {
        FsView { geo: self.geo, fat: self.fat@, dev: self.device@, hint: self.alloc_hint }
    }

    /// The view a rollback returns to.
    pub closed spec fn marked(self) -> FsView {
        FsView {
            geo: self.geo,
            fat: self.fat.marked(),
            dev: self.device.marked(),
            hint: self.mark_hint,
        }
    }

    pub closed spec fn inv(self) -> bool {
        &&& self@.wf()
        &&& self.fat.inv()
        &&& self.device.inv()
    }

    pub proof fn lemma_inv(self)
        requires
            self.inv(),
        ensures
            self@.wf(),
            self@.dev.len <= DEVICE_LIMIT,
    {
        self.device.lemma_len();
    }

    /// A filesystem with the given parts, none of whose clusters has been
    /// handed out yet.
    pub fn from_parts(geo: Geometry, fat: Fat, device: Device) -> (fs: Self)
        requires
            fat.inv(),
            device.inv(),
            geo.wf(),
            geo.cluster_offset_bytes == geo.fat_offset_bytes + fat@.data.len(),
        ensures
            fs.inv(),
            fs@ == (FsView { geo, fat: fat@, dev: device@, hint: 2 }),
    {
        proof {
            fat.lemma_inv();
        }
        FatxFs {
            geo,
            fat,
            device,
            alloc_hint: FATX_FIRST_ALLOCATABLE_CLUSTER,
            mark_hint: FATX_FIRST_ALLOCATABLE_CLUSTER,
        }
    }

    pub fn geometry(&self) -> (geo: Geometry)
        ensures
            geo == self@.geo,
    {
        self.geo
    }

    /// The number of entries of the table.
    pub fn num_fat_entries(&self) -> (n: u32)
        ensures
            n == self@.fat.entries,
    {
        self.fat.num_entries()
    }

    /// Remember the present state, for a rollback to return to.
    pub fn set_mark(&mut self)
        requires
            old(self).inv(),
        ensures
            final(self).inv(),
            final(self)@ == old(self)@,
            final(self).marked() == old(self)@,
    {
        self.fat.set_mark();
        self.device.set_mark();
        self.mark_hint = self.alloc_hint;
    }

    /// Undo everything since the mark was set.
    pub fn rollback(&mut self)
        requires
            old(self).inv(),
            old(self).marked().wf(),
        ensures
            final(self).inv(),
            final(self)@ == old(self).marked(),
            final(self).marked() == old(self).marked(),
    {
        self.fat.rollback();
        self.device.rollback();
        self.alloc_hint = self.mark_hint;
    }

    /// Take in one sector of the real device.
    pub fn load(&mut self, sector: u64, data: Vec<u8>)
        requires
            old(self).inv(),
            data@.len() == 512,
            old(self)@.dev.outbox.len() == 0,
        ensures
            final(self).inv(),
            final(self)@.geo == old(self)@.geo,
            final(self)@.fat == old(self)@.fat,
            final(self)@.hint == old(self)@.hint,
            final(self)@.dev.len == old(self)@.dev.len,
            final(self)@.dev.outbox == old(self)@.dev.outbox,
            final(self)@.dev.known == Map::new(
                |i: int|
                    old(self)@.dev.known.contains_key(i) || sector * 512 <= i < sector * 512 + 512,
                |i: int|
                    if sector * 512 <= i < sector * 512 + 512 {
                        data@[i - sector * 512]
                    } else {
                        old(self)@.dev.known[i]
                    },
            ),
    {
        self.device.load(sector, data);
    }

    /// Hand over the writes that are waiting, in the order they were made.
    pub fn take_writes(&mut self) -> (writes: Vec<crate::device::DeviceWrite>)
        requires
            old(self).inv(),
        ensures
            final(self).inv(),
            writes@.map_values(|w: crate::device::DeviceWrite| w.view())
                == old(self)@.dev.outbox,
            final(self)@ == (FsView {
                dev: DeviceView {
                    len: old(self)@.dev.len,
                    known: Map::empty(),
                    outbox: Seq::empty(),
                },
                ..old(self)@
            }),
    {
        self.device.take_writes()
    }

    /// Refuse the operation unless the filesystem was opened for writing.
    pub fn ensure_writable(&self) -> (r: Result<(), Error>)
        ensures
            r == (if self@.geo.writable {
                Ok(())
            } else {
                Err(Error::ReadOnlyFilesystem)
            }),
    {
        if self.geo.writable {
            Ok(())
        } else {
            Err(Error::ReadOnlyFilesystem)
        }
    }

    /// Where a cluster starts on the device.
    ///
    /// A cluster number read from the disk is whatever its bytes say, so one
    /// that no cluster of the partition has is refused.
    pub fn cluster_to_byte_offset(&self, cluster: ClusterId) -> (r: Result<u64, Error>)
        requires
            self.inv(),
        ensures
            r == self@.geo.byte_offset(cluster),
    {
        if cluster < FATX_FAT_RESERVED_ENTRIES_COUNT || cluster > self.geo.num_clusters {
            return Err(Error::InvalidClusterNumber);
        }
        let index: u64 = (cluster - FATX_FAT_RESERVED_ENTRIES_COUNT) as u64;
        let bpc: u64 = self.geo.num_bytes_per_cluster;
        proof {
            let n = self.geo.num_clusters as int;
            assert(index * bpc <= n * bpc) by (nonlinear_arith)
                requires
                    index <= n,
                    bpc > 0,
            ;
            assert(index * bpc >= 0) by (nonlinear_arith)
                requires
                    index >= 0,
                    bpc > 0,
            ;
            assert((cluster - 1) * bpc == index * bpc);
        }
        let byte_offset: u64 = self.geo.cluster_offset_bytes + index * bpc;
        if byte_offset - self.geo.partition_offset_bytes >= self.geo.partition_size_bytes {
            return Err(Error::InvalidClusterNumber);
        }
        Ok(byte_offset)
    }

    /// Read from the device, or what there is to read before its end.
    pub fn read_device(&self, offset: u64, len: u64) -> (r: Result<Vec<u8>, Error>)
        requires
            self.inv(),
        ensures
            (match r {
                Ok(data) => Ok(data@),
                Err(e) => Err(e),
            }) == self@.dev.read(offset as nat, len as nat),
            r matches Ok(data) ==> data@.len() <= len,
    {
        self.device.read(offset, len)
    }

    /// Read exactly this much from the device.
    pub fn read_exact(&self, offset: u64, len: u64) -> (r: Result<Vec<u8>, Error>)
        requires
            self.inv(),
        ensures
            (match r {
                Ok(data) => Ok(data@),
                Err(e) => Err(e),
            }) == self@.dev.read_exact(offset as nat, len as nat),
            r matches Ok(data) ==> data@.len() == len,
    {
        self.device.read_exact(offset, len)
    }

    /// Write some bytes somewhere in a cluster.
    pub fn put_in_cluster(&mut self, cluster: ClusterId, at: u64, data: Vec<u8>) -> (r: Result<
        (),
        Error,
    >)
        requires
            old(self).inv(),
            0 < data@.len(),
            at + data@.len() <= old(self)@.bpc(),
        ensures
            final(self).inv(),
            (final(self)@, r) == old(self)@.put_in_cluster(cluster, at as int, data@),
            final(self).marked() == old(self).marked(),
    {
        let start: u64 = self.cluster_to_byte_offset(cluster)?;
        proof {
            self.geo.lemma_cluster_fits(cluster);
        }
        self.device.write(start + at, data)
    }

    /// What the table says of a cluster.
    pub fn link(&self, cluster: ClusterId) -> (r: Result<FatEntry, Error>)
        requires
            self.inv(),
        ensures
            r == self@.link(cluster),
    {
        self.fat.entry(cluster, self.geo.variant)
    }

    /// Overwrite what the table says of a cluster.
    pub fn set_link(&mut self, cluster: ClusterId, entry: FatEntry) -> (r: Result<(), Error>)
        requires
            old(self).inv(),
        ensures
            final(self).inv(),
            (final(self)@, r) == old(self)@.set_link(cluster, entry),
            final(self).marked() == old(self).marked(),
    {
        let r = self.fat.set_entry(cluster, entry, self.geo.variant);
        proof {
            self.fat.lemma_inv();
        }
        r
    }

    /// The cluster following `cluster`, or None if the chain ends there.
    pub fn next_cluster(&self, cluster: ClusterId) -> (r: Result<Option<ClusterId>, Error>)
        requires
            self.inv(),
        ensures
            r == self@.next_cluster(cluster),
    {
        match self.link(cluster)? {
            FatEntry::Data(next) => Ok(Some(next)),
            FatEntry::End => Ok(None),
            _ => Err(Error::InvalidClusterChain),
        }
    }

    /// The first free cluster of a range.
    fn first_free(&self, from: u32, to: u32) -> (r: Option<ClusterId>)
        requires
            self.inv(),
            to <= self@.fat.entries,
        ensures
            r == self@.first_free(from, to),
    {
        let mut index: u32 = from;
        while index < to
            invariant
                self.inv(),
                to <= self@.fat.entries,
                self@.first_free(from, to) == self@.first_free(index, to),
            decreases to - index,
        {
            if let Ok(FatEntry::Available) = self.link(index) {
                return Some(index);
            }
            index += 1;
        }
        None
    }

    /// Claim a free cluster and mark it as the end of a chain.
    ///
    /// Zeroing is optional because a caller about to overwrite the whole
    /// cluster with file data would only be writing it twice; anything holding
    /// structure, such as a directory, or a cluster that will be partly
    /// written, must ask for it, or stale bytes from a deleted file show
    /// through.
    pub fn alloc_cluster(&mut self, zero: bool) -> (r: Result<ClusterId, Error>)
        requires
            old(self).inv(),
        ensures
            final(self).inv(),
            (final(self)@, r) == old(self)@.alloc_cluster(zero),
            final(self).marked() == old(self).marked(),
    {
        self.ensure_writable()?;

        // Walk the table from the hint, wrapping once, so that every
        // allocatable entry is considered exactly once before giving up.
        let entries: u32 = self.fat.num_entries();
        let last: u32 = if self.geo.num_clusters <= entries {
            self.geo.num_clusters
        } else {
            entries
        };
        let start: u32 = if self.alloc_hint < 2 || self.alloc_hint >= last {
            2
        } else {
            self.alloc_hint
        };
        let found: Option<ClusterId> = match self.first_free(start, last) {
            Some(c) => Some(c),
            None => {
                if start <= last {
                    self.first_free(2, start)
                } else {
                    None
                }
            },
        };
        let cluster: ClusterId = match found {
            Some(c) => c,
            None => {
                return Err(Error::NoSpaceLeft);
            },
        };
        proof {
            lemma_first_free(self@, start, last);
            lemma_first_free(self@, 2, start);
        }
        self.alloc_hint = cluster + 1;
        self.set_link(cluster, FatEntry::End)?;
        if zero {
            self.zero_cluster(cluster)?;
        }
        Ok(cluster)
    }

    /// Overwrite a whole cluster with zeroes.
    pub fn zero_cluster(&mut self, cluster: ClusterId) -> (r: Result<(), Error>)
        requires
            old(self).inv(),
        ensures
            final(self).inv(),
            (final(self)@, r) == old(self)@.zero_range(cluster, 0, old(self)@.bpc()),
            final(self).marked() == old(self).marked(),
    {
        self.zero_range(cluster, 0, self.geo.num_bytes_per_cluster)
    }

    /// Overwrite part of a cluster with zeroes.
    pub fn zero_range(&mut self, cluster: ClusterId, offset_in_cluster: u64, len: u64) -> (r:
        Result<(), Error>)
        requires
            old(self).inv(),
            offset_in_cluster + len <= old(self)@.bpc(),
        ensures
            final(self).inv(),
            (final(self)@, r) == old(self)@.zero_range(
                cluster,
                offset_in_cluster as int,
                len as nat,
            ),
            final(self).marked() == old(self).marked(),
    {
        if len == 0 {
            return Ok(());
        }
        self.put_in_cluster(cluster, offset_in_cluster, zero_vec(len as usize))
    }

    /// Append a cluster to the chain ending at `tail`.
    pub fn attach_cluster(&mut self, tail: ClusterId, cluster: ClusterId) -> (r: Result<(), Error>)
        requires
            old(self).inv(),
        ensures
            final(self).inv(),
            (final(self)@, r) == old(self)@.attach_cluster(tail, cluster),
            final(self).marked() == old(self).marked(),
    {
        self.ensure_writable()?;
        if self.link(tail)? != FatEntry::End {
            return Err(Error::InvalidClusterChain);
        }
        self.set_link(tail, FatEntry::Data(cluster))?;
        self.set_link(cluster, FatEntry::End)
    }

    /// Claim a zeroed cluster and append it to the chain ending at `tail`.
    pub fn grow_chain(&mut self, tail: ClusterId) -> (r: Result<ClusterId, Error>)
        requires
            old(self).inv(),
        ensures
            final(self).inv(),
            (final(self)@, r) == old(self)@.grow_chain(tail),
            final(self)@.geo == old(self)@.geo,
            final(self).marked() == old(self).marked(),
    {
        proof {
            reveal(FsView::grow_chain);
        }
        let cluster: ClusterId = self.alloc_cluster(true)?;
        self.attach_cluster(tail, cluster)?;
        Ok(cluster)
    }

    /// Mark every cluster of a chain as free.
    pub fn free_cluster_chain(&mut self, first_cluster: ClusterId) -> (r: Result<(), Error>)
        requires
            old(self).inv(),
        ensures
            final(self).inv(),
            (final(self)@, r) == old(self)@.free_cluster_chain(first_cluster),
            final(self).marked() == old(self).marked(),
    {
        proof {
            reveal(FsView::free_cluster_chain);
        }
        self.ensure_writable()?;
        let mut cluster: ClusterId = first_cluster;
        let mut left: u64 = self.fat.num_entries() as u64 + 1;
        while left > 0
            invariant
                self.inv(),
                old(self)@.geo.writable,
                left <= u32::MAX + 1,
                old(self)@.free_cluster_chain(first_cluster) == self@.free_links(
                    cluster,
                    left as nat,
                ),
                self.marked() == old(self).marked(),
            decreases left,
        {
            // Read the link before dropping it, or the rest of the chain is
            // unreachable.
            let next: Option<ClusterId> = self.next_cluster(cluster)?;
            self.set_link(cluster, FatEntry::Available)?;
            if cluster < self.alloc_hint {
                self.alloc_hint = cluster;
            }
            match next {
                Some(n) => {
                    cluster = n;
                },
                None => {
                    return Ok(());
                },
            }
            left -= 1;
        }
        Err(Error::InvalidClusterChain)
    }

    /// Write the modified part of the table back to the device.
    ///
    /// Called at the end of every operation that changes the table, so that the
    /// allocation state on disk never lags behind the data written against it.
    pub fn flush_fat(&mut self) -> (r: Result<(), Error>)
        requires
            old(self).inv(),
        ensures
            final(self).inv(),
            final(self)@ == old(self)@.flush_fat(),
            r == Ok::<(), Error>(()),
            final(self).marked() == old(self).marked(),
    {
        if let Some((start, data)) = self.fat.dirty_range() {
            proof {
                self.fat.lemma_inv();
                lemma_clusters_end(self.geo);
            }
            self.device.write(self.geo.fat_offset_bytes + start as u64, data)?;
            self.fat.mark_clean();
        }
        Ok(())
    }

    /// Walk a chain to the cluster a number of steps along.
    ///
    /// With `alloc` set, a chain that ends before that is extended to reach it,
    /// which is what writing past the end of a file needs.
    pub fn advance(&mut self, first: ClusterId, steps: u64, alloc: bool) -> (r: Result<
        ClusterId,
        Error,
    >)
        requires
            old(self).inv(),
        ensures
            final(self).inv(),
            (final(self)@, r) == old(self)@.advance(first, steps as nat, alloc),
            final(self).marked() == old(self).marked(),
    {
        let mut cluster: ClusterId = first;
        let mut left: u64 = steps;
        while left > 0
            invariant
                self.inv(),
                old(self)@.advance(first, steps as nat, alloc) == self@.advance(
                    cluster,
                    left as nat,
                    alloc,
                ),
                self.marked() == old(self).marked(),
            decreases left,
        {
            match self.next_cluster(cluster)? {
                Some(next) => {
                    cluster = next;
                },
                None => {
                    if !alloc {
                        return Err(Error::InvalidClusterChain);
                    }
                    cluster = self.grow_chain(cluster)?;
                },
            }
            left -= 1;
        }
        Ok(cluster)
    }

    /// Walk a chain to the cluster a number of steps along, if it is that long.
    pub fn follow(&self, first: ClusterId, steps: u64) -> (r: Result<ClusterId, Error>)
        requires
            self.inv(),
        ensures
            (self@, r) == self@.advance(first, steps as nat, false),
    {
        let mut cluster: ClusterId = first;
        let mut left: u64 = steps;
        while left > 0
            invariant
                self.inv(),
                self@.advance(first, steps as nat, false) == self@.advance(
                    cluster,
                    left as nat,
                    false,
                ),
            decreases left,
        {
            match self.next_cluster(cluster)? {
                Some(next) => {
                    cluster = next;
                },
                None => {
                    return Err(Error::InvalidClusterChain);
                },
            }
            left -= 1;
        }
        Ok(cluster)
    }

    /// Walk a cluster chain to the cluster holding a byte offset.
    pub fn cluster_for_offset(&mut self, first_cluster: ClusterId, offset: u64, alloc: bool) -> (r:
        Result<ClusterId, Error>)
        requires
            old(self).inv(),
        ensures
            final(self).inv(),
            (final(self)@, r) == old(self)@.advance(
                first_cluster,
                offset as nat / old(self)@.bpc(),
                alloc,
            ),
            final(self).marked() == old(self).marked(),
    {
        self.advance(first_cluster, offset / self.geo.num_bytes_per_cluster, alloc)
    }

    /// Put zeroes into the part of the `k`th cluster of a chain that lies
    /// between two sizes of its file.
    fn wipe(&mut self, cluster: ClusterId, k: u64, old_size: u64, size: u64) -> (r: Result<
        (),
        Error,
    >)
        requires
            old(self).inv(),
            k <= u32::MAX,
        ensures
            final(self).inv(),
            (final(self)@, r) == old(self)@.wipe(cluster, k as nat, old_size as nat, size as nat),
            final(self).marked() == old(self).marked(),
    {
        let bpc: u64 = self.geo.num_bytes_per_cluster;
        assert(0 <= k * bpc <= 0xffff_ffff * 524288) by (nonlinear_arith)
            requires
                k <= 0xffff_ffff,
                bpc <= 524288,
        ;
        let start: u64 = k * bpc;
        let lo: u64 = if old_size > start {
            old_size
        } else {
            start
        };
        let hi: u64 = if size < start + bpc {
            size
        } else {
            start + bpc
        };
        if lo < hi {
            return self.zero_range(cluster, lo - start, hi - lo);
        }
        Ok(())
    }

    /// Walk a chain as far as it goes, but no further than is wanted, and tell
    /// how many clusters that are and which is the last.
    fn measure(&self, first: ClusterId, wanted: u64) -> (r: Result<(u64, ClusterId), Error>)
        requires
            self.inv(),
            wanted >= 1,
        ensures
            match r {
                Ok((n, last)) => {
                    &&& 1 <= n <= wanted
                    &&& n == self@.held(first, wanted as nat)
                    &&& self@.advance(first, (wanted - 1) as nat, true) == self@.advance(
                        last,
                        (wanted - n) as nat,
                        true,
                    )
                },
                Err(e) => self@.advance(first, (wanted - 1) as nat, true) == (
                    self@,
                    Err::<ClusterId, Error>(e),
                ),
            },
    {
        let mut cluster: ClusterId = first;
        let mut n: u64 = 1;
        while n < wanted
            invariant
                self.inv(),
                1 <= n <= wanted,
                self@.held(first, wanted as nat) == n - 1 + self@.held(
                    cluster,
                    (wanted - n + 1) as nat,
                ),
                self@.advance(first, (wanted - 1) as nat, true) == self@.advance(
                    cluster,
                    (wanted - n) as nat,
                    true,
                ),
            decreases wanted - n,
        {
            match self.next_cluster(cluster)? {
                Some(next) => {
                    cluster = next;
                    n += 1;
                },
                None => {
                    return Ok((n, cluster));
                },
            }
        }
        proof {
            reveal_with_fuel(FsView::held, 2);
        }
        Ok((n, cluster))
    }

    /// Put zeroes between two sizes of a file into the first `n` of its clusters.
    fn wipe_on(&mut self, first: ClusterId, n: u64, old_size: u64, size: u64) -> (r: Result<
        (),
        Error,
    >)
        requires
            old(self).inv(),
            n <= u32::MAX,
        ensures
            final(self).inv(),
            (final(self)@, r) == old(self)@.wipe_on(
                first,
                0,
                n as nat,
                old_size as nat,
                size as nat,
            ),
            final(self).marked() == old(self).marked(),
    {
        let mut cluster: ClusterId = first;
        let mut k: u64 = 0;
        while k < n
            invariant
                self.inv(),
                k <= n <= u32::MAX,
                old(self)@.wipe_on(first, 0, n as nat, old_size as nat, size as nat)
                    == self@.wipe_on(cluster, k as nat, n as nat, old_size as nat, size as nat),
                self.marked() == old(self).marked(),
            decreases n - k,
        {
            self.wipe(cluster, k, old_size, size)?;
            k += 1;
            if k < n {
                match self.next_cluster(cluster)? {
                    Some(next) => {
                        cluster = next;
                    },
                    None => {
                        return Err(Error::InvalidClusterChain);
                    },
                }
            }
        }
        Ok(())
    }

    /// Make a chain as long as a new size of its file needs.
    ///
    /// Bytes between the old end of the file and the new one must read as
    /// zero. Clusters that are added are allocated zeroed, but a cluster the
    /// chain already had can be holding bytes that are now part of the file.
    pub fn resize_chain(&mut self, first: ClusterId, old_size: u64, size: u64) -> (r: Result<
        (),
        Error,
    >)
        requires
            old(self).inv(),
            size <= u32::MAX,
        ensures
            final(self).inv(),
            (final(self)@, r) == old(self)@.resize_chain(first, old_size as nat, size as nat),
            final(self).marked() == old(self).marked(),
    {
        proof {
            reveal(FsView::resize_chain);
        }
        let bpc: u64 = self.geo.num_bytes_per_cluster;
        let wanted: u64 = if size == 0 {
            1
        } else {
            (size + bpc - 1) / bpc
        };
        proof {
            assert(wanted == self@.clusters_for(size as nat));
            if size > 0 {
                let s = size as int;
                let b = bpc as int;
                assert(1 <= (s + b - 1) / b <= s) by (nonlinear_arith)
                    requires
                        s >= 1,
                        b >= 1,
                ;
            }
        }

        // Walk the chain, extending it if it is short of what is wanted.
        let (had, end) = self.measure(first, wanted)?;
        let last: ClusterId = self.advance(end, wanted - had, true)?;

        // Anything past that is no longer part of the file.
        if let Some(next) = self.next_cluster(last)? {
            self.free_cluster_chain(next)?;
            self.set_link(last, FatEntry::End)?;
        }
        self.wipe_on(first, had, old_size, size)
    }

    /// How many of the clusters that can be handed out are free.
    pub fn count_free(&self) -> (n: u32)
        requires
            self.inv(),
        ensures
            n == self@.count_free(2, self@.alloc_end()),
    {
        let entries: u32 = self.fat.num_entries();
        let last: u32 = if self.geo.num_clusters <= entries {
            self.geo.num_clusters
        } else {
            entries
        };
        let mut n: u32 = 0;
        let mut index: u32 = 2;
        while index < last
            invariant
                self.inv(),
                last == self@.alloc_end(),
                2 <= index,
                n <= index - 2,
                self@.count_free(2, last) == n + self@.count_free(index, last),
            decreases last - index,
        {
            if let Ok(FatEntry::Available) = self.link(index) {
                n += 1;
            }
            index += 1;
        }
        n
    }
}

proof fn lemma_clusters_end(geo: Geometry)
    requires
        geo.wf(),
    ensures
        geo.cluster_offset_bytes <= DEVICE_LIMIT,
{
    let n = geo.num_clusters as int;
    let bpc = geo.num_bytes_per_cluster as int;
    assert(n * bpc >= 0) by (nonlinear_arith)
        requires
            n >= 0,
            bpc >= 0,
    ;
}

/// What the search of a range finds is a free cluster of that range.
pub proof fn lemma_first_free(v: FsView, from: u32, to: u32)
    ensures
        v.first_free(from, to) matches Some(c) ==> from <= c < to && v.link(c) == Ok::<
            FatEntry,
            Error,
        >(FatEntry::Available),
        v.first_free(from, to) is None ==> forall|c: u32|
            from <= c < to ==> #[trigger] v.link(c) != Ok::<FatEntry, Error>(FatEntry::Available),
    decreases to - from,
{
    if from < to && v.link(from) != Ok::<FatEntry, Error>(FatEntry::Available) {
        lemma_first_free(v, (from + 1) as u32, to);
    }
}

} // verus!
