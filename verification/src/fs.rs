//! Opening a filesystem, and the handle everything is done through.
//!
//! An operation works on what has been loaded of the device. Where it needs
//! more than that, it changes nothing and reports which part it needs; once
//! that part has been loaded, the operation is simply run again. What it writes
//! is queued up, to be carried out on the real device afterwards.

use vstd::prelude::*;
#[allow(unused_imports)]
use vstd::utf8::encode_utf8;

use crate::bytes::{get_u16, get_u32, swap_u16, swap_u32};
#[allow(unused_imports)]
use crate::bytes::{le16, le32, swapped16, swapped32};
use crate::datetime::DateTime;
use crate::device::{Device, DeviceWrite, DEVICE_LIMIT};
#[allow(unused_imports)]
use crate::device::DeviceView;
use crate::dir::DirectoryEntry;
use crate::error::Error;
#[allow(unused_imports)]
use crate::error::wants_more;
use crate::fat::Fat;
#[allow(unused_imports)]
use crate::fat::{fat_size, lemma_fat_size, FatView};
use crate::file::File;
#[allow(unused_imports)]
use crate::file::{count, FileView};
use crate::ops::Space;
use crate::partition::{PartitionMapEntry, REST_OF_DEVICE};
use crate::path::VirtualPath;
#[allow(unused_imports)]
use crate::path::{normalized, PathView};
use crate::variant::Variant;
use crate::volume::{FatxFs, Geometry};
#[allow(unused_imports)]
use crate::volume::FsView;
use crate::walk::DirectoryEntryIntoIterator;
#[allow(unused_imports)]
use crate::walk::IterView;

verus! {

/// The signature of a filesystem, "FATX" in its own byte order.
pub const FATX_SIGNATURE: u32 = 0x58544146;

/// The size of the superblock, which the table follows.
pub const FATX_FAT_OFFSET_BYTES: u64 = 4096;

/// The superblock, without the padding that fills it up.
#[derive(Debug, Clone, Copy, PartialEq, Eq, Structural)]
pub struct Superblock {
    pub signature: u32,
    pub volume_id: u32,
    pub num_sectors_per_cluster: u32,
    pub root_cluster: u32,
    pub unknown_0: u16,
}

impl Superblock {
    pub open spec fn parsed(b: Seq<u8>) -> Superblock {
        Superblock {
            signature: le32(b.subrange(0, 4)),
            volume_id: le32(b.subrange(4, 8)),
            num_sectors_per_cluster: le32(b.subrange(8, 12)),
            root_cluster: le32(b.subrange(12, 16)),
            unknown_0: le16(b.subrange(16, 18)),
        }
    }

    /// Take a superblock from its bytes, every field least significant byte
    /// first.
    pub fn from_bytes(b: &[u8]) -> (s: Self)
        requires
            b@.len() == 4096,
        ensures
            s == Self::parsed(b@),
    {
        Self {
            signature: get_u32(b, 0),
            volume_id: get_u32(b, 4),
            num_sectors_per_cluster: get_u32(b, 8),
            root_cluster: get_u32(b, 12),
            unknown_0: get_u16(b, 16),
        }
    }

    pub open spec fn normalized(self, variant: Variant) -> Superblock {
        if variant.spec_needs_swap() {
            Superblock {
                signature: self.signature,
                volume_id: swapped32(self.volume_id),
                num_sectors_per_cluster: swapped32(self.num_sectors_per_cluster),
                root_cluster: swapped32(self.root_cluster),
                unknown_0: swapped16(self.unknown_0),
            }
        } else {
            self
        }
    }

    /// Convert from on-disk form into canonical little-endian.
    ///
    /// Does nothing for the original Xbox; swaps every field for the 360. The
    /// signature is deliberately left alone: it has already been used to work
    /// out which one this is.
    pub fn normalize(&mut self, variant: Variant)
        ensures
            *final(self) == old(self).normalized(variant),
    {
        if !variant.needs_swap() {
            return;
        }
        self.volume_id = swap_u32(self.volume_id);
        self.num_sectors_per_cluster = swap_u32(self.num_sectors_per_cluster);
        self.root_cluster = swap_u32(self.root_cluster);
        self.unknown_0 = swap_u16(self.unknown_0);
    }
}

/// What a filesystem is to be opened as.
pub struct ConfigView {
    pub device_path: Seq<char>,
    pub partition_offset_bytes: u64,
    pub partition_size_bytes: u64,
    pub num_bytes_per_sector: u64,
    pub variant: Variant,
    pub writable: bool,
}

/// What a filesystem is to be opened as.
pub struct FatxFsConfig {
    device_path: String,
    partition_offset_bytes: u64,
    partition_size_bytes: u64,
    num_bytes_per_sector: u64,
    variant: Variant,
    writable: bool,
}

impl FatxFsConfig {
    pub closed spec fn view(self) -> ConfigView {
        ConfigView {
            device_path: self.device_path@,
            partition_offset_bytes: self.partition_offset_bytes,
            partition_size_bytes: self.partition_size_bytes,
            num_bytes_per_sector: self.num_bytes_per_sector,
            variant: self.variant,
            writable: self.writable,
        }
    }

    /// Sectors are always this long.
    pub open spec fn inv(self) -> bool {
        self@.num_bytes_per_sector == 512
    }

    /// Whichever flavour is found on the C drive of a disk, to be read only.
    pub fn new(device_path: String) -> (config: Self)
        ensures
            config.inv(),
            config@.device_path == device_path@,
            Some(
                PartitionMapEntry::at(
                    config@.partition_offset_bytes,
                    config@.partition_size_bytes,
                ),
            ) == PartitionMapEntry::spec_from_letter("c"@),
            config@.variant == Variant::Auto,
            !config@.writable,
    {
        proof {
            reveal_strlit("x");
            reveal_strlit("y");
            reveal_strlit("z");
            reveal_strlit("c");
            assert("c"@[0] != "x"@[0] && "c"@[0] != "y"@[0] && "c"@[0] != "z"@[0]);
        }
        Self {
            device_path,
            partition_offset_bytes: 0x8ca80000,
            partition_size_bytes: 0x1f400000,
            num_bytes_per_sector: 512,
            variant: Variant::Auto,
            writable: false,
        }
    }

    /// Where the device is to be found.
    pub fn device_path(&self) -> (path: &str)
        ensures
            path@ == self@.device_path,
    {
        self.device_path.as_str()
    }

    /// Whether writing was asked for.
    pub fn is_writable(&self) -> (writable: bool)
        ensures
            writable == self@.writable,
    {
        self.writable
    }

    /// Select an original Xbox partition by drive letter.
    pub fn drive_letter(self, letter: &str) -> (config: Self)
        requires
            self.inv(),
            PartitionMapEntry::spec_from_letter(letter@) is Some,
        ensures
            config.inv(),
            config@ == (ConfigView {
                partition_offset_bytes: PartitionMapEntry::spec_from_letter(
                    letter@,
                )->0.offset_bytes,
                partition_size_bytes: PartitionMapEntry::spec_from_letter(letter@)->0.size_bytes,
                ..self@
            }),
    {
        let mut config = self;
        if let Some(partition) = PartitionMapEntry::from_letter(letter) {
            config.partition_offset_bytes = partition.offset_bytes;
            config.partition_size_bytes = partition.size_bytes;
        }
        config
    }

    /// Select an Xbox 360 partition by name.
    pub fn x360_partition(self, name: &str) -> (config: Self)
        requires
            self.inv(),
            PartitionMapEntry::spec_from_x360_name(name@) is Some,
        ensures
            config.inv(),
            config@ == (ConfigView {
                partition_offset_bytes: PartitionMapEntry::spec_from_x360_name(
                    name@,
                )->0.offset_bytes,
                partition_size_bytes: PartitionMapEntry::spec_from_x360_name(name@)->0.size_bytes,
                ..self@
            }),
    {
        let mut config = self;
        if let Some(partition) = PartitionMapEntry::from_x360_name(name) {
            config.partition_offset_bytes = partition.offset_bytes;
            config.partition_size_bytes = partition.size_bytes;
        }
        config
    }

    /// Force the on-disk byte order rather than detecting it.
    pub fn variant(self, variant: Variant) -> (config: Self)
        requires
            self.inv(),
        ensures
            config.inv(),
            config@ == (ConfigView { variant, ..self@ }),
    {
        let mut config = self;
        config.variant = variant;
        config
    }

    /// Open the device for writing as well as reading.
    ///
    /// Off by default: a filesystem opened read-only cannot be damaged by a
    /// mistake in the caller.
    pub fn writable(self, writable: bool) -> (config: Self)
        requires
            self.inv(),
        ensures
            config.inv(),
            config@ == (ConfigView { writable, ..self@ }),
    {
        let mut config = self;
        config.writable = writable;
        config
    }

    pub fn partition_offset_bytes(self, offset: u64) -> (config: Self)
        requires
            self.inv(),
        ensures
            config.inv(),
            config@ == (ConfigView { partition_offset_bytes: offset, ..self@ }),
    {
        let mut config = self;
        config.partition_offset_bytes = offset;
        config
    }

    pub fn partition_size_bytes(self, size: u64) -> (config: Self)
        requires
            self.inv(),
        ensures
            config.inv(),
            config@ == (ConfigView { partition_size_bytes: size, ..self@ }),
    {
        let mut config = self;
        config.partition_size_bytes = size;
        config
    }
}

impl ConfigView {
    /// How long the partition is on a device of a given length.
    ///
    /// The partitions that run to the end of the disk are resolved against the
    /// length of the device, rounded down to a whole sector.
    pub open spec fn partition_size(self, device_len: nat) -> Result<u64, Error> {
        if self.partition_size_bytes != REST_OF_DEVICE {
            if self.partition_size_bytes % 512 == 0 {
                Ok(self.partition_size_bytes)
            } else {
                Err(Error::InvalidPartitionSize)
            }
        } else if device_len <= self.partition_offset_bytes {
            Err(Error::InvalidPartitionSize)
        } else {
            let remaining = device_len - self.partition_offset_bytes;
            Ok((remaining - remaining % 512) as u64)
        }
    }

    /// The flavour of a filesystem with a given signature, if it is one that
    /// was asked for.
    pub open spec fn resolve_variant(self, signature: u32) -> Result<Variant, Error> {
        match Variant::spec_from_raw_signature(signature, FATX_SIGNATURE) {
            None => Err(Error::InvalidFilesystemSignature),
            Some(detected) => if self.variant is Auto || self.variant == detected {
                Ok(detected)
            } else {
                Err(Error::InvalidFilesystemSignature)
            },
        }
    }

    /// What the superblock says of a partition, and how many entries its table
    /// has.
    #[verifier::opaque]
    pub open spec fn layout(self, size: u64, variant: Variant, superblock: Superblock) -> Result<
        (Geometry, u32),
        Error,
    > {
        if !is_cluster_sectors(superblock.num_sectors_per_cluster) {
            Err(Error::InvalidSectorsPerCluster)
        } else {
            let bpc = superblock.num_sectors_per_cluster * 512;
            let entries = (size as int / bpc) % 0x1_0000_0000;
            let fat_offset = self.partition_offset_bytes + 4096;
            if superblock.root_cluster >= entries {
                Err(Error::InvalidRootCluster)
            } else {
                Ok(
                    (
                        Geometry {
                            variant,
                            writable: self.writable,
                            partition_offset_bytes: self.partition_offset_bytes,
                            partition_size_bytes: size,
                            num_clusters: ((((size - fat_size(entries as nat) - 4096) / bpc) + 1)
                                % 0x1_0000_0000) as u32,
                            num_bytes_per_cluster: bpc as u64,
                            num_entries_per_cluster: (bpc / 64) as u64,
                            root_cluster: superblock.root_cluster,
                            fat_offset_bytes: fat_offset as u64,
                            cluster_offset_bytes: (fat_offset + fat_size(entries as nat)) as u64,
                        },
                        entries as u32,
                    ),
                )
            }
        }
    }

    /// The filesystem found on a device: its layout, how many entries its table
    /// has, and the bytes of the table.
    pub open spec fn mounted(self, dev: DeviceView) -> Result<(Geometry, u32, Seq<u8>), Error> {
        if self.partition_offset_bytes % 512 != 0 {
            Err(Error::InvalidPartitionOffset)
        } else {
            match self.partition_size(dev.len) {
                Err(e) => Err(e),
                Ok(size) => match self.superblock(dev) {
                    Err(e) => Err(e),
                    Ok((variant, superblock)) => match self.layout(size, variant, superblock) {
                        Err(e) => Err(e),
                        Ok((geo, entries)) => self.load_table(dev, geo, entries),
                    },
                },
            }
        }
    }

    /// The superblock of the partition, and the flavour it turns out to be.
    ///
    /// The raw signature identifies the on-disk byte order, so checking it and
    /// resolving the variant are the same step.
    #[verifier::opaque]
    pub open spec fn superblock(self, dev: DeviceView) -> Result<(Variant, Superblock), Error> {
        match dev.read_exact(self.partition_offset_bytes as nat, 4096) {
            Err(e) => Err(e),
            Ok(b) => match self.resolve_variant(Superblock::parsed(b).signature) {
                Err(e) => Err(e),
                Ok(variant) => Ok((variant, Superblock::parsed(b).normalized(variant))),
            },
        }
    }

    /// Read the table of a filesystem whose partition has room for it.
    pub open spec fn load_table(self, dev: DeviceView, geo: Geometry, entries: u32) -> Result<
        (Geometry, u32, Seq<u8>),
        Error,
    > {
        match dev.read_exact(geo.fat_offset_bytes as nat, fat_size(entries as nat)) {
            Err(e) => Err(e),
            Ok(data) => if geo.partition_size_bytes < fat_size(entries as nat) + 4096 {
                Err(Error::InvalidPartitionSize)
            } else if geo.cluster_offset_bytes + geo.num_clusters * geo.num_bytes_per_cluster
                > DEVICE_LIMIT {
                Err(Error::InvalidPartitionSize)
            } else {
                Ok((geo, entries, data))
            },
        }
    }
}

/// A number of sectors a cluster can have: a power of two, up to 1024.
pub open spec fn is_cluster_sectors(n: u32) -> bool {
    ||| n == 1
    ||| n == 2
    ||| n == 4
    ||| n == 8
    ||| n == 16
    ||| n == 32
    ||| n == 64
    ||| n == 128
    ||| n == 256
    ||| n == 512
    ||| n == 1024
}

/// A filesystem that has just been opened, of whose device nothing but the
/// table is held.
pub open spec fn fresh(geo: Geometry, entries: u32, data: Seq<u8>, device_len: nat) -> FsView {
    FsView {
        geo,
        fat: FatView { entries: entries as nat, data, dirty: None },
        dev: DeviceView { len: device_len, known: Map::empty(), outbox: Seq::empty() },
        hint: 2,
    }
}

/// An outcome for which nothing changes if more has to be loaded first.
pub open spec fn settled<T>(before: FsView, outcome: (FsView, Result<T, Error>)) -> (
    FsView,
    Result<T, Error>,
) {
    if wants_more(outcome.1) {
        (before, outcome.1)
    } else {
        outcome
    }
}

/// What a path given as text names.
pub open spec fn named(path: Seq<char>) -> PathView {
    normalized(encode_utf8(path))
}

/// The outcome of opening a file, with the file as what it remembers.
pub open spec fn opened(r: Result<File, Error>) -> Result<FileView, Error> {
    match r {
        Err(e) => Err(e),
        Ok(file) => Ok(file@),
    }
}

impl FsView {
    /// Open a file.
    pub open spec fn open(self, path: PathView) -> Result<FileView, Error> {
        match self.lookup(path) {
            Err(e) => Err(e),
            Ok((entry, location)) => if entry.is_file() {
                Ok(FileView::opened(entry, location))
            } else {
                Err(Error::IsADirectory)
            },
        }
    }

    /// Create an empty file and open it.
    pub open spec fn create(self, path: PathView, now: DateTime) -> (
        FsView,
        Result<FileView, Error>,
    ) {
        match self.create_node(path, 0, now) {
            (v, Err(e)) => (v, Err(e)),
            (v, Ok((entry, location))) => (v, Ok(FileView::opened(entry, Some(location)))),
        }
    }

    /// The directory to list for a path.
    pub open spec fn read_dir(self, path: PathView) -> Result<IterView, Error> {
        match self.lookup(path) {
            Err(e) => Err(e),
            Ok((entry, _)) => if entry.is_directory() {
                Ok(IterView::start(entry.first_cluster, self.fat.entries))
            } else {
                Err(Error::NotADirectory)
            },
        }
    }
}

impl FatxFs {
    /// Open the filesystem on a device, as far as that has been loaded.
    pub fn open_device(config: &FatxFsConfig, device: &Device) -> (r: Result<FatxFsHandle, Error>)
        requires
            config.inv(),
            device.inv(),
        ensures
            match (r, config@.mounted(device@)) {
                (Ok(handle), Ok((geo, entries, data))) => {
                    &&& handle.inv()
                    &&& handle@ == fresh(geo, entries, data, device@.len)
                },
                (Err(e), Err(error)) => e == error,
                _ => false,
            },
    {
        // Partition offset and size validation
        if config.partition_offset_bytes % config.num_bytes_per_sector != 0 {
            return Err(Error::InvalidPartitionOffset);
        }
        let partition_size_bytes: u64 = config.partition_size(device.len())?;
        let (variant, superblock) = config.superblock(device)?;
        proof {
            device.lemma_len();
        }
        let (geo, num_fat_entries) = config.layout(partition_size_bytes, variant, &superblock)?;

        config.load_table(device, geo, num_fat_entries)
    }

    /// Open a file.
    pub fn open(&self, path: &VirtualPath) -> (r: Result<File, Error>)
        requires
            self.inv(),
        ensures
            opened(r) == self@.open(path@),
            r matches Ok(file) ==> file.fits(self@),
    {
        let (dirent, location) = DirectoryEntry::lookup(self, path)?;
        if dirent.is_file() {
            Ok(File::new(dirent, location))
        } else {
            Err(Error::IsADirectory)
        }
    }

    /// Create an empty file and open it for writing.
    pub fn create(&mut self, path: &VirtualPath, now: &DateTime) -> (r: Result<File, Error>)
        requires
            old(self).inv(),
        ensures
            final(self).inv(),
            (final(self)@, opened(r)) == old(self)@.create(path@, *now),
            r matches Ok(file) ==> file.fits(old(self)@),
            final(self).marked() == old(self).marked(),
    {
        let (dirent, location) = self.create_node(path, 0, now)?;
        Ok(File::new(dirent, Some(location)))
    }
}

impl FatxFsConfig {
    /// How long the partition is on a device of a given length.
    fn partition_size(&self, device_size: u64) -> (r: Result<u64, Error>)
        requires
            self.inv(),
        ensures
            r == self@.partition_size(device_size as nat),
    {
        if self.partition_size_bytes == REST_OF_DEVICE {
            if device_size <= self.partition_offset_bytes {
                return Err(Error::InvalidPartitionSize);
            }
            let remaining: u64 = device_size - self.partition_offset_bytes;
            return Ok(remaining - (remaining % self.num_bytes_per_sector));
        }
        if self.partition_size_bytes % self.num_bytes_per_sector != 0 {
            return Err(Error::InvalidPartitionSize);
        }
        Ok(self.partition_size_bytes)
    }

    /// The superblock of the partition, and the flavour it turns out to be.
    fn superblock(&self, device: &Device) -> (r: Result<(Variant, Superblock), Error>)
        requires
            device.inv(),
        ensures
            r == self@.superblock(device@),
            r matches Ok((variant, _)) ==> variant != Variant::Auto && self@.partition_offset_bytes
                + 4096 <= device@.len,
    {
        proof {
            reveal(ConfigView::superblock);
        }
        let data: Vec<u8> = device.read_exact(
            self.partition_offset_bytes,
            FATX_FAT_OFFSET_BYTES,
        )?;
        let mut superblock = Superblock::from_bytes(&data);
        match Variant::from_raw_signature(superblock.signature, FATX_SIGNATURE) {
            None => Err(Error::InvalidFilesystemSignature),
            Some(detected) => {
                if self.variant != Variant::Auto && self.variant != detected {
                    return Err(Error::InvalidFilesystemSignature);
                }
                superblock.normalize(detected);
                Ok((detected, superblock))
            },
        }
    }

    /// Read the table of a filesystem whose partition has room for it.
    fn load_table(&self, device: &Device, geo: Geometry, num_fat_entries: u32) -> (r: Result<
        FatxFsHandle,
        Error,
    >)
        requires
            device.inv(),
            geo.variant != Variant::Auto,
            512 <= geo.num_bytes_per_cluster <= 524288,
            geo.num_bytes_per_cluster == geo.num_entries_per_cluster * 64,
            geo.partition_offset_bytes <= geo.fat_offset_bytes <= DEVICE_LIMIT,
            geo.cluster_offset_bytes == geo.fat_offset_bytes + fat_size(num_fat_entries as nat),
            geo.partition_size_bytes >= fat_size(num_fat_entries as nat) + 4096
                ==> geo.clusters_fit(),
        ensures
            match (r, self@.load_table(device@, geo, num_fat_entries)) {
                (Ok(handle), Ok((_, entries, data))) => {
                    &&& handle.inv()
                    &&& handle@ == fresh(geo, num_fat_entries, data, device@.len)
                },
                (Err(e), Err(error)) => e == error,
                _ => false,
            },
    {
        let fat_size_bytes: u64 = Fat::size_for(num_fat_entries);
        let fat_data: Vec<u8> = device.read_exact(geo.fat_offset_bytes, fat_size_bytes)?;
        proof {
            lemma_fat_size(num_fat_entries as nat);
        }
        if geo.partition_size_bytes < fat_size_bytes + FATX_FAT_OFFSET_BYTES {
            return Err(Error::InvalidPartitionSize);
        }
        proof {
            let n = geo.num_clusters as int;
            let b = geo.num_bytes_per_cluster as int;
            assert(0 <= n * b <= 0xffff_ffff * 524288) by (nonlinear_arith)
                requires
                    0 <= n <= 0xffff_ffff,
                    0 <= b <= 524288,
            ;
        }
        if geo.cluster_offset_bytes + geo.num_clusters as u64 * geo.num_bytes_per_cluster
            > DEVICE_LIMIT {
            return Err(Error::InvalidPartitionSize);
        }
        let fat = Fat::from_bytes(num_fat_entries, fat_data);
        Ok(FatxFsHandle { fs: FatxFs::from_parts(geo, fat, Device::new(device.len())) })
    }

    /// What the superblock says of a partition, and how many entries its table
    /// has.
    fn layout(&self, size: u64, variant: Variant, superblock: &Superblock) -> (r: Result<
        (Geometry, u32),
        Error,
    >)
        requires
            self.inv(),
            self@.partition_offset_bytes <= DEVICE_LIMIT,
            variant != Variant::Auto,
        ensures
            r matches Err(e) ==> self@.layout(size, variant, *superblock) == Err::<
                (Geometry, u32),
                Error,
            >(e),
            r matches Ok((geo, entries)) ==> {
                &&& geo.partition_size_bytes == size
                &&& geo.fat_offset_bytes == self@.partition_offset_bytes + 4096
                &&& geo.partition_offset_bytes == self@.partition_offset_bytes
                &&& geo.cluster_offset_bytes == geo.fat_offset_bytes + fat_size(entries as nat)
                &&& geo.variant == variant
                &&& 512 <= geo.num_bytes_per_cluster <= 524288
                &&& geo.num_bytes_per_cluster == geo.num_entries_per_cluster * 64
                &&& size >= fat_size(entries as nat) + 4096 ==> geo.clusters_fit()
                &&& match self@.layout(size, variant, *superblock) {
                    Err(_) => false,
                    Ok((want, n)) => {
                        &&& n == entries
                        &&& (if size >= fat_size(entries as nat) + 4096 {
                            geo == want
                        } else {
                            geo.fat_offset_bytes == want.fat_offset_bytes
                                && geo.partition_size_bytes == want.partition_size_bytes
                        })
                    },
                }
            },
    {
        proof {
            reveal(ConfigView::layout);
        }
        let sectors: u32 = superblock.num_sectors_per_cluster;
        if !matches!(
            sectors,
            1 | 2 | 4 | 8 | 16 | 32 | 64 | 128 | 256 | 512 | 1024
        ) {
            return Err(Error::InvalidSectorsPerCluster);
        }
        let num_bytes_per_cluster: u64 = sectors as u64 * self.num_bytes_per_sector;
        let fat_offset_bytes: u64 = self.partition_offset_bytes + FATX_FAT_OFFSET_BYTES;
        let num_fat_entries: u32 = ((size / num_bytes_per_cluster) % 0x1_0000_0000) as u32;
        if superblock.root_cluster >= num_fat_entries {
            return Err(Error::InvalidRootCluster);
        }
        let fat_size_bytes: u64 = Fat::size_for(num_fat_entries);
        proof {
            lemma_fat_size(num_fat_entries as nat);
        }
        // A partition too small for its own table is turned down once the
        // table has been read.
        let num_clusters: u64 = if size >= fat_size_bytes + FATX_FAT_OFFSET_BYTES {
            let room: u64 = size - fat_size_bytes - FATX_FAT_OFFSET_BYTES;
            proof {
                lemma_room(room as int, num_bytes_per_cluster as int);
            }
            (room / num_bytes_per_cluster + 1) % 0x1_0000_0000
        } else {
            0
        };
        Ok(
            (
                Geometry {
                    variant,
                    writable: self.writable,
                    partition_offset_bytes: self.partition_offset_bytes,
                    partition_size_bytes: size,
                    num_clusters: num_clusters as u32,
                    num_bytes_per_cluster,
                    num_entries_per_cluster: num_bytes_per_cluster / 64,
                    root_cluster: superblock.root_cluster,
                    fat_offset_bytes,
                    cluster_offset_bytes: fat_offset_bytes + fat_size_bytes,
                },
                num_fat_entries,
            ),
        )
    }
}

proof fn lemma_room(room: int, bpc: int)
    requires
        room >= 0,
        bpc >= 512,
    ensures
        0 <= room / bpc <= room / 512,
        ((room / bpc + 1) % 0x1_0000_0000 - 1) * bpc <= room,
{
    let q = room / bpc;
    assert(0 <= q <= room / 512) by (nonlinear_arith)
        requires
            q == room / bpc,
            room >= 0,
            bpc >= 512,
    ;
    vstd::arithmetic::div_mod::lemma_fundamental_div_mod(room, bpc);
    vstd::arithmetic::div_mod::lemma_mod_bound(room, bpc);
    let n = (q + 1) % 0x1_0000_0000;
    assert((n - 1) * bpc <= bpc * q) by (nonlinear_arith)
        requires
            n - 1 <= q,
            bpc > 0,
    ;
}

/// An open filesystem, on which every operation either runs to its end or asks
/// for more of the device.
pub struct FatxFsHandle {
    pub fs: FatxFs,
}

impl FatxFsHandle {
    pub open spec fn view(self) -> FsView {
        self.fs@
    }

    pub open spec fn inv(self) -> bool {
        self.fs.inv()
    }

    /// Start an operation that may have to be undone.
    pub(crate) fn begin(&mut self)
        requires
            old(self).inv(),
        ensures
            final(self).inv(),
            final(self)@ == old(self)@,
            final(self).fs.marked() == old(self)@,
            final(self).fs.marked().wf(),
    {
        proof {
            self.fs.lemma_inv();
        }
        self.fs.set_mark();
    }

    /// Undo an operation that needs more of the device.
    pub(crate) fn settle(&mut self, error: Option<Error>)
        requires
            old(self).inv(),
            old(self).fs.marked().wf(),
        ensures
            final(self).inv(),
            final(self)@ == (if error matches Some(e) && wants_more(Err::<(), Error>(e)) {
                old(self).fs.marked()
            } else {
                old(self)@
            }),
    {
        if let Some(e) = error {
            if e.is_not_loaded() {
                self.fs.rollback();
            }
        }
    }

    /// Take in one sector of the real device. Writes that are waiting have to
    /// be carried out first.
    pub fn load(&mut self, sector: u64, data: Vec<u8>)
        requires
            old(self).inv(),
            data@.len() == 512,
            old(self)@.dev.outbox.len() == 0,
        ensures
            final(self).inv(),
            final(self)@.geo == old(self)@.geo,
            final(self)@.fat == old(self)@.fat,
            final(self)@.hint == old(self)@.hint,
            final(self)@.dev.len == old(self)@.dev.len,
            final(self)@.dev.outbox == old(self)@.dev.outbox,
            final(self)@.dev.known == Map::new(
                |i: int|
                    old(self)@.dev.known.contains_key(i) || sector * 512 <= i < sector * 512 + 512,
                |i: int|
                    if sector * 512 <= i < sector * 512 + 512 {
                        data@[i - sector * 512]
                    } else {
                        old(self)@.dev.known[i]
                    },
            ),
    {
        self.fs.load(sector, data);
    }

    /// Hand over the writes that are waiting, in the order they were made.
    pub fn take_writes(&mut self) -> (writes: Vec<DeviceWrite>)
        requires
            old(self).inv(),
        ensures
            final(self).inv(),
            writes@.map_values(|w: DeviceWrite| w.view()) == old(self)@.dev.outbox,
            final(self)@ == (FsView {
                dev: DeviceView {
                    len: old(self)@.dev.len,
                    known: Map::empty(),
                    outbox: Seq::empty(),
                },
                ..old(self)@
            }),
    {
        self.fs.take_writes()
    }

    /// Open a file.
    pub fn open(&self, path: &str) -> (r: Result<File, Error>)
        requires
            self.inv(),
        ensures
            opened(r) == self@.open(named(path@)),
            r matches Ok(file) ==> file.fits(self@),
    {
        self.fs.open(&VirtualPath::new(path))
    }

    /// The directory entry of a path.
    pub fn stat(&self, path: &str) -> (r: Result<DirectoryEntry, Error>)
        requires
            self.inv(),
        ensures
            match (r, self@.lookup(named(path@))) {
                (Ok(e), Ok((entry, _))) => e@ == entry,
                (Err(e), Err(error)) => e == error,
                _ => false,
            },
    {
        DirectoryEntry::from_path(&self.fs, &VirtualPath::new(path))
    }

    /// Start listing a directory.
    pub fn read_dir(&self, path: &str) -> (r: Result<DirectoryEntryIntoIterator, Error>)
        requires
            self.inv(),
        ensures
            match (r, self@.read_dir(named(path@))) {
                (Ok(it), Ok(start)) => it@ == start && it@.wf(self@),
                (Err(e), Err(error)) => e == error,
                _ => false,
            },
    {
        let dirent = DirectoryEntry::from_path(&self.fs, &VirtualPath::new(path))?;
        if !dirent.is_directory() {
            return Err(Error::NotADirectory);
        }
        Ok(DirectoryEntryIntoIterator::new(&self.fs, dirent.first_cluster()))
    }

    /// Create an empty file and open it for writing, at a given time.
    pub fn create_at(&mut self, path: &str, now: &DateTime) -> (r: Result<File, Error>)
        requires
            old(self).inv(),
        ensures
            final(self).inv(),
            (final(self)@, opened(r)) == settled(
                old(self)@,
                old(self)@.create(named(path@), *now),
            ),
            r matches Ok(file) ==> file.fits(old(self)@),
    {
        self.begin();
        let r = self.fs.create(&VirtualPath::new(path), now);
        self.settle(error_of(&r));
        r
    }

    /// Create an empty file and open it for writing.
    ///
    /// Fails if anything already exists at that path; use `open` for that.
    pub fn create(&mut self, path: &str) -> (r: Result<File, Error>)
        requires
            old(self).inv(),
        ensures
            final(self).inv(),
            exists|now: DateTime|
                now.in_range() && now.is_present() && (final(self)@, opened(r)) == settled(
                    old(self)@,
                    #[trigger] old(self)@.create(named(path@), now),
                ),
            r matches Ok(file) ==> file.fits(old(self)@),
    {
        self.create_at(path, &DateTime::now())
    }

    /// Create a directory, at a given time.
    pub fn mkdir_at(&mut self, path: &str, now: &DateTime) -> (r: Result<(), Error>)
        requires
            old(self).inv(),
        ensures
            final(self).inv(),
            (final(self)@, r) == settled(old(self)@, old(self)@.mkdir(named(path@), *now)),
    {
        self.begin();
        let r = self.fs.mkdir(&VirtualPath::new(path), now);
        self.settle(error_of(&r));
        r
    }

    /// Create a directory.
    pub fn mkdir(&mut self, path: &str) -> (r: Result<(), Error>)
        requires
            old(self).inv(),
        ensures
            final(self).inv(),
            exists|now: DateTime|
                now.in_range() && now.is_present() && (final(self)@, r) == settled(
                    old(self)@,
                    #[trigger] old(self)@.mkdir(named(path@), now),
                ),
    {
        self.mkdir_at(path, &DateTime::now())
    }

    /// Remove a file.
    pub fn unlink(&mut self, path: &str) -> (r: Result<(), Error>)
        requires
            old(self).inv(),
        ensures
            final(self).inv(),
            (final(self)@, r) == settled(old(self)@, old(self)@.unlink(named(path@))),
    {
        self.begin();
        let r = self.fs.unlink(&VirtualPath::new(path));
        self.settle(error_of(&r));
        r
    }

    /// Remove an empty directory.
    pub fn rmdir(&mut self, path: &str) -> (r: Result<(), Error>)
        requires
            old(self).inv(),
        ensures
            final(self).inv(),
            (final(self)@, r) == settled(old(self)@, old(self)@.rmdir(named(path@))),
    {
        self.begin();
        let r = self.fs.rmdir(&VirtualPath::new(path));
        self.settle(error_of(&r));
        r
    }

    /// Set the length of a file, padding with zeroes if it grows, at a given
    /// time.
    pub fn truncate_at(&mut self, path: &str, size: u64, now: &DateTime) -> (r: Result<(), Error>)
        requires
            old(self).inv(),
        ensures
            final(self).inv(),
            (final(self)@, r) == settled(
                old(self)@,
                old(self)@.truncate(named(path@), size, *now),
            ),
    {
        self.begin();
        let r = self.fs.truncate(&VirtualPath::new(path), size, now);
        self.settle(error_of(&r));
        r
    }

    /// Set the length of a file, padding with zeroes if it grows.
    pub fn truncate(&mut self, path: &str, size: u64) -> (r: Result<(), Error>)
        requires
            old(self).inv(),
        ensures
            final(self).inv(),
            exists|now: DateTime|
                now.in_range() && now.is_present() && (final(self)@, r) == settled(
                    old(self)@,
                    #[trigger] old(self)@.truncate(named(path@), size, now),
                ),
    {
        self.truncate_at(path, size, &DateTime::now())
    }

    /// Move or rename a file or directory, replacing the destination if it
    /// already exists.
    pub fn rename(&mut self, from: &str, to: &str) -> (r: Result<(), Error>)
        requires
            old(self).inv(),
        ensures
            final(self).inv(),
            (final(self)@, r) == settled(
                old(self)@,
                old(self)@.rename(named(from@), named(to@)),
            ),
    {
        self.begin();
        let r = self.fs.rename(&VirtualPath::new(from), &VirtualPath::new(to));
        self.settle(error_of(&r));
        r
    }

    /// Overwrite the access and modification timestamps of a node.
    pub fn set_times(
        &mut self,
        path: &str,
        accessed: Option<DateTime>,
        modified: Option<DateTime>,
    ) -> (r: Result<(), Error>)
        requires
            old(self).inv(),
        ensures
            final(self).inv(),
            (final(self)@, r) == settled(
                old(self)@,
                old(self)@.set_times(named(path@), accessed, modified),
            ),
    {
        self.begin();
        let r = self.fs.set_times(&VirtualPath::new(path), accessed, modified);
        self.settle(error_of(&r));
        r
    }

    /// Queue up everything held in memory to go to the device.
    pub fn sync(&mut self) -> (r: Result<(), Error>)
        requires
            old(self).inv(),
        ensures
            final(self).inv(),
            final(self)@ == old(self)@.flush_fat(),
            r == Ok::<(), Error>(()),
    {
        self.fs.flush_fat()
    }

    /// How much room there is.
    pub fn space(&self) -> (space: Space)
        requires
            self.inv(),
        ensures
            self@.is_space(space),
            space.free_bytes <= space.total_bytes,
    {
        self.fs.space()
    }

    /// Whether this filesystem was opened for writing.
    pub fn is_writable(&self) -> (b: bool)
        requires
            self.inv(),
        ensures
            b == self@.geo.writable,
    {
        self.fs.geometry().writable
    }

    /// The variant this filesystem was opened as, with Auto already resolved
    /// to whichever the signature turned out to be.
    pub fn variant(&self) -> (variant: Variant)
        requires
            self.inv(),
        ensures
            variant == self@.geo.variant,
            variant != Variant::Auto,
    {
        proof {
            self.fs.lemma_inv();
        }
        self.fs.geometry().variant
    }
}

/// What went wrong, if anything did.
pub(crate) fn error_of<T>(r: &Result<T, Error>) -> (e: Option<Error>)
    ensures
        e == (match *r {
            Ok(_) => None::<Error>,
            Err(e) => Some(e),
        }),
{
    match r {
        Ok(_) => None,
        Err(e) => Some(*e),
    }
}

impl File {
    /// Write some bytes at the present position, and tell how many of them went
    /// down.
    pub fn write(&mut self, handle: &mut FatxFsHandle, buf: &[u8]) -> (r: Result<usize, Error>)
        requires
            old(handle).inv(),
            old(self).fits(old(handle)@),
        ensures
            final(handle).inv(),
            final(self).fits(final(handle)@),
            exists|now: DateTime|
                now.in_range() && now.is_present() && (final(self)@, final(handle)@, count(r)) == #[trigger] old(
                    self,
                )@.write(old(handle)@, buf@, now),
    {
        self.write_at(&mut handle.fs, buf, &DateTime::now())
    }

    /// Queue up everything held in memory to go to the device.
    pub fn flush(&mut self, handle: &mut FatxFsHandle) -> (r: Result<(), Error>)
        requires
            old(handle).inv(),
        ensures
            final(handle).inv(),
            final(handle)@ == old(handle)@.flush_fat(),
            r == Ok::<(), Error>(()),
            *final(self) == *old(self),
    {
        handle.sync()
    }
}

} // verus!
