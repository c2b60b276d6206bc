//! The requests of a mounted filesystem, run against an image held in memory.

use fatx::attr::{Attributes, NodeKind};
use fatx::driver::{Driver, Stop};
use fatx::error::{Errno, IoError};
use fatx::{DateTime, Device, Error, FatxFs, FatxFsConfig, Variant};

const SECTOR: usize = 512;
const SECTORS_PER_CLUSTER: u32 = 2;
const CLUSTER: usize = SECTOR * SECTORS_PER_CLUSTER as usize;
const PARTITION: usize = 64 * 1024;
const TABLE: usize = 4096;
const CLUSTERS: usize = 8192;

struct Mount {
    disk: Vec<u8>,
    driver: Driver,
    /// How often more of the disk had to be loaded.
    loads: usize,
}

fn blank() -> Vec<u8> {
    let mut disk = vec![0u8; PARTITION];
    disk[0..4].copy_from_slice(b"FATX");
    disk[4..8].copy_from_slice(&0x1234u32.to_le_bytes());
    disk[8..12].copy_from_slice(&SECTORS_PER_CLUSTER.to_le_bytes());
    disk[12..16].copy_from_slice(&1u32.to_le_bytes());
    disk[TABLE..TABLE + 2].copy_from_slice(&0xfff8u16.to_le_bytes());
    disk[TABLE + 2..TABLE + 4].copy_from_slice(&0xffffu16.to_le_bytes());
    disk[CLUSTERS] = 0xff;
    disk
}

fn sector_of(disk: &[u8], sector: u64) -> Vec<u8> {
    let start = sector as usize * SECTOR;
    let mut data = disk[start.min(disk.len())..(start + SECTOR).min(disk.len())].to_vec();
    data.resize(SECTOR, 0);
    data
}

fn mount(disk: Vec<u8>, writable: bool) -> Mount {
    let config = FatxFsConfig::new("image".to_string())
        .variant(Variant::Auto)
        .writable(writable)
        .partition_offset_bytes(0)
        .partition_size_bytes(PARTITION as u64);
    let mut device = Device::new(disk.len() as u64);
    loop {
        match FatxFs::open_device(&config, &device) {
            Err(Error::Io(IoError::NotLoaded { offset, len })) => {
                for sector in offset / 512..(offset + len).div_ceil(512) {
                    device.load(sector, sector_of(&disk, sector));
                }
            }
            other => {
                return Mount { disk, driver: Driver::new(other.unwrap()), loads: 0 };
            }
        }
    }
}

impl Mount {
    fn run<T>(&mut self, mut op: impl FnMut(&mut Driver) -> Result<T, Stop>) -> Result<T, Errno> {
        loop {
            assert!(self.driver.has_numbers());
            let r = op(&mut self.driver);
            if let Err(Stop::Load { offset, len }) = r {
                self.loads += 1;
                for sector in offset / 512..(offset + len).div_ceil(512) {
                    self.driver.load(sector, sector_of(&self.disk, sector));
                }
                continue;
            }
            for write in self.driver.take_writes() {
                let start = write.offset as usize;
                self.disk[start..start + write.data.len()].copy_from_slice(&write.data);
            }
            return match r {
                Ok(value) => Ok(value),
                Err(Stop::Answer(errno)) => Err(errno),
                Err(Stop::Load { .. }) => unreachable!(),
            };
        }
    }

    fn lookup(&mut self, parent: u64, name: &str) -> Result<Attributes, Errno> {
        self.run(|d| d.lookup(parent, name))
    }

    fn create(&mut self, parent: u64, name: &str) -> Result<Attributes, Errno> {
        self.run(|d| d.create(parent, name, &noon()))
    }

    fn mkdir(&mut self, parent: u64, name: &str) -> Result<Attributes, Errno> {
        self.run(|d| d.mkdir(parent, name, &noon()))
    }

    fn write(&mut self, ino: u64, offset: u64, data: &[u8]) -> Result<(), Errno> {
        self.run(|d| d.write(ino, offset, data, &noon()))
    }

    fn read(&mut self, ino: u64, offset: u64, size: u32) -> Result<Vec<u8>, Errno> {
        self.run(|d| d.read(ino, offset, size))
    }

    fn names(&mut self, ino: u64) -> Vec<(u64, NodeKind, String)> {
        self.page(ino, 0).into_iter().map(|(line, _)| line).collect()
    }

    fn page(&mut self, ino: u64, offset: u64) -> Vec<((u64, NodeKind, String), u64)> {
        self.run(|d| d.readdir(ino, offset))
            .unwrap()
            .into_iter()
            .map(|(line, next)| ((line.ino, line.kind, line.name), next))
            .collect()
    }
}

fn noon() -> DateTime {
    DateTime::new(2004, 5, 6, 12, 30, 58)
}

fn fields(dt: DateTime) -> (u16, u8, u8, u8, u8, u8) {
    (dt.year(), dt.month(), dt.day(), dt.hour(), dt.minute(), dt.second())
}

#[test]
fn nodes_are_created_looked_up_and_listed() {
    let mut m = mount(blank(), true);
    let dir = m.mkdir(1, "saves").unwrap();
    assert_eq!((dir.ino, dir.kind, dir.perm, dir.nlink), (2, NodeKind::Directory, 0o755, 2));
    let file = m.create(dir.ino, "one.dat").unwrap();
    assert_eq!((file.ino, file.kind, file.size), (3, NodeKind::RegularFile, 0));
    assert_eq!(fields(file.created), (2004, 5, 6, 12, 30, 58));

    assert_eq!(m.lookup(dir.ino, "one.dat").unwrap().ino, 3);
    assert_eq!(m.lookup(1, "saves").unwrap().ino, 2);
    assert_eq!(m.lookup(1, "nothing").unwrap_err(), Errno::Enoent);
    assert_eq!(m.lookup(99, "saves").unwrap_err(), Errno::Enoent);
    // A path through a file is reported as missing too.
    assert_eq!(m.lookup(3, "below").unwrap_err(), Errno::Enoent);

    assert_eq!(
        m.names(1),
        vec![
            (1, NodeKind::Directory, ".".to_string()),
            (1, NodeKind::Directory, "..".to_string()),
            (2, NodeKind::Directory, "saves".to_string()),
        ]
    );
    assert_eq!(
        m.names(2),
        vec![
            (2, NodeKind::Directory, ".".to_string()),
            (1, NodeKind::Directory, "..".to_string()),
            (3, NodeKind::RegularFile, "one.dat".to_string()),
        ]
    );
    assert_eq!(m.run(|d| d.readdir(77, 0).map(|_| ())), Err(Errno::Eio));
    assert_eq!(m.run(|d| d.readdir(3, 0).map(|_| ())), Err(Errno::Enotdir));
}

#[test]
fn what_is_written_is_read_and_survives_mounting_again() {
    let mut m = mount(blank(), true);
    let file = m.create(1, "data").unwrap();
    let payload: Vec<u8> = (0..CLUSTER * 3 + 77).map(|i| (i % 241) as u8).collect();
    m.write(file.ino, 0, &payload).unwrap();
    m.write(file.ino, 10, b"patched").unwrap();
    let mut want = payload.clone();
    want[10..17].copy_from_slice(b"patched");

    assert_eq!(m.read(file.ino, 0, 100_000).unwrap(), want);
    assert_eq!(m.read(file.ino, 5, 20).unwrap(), want[5..25]);
    assert_eq!(m.read(file.ino, want.len() as u64, 20).unwrap(), Vec::<u8>::new());

    let mut again = mount(m.disk.clone(), false);
    let found = again.lookup(1, "data").unwrap();
    assert_eq!(found.size, want.len() as u64);
    assert_eq!(found.blocks, want.len() as u64 / 512);
    assert_eq!(again.read(found.ino, 0, 100_000).unwrap(), want);
    assert!(again.loads > 0);
}

#[test]
fn attributes_are_told_and_changed() {
    let mut m = mount(blank(), true);
    let file = m.create(1, "f").unwrap();
    m.write(file.ino, 0, &[7; 100]).unwrap();
    let told = m.run(|d| d.getattr(file.ino)).unwrap();
    assert_eq!((told.ino, told.size, told.blksize, told.uid, told.gid), (file.ino, 100, 512, 501, 20));

    let when = DateTime::new(2010, 1, 2, 3, 4, 6);
    let changed =
        m.run(|d| d.setattr(file.ino, Some(40), Some(when), None, &noon())).unwrap();
    assert_eq!((changed.size, fields(changed.accessed)), (40, (2010, 1, 2, 3, 4, 6)));
    assert_eq!(fields(changed.modified), (2004, 5, 6, 12, 30, 58));
    assert_eq!(fields(changed.changed), (2004, 5, 6, 12, 30, 58));
    assert_eq!(m.read(file.ino, 0, 1000).unwrap(), vec![7; 40]);

    let changed = m.run(|d| d.setattr(file.ino, None, None, Some(when), &noon())).unwrap();
    assert_eq!(fields(changed.modified), (2010, 1, 2, 3, 4, 6));

    // The root has no entry to keep times in, and that is no failure.
    let root = m.run(|d| d.setattr(1, None, Some(when), Some(when), &noon())).unwrap();
    assert_eq!((root.ino, root.kind), (1, NodeKind::Directory));
    assert_eq!(
        m.run(|d| d.setattr(1, Some(0), None, None, &noon())).unwrap_err(),
        Errno::Eisdir
    );
    assert_eq!(
        m.run(|d| d.setattr(file.ino, Some(1 << 32), None, None, &noon())).unwrap_err(),
        Errno::Efbig
    );
    assert_eq!(m.run(|d| d.getattr(50)).unwrap_err(), Errno::Enoent);
    assert_eq!(m.run(|d| d.setattr(50, None, None, None, &noon())).unwrap_err(), Errno::Enoent);
}

#[test]
fn a_directory_that_moves_takes_its_numbers_along() {
    let mut m = mount(blank(), true);
    let dir = m.mkdir(1, "a").unwrap();
    let file = m.create(dir.ino, "x").unwrap();
    m.write(file.ino, 0, b"kept").unwrap();

    m.run(|d| d.rename(1, "a", 1, "b", 0)).unwrap();
    assert_eq!(m.lookup(1, "a").unwrap_err(), Errno::Enoent);
    assert_eq!(m.lookup(1, "b").unwrap().ino, dir.ino);
    assert_eq!(m.read(file.ino, 0, 10).unwrap(), b"kept");
    assert_eq!(m.lookup(dir.ino, "x").unwrap().ino, file.ino);

    assert_eq!(m.run(|d| d.rename(1, "b", dir.ino, "c", 0)).unwrap_err(), Errno::Einval);
    assert_eq!(m.run(|d| d.rename(1, "b", 1, "c", 1)).unwrap_err(), Errno::Einval);
    assert_eq!(m.run(|d| d.rename(60, "b", 1, "c", 0)).unwrap_err(), Errno::Enoent);
    assert_eq!(m.run(|d| d.rename(1, "none", 1, "c", 0)).unwrap_err(), Errno::Enoent);
}

#[test]
fn removed_nodes_are_forgotten_and_their_room_comes_back() {
    let mut m = mount(blank(), true);
    let empty = m.driver.statfs();
    let dir = m.mkdir(1, "d").unwrap();
    let file = m.create(dir.ino, "f").unwrap();
    m.write(file.ino, 0, &vec![1; CLUSTER * 2]).unwrap();
    assert_eq!(m.driver.statfs().bfree, empty.bfree - 3);

    assert_eq!(m.run(|d| d.rmdir(1, "d")).unwrap_err(), Errno::Enotempty);
    assert_eq!(m.run(|d| d.unlink(1, "d")).unwrap_err(), Errno::Eisdir);
    assert_eq!(m.run(|d| d.rmdir(dir.ino, "f")).unwrap_err(), Errno::Enotdir);
    m.run(|d| d.unlink(dir.ino, "f")).unwrap();
    assert_eq!(m.run(|d| d.getattr(file.ino)).unwrap_err(), Errno::Enoent);
    m.run(|d| d.rmdir(1, "d")).unwrap();
    assert_eq!(m.driver.statfs(), empty);
    assert_eq!(m.run(|d| d.unlink(1, "f")).unwrap_err(), Errno::Enoent);
    assert_eq!(m.run(|d| d.unlink(40, "f")).unwrap_err(), Errno::Enoent);
    assert_eq!(m.run(|d| d.rmdir(40, "f")).unwrap_err(), Errno::Enoent);

    assert_eq!((empty.bsize, empty.frsize, empty.namelen), (CLUSTER as u32, CLUSTER as u32, 42));
    assert_eq!((empty.files, empty.ffree), (0, 0));
    assert_eq!(empty.bfree, empty.bavail);
}

#[test]
fn a_mount_that_is_not_for_writing_refuses_every_request_to_change() {
    let mut m = mount(blank(), true);
    let file = m.create(1, "f").unwrap();
    m.write(file.ino, 0, b"here").unwrap();
    let before = m.disk.clone();

    let mut m = mount(before.clone(), false);
    let file = m.lookup(1, "f").unwrap();
    assert_eq!(m.create(1, "g").unwrap_err(), Errno::Erofs);
    assert_eq!(m.mkdir(1, "g").unwrap_err(), Errno::Erofs);
    assert_eq!(m.write(file.ino, 0, b"gone").unwrap_err(), Errno::Erofs);
    assert_eq!(m.run(|d| d.unlink(1, "f")).unwrap_err(), Errno::Erofs);
    assert_eq!(m.run(|d| d.rmdir(1, "f")).unwrap_err(), Errno::Erofs);
    assert_eq!(m.run(|d| d.rename(1, "f", 1, "g", 0)).unwrap_err(), Errno::Erofs);
    assert_eq!(
        m.run(|d| d.setattr(file.ino, Some(1), None, None, &noon())).unwrap_err(),
        Errno::Erofs
    );
    assert!(!m.driver.fsync());
    assert!(m.driver.take_writes().is_empty());
    assert!(mount(blank(), true).driver.fsync());
    assert_eq!(m.disk, before);
}

#[test]
fn a_full_filesystem_says_so_and_keeps_what_it_has() {
    let mut m = mount(blank(), true);
    let file = m.create(1, "big").unwrap();
    let all = vec![3u8; PARTITION];
    assert_eq!(m.write(file.ino, 0, &all).unwrap_err(), Errno::Enospc);
    assert_eq!(m.driver.statfs().bfree, 0);
    assert_eq!(m.create(1, "more").unwrap_err(), Errno::Enospc);
    let got = m.read(file.ino, 0, PARTITION as u32).unwrap();
    assert_eq!(got.len(), m.driver.statfs().blocks as usize * CLUSTER);
    assert!(got.iter().all(|&b| b == 3));
    m.run(|d| d.unlink(1, "big")).unwrap();
    m.create(1, "more").unwrap();
}

#[test]
fn names_that_cannot_be_stored_are_refused() {
    let mut m = mount(blank(), true);
    let long = "n".repeat(43);
    assert_eq!(m.create(1, &long).unwrap_err(), Errno::Enametoolong);
    assert_eq!(m.mkdir(1, &long).unwrap_err(), Errno::Enametoolong);
    let longest = "n".repeat(42);
    m.create(1, &longest).unwrap();
    assert_eq!(m.create(1, &longest).unwrap_err(), Errno::Eexist);
    assert_eq!(m.write(9, 0, b"x").unwrap_err(), Errno::Enoent);
    assert_eq!(m.read(9, 0, 1).unwrap_err(), Errno::Enoent);
    assert_eq!(m.read(1, 0, 1).unwrap_err(), Errno::Eisdir);
    let file = m.lookup(1, &longest).unwrap();
    assert_eq!(m.read(file.ino, u64::MAX, 1).unwrap_err(), Errno::Einval);
    assert_eq!(m.read(file.ino, 1 << 32, 1).unwrap_err(), Errno::Efbig);
    assert_eq!(m.write(file.ino, u32::MAX as u64, b"x").unwrap_err(), Errno::Efbig);
}

#[test]
fn a_listing_goes_on_where_it_stopped() {
    let mut m = mount(blank(), true);
    for name in ["a", "b", "c"] {
        m.create(1, name).unwrap();
    }
    let whole = m.page(1, 0);
    let names: Vec<&str> = whole.iter().map(|((_, _, name), _)| name.as_str()).collect();
    assert_eq!(names, [".", "..", "a", "b", "c"]);
    let nexts: Vec<u64> = whole.iter().map(|(_, next)| *next).collect();
    assert_eq!(nexts, [1, 2, 3, 4, 5]);
    for n in 1..=whole.len() {
        assert_eq!(m.page(1, whole[n - 1].1), whole[n..]);
    }
    assert_eq!(m.page(1, 6), []);
    assert_eq!(m.page(1, u64::MAX), []);
    assert_eq!(m.page(1, 0), whole);
}

#[test]
fn any_name_can_be_renamed_but_one_that_ends_in_several_slashes() {
    let mut m = mount(blank(), true);
    m.mkdir(1, "d").unwrap();
    let file = m.create(1, "d/f").unwrap();
    for name in ["d", "d/", "d/f", "/d", "", "."] {
        assert!(m.driver.can_move(1, name));
    }
    assert!(!m.driver.can_move(1, "d//"));
    assert!(m.driver.can_move(99, "d//"));
    m.run(|d| d.rename(1, "d/f", 1, "g", 0)).unwrap();
    assert_eq!(m.lookup(1, "g").unwrap().ino, file.ino);
    assert_eq!(m.run(|d| d.rename(1, "d/f", 1, "h", 0)).unwrap_err(), Errno::Enoent);
}

#[test]
fn a_create_or_a_rename_without_room_for_the_entry_leaves_everything_as_it_was() {
    let mut m = mount(blank(), true);
    // One slot of the first cluster of the root is left, and taking it means
    // making the directory longer.
    for i in 0..CLUSTER / 64 - 1 {
        m.create(1, &format!("f{i}")).unwrap();
    }
    let first = m.lookup(1, "f0").unwrap();
    let fill = m.driver.statfs().bfree as usize * CLUSTER;
    m.write(first.ino, 0, &vec![7u8; fill]).unwrap();
    assert_eq!(m.driver.statfs().bfree, 1);
    let names = m.names(1);

    assert_eq!(m.create(1, "g").unwrap_err(), Errno::Enospc);
    assert_eq!(m.mkdir(1, "g").unwrap_err(), Errno::Enospc);
    assert_eq!(m.driver.statfs().bfree, 1);
    assert_eq!(m.names(1), names);

    m.write(first.ino, fill as u64, b"x").unwrap();
    assert_eq!(m.driver.statfs().bfree, 0);
    assert_eq!(m.run(|d| d.rename(1, "f1", 1, "f2", 0)).unwrap_err(), Errno::Enospc);
    assert_eq!(m.names(1), names);

    // Once there is a slot to take, it needs no cluster at all, and what it
    // replaces gives one back.
    m.run(|d| d.unlink(1, "f3")).unwrap();
    assert_eq!(m.driver.statfs().bfree, 1);
    m.run(|d| d.rename(1, "f1", 1, "f2", 0)).unwrap();
    assert_eq!(m.driver.statfs().bfree, 2);
    assert_eq!(m.lookup(1, "f1").unwrap_err(), Errno::Enoent);
    assert_eq!(m.names(1).len(), names.len() - 2);
}

#[test]
fn a_file_that_cannot_grow_keeps_every_byte_of_its_clusters() {
    let mut m = mount(blank(), true);
    let file = m.create(1, "f").unwrap();
    m.write(file.ino, 0, &[7; 900]).unwrap();
    m.run(|d| d.setattr(file.ino, Some(10), None, None, &noon())).unwrap();
    let rest = m.create(1, "rest").unwrap();
    assert_eq!(m.write(rest.ino, 0, &vec![3u8; PARTITION]).unwrap_err(), Errno::Enospc);

    // Cluster 2 is the one the file was given, with bytes past its end.
    let cluster = CLUSTERS + CLUSTER..CLUSTERS + 2 * CLUSTER;
    let before = m.disk[cluster.clone()].to_vec();
    assert_eq!(before[..900], [7; 900]);
    assert_eq!(
        m.run(|d| d.setattr(file.ino, Some(5000), None, None, &noon())).unwrap_err(),
        Errno::Enospc
    );
    // Nor does a write with a gap before it.
    assert_eq!(m.write(file.ino, 5000, b"x").unwrap_err(), Errno::Enospc);
    assert_eq!(m.disk[cluster.clone()], before[..]);
    assert_eq!(m.read(file.ino, 0, 1000).unwrap(), vec![7; 10]);

    // Within the cluster there is room, and what is added is zero.
    m.run(|d| d.setattr(file.ino, Some(20), None, None, &noon())).unwrap();
    let mut grown = vec![7; 10];
    grown.extend([0; 10]);
    assert_eq!(m.read(file.ino, 0, 1000).unwrap(), grown);
    assert_eq!(m.disk[cluster][20..900], [7; 880]);
}

#[test]
fn a_file_with_clusters_to_spare_grows_into_zeroes() {
    let mut m = mount(blank(), true);
    let file = m.create(1, "f").unwrap();
    m.write(file.ino, 0, &[7; 3 * CLUSTER]).unwrap();
    // Its entry says that it is 10 bytes long, and nothing else changes.
    assert_eq!(m.disk[CLUSTERS + 2..CLUSTERS + 3], *b"f");
    m.disk[CLUSTERS + 48..CLUSTERS + 52].copy_from_slice(&10u32.to_le_bytes());
    let mut m = mount(m.disk, true);
    let file = m.lookup(1, "f").unwrap();
    assert_eq!(file.size, 10);
    let free = m.driver.statfs().bfree;
    let size = 2 * CLUSTER + 5;
    m.run(|d| d.setattr(file.ino, Some(size as u64), None, None, &noon())).unwrap();
    let mut grown = vec![7; 10];
    grown.resize(size, 0);
    assert_eq!(m.read(file.ino, 0, PARTITION as u32).unwrap(), grown);
    assert_eq!(m.driver.statfs().bfree, free);
    // With one cluster less, the one that is no longer needed comes back.
    m.run(|d| d.setattr(file.ino, Some(CLUSTER as u64 + 1), None, None, &noon())).unwrap();
    assert_eq!(m.driver.statfs().bfree, free + 1);
}

#[test]
fn looking_up_a_dot_leaves_the_parent_of_a_directory_as_it_is() {
    let mut m = mount(blank(), true);
    let a = m.mkdir(1, "a").unwrap();
    let b = m.mkdir(a.ino, "b").unwrap();
    let dot = m.lookup(b.ino, ".").unwrap();
    let parent = m.names(b.ino)[1].0;
    assert_eq!(parent, a.ino);
    assert_eq!(m.names(dot.ino)[1].0, parent);
    assert_eq!(m.run(|d| d.rename(1, "a", 1, "a", 0)), Ok(()));
}
