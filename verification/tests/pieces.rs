//! The parts the filesystem is made of, each on its own.

use fatx::bytes::{get_u16, get_u32, put_u16, put_u32, swap_u16, swap_u32};
use fatx::choice::{choose_config, ChoiceError};
use fatx::datetime::{reported_instant, ClockReading, DEFAULT_INSTANT};
use fatx::error::{Errno, ErrorKind, IoError};
use fatx::fat::{Fat, FatEntry};
use fatx::fs::Superblock;
use fatx::inode::{child_path, parent_path, InodeTracker};
use fatx::path::VirtualPath;
use fatx::platform::{looks_like_device, macos_geometry, windows_geometry, GeometryError};
use fatx::{DateTime, DirectoryEntry, DirectoryEntryKind, Error, PartitionMapEntry, Variant};

#[test]
fn numbers_are_stored_least_significant_byte_first() {
    let mut data = vec![0u8; 8];
    put_u16(&mut data, 1, 0x1234);
    put_u32(&mut data, 4, 0x89ab_cdef);
    assert_eq!(data, vec![0, 0x34, 0x12, 0, 0xef, 0xcd, 0xab, 0x89]);
    assert_eq!(get_u16(&data, 1), 0x1234);
    assert_eq!(get_u32(&data, 4), 0x89ab_cdef);
    assert_eq!(swap_u16(0x1234), 0x3412);
    assert_eq!(swap_u32(0x1234_5678), 0x7856_3412);
}

#[test]
fn table_entries_read_back_in_both_widths_and_orders() {
    for variant in [Variant::Xbox, Variant::X360] {
        for entries in [100u32, 0xfff0] {
            let mut fat = Fat::new(entries);
            for (i, entry) in [
                (2, FatEntry::Data(77)),
                (3, FatEntry::End),
                (4, FatEntry::Bad),
                (5, FatEntry::Reserved),
                (6, FatEntry::Media),
            ] {
                assert_eq!(fat.set_entry(i, entry, variant), Ok(()));
                assert_eq!(fat.entry(i, variant), Ok(entry));
            }
            assert_eq!(fat.entry(7, variant), Ok(FatEntry::Available));
            assert_eq!(fat.entry(entries, variant), Err(Error::InvalidClusterNumber));
            assert_eq!(
                fat.set_entry(entries, FatEntry::End, variant),
                Err(Error::InvalidClusterNumber)
            );
            assert_eq!(
                fat.set_entry(2, FatEntry::Data(0), variant),
                Err(Error::InvalidClusterNumber)
            );
            assert_eq!(
                fat.set_entry(2, FatEntry::Invalid, variant),
                Err(Error::InvalidClusterChain)
            );
            assert_eq!(fat.entry(2, variant), Ok(FatEntry::Data(77)));
        }
    }
    assert_eq!(Fat::size_for(100), 4096);
    assert_eq!(Fat::size_for(0xffef), 131072);
    assert_eq!(Fat::size_for(0xfff0), 262144);
}

#[test]
fn values_past_the_markers_are_told_apart() {
    assert_eq!(FatEntry::from(0xffefu16), FatEntry::Data(0xffef));
    assert_eq!(FatEntry::from(0xfff1u16), FatEntry::Invalid);
    assert_eq!(FatEntry::from(0xfff7u16), FatEntry::Bad);
    assert_eq!(FatEntry::from(0xffff_ffefu32), FatEntry::Data(0xffff_ffef));
    assert_eq!(FatEntry::from(0xffff_fff8u32), FatEntry::Media);
    assert_eq!(FatEntry::from(0xffffu32), FatEntry::Data(0xffff));
    assert_eq!(FatEntry::End.to_raw(), Ok(0xffff_ffff));
    assert_eq!(FatEntry::Data(0xffff_fff0).to_raw(), Err(Error::InvalidClusterNumber));
}

#[test]
fn entries_are_laid_out_as_on_disk() {
    let dt = DateTime::new(2003, 7, 9, 10, 20, 30);
    let mut e = DirectoryEntry::new_node(b"SAVE.DAT", 0, 0x0102, &dt, Variant::Xbox).unwrap();
    e.set_file_size(0x0a0b_0c0d);
    let b = e.to_bytes();
    assert_eq!(b.len(), 64);
    assert_eq!((b[0], b[1]), (8, 0));
    assert_eq!(&b[2..10], b"SAVE.DAT");
    assert_eq!(b[10], 0xff);
    assert_eq!(&b[44..48], &[2, 1, 0, 0]);
    assert_eq!(&b[48..52], &[0x0d, 0x0c, 0x0b, 0x0a]);
    let back = DirectoryEntry::from_bytes(&b);
    assert_eq!(back.file_name(), "SAVE.DAT");
    assert_eq!(back.first_cluster(), 0x0102);
    assert_eq!(back.created(Variant::Xbox).year(), 2003);
    assert_eq!(back.kind(), DirectoryEntryKind::Valid);
    assert!(back.is_file() && !back.is_directory());

    let mut swapped = back;
    swapped.denormalize(Variant::X360);
    assert_eq!(&swapped.to_bytes()[44..48], &[0, 0, 1, 2]);
    swapped.normalize(Variant::X360);
    assert_eq!(swapped.to_bytes(), b);
}

#[test]
fn names_have_to_fit_and_be_text() {
    let mut e = DirectoryEntry::root(1);
    assert_eq!(e.set_file_name(b""), Err(Error::InvalidFileName));
    assert_eq!(e.set_file_name(&[b'a'; 43]), Err(Error::InvalidFileName));
    assert_eq!(e.set_file_name(&[b'a'; 42]), Ok(()));
    assert_eq!(e.checked_file_name(), Some("a".repeat(42)));
    assert!(e.has_name(&[b'a'; 42]));
    assert!(!e.has_name(b"a"));

    let mut b = e.to_bytes();
    b[2] = 0x80;
    assert_eq!(DirectoryEntry::from_bytes(&b).checked_file_name(), None);
    b[0] = 0xe5;
    assert_eq!(DirectoryEntry::from_bytes(&b).kind(), DirectoryEntryKind::Deleted);
    b[0] = 0xff;
    assert_eq!(DirectoryEntry::from_bytes(&b).kind(), DirectoryEntryKind::EndOfDirectory);
    b[0] = 0;
    assert_eq!(DirectoryEntry::from_bytes(&b).kind(), DirectoryEntryKind::EndOfDirectory);
    b[0] = 43;
    assert_eq!(DirectoryEntry::from_bytes(&b).kind(), DirectoryEntryKind::Valid);
    assert_eq!(DirectoryEntry::from_bytes(&b).checked_file_name(), None);
}

#[test]
fn a_superblock_is_read_in_either_order() {
    let mut b = vec![0u8; 4096];
    b[0..4].copy_from_slice(b"XTAF");
    b[4..8].copy_from_slice(&0xcafe_babeu32.to_be_bytes());
    b[8..12].copy_from_slice(&32u32.to_be_bytes());
    b[12..16].copy_from_slice(&1u32.to_be_bytes());
    b[16..18].copy_from_slice(&7u16.to_be_bytes());
    let mut s = Superblock::from_bytes(&b);
    assert_eq!(
        Variant::from_raw_signature(s.signature, 0x5854_4146),
        Some(Variant::X360)
    );
    let signature = s.signature;
    s.normalize(Variant::X360);
    assert_eq!(
        (s.signature, s.volume_id, s.num_sectors_per_cluster, s.root_cluster, s.unknown_0),
        (signature, 0xcafe_babe, 32, 1, 7)
    );
    s.normalize(Variant::Xbox);
    assert_eq!(s.num_sectors_per_cluster, 32);
    assert_eq!(Variant::from_raw_signature(0x5854_4146, 0x5854_4146), Some(Variant::Xbox));
    assert_eq!(Variant::from_raw_signature(0, 0x5854_4146), None);
}

#[test]
fn variants_are_named() {
    assert_eq!(Variant::parse("auto"), Some(Variant::Auto));
    assert_eq!(Variant::parse("xbox"), Some(Variant::Xbox));
    assert_eq!(Variant::parse("x360"), Some(Variant::X360));
    assert_eq!(Variant::parse("ps2"), None);
    assert_eq!((Variant::Xbox.epoch(), Variant::X360.epoch()), (2000, 1980));
}

#[test]
fn paths_are_taken_apart_and_put_together() {
    let p = VirtualPath::new("/a/./b//c/");
    assert!(p.is_absolute());
    assert_eq!(p.len(), 3);
    assert_eq!(p.component(2), b"c");
    assert!(p.starts_with(&VirtualPath::new("/a/b")));
    assert!(!VirtualPath::new("/ab").starts_with(&VirtualPath::new("/a")));
    assert!(p.parent().same(&VirtualPath::new("/a/b")));
    assert!(!VirtualPath::new("a").is_absolute());

    assert_eq!(child_path("/", "x"), "/x");
    assert_eq!(child_path("/d", "x"), "/d/x");
    assert_eq!(child_path("/d", "/x"), "/x");
    assert_eq!(parent_path("/d/x"), "/d");
    assert_eq!(parent_path("/x"), "/");
    assert_eq!(parent_path("/"), "/");
    // Empty components and `.` are passed over, wherever they stand, as std does.
    for path in [
        "/a/.", "/a//b", "/a/b/", "/a/./b", "//b", "/./b", "/..", "/a/..", "//", "/.", "", "a",
        "a/b//.", ".", "./", "./a", "./.", "..", "a/.b", "/a/b.", ".a", ".a/b", "/é/ü",
    ] {
        let parent = std::path::Path::new(path).parent().unwrap_or(std::path::Path::new(path));
        assert_eq!(parent_path(path), parent.to_str().unwrap(), "of {path}");
    }
    assert_eq!(parent_path("/a/."), "/");
    assert_eq!(parent_path("/a//b"), "/a");
}

#[test]
fn numbers_stand_for_paths() {
    let mut t = InodeTracker::new();
    assert_eq!(t.get_path(1), Some("/".to_string()));
    assert_eq!(t.get_path(2), None);
    let a = t.get_or_create_inode("/a");
    let b = t.get_or_create_inode("/a/b");
    let c = t.get_or_create_inode("/ab");
    let d = t.get_or_create_inode("/z/b");
    assert_eq!((a, b, c, d), (2, 3, 4, 5));
    assert_eq!(t.get_or_create_inode("/a"), a);

    t.rename_path("/a", "/z");
    assert_eq!(t.get_path(a), Some("/z".to_string()));
    assert_eq!(t.get_path(b), Some("/z/b".to_string()));
    assert_eq!(t.get_path(c), Some("/ab".to_string()));
    // What was known at the new place is forgotten.
    assert_eq!(t.get_path(d), None);

    t.forget_path("/z");
    assert_eq!(t.get_path(a), None);
    assert_eq!(t.get_or_create_inode("/z"), 6);
    assert!(t.has_numbers());
}

#[test]
fn geometries_are_checked() {
    assert_eq!(macos_geometry(true, 512, 10), Ok((512, 5120)));
    assert_eq!(macos_geometry(false, 4096, 10), Ok((1, 40960)));
    assert_eq!(macos_geometry(true, 0, 10), Err(GeometryError::SectorSize(0)));
    assert_eq!(macos_geometry(true, 513, 10), Err(GeometryError::SectorSize(513)));
    assert_eq!(
        macos_geometry(true, 512, u64::MAX),
        Err(GeometryError::Length { blocks: u64::MAX, size: 512 })
    );
    let mut g = [0u8; 24];
    g[20..24].copy_from_slice(&4096u32.to_le_bytes());
    assert_eq!(windows_geometry(&g, 99), Ok((4096, 99)));
    g[20] = 1;
    assert_eq!(windows_geometry(&g, 99), Err(GeometryError::SectorSize(4097)));
    assert!(looks_like_device(r"\\.\PhysicalDrive0"));
    assert!(looks_like_device(r"\\?\C:"));
    assert!(!looks_like_device(r"C:\disk.img"));
    assert!(!looks_like_device("/dev/sda"));
}

#[test]
fn partitions_are_chosen() {
    let choose = |variant, letter: &str, partition: Option<&str>, offset, size| {
        choose_config(
            "disk".to_string(),
            variant,
            true,
            letter,
            partition.map(|p| p.to_string()),
            offset,
            size,
        )
    };
    assert!(choose(Variant::Auto, "e", None, None, None).is_ok());
    assert!(choose(Variant::X360, "none", None, None, None).is_ok());
    assert!(choose(Variant::Auto, "c", Some("data"), None, None).is_ok());
    assert!(choose(Variant::Auto, "none", None, Some(0), Some(4096)).is_ok());
    let config = choose(Variant::Auto, "c", None, None, None).unwrap();
    assert_eq!(config.device_path(), "disk");
    assert!(config.is_writable());
    assert!(matches!(
        choose(Variant::Auto, "c", None, Some(0), None),
        Err(ChoiceError::OffsetWithoutSize)
    ));
    assert!(matches!(
        choose(Variant::Auto, "c", None, None, Some(0)),
        Err(ChoiceError::OffsetWithoutSize)
    ));
    assert!(matches!(
        choose(Variant::Auto, "q", None, None, None),
        Err(ChoiceError::UnknownLetter)
    ));
    assert!(matches!(
        choose(Variant::Auto, "c", Some("q"), None, None),
        Err(ChoiceError::UnknownPartition)
    ));
    assert!(PartitionMapEntry::from_letter("c").is_some());
    assert!(PartitionMapEntry::from_x360_name("compat").is_some());
}

#[test]
fn failures_become_the_answers_of_a_mount() {
    for (error, kind, errno) in [
        (Error::NotFound, ErrorKind::NotFound, Errno::Enoent),
        (Error::NotADirectory, ErrorKind::NotADirectory, Errno::Enotdir),
        (Error::IsADirectory, ErrorKind::IsADirectory, Errno::Eisdir),
        (Error::ReadOnlyFilesystem, ErrorKind::ReadOnlyFilesystem, Errno::Erofs),
        (Error::AlreadyExists, ErrorKind::AlreadyExists, Errno::Eexist),
        (Error::InvalidFileName, ErrorKind::InvalidInput, Errno::Enametoolong),
        (Error::DirectoryNotEmpty, ErrorKind::DirectoryNotEmpty, Errno::Enotempty),
        (Error::NoSpaceLeft, ErrorKind::StorageFull, Errno::Enospc),
        (Error::FileTooLarge, ErrorKind::FileTooLarge, Errno::Efbig),
        (Error::InvalidRename, ErrorKind::InvalidInput, Errno::Einval),
        (Error::IsRootDirectory, ErrorKind::PermissionDenied, Errno::Eperm),
        (Error::InvalidClusterChain, ErrorKind::Other, Errno::Eio),
        (Error::Io(IoError::UnexpectedEof), ErrorKind::UnexpectedEof, Errno::Eio),
        (Error::Io(IoError::NegativeSeek), ErrorKind::InvalidInput, Errno::Einval),
    ] {
        assert_eq!(error.kind(), kind);
        assert_eq!(error.errno(), errno);
        assert!(!error.is_not_loaded());
    }
    assert!(Error::Io(IoError::NotLoaded { offset: 0, len: 1 }).is_not_loaded());
}

#[test]
fn clocks_and_timestamps_agree() {
    let reading =
        ClockReading { year: 2021, month: 12, day: 31, hour: 23, minute: 59, second: 58 };
    let dt = DateTime::from_clock(&reading);
    assert_eq!(
        (dt.year(), dt.month(), dt.day(), dt.hour(), dt.minute(), dt.second()),
        (2021, 12, 31, 23, 59, 58)
    );
    let now = DateTime::now();
    assert!(now.year() >= 2024 && (1..=12).contains(&now.month()) && now.day() >= 1);

    // Whatever the time zone, an instant that is broken down names itself.
    let seconds = 1_600_000_000;
    let local = DateTime::from_instant(seconds).unwrap();
    assert_eq!(local.year(), 2020);
    assert_eq!(local.to_instant(), seconds);
    assert_eq!(DateTime::from_instant(i64::MAX).map(|_| ()), None);
    assert!([1969, 1970].contains(&DateTime::from_instant(0).unwrap().year()));
    for (reached, past) in
        [(-8_334_601_228_800, -8_334_601_228_801), (8_210_266_876_799, 8_210_266_876_800)]
    {
        assert!(DateTime::from_instant(reached).is_some());
        assert!(DateTime::from_instant(past).is_none());
    }
    let noon = DateTime::new(2015, 5, 15, 12, 0, 0).to_instant();
    assert!((noon - 1_431_691_200).abs() < 86_400);

    // The 31st of June names no instant.
    assert_eq!(DateTime::new(2001, 6, 31, 0, 0, 0).to_instant(), DEFAULT_INSTANT);
    assert_eq!(DateTime::new(2001, 6, 30, 24, 0, 0).to_instant(), DEFAULT_INSTANT);
    assert_eq!(reported_instant(None), 946_684_800);
    assert_eq!(reported_instant(Some(5)), 5);
}
