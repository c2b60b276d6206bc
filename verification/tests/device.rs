//! The alignment layer, run against a disk held in memory.

use fatx::align::{AlignedDevice, PendingWrite, ReadStep, WriteStep};
use fatx::error::IoError;
use fatx::{Error, SeekFrom};

const SECTOR: u64 = 512;

/// A disk holding a recognisable pattern, so that any byte the alignment layer
/// disturbs by mistake shows up as the wrong value rather than as a zero that
/// might have been there anyway.
struct Scratch {
    disk: Vec<u8>,
    expected: Vec<u8>,
}

impl Scratch {
    fn new(len: usize) -> Self {
        let expected: Vec<u8> = (0..len).map(|index| (index % 251) as u8).collect();
        Self { disk: expected.clone(), expected }
    }

    /// Read whole sectors, or what there is of them before the end.
    fn fetch(&self, offset: u64, len: u64) -> Vec<u8> {
        let start = (offset as usize).min(self.disk.len());
        let end = (offset as usize + len as usize).min(self.disk.len());
        self.disk[start..end].to_vec()
    }

    fn store(&mut self, offset: u64, data: &[u8]) {
        let end = offset as usize + data.len();
        if end > self.disk.len() {
            self.disk.resize(end, 0);
        }
        self.disk[offset as usize..end].copy_from_slice(data);
    }

    fn seek(&self, device: &mut AlignedDevice, offset: u64) {
        assert_eq!(device.seek(SeekFrom::Start(offset), self.disk.len() as u64), Ok(offset));
    }

    fn read(&self, device: &mut AlignedDevice, len: usize) -> Vec<u8> {
        match device.start_read(len) {
            ReadStep::Done(data) => data,
            ReadStep::Fetch { offset, len: n } => {
                assert_eq!(offset % SECTOR, 0);
                assert_eq!(n % SECTOR, 0);
                let raw = self.fetch(offset, n);
                device.finish_read(len, raw)
            }
        }
    }

    fn write_all(&mut self, device: &mut AlignedDevice, payload: &[u8]) {
        let mut write = PendingWrite::new(payload);
        loop {
            match device.write_step(&mut write) {
                WriteStep::Done => return,
                WriteStep::Fetch { offset, len } => {
                    assert_eq!(offset % SECTOR, 0);
                    assert_eq!(len, SECTOR);
                    let raw = self.fetch(offset, len);
                    device.sector_fetched(&mut write, raw);
                }
                WriteStep::Store { offset, data } => {
                    assert_eq!(offset % SECTOR, 0);
                    assert_eq!(data.len() as u64 % SECTOR, 0);
                    self.store(offset, &data);
                    device.finish_write(payload.len());
                    return;
                }
            }
        }
    }
}

#[test]
fn an_unaligned_read_returns_the_bytes_that_were_asked_for() {
    let scratch = Scratch::new(8 * SECTOR as usize);
    let mut device = AlignedDevice::new(SECTOR);

    // Inside one sector, across a sector boundary, and spanning several.
    for (offset, len) in [(0u64, 1usize), (37, 64), (500, 24), (100, 2000)] {
        scratch.seek(&mut device, offset);
        let buf = scratch.read(&mut device, len);
        assert_eq!(
            buf,
            scratch.expected[offset as usize..offset as usize + len],
            "reading {len} bytes at {offset}"
        );
        assert_eq!(device.position(), offset + len as u64);
    }
}

#[test]
fn an_unaligned_write_leaves_the_rest_of_the_sector_alone() {
    let mut scratch = Scratch::new(8 * SECTOR as usize);
    let mut expected = scratch.expected.clone();

    for (offset, len) in [(0u64, 1usize), (37, 64), (500, 24), (100, 2000)] {
        let payload: Vec<u8> = (0..len).map(|index| (index as u8) ^ 0xa5).collect();

        let mut device = AlignedDevice::new(SECTOR);
        scratch.seek(&mut device, offset);
        scratch.write_all(&mut device, &payload);
        drop(device);

        expected[offset as usize..offset as usize + len].copy_from_slice(&payload);
        assert_eq!(scratch.disk, expected, "writing {len} bytes at {offset}");
    }
}

#[test]
fn a_read_after_a_write_sees_the_new_bytes() {
    let mut scratch = Scratch::new(4 * SECTOR as usize);
    let mut device = AlignedDevice::new(SECTOR);

    // Have the sector about to be written held, so a stale one would be there
    // to be served.
    scratch.seek(&mut device, 0);
    let before = scratch.read(&mut device, 16);

    scratch.seek(&mut device, 4);
    scratch.write_all(&mut device, &[0xde, 0xad, 0xbe, 0xef]);

    scratch.seek(&mut device, 0);
    let after = scratch.read(&mut device, 16);

    assert_eq!(&after[4..8], &[0xde, 0xad, 0xbe, 0xef]);
    assert_eq!(&after[..4], &before[..4]);
    assert_eq!(&after[8..], &before[8..]);
}

#[test]
fn a_read_running_off_the_end_comes_back_short() {
    let scratch = Scratch::new(SECTOR as usize + 100);
    let mut device = AlignedDevice::new(SECTOR);

    scratch.seek(&mut device, SECTOR + 90);
    let buf = scratch.read(&mut device, 64);

    assert_eq!(buf.len(), 10);
    assert_eq!(&buf[..10], &scratch.expected[SECTOR as usize + 90..]);

    scratch.seek(&mut device, SECTOR + 100);
    assert_eq!(scratch.read(&mut device, 64).len(), 0);
}

#[test]
fn a_held_sector_is_served_without_asking_the_device() {
    let scratch = Scratch::new(2 * SECTOR as usize);
    let mut device = AlignedDevice::new(SECTOR);
    assert_eq!(scratch.read(&mut device, 64), scratch.expected[..64]);
    match device.start_read(64) {
        ReadStep::Done(data) => assert_eq!(data, scratch.expected[64..128]),
        ReadStep::Fetch { .. } => panic!("the sector was already there"),
    }
    assert_eq!(device.position(), 128);
}

#[test]
fn without_an_alignment_nothing_more_than_asked_for_is_touched() {
    let mut device = AlignedDevice::new(1);
    assert_eq!(device.seek(SeekFrom::Start(7), 100), Ok(7));
    match device.start_read(5) {
        ReadStep::Fetch { offset, len } => assert_eq!((offset, len), (7, 5)),
        ReadStep::Done(_) => panic!("nothing is held yet"),
    }
    assert_eq!(device.finish_read(5, vec![1, 2, 3]), vec![1, 2, 3]);
    assert_eq!(device.position(), 10);

    let mut write = PendingWrite::new(&[9, 8, 7]);
    match device.write_step(&mut write) {
        WriteStep::Store { offset, data } => assert_eq!((offset, data), (10, vec![9, 8, 7])),
        _ => panic!("nothing has to be read first"),
    }
}

#[test]
fn seeking_counts_from_the_start_the_end_and_where_it_is() {
    let mut device = AlignedDevice::new(SECTOR);
    assert_eq!(device.seek(SeekFrom::End(-10), 1000), Ok(990));
    assert_eq!(device.seek(SeekFrom::Current(5), 1000), Ok(995));
    assert_eq!(device.position(), 995);
    assert_eq!(
        device.seek(SeekFrom::Current(-996), 1000),
        Err(Error::Io(IoError::NegativeSeek))
    );
    assert_eq!(
        device.seek(SeekFrom::Start(u64::MAX), 1000),
        Err(Error::Io(IoError::NegativeSeek))
    );
    assert_eq!(
        device.seek(SeekFrom::End(i64::MAX), 1000),
        Err(Error::Io(IoError::OutOfRange))
    );
    assert_eq!(device.position(), 995);
}

#[test]
fn reading_and_writing_nothing_asks_for_nothing() {
    let mut device = AlignedDevice::new(SECTOR);
    assert!(matches!(device.start_read(0), ReadStep::Done(data) if data.is_empty()));
    let mut write = PendingWrite::new(&[]);
    assert!(matches!(device.write_step(&mut write), WriteStep::Done));
}
