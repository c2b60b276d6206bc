//! Open files.

use vstd::prelude::*;

use crate::datetime::DateTime;
use crate::dir::{DirectoryEntry, EntryLocation};
#[allow(unused_imports)]
use crate::dir::EntryView;
use crate::error::{Error, IoError};
#[allow(unused_imports)]
use crate::error::wants_more;
use crate::fat::ClusterId;
use crate::volume::FatxFs;
#[allow(unused_imports)]
use crate::volume::FsView;

verus! {

/// What a new position in a file is counted from.
#[derive(Debug, Clone, Copy, PartialEq, Eq, Structural)]
pub enum SeekFrom {
    Start(u64),
    End(i64),
    Current(i64),
}

/// What an open file remembers.
#[verifier::ext_equal]
pub struct FileView {
    pub dirent: EntryView,
    pub location: Option<EntryLocation>,
    /// How many clusters into the file the last access was.
    pub rel: nat,
    /// The cluster the last access was in.
    pub abs: ClusterId,
    pub pos: u32,
}

impl FileView {
    /// A file that has just been opened.
    pub open spec fn opened(dirent: EntryView, location: Option<EntryLocation>) -> FileView {
        FileView { dirent, location, rel: 0, abs: dirent.first_cluster, pos: 0 }
    }

    pub open spec fn size(self) -> u32 {
        self.dirent.file_size
    }

    /// Move to another position.
    ///
    /// A file's size is a 32 bit field, so a position past that is one no file
    /// could ever reach.
    pub open spec fn seek(self, to: SeekFrom) -> (FileView, Result<u64, Error>) {
        let target: int = match to {
            SeekFrom::Start(offset) => if offset > i64::MAX {
                offset - 0x1_0000_0000_0000_0000
            } else {
                offset as int
            },
            SeekFrom::Current(offset) => self.pos + offset,
            SeekFrom::End(offset) => self.size() + offset,
        };
        if target < 0 {
            (self, Err(Error::Io(IoError::NegativeSeek)))
        } else if target > u32::MAX {
            (self, Err(Error::FileTooLarge))
        } else {
            (FileView { pos: target as u32, ..self }, Ok(target as u64))
        }
    }

    /// How many clusters into the file the present position is.
    pub open spec fn target(self, v: FsView) -> nat {
        self.pos as nat / v.bpc()
    }

    /// The cluster at the present position, counted from where the last access
    /// was, or from the start of the file if that is further along.
    pub open spec fn cluster_at(self, v: FsView, alloc: bool) -> (
        FsView,
        Result<ClusterId, Error>,
    ) {
        let target = self.target(v);
        if target < self.rel {
            v.advance(self.dirent.first_cluster, target, alloc)
        } else {
            v.advance(self.abs, (target - self.rel) as nat, alloc)
        }
    }

    pub open spec fn at_cluster(self, v: FsView, cluster: ClusterId) -> FileView {
        FileView { rel: self.target(v), abs: cluster, ..self }
    }

    /// How many bytes of a cluster an access to the present position covers.
    pub open spec fn span(self, v: FsView, want: nat) -> nat {
        let room = (v.bpc() - self.pos as nat % v.bpc()) as nat;
        if want < room {
            want
        } else {
            room
        }
    }

    pub open spec fn left_in_file(self) -> nat {
        if self.pos >= self.size() {
            0
        } else {
            (self.size() - self.pos) as nat
        }
    }

    /// Read on from the present position, cluster by cluster.
    pub open spec fn read_on(self, v: FsView, want: nat, got: Seq<u8>) -> (
        FileView,
        Result<Seq<u8>, Error>,
    )
        decreases want,
    {
        if want == 0 || self.pos >= self.size() {
            (self, Ok(got))
        } else {
            match self.cluster_at(v, false).1 {
                Err(e) => (self, Err(e)),
                Ok(cluster) => {
                    let f = self.at_cluster(v, cluster);
                    let n = if self.span(v, want) < self.left_in_file() {
                        self.span(v, want)
                    } else {
                        self.left_in_file()
                    };
                    match v.geo.byte_offset(cluster) {
                        Err(e) => (f, Err(e)),
                        Ok(start) => match v.dev.read(
                            (start + self.pos as nat % v.bpc()) as nat,
                            n,
                        ) {
                            Err(e) => (f, Err(e)),
                            Ok(data) => if data.len() == 0 || data.len() > want {
                                (f, Ok(got))
                            } else {
                                (FileView { pos: (f.pos + data.len()) as u32, ..f }).read_on(
                                    v,
                                    (want - data.len()) as nat,
                                    got + data,
                                )
                            },
                        },
                    }
                },
            }
        }
    }

    /// Read up to `want` bytes from the present position, none of them past
    /// the end of the file.
    ///
    /// If more of the device has to be loaded first, nothing changes.
    pub open spec fn read(self, v: FsView, want: nat) -> (FileView, Result<Seq<u8>, Error>) {
        let (f, r) = self.read_on(v, want, Seq::empty());
        if wants_more(r) {
            (self, r)
        } else {
            (f, r)
        }
    }

    /// The file once `n` bytes have been put down at the present position.
    pub open spec fn wrote(self, n: nat) -> FileView {
        let pos = (self.pos + n) as u32;
        FileView {
            pos,
            dirent: self.dirent.sized(
                if pos > self.size() {
                    pos
                } else {
                    self.size()
                },
            ),
            ..self
        }
    }

    /// Put down what is left of some bytes, cluster by cluster, making the
    /// chain longer where it ends. Also tells how many went down in all, and
    /// what stopped the rest.
    pub open spec fn write_on(self, v: FsView, data: Seq<u8>, done: nat) -> (
        FileView,
        FsView,
        nat,
        Option<Error>,
    )
        decreases data.len() - done,
    {
        if done >= data.len() {
            (self, v, done, None)
        } else {
            match self.cluster_at(v, true) {
                (w, Err(e)) => (self, w, done, Some(e)),
                (w, Ok(cluster)) => {
                    let f = self.at_cluster(v, cluster);
                    let n = self.span(v, (data.len() - done) as nat);
                    if n == 0 {
                        (f, w, done, None)
                    } else {
                        match w.put_in_cluster(
                            cluster,
                            self.pos as int % v.bpc() as int,
                            data.subrange(done as int, (done + n) as int),
                        ) {
                            (x, Err(e)) => (f, x, done, Some(e)),
                            (x, Ok(())) => f.wrote(n).write_on(x, data, done + n),
                        }
                    }
                },
            }
        }
    }

    /// Make the file longer, backing the new space with zeroes.
    pub open spec fn extend_to(self, v: FsView, size: nat) -> (FileView, FsView, Result<(), Error>) {
        if size <= self.size() {
            (self, v, Ok(()))
        } else {
            match v.resize_chain(self.dirent.first_cluster, self.size() as nat, size) {
                (w, Err(e)) => (self, w, Err(e)),
                (w, Ok(())) => (
                    FileView {
                        dirent: self.dirent.sized(size as u32),
                        rel: 0,
                        abs: self.dirent.first_cluster,
                        ..self
                    },
                    w,
                    Ok(()),
                ),
            }
        }
    }

    /// Write the entry back, with the time of this access.
    pub open spec fn commit(self, v: FsView, now: DateTime) -> (
        FileView,
        FsView,
        Result<(), Error>,
    ) {
        match self.location {
            None => (self, v, Err(Error::NotFound)),
            Some(location) => {
                let f = FileView {
                    dirent: self.dirent.modified_at(now, v.geo.variant).accessed_at(
                        now,
                        v.geo.variant,
                    ),
                    ..self
                };
                match v.put_entry(location, f.dirent) {
                    (w, Err(e)) => (f, w, Err(e)),
                    (w, Ok(())) => (f, w.flush_fat(), Ok(())),
                }
            },
        }
    }

    /// Put down some bytes at the present position and write the entry back.
    ///
    /// A short write is still a write: only one that placed nothing at all
    /// reports what stopped it.
    pub open spec fn place(self, v: FsView, data: Seq<u8>, now: DateTime) -> (
        FileView,
        FsView,
        Result<nat, Error>,
    ) {
        let (f, w, done, error) = self.write_on(v, data, 0);
        match error {
            Some(e) => if done == 0 {
                (f, w, Err(e))
            } else {
                match f.commit(w, now) {
                    (g, x, Err(e)) => (g, x, Err(e)),
                    (g, x, Ok(())) => (g, x, Ok(done)),
                }
            },
            None => match f.commit(w, now) {
                (g, x, Err(e)) => (g, x, Err(e)),
                (g, x, Ok(())) => (g, x, Ok(done)),
            },
        }
    }

    /// The file once it owns a cluster.
    pub open spec fn owning(self, owner: EntryView) -> FileView {
        FileView {
            dirent: owner,
            abs: if self.abs == 0 {
                owner.first_cluster
            } else {
                self.abs
            },
            rel: if self.abs == 0 {
                0
            } else {
                self.rel
            },
            ..self
        }
    }

    /// How many of some bytes fit before the largest size a file can have.
    pub open spec fn fitting(self, data: Seq<u8>) -> Seq<u8> {
        let room = u32::MAX - self.pos;
        if data.len() <= room {
            data
        } else {
            data.take(room)
        }
    }

    /// Write some bytes at the present position, as many of them as fit.
    #[verifier::opaque]
    pub open spec fn write(self, v: FsView, data: Seq<u8>, now: DateTime) -> (
        FileView,
        FsView,
        Result<nat, Error>,
    ) {
        if !v.geo.writable {
            (self, v, Err(Error::ReadOnlyFilesystem))
        } else {
            match v.ensure_first_cluster(self.dirent) {
                (w, Err(e)) => (self, w, Err(e)),
                (w, Ok(owner)) => {
                    let f = self.owning(owner);
                    if f.pos == u32::MAX {
                        (f, w, Err(Error::FileTooLarge))
                    } else {
                        match f.extend_to(w, f.pos as nat) {
                            (g, x, Err(e)) => (g, x, Err(e)),
                            (g, x, Ok(())) => g.place(x, f.fitting(data), now),
                        }
                    }
                },
            }
        }
    }
}

/// A write to a file of a filesystem that was not opened for writing is
/// refused, and changes neither.
pub proof fn law_read_only_files_stay_as_they_are(
    f: FileView,
    v: FsView,
    data: Seq<u8>,
    now: DateTime,
)
    requires
        !v.geo.writable,
    ensures
        f.write(v, data, now) == (f, v, Err::<nat, Error>(Error::ReadOnlyFilesystem)),
{
    reveal(FileView::write);
}

/// An open file.
///
/// Each handle carries its own copy of the directory entry and writes the whole
/// of it back after a write, so two handles open on the same path will overwrite
/// each other's idea of the file's size. Open a path once at a time.
#[derive(Debug, Clone, Copy)]
pub struct File {
    dirent: DirectoryEntry,
    /// Where the entry describing this file lives, so that its size and
    /// timestamps can be written back.
    location: Option<EntryLocation>,
    cur_cluster_relative: u32,
    cur_cluster_absolute: ClusterId,
    seek_pos: u32,
}

impl File {
    pub closed spec fn view(self) -> FileView {
        FileView {
            dirent: self.dirent@,
            location: self.location,
            rel: self.cur_cluster_relative as nat,
            abs: self.cur_cluster_absolute,
            pos: self.seek_pos,
        }
    }

    /// Whether the entry of this file has a place that a filesystem has.
    pub open spec fn fits(self, v: FsView) -> bool {
        self@.location matches Some(location) ==> location.index < v.epc()
    }

    pub fn new(dirent: DirectoryEntry, location: Option<EntryLocation>) -> (file: Self)
        ensures
            file@ == FileView::opened(dirent@, location),
    {
        Self {
            seek_pos: 0,
            cur_cluster_relative: 0,
            cur_cluster_absolute: dirent.first_cluster(),
            location,
            dirent,
        }
    }

    pub fn file_size(&self) -> (size: u32)
        ensures
            size == self@.size(),
    {
        self.dirent.file_size()
    }

    /// Where in the file the next access will be.
    pub fn position(&self) -> (pos: u32)
        ensures
            pos == self@.pos,
    {
        self.seek_pos
    }

    /// Move to another position in the file.
    pub fn seek(&mut self, pos: SeekFrom) -> (r: Result<u64, Error>)
        ensures
            (final(self)@, r) == old(self)@.seek(pos),
    {
        let target: i128 = match pos {
            SeekFrom::Start(offset) => {
                if offset > 0x7fff_ffff_ffff_ffff {
                    offset as i128 - 0x1_0000_0000_0000_0000
                } else {
                    offset as i128
                }
            },
            SeekFrom::Current(offset) => self.seek_pos as i128 + offset as i128,
            SeekFrom::End(offset) => self.dirent.file_size() as i128 + offset as i128,
        };
        if target < 0 {
            return Err(Error::Io(IoError::NegativeSeek));
        }
        // Refusing a position that is too large here keeps it from being
        // truncated into a valid one and writing over the start of the file.
        if target > 0xffff_ffff {
            return Err(Error::FileTooLarge);
        }
        self.seek_pos = target as u32;
        Ok(self.seek_pos as u64)
    }

    /// Where to start walking the chain from to reach the present position, and
    /// how many clusters along it is.
    fn walk_plan(&self, bpc: u64) -> (plan: (ClusterId, u64, u32))
        requires
            bpc > 0,
        ensures
            ({
                let target = self@.pos as nat / bpc as nat;
                &&& plan.2 == target
                &&& target < self@.rel ==> plan.0 == self@.dirent.first_cluster && plan.1 == target
                &&& target >= self@.rel ==> plan.0 == self@.abs && plan.1 == target - self@.rel
            }),
    {
        let target: u64 = self.seek_pos as u64 / bpc;
        proof {
            let p = self.seek_pos as int;
            let b = bpc as int;
            assert(0 <= p / b <= p) by (nonlinear_arith)
                requires
                    p >= 0,
                    b >= 1,
            ;
        }
        // Check if we need to begin scanning from the start of the chain.
        if target < self.cur_cluster_relative as u64 {
            (self.dirent.first_cluster(), target, target as u32)
        } else {
            (
                self.cur_cluster_absolute,
                target - self.cur_cluster_relative as u64,
                target as u32,
            )
        }
    }

    /// Read into a buffer from the present position, and tell how many bytes
    /// were read.
    pub fn read(&mut self, fs: &FatxFs, buf: &mut [u8]) -> (r: Result<usize, Error>)
        requires
            fs.inv(),
        ensures
            final(buf)@.len() == old(buf)@.len(),
            match (r, old(self)@.read(fs@, old(buf)@.len())) {
                (Ok(n), (f, Ok(data))) => {
                    &&& final(self)@ == f
                    &&& n == data.len() <= old(buf)@.len()
                    &&& final(buf)@ == data + old(buf)@.skip(n as int)
                },
                (Err(e), (f, Err(error))) => {
                    &&& final(self)@ == f
                    &&& e == error
                },
                _ => false,
            },
    {
        let saved: File = *self;
        let r = self.read_vec(fs, buf.len());
        match r {
            Ok(data) => {
                let n: usize = data.len();
                let mut i: usize = 0;
                let len: usize = buf.len();
                while i < n
                    invariant
                        i <= n <= len,
                        n == data@.len(),
                        buf@.len() == len,
                        len == old(buf)@.len(),
                        forall|k: int| 0 <= k < i ==> buf@[k] == data@[k],
                        forall|k: int| i <= k < len ==> buf@[k] == old(buf)@[k],
                    decreases n - i,
                {
                    buf[i] = data[i];
                    i += 1;
                }
                assert(buf@ =~= data@ + old(buf)@.skip(n as int));
                Ok(n)
            },
            Err(e) => {
                if e.is_not_loaded() {
                    *self = saved;
                }
                Err(e)
            },
        }
    }

    /// Read on from the present position, cluster by cluster.
    pub(crate) fn read_vec(&mut self, fs: &FatxFs, len: usize) -> (r: Result<Vec<u8>, Error>)
        requires
            fs.inv(),
        ensures
            match (r, old(self)@.read_on(fs@, len as nat, Seq::empty())) {
                (Ok(v), (f, Ok(data))) => {
                    &&& final(self)@ == f
                    &&& v@ == data
                    &&& v@.len() <= len
                },
                (Err(e), (f, Err(error))) => {
                    &&& final(self)@ == f
                    &&& e == error
                },
                _ => false,
            },
    {
        proof {
            fs.lemma_inv();
        }
        let bpc: u64 = fs.geometry().num_bytes_per_cluster;
        let mut got: Vec<u8> = Vec::new();
        while got.len() < len
            invariant
                fs.inv(),
                fs@.wf(),
                bpc == fs@.bpc(),
                got@.len() <= len,
                old(self)@.read_on(fs@, len as nat, Seq::empty()) == self@.read_on(
                    fs@,
                    (len - got@.len()) as nat,
                    got@,
                ),
            decreases len - got@.len(),
        {
            // Ensure we don't read past the end of the file.
            let file_size: u32 = self.dirent.file_size();
            if self.seek_pos >= file_size {
                return Ok(got);
            }
            let bytes_remaining_in_file: u64 = (file_size - self.seek_pos) as u64;

            // Map the current position to a cluster.
            let (from, steps, target) = self.walk_plan(bpc);
            let cluster: ClusterId = fs.follow(from, steps)?;
            self.cur_cluster_relative = target;
            self.cur_cluster_absolute = cluster;

            // Determine how many bytes to read in this cluster.
            let offset: u64 = self.seek_pos as u64 % bpc;
            let room: u64 = bpc - offset;
            let wanted: u64 = (len - got.len()) as u64;
            let span: u64 = if wanted < room {
                wanted
            } else {
                room
            };
            let n: u64 = if span < bytes_remaining_in_file {
                span
            } else {
                bytes_remaining_in_file
            };

            let start: u64 = fs.cluster_to_byte_offset(cluster)?;
            proof {
                fs@.geo.lemma_cluster_fits(cluster);
            }
            let data: Vec<u8> = fs.read_device(start + offset, n)?;

            // The entry can claim more bytes than the device actually holds, on
            // a truncated image or with a size given by hand. Stopping on a
            // read that returns nothing keeps that from spinning forever.
            if data.len() == 0 {
                return Ok(got);
            }
            let count: usize = data.len();
            self.seek_pos += count as u32;
            let ghost before = got@;
            got.extend_from_slice(&data);
            assert(got@ =~= before + data@);
        }
        Ok(got)
    }

    /// Grow the file to `new_size`, backing the new space with zeroes.
    ///
    /// Only the size held in the entry is updated; it reaches the disk when the
    /// entry is written back.
    fn extend_to(&mut self, fs: &mut FatxFs, new_size: u32) -> (r: Result<(), Error>)
        requires
            old(fs).inv(),
        ensures
            final(fs).inv(),
            (final(self)@, final(fs)@, r) == old(self)@.extend_to(old(fs)@, new_size as nat),
            final(fs)@.geo == old(fs)@.geo,
            final(fs).marked() == old(fs).marked(),
    {
        let old_size: u32 = self.dirent.file_size();
        if new_size <= old_size {
            return Ok(());
        }
        let first_cluster: ClusterId = self.dirent.first_cluster();
        proof {
            crate::ops::lemma_resize_keeps_geo(
                fs@,
                first_cluster,
                old_size as nat,
                new_size as nat,
            );
        }
        fs.resize_chain(first_cluster, old_size as u64, new_size as u64)?;

        // Resizing may have dropped clusters past the end of the file, so the
        // walk this handle left off at cannot be trusted any more.
        self.cur_cluster_relative = 0;
        self.cur_cluster_absolute = first_cluster;
        self.dirent.set_file_size(new_size);
        Ok(())
    }

    /// Write the entry back, recording the file's size and the fact that it was
    /// just touched.
    fn commit(&mut self, fs: &mut FatxFs, now: &DateTime) -> (r: Result<(), Error>)
        requires
            old(fs).inv(),
            old(self).fits(old(fs)@),
        ensures
            final(fs).inv(),
            (final(self)@, final(fs)@, r) == old(self)@.commit(old(fs)@, *now),
            final(fs)@.geo == old(fs)@.geo,
            final(fs).marked() == old(fs).marked(),
    {
        let location = match self.location {
            Some(location) => location,
            None => {
                return Err(Error::NotFound);
            },
        };
        let variant = fs.geometry().variant;
        self.dirent.set_modified(now, variant);
        self.dirent.set_accessed(now, variant);
        self.dirent.write_at(fs, location)?;
        fs.flush_fat()
    }

    /// Put down some bytes, and tell how many went down and what stopped the
    /// rest.
    fn write_on(&mut self, fs: &mut FatxFs, buf: &[u8]) -> (r: (usize, Option<Error>))
        requires
            old(fs).inv(),
            old(self)@.pos + buf@.len() <= u32::MAX,
        ensures
            final(fs).inv(),
            (final(self)@, final(fs)@, r.0 as nat, r.1) == old(self)@.write_on(
                old(fs)@,
                buf@,
                0,
            ),
            r.0 <= buf@.len(),
            final(fs)@.geo == old(fs)@.geo,
            final(self)@.location == old(self)@.location,
            final(fs).marked() == old(fs).marked(),
    {
        proof {
            fs.lemma_inv();
        }
        let bpc: u64 = fs.geometry().num_bytes_per_cluster;
        let len: usize = buf.len();
        let mut done: usize = 0;
        while done < len
            invariant
                fs.inv(),
                fs@.wf(),
                len == buf@.len(),
                bpc == fs@.bpc(),
                done <= len,
                self@.pos + (len - done) <= u32::MAX,
                old(self)@.write_on(old(fs)@, buf@, 0) == self@.write_on(fs@, buf@, done as nat),
                fs@.geo == old(fs)@.geo,
                self@.location == old(self)@.location,
                fs.marked() == old(fs).marked(),
            decreases len - done,
        {
            // Map the current position to a cluster, extending the chain when
            // the write runs past the last cluster of the file.
            //
            // Running out of room here ends the write rather than failing it:
            // what has already gone down is on the device, and reporting a
            // failure would leave those bytes outside the file for good.
            let (from, steps, target) = self.walk_plan(bpc);
            let ghost before = fs@;
            let advanced = fs.advance(from, steps, true);
            proof {
                lemma_advance_keeps_geo(before, from, steps as nat, true);
                fs.lemma_inv();
            }
            let cluster: ClusterId = match advanced {
                Ok(cluster) => cluster,
                Err(err) => {
                    return (done, Some(err));
                },
            };
            self.cur_cluster_relative = target;
            self.cur_cluster_absolute = cluster;

            // Determine how many bytes to write in this cluster.
            let offset: u64 = self.seek_pos as u64 % bpc;
            let room: u64 = bpc - offset;
            let wanted: u64 = (len - done) as u64;
            let n: usize = if wanted < room {
                len - done
            } else {
                room as usize
            };
            let mut data: Vec<u8> = Vec::new();
            data.extend_from_slice(&buf[done..done + n]);
            assert(data@ =~= buf@.subrange(done as int, (done + n) as int));
            match fs.put_in_cluster(cluster, offset, data) {
                Ok(()) => {},
                Err(err) => {
                    return (done, Some(err));
                },
            }
            done += n;
            self.seek_pos += n as u32;

            // The file has grown if the write went past its old end.
            if self.seek_pos > self.dirent.file_size() {
                self.dirent.set_file_size(self.seek_pos);
            }
        }
        (done, None)
    }

    /// Put down some bytes at the present position and write the entry back.
    fn place(&mut self, fs: &mut FatxFs, buf: &[u8], now: &DateTime) -> (r: Result<usize, Error>)
        requires
            old(fs).inv(),
            old(self).fits(old(fs)@),
            old(self)@.pos + buf@.len() <= u32::MAX,
        ensures
            final(fs).inv(),
            (final(self)@, final(fs)@, count(r)) == old(self)@.place(old(fs)@, buf@, *now),
            final(self)@.location == old(self)@.location,
            final(fs)@.geo == old(fs)@.geo,
            final(fs).marked() == old(fs).marked(),
    {
        let (done, error) = self.write_on(fs, buf);
        if done == 0 {
            if let Some(err) = error {
                return Err(err);
            }
        }
        self.commit(fs, now)?;
        Ok(done)
    }

    /// Write some bytes at the present position, and tell how many of them went
    /// down.
    pub fn write_at(&mut self, fs: &mut FatxFs, buf: &[u8], now: &DateTime) -> (r: Result<
        usize,
        Error,
    >)
        requires
            old(fs).inv(),
            old(self).fits(old(fs)@),
        ensures
            final(fs).inv(),
            (final(self)@, final(fs)@, count(r)) == old(self)@.write(old(fs)@, buf@, *now),
            final(self)@.location == old(self)@.location,
            final(fs)@.geo == old(fs)@.geo,
            final(fs).marked() == old(fs).marked(),
    {
        proof {
            reveal(FileView::write);
        }
        fs.ensure_writable()?;

        // A file needs a chain of its own before anything can go into it.
        let first_cluster: ClusterId = fs.ensure_first_cluster(&mut self.dirent)?;
        if self.cur_cluster_absolute == 0 {
            self.cur_cluster_absolute = first_cluster;
            self.cur_cluster_relative = 0;
        }

        // File sizes are a 32 bit field, so a write that would carry the
        // position past that is cut short rather than wrapping.
        let room: u32 = 0xffff_ffff - self.seek_pos;
        if room == 0 {
            return Err(Error::FileTooLarge);
        }

        // Writing past the end of the file leaves a gap, which FATX has no way
        // to express: it has to be backed by real clusters full of zeroes
        // before the new bytes go down after it.
        let target: u32 = self.seek_pos;
        self.extend_to(fs, target)?;
        if buf.len() as u64 <= room as u64 {
            self.place(fs, buf, now)
        } else {
            let short: &[u8] = &buf[0..room as usize];
            assert(short@ =~= buf@.take(room as int));
            self.place(fs, short, now)
        }
    }
}

/// How much was written, as a number without a limit.
pub open spec fn count(r: Result<usize, Error>) -> Result<nat, Error> {
    match r {
        Ok(n) => Ok(n as nat),
        Err(e) => Err(e),
    }
}

/// Following a chain moves nothing.
pub proof fn lemma_advance_keeps_geo(v: FsView, cluster: ClusterId, steps: nat, alloc: bool)
    ensures
        v.advance(cluster, steps, alloc).0.geo == v.geo,
    decreases steps,
{
    reveal(FsView::grow_chain);
    if steps > 0 {
        match v.next_cluster(cluster) {
            Ok(Some(next)) => {
                lemma_advance_keeps_geo(v, next, (steps - 1) as nat, alloc);
            },
            Ok(None) => if alloc {
                match v.grow_chain(cluster) {
                    (w, Ok(next)) => {
                        lemma_advance_keeps_geo(w, next, (steps - 1) as nat, alloc);
                    },
                    _ => {},
                }
            },
            _ => {},
        }
    }
}

/// A seek goes to the position it names, counted from the start, from the present
/// position or from the end of the file, and changes nothing else. One that would end
/// before the start of the file, or past the largest size a file can have, is refused,
/// and then the position is what it was.
pub proof fn law_a_seek_goes_where_it_says(f: FileView, to: SeekFrom)
    ensures
        ({
            let (g, r) = f.seek(to);
            let target: int = match to {
                SeekFrom::Start(offset) => offset as int,
                SeekFrom::Current(offset) => f.pos + offset,
                SeekFrom::End(offset) => f.dirent.file_size + offset,
            };
            &&& 0 <= target <= 0xffff_ffff ==> r == Ok::<u64, Error>(target as u64) && g.pos
                == target
            &&& !(0 <= target <= 0xffff_ffff) ==> r is Err && g == f
            &&& target < 0 ==> r == Err::<u64, Error>(Error::Io(IoError::NegativeSeek))
            &&& 0xffff_ffff < target <= 0x7fff_ffff_ffff_ffff ==> r == Err::<u64, Error>(
                Error::FileTooLarge,
            )
            &&& g.dirent == f.dirent
            &&& g.location == f.location
            &&& g.rel == f.rel
            &&& g.abs == f.abs
        }),
{
}

} // verus!
