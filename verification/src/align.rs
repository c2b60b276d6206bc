//! Access to devices that only take whole sectors.
//!
//! A filesystem asks for whatever it happens to need: 4096 bytes of superblock,
//! a 64 byte directory entry, or the single byte that marks an entry deleted. A
//! raw device may reject any access that does not start on a sector boundary
//! and cover whole sectors. What is decided here is which sectors an access
//! comes down to; carrying it out is left to whoever owns the device.

use vstd::prelude::*;

use crate::bytes::zero_vec;
#[allow(unused_imports)]
use crate::bytes::splice;
use crate::error::{Error, IoError};
use crate::file::SeekFrom;

verus! {

/// The last multiple of a sector size at or before an offset.
pub open spec fn align_down(x: nat, sector: nat) -> nat {
    (x - x % sector) as nat
}

/// The first multiple of a sector size at or after an offset.
pub open spec fn align_up(x: nat, sector: nat) -> nat {
    if x % sector == 0 {
        x
    } else {
        (x - x % sector + sector) as nat
    }
}

/// What a device with some contents gives for a read: as much of it as lies
/// before its end.
pub open spec fn device_read(disk: Seq<u8>, offset: nat, len: nat) -> Seq<u8> {
    if offset >= disk.len() {
        Seq::empty()
    } else if offset + len <= disk.len() {
        disk.subrange(offset as int, (offset + len) as int)
    } else {
        disk.subrange(offset as int, disk.len() as int)
    }
}

/// The contents of a device after a write, which makes it longer if need be.
pub open spec fn device_write(disk: Seq<u8>, offset: nat, data: Seq<u8>) -> Seq<u8> {
    Seq::new(
        if offset + data.len() > disk.len() {
            offset + data.len()
        } else {
            disk.len()
        },
        |i: int|
            if offset <= i < offset + data.len() {
                data[i - offset]
            } else if i < disk.len() {
                disk[i]
            } else {
                0
            },
    )
}

/// Some bytes, filled up with zeroes.
pub open spec fn filled(data: Seq<u8>, len: nat) -> Seq<u8> {
    Seq::new(
        len,
        |i: int|
            if i < data.len() {
                data[i]
            } else {
                0u8
            },
    )
}

/// The part of what was read from sectors that was really asked for.
pub open spec fn wanted_part(raw: Seq<u8>, skip: nat, len: nat) -> Seq<u8> {
    if raw.len() <= skip {
        Seq::empty()
    } else if raw.len() - skip <= len {
        raw.subrange(skip as int, raw.len() as int)
    } else {
        raw.subrange(skip as int, (skip + len) as int)
    }
}

/// What is held of the device.
#[verifier::ext_equal]
pub struct AlignedView {
    /// The alignment every access has to satisfy, in bytes.
    pub sector: nat,
    /// Where the next access will be.
    pub pos: nat,
    /// The last sector read: where it is, and what of it lies before the end of
    /// the device.
    pub cache: Option<(nat, Seq<u8>)>,
}

/// What a read needs next.
#[verifier::ext_equal]
pub enum ReadNext {
    /// These bytes of the device, or as many as there are.
    Fetch(nat, nat),
    /// Nothing: these are the bytes that were asked for.
    Done(Seq<u8>),
}

/// What a write needs next.
#[verifier::ext_equal]
pub enum WriteNext {
    /// These bytes of the device, or as many as there are.
    Fetch(nat, nat),
    /// To put these bytes at this place of the device.
    Store(nat, Seq<u8>),
    /// Nothing.
    Done,
}

impl AlignedView {
    pub open spec fn wf(self) -> bool {
        &&& self.sector >= 1
        &&& self.cache matches Some((offset, data)) ==> offset % self.sector == 0 && data.len()
            <= self.sector
    }

    /// Whether the held sector is what a device with some contents holds.
    pub open spec fn coherent(self, disk: Seq<u8>) -> bool {
        self.cache matches Some((offset, data)) ==> data == device_read(disk, offset, self.sector)
    }

    pub open spec fn begin(self) -> nat {
        align_down(self.pos, self.sector)
    }

    pub open spec fn end(self, len: nat) -> nat {
        align_up(self.pos + len, self.sector)
    }

    /// How far into the first sector an access starts.
    pub open spec fn head(self) -> nat {
        self.pos % self.sector
    }

    /// How far before the end of the last sector an access ends.
    pub open spec fn tail(self, len: nat) -> nat {
        (self.end(len) - (self.pos + len)) as nat
    }

    /// Where the last sector of an access starts.
    pub open spec fn last(self, len: nat) -> nat {
        (self.end(len) - self.sector) as nat
    }

    /// Read some bytes from the present position.
    pub open spec fn start_read(self, len: nat) -> (AlignedView, ReadNext) {
        if len == 0 {
            (self, ReadNext::Done(Seq::empty()))
        } else if self.sector <= 1 {
            (self, ReadNext::Fetch(self.pos, len))
        } else {
            match self.cache {
                Some((offset, data)) => if self.end(len) - self.begin() == self.sector && offset
                    == self.begin() {
                    let part = wanted_part(data, self.head(), len);
                    (
                        AlignedView { pos: self.pos + part.len(), ..self },
                        ReadNext::Done(part),
                    )
                } else {
                    (
                        self,
                        ReadNext::Fetch(self.begin(), (self.end(len) - self.begin()) as nat),
                    )
                },
                None => (
                    self,
                    ReadNext::Fetch(self.begin(), (self.end(len) - self.begin()) as nat),
                ),
            }
        }
    }

    /// Go on with a read once what it needed has been fetched.
    pub open spec fn finish_read(self, len: nat, raw: Seq<u8>) -> (AlignedView, Seq<u8>) {
        if self.sector <= 1 {
            let part = wanted_part(raw, 0, len);
            (AlignedView { pos: self.pos + part.len(), ..self }, part)
        } else {
            let part = wanted_part(raw, self.head(), len);
            (
                AlignedView {
                    pos: self.pos + part.len(),
                    cache: if self.end(len) - self.begin() == self.sector {
                        Some((self.begin(), raw))
                    } else {
                        self.cache
                    },
                    ..self
                },
                part,
            )
        }
    }

    /// Whether a write leaves part of its first sector as it is.
    pub open spec fn needs_head(self) -> bool {
        self.sector > 1 && self.head() != 0
    }

    /// Whether a write leaves part of its last sector as it is, which is not
    /// the first sector over again.
    pub open spec fn needs_tail(self, len: nat) -> bool {
        &&& self.sector > 1
        &&& self.tail(len) != 0
        &&& !(self.head() != 0 && self.last(len) == self.begin())
    }

    /// What is to be put down for a write, given what its first and last sector
    /// hold.
    pub open spec fn image(self, data: Seq<u8>, first: Seq<u8>, last: Seq<u8>) -> Seq<u8> {
        Seq::new(
            (self.end(data.len()) - self.begin()) as nat,
            |i: int|
                if self.head() <= i < self.head() + data.len() {
                    data[i - self.head()]
                } else if i < self.sector && self.needs_head() {
                    filled(first, self.sector)[i]
                } else {
                    filled(last, self.sector)[i - (self.last(data.len()) - self.begin())]
                },
        )
    }
}

/// One sector, as it was last read.
#[derive(Debug)]
struct CachedSector {
    offset: u64,
    /// What came off the device; the sector may run past the end of it.
    data: Vec<u8>,
}

/// The state of access to a device.
#[derive(Debug)]
pub struct AlignedDevice {
    /// The alignment every access has to satisfy, in bytes.
    ///
    /// One means that any offset and any length is accepted.
    sector_size: u64,
    /// Where the caller is positioned, which need not be aligned at all.
    pos: u64,
    /// The last sector read, kept because a directory is walked one 64 byte
    /// entry at a time and would otherwise read the same sector eight times
    /// over. Dropped on every write rather than working out which writes could
    /// have invalidated it.
    cache: Option<CachedSector>,
}

/// What a read needs next.
#[derive(Debug)]
pub enum ReadStep {
    /// These bytes of the device, or as many as there are.
    Fetch { offset: u64, len: u64 },
    /// Nothing: these are the bytes that were asked for.
    Done(Vec<u8>),
}

impl ReadStep {
    pub open spec fn view(self) -> ReadNext {
        match self {
            ReadStep::Fetch { offset, len } => ReadNext::Fetch(offset as nat, len as nat),
            ReadStep::Done(data) => ReadNext::Done(data@),
        }
    }
}

/// What a write needs next.
#[derive(Debug)]
pub enum WriteStep {
    /// These bytes of the device, or as many as there are.
    Fetch { offset: u64, len: u64 },
    /// To put these bytes at this place of the device.
    Store { offset: u64, data: Vec<u8> },
    /// Nothing.
    Done,
}

impl WriteStep {
    pub open spec fn view(self) -> WriteNext {
        match self {
            WriteStep::Fetch { offset, len } => WriteNext::Fetch(offset as nat, len as nat),
            WriteStep::Store { offset, data } => WriteNext::Store(offset as nat, data@),
            WriteStep::Done => WriteNext::Done,
        }
    }
}

/// A write that is under way.
#[derive(Debug)]
pub struct PendingWrite {
    data: Vec<u8>,
    first: Option<Vec<u8>>,
    last: Option<Vec<u8>>,
}

/// What a write that is under way has so far: the bytes to be written, and what
/// the sectors it covers in part hold.
#[verifier::ext_equal]
pub struct PendingView {
    pub data: Seq<u8>,
    pub first: Option<Seq<u8>>,
    pub last: Option<Seq<u8>>,
}

spec fn opt_view(v: Option<Vec<u8>>) -> Option<Seq<u8>> {
    match v {
        Some(v) => Some(v@),
        None => None,
    }
}

impl PendingWrite {
    pub closed spec fn view(self) -> PendingView {
        PendingView { data: self.data@, first: opt_view(self.first), last: opt_view(self.last) }
    }

    /// A write of some bytes.
    pub fn new(data: &[u8]) -> (w: Self)
        ensures
            w@ == (PendingView { data: data@, first: None, last: None }),
    {
        Self { data: crate::bytes::to_vec(data), first: None, last: None }
    }
}

impl PendingView {
    pub open spec fn fits(self, d: AlignedView) -> bool {
        &&& self.first matches Some(s) ==> s.len() <= d.sector
        &&& self.last matches Some(s) ==> s.len() <= d.sector
    }
}

impl AlignedView {
    /// What a held sector has to say about the sector at an offset.
    pub open spec fn held(self, offset: nat) -> Option<Seq<u8>> {
        match self.cache {
            Some((at, data)) => if at == offset {
                Some(data)
            } else {
                None
            },
            None => None,
        }
    }

    /// A write with what is held of the sectors it still needs.
    pub open spec fn supplied(self, w: PendingView) -> PendingView {
        PendingView {
            first: if w.first is None && self.needs_head() {
                self.held(self.begin())
            } else {
                w.first
            },
            last: if w.last is None && self.needs_tail(w.data.len()) {
                self.held(self.last(w.data.len()))
            } else {
                w.last
            },
            ..w
        }
    }

    /// Go on with a write as far as what is there allows.
    pub open spec fn write_step(self, w: PendingView) -> (AlignedView, PendingView, WriteNext) {
        let len = w.data.len();
        let s = self.supplied(w);
        if len == 0 {
            (self, w, WriteNext::Done)
        } else if self.needs_head() && s.first is None {
            (self, s, WriteNext::Fetch(self.begin(), self.sector))
        } else if self.needs_tail(len) && s.last is None {
            (self, s, WriteNext::Fetch(self.last(len), self.sector))
        } else {
            (
                AlignedView { cache: None, ..self },
                s,
                WriteNext::Store(
                    self.begin(),
                    self.image(
                        w.data,
                        if s.first is Some {
                            s.first->0
                        } else {
                            Seq::empty()
                        },
                        if s.last is Some {
                            s.last->0
                        } else {
                            Seq::empty()
                        },
                    ),
                ),
            )
        }
    }

    /// Take in the sector a write was waiting for.
    pub open spec fn sector_fetched(self, w: PendingView, raw: Seq<u8>) -> (
        AlignedView,
        PendingView,
    ) {
        let len = w.data.len();
        if self.needs_head() && w.first is None {
            (
                AlignedView { cache: Some((self.begin(), raw)), ..self },
                PendingView { first: Some(raw), ..w },
            )
        } else if self.needs_tail(len) && w.last is None {
            (
                AlignedView { cache: Some((self.last(len), raw)), ..self },
                PendingView { last: Some(raw), ..w },
            )
        } else {
            (self, w)
        }
    }
}

proof fn lemma_align(x: nat, sector: nat)
    requires
        sector >= 1,
    ensures
        align_down(x, sector) <= x < align_down(x, sector) + sector,
        align_down(x, sector) + x % sector == x,
        align_down(x, sector) % sector == 0,
        x <= align_up(x, sector) < x + sector,
        align_up(x, sector) % sector == 0,
{
    vstd::arithmetic::div_mod::lemma_fundamental_div_mod(x as int, sector as int);
    let q = x as int / sector as int;
    let s = sector as int;
    assert(0 <= x % sector < sector) by {
        vstd::arithmetic::div_mod::lemma_mod_bound(x as int, sector as int);
    }
    assert(align_down(x, sector) == s * q);
    vstd::arithmetic::div_mod::lemma_mod_multiples_basic(q, s);
    assert((s * q) % s == 0) by {
        vstd::arithmetic::mul::lemma_mul_is_commutative(s, q);
    }
    assert((s * (q + 1)) % s == 0) by {
        vstd::arithmetic::div_mod::lemma_mod_multiples_basic(q + 1, s);
        vstd::arithmetic::mul::lemma_mul_is_commutative(s, q + 1);
    }
    assert(s * (q + 1) == s * q + s) by {
        vstd::arithmetic::mul::lemma_mul_is_distributive_add(s, q, 1);
    }
}

/// A multiple of a sector size past another is a whole sector past it.
proof fn lemma_multiples_apart(a: nat, b: nat, sector: nat)
    requires
        sector >= 1,
        a % sector == 0,
        b % sector == 0,
        a < b,
    ensures
        a + sector <= b,
{
    let s = sector as int;
    vstd::arithmetic::div_mod::lemma_fundamental_div_mod(a as int, s);
    vstd::arithmetic::div_mod::lemma_fundamental_div_mod(b as int, s);
    let p = a as int / s;
    let q = b as int / s;
    assert(p + 1 <= q) by {
        if q <= p {
            assert(s * q <= s * p) by (nonlinear_arith)
                requires
                    q <= p,
                    s >= 1,
            ;
        }
    }
    assert(s * p + s <= s * q) by (nonlinear_arith)
        requires
            p + 1 <= q,
            s >= 1,
    ;
}

/// An access covers whole sectors, from the one it starts in to the one it
/// ends in.
pub proof fn lemma_window(d: AlignedView, len: nat)
    requires
        d.sector >= 1,
        len > 0,
    ensures
        d.begin() <= d.pos < d.begin() + d.sector,
        d.begin() % d.sector == 0,
        d.pos + len <= d.end(len) < d.pos + len + d.sector,
        d.end(len) % d.sector == 0,
        d.begin() + d.sector <= d.end(len),
        d.head() == d.pos - d.begin(),
        d.head() + len + d.tail(len) == d.end(len) - d.begin(),
{
    lemma_align(d.pos, d.sector);
    lemma_align(d.pos + len, d.sector);
    lemma_multiples_apart(d.begin(), d.end(len), d.sector);
}

impl AlignedDevice {
    pub closed spec fn view(self) -> AlignedView {
        AlignedView {
            sector: self.sector_size as nat,
            pos: self.pos as nat,
            cache: match self.cache {
                Some(c) => Some((c.offset as nat, c.data@)),
                None => None,
            },
        }
    }

    /// Whether an access at the present position stays within what a machine
    /// word can count.
    pub open spec fn fits(self, len: nat) -> bool {
        &&& self@.pos + len + self@.sector <= u64::MAX
        &&& len + 2 * self@.sector <= usize::MAX
    }

    /// Access to a device with the given sector size. One means that there is
    /// no alignment to satisfy.
    pub fn new(sector_size: u64) -> (d: Self)
        requires
            sector_size >= 1,
        ensures
            d@ == (AlignedView { sector: sector_size as nat, pos: 0, cache: None }),
            d@.wf(),
    {
        Self { sector_size, pos: 0, cache: None }
    }

    /// Where the next access will be.
    pub fn position(&self) -> (pos: u64)
        ensures
            pos == self@.pos,
    {
        self.pos
    }

    /// Move to another position, on a device of the given length.
    pub fn seek(&mut self, to: SeekFrom, len: u64) -> (r: Result<u64, Error>)
        ensures
            ({
                let target: int = match to {
                    SeekFrom::Start(offset) => if offset > i64::MAX {
                        offset - 0x1_0000_0000_0000_0000
                    } else {
                        offset as int
                    },
                    SeekFrom::Current(offset) => old(self)@.pos + offset,
                    SeekFrom::End(offset) => len + offset,
                };
                if target < 0 {
                    r == Err::<u64, Error>(Error::Io(IoError::NegativeSeek)) && *final(self)
                        == *old(self)
                } else if target > i64::MAX {
                    r == Err::<u64, Error>(Error::Io(IoError::OutOfRange)) && *final(self) == *old(
                        self,
                    )
                } else {
                    r == Ok::<u64, Error>(target as u64) && final(self)@ == (AlignedView {
                        pos: target as nat,
                        ..old(self)@
                    })
                }
            }),
    {
        let target: i128 = match to {
            SeekFrom::Start(offset) => {
                if offset > 0x7fff_ffff_ffff_ffff {
                    offset as i128 - 0x1_0000_0000_0000_0000
                } else {
                    offset as i128
                }
            },
            SeekFrom::Current(offset) => self.pos as i128 + offset as i128,
            SeekFrom::End(offset) => len as i128 + offset as i128,
        };
        if target < 0 {
            return Err(Error::Io(IoError::NegativeSeek));
        }
        if target > 0x7fff_ffff_ffff_ffff {
            return Err(Error::Io(IoError::OutOfRange));
        }
        self.pos = target as u64;
        Ok(self.pos)
    }

    /// Where the sectors of an access start and end.
    fn window(&self, len: usize) -> (w: (u64, u64))
        requires
            self@.wf(),
            self.fits(len as nat),
            len > 0,
        ensures
            w.0 == self@.begin(),
            w.1 == self@.end(len as nat),
    {
        proof {
            lemma_window(self@, len as nat);
        }
        let end: u64 = self.pos + len as u64;
        let over: u64 = end % self.sector_size;
        let aligned_end: u64 = if over == 0 {
            end
        } else {
            end - over + self.sector_size
        };
        (self.pos - self.pos % self.sector_size, aligned_end)
    }

    /// Read some bytes from the present position.
    pub fn start_read(&mut self, len: usize) -> (step: ReadStep)
        requires
            old(self)@.wf(),
            old(self).fits(len as nat),
        ensures
            (final(self)@, step@) == old(self)@.start_read(len as nat),
            final(self)@.wf(),
    {
        if len == 0 {
            return ReadStep::Done(Vec::new());
        }
        if self.sector_size <= 1 {
            return ReadStep::Fetch { offset: self.pos, len: len as u64 };
        }
        proof {
            lemma_window(self@, len as nat);
        }
        let (begin, end) = self.window(len);
        if let Some(cached) = &self.cache {
            if end - begin == self.sector_size && cached.offset == begin {
                let part: Vec<u8> = take_part(&cached.data, (self.pos - begin) as usize, len);
                self.pos += part.len() as u64;
                return ReadStep::Done(part);
            }
        }
        ReadStep::Fetch { offset: begin, len: end - begin }
    }

    /// Go on with a read once what it needed has been fetched.
    ///
    /// A read running off the end of the device comes back short rather than
    /// failing, which is what is expected of an entry claiming more bytes than
    /// the device holds.
    pub fn finish_read(&mut self, len: usize, raw: Vec<u8>) -> (part: Vec<u8>)
        requires
            old(self)@.wf(),
            old(self).fits(len as nat),
            len > 0,
            old(self)@.sector > 1 ==> raw@.len() <= old(self)@.end(len as nat) - old(
                self,
            )@.begin(),
        ensures
            (final(self)@, part@) == old(self)@.finish_read(len as nat, raw@),
            final(self)@.wf(),
    {
        if self.sector_size <= 1 {
            let part: Vec<u8> = take_part(&raw, 0, len);
            self.pos += part.len() as u64;
            return part;
        }
        proof {
            lemma_window(self@, len as nat);
        }
        let (begin, end) = self.window(len);
        let part: Vec<u8> = take_part(&raw, (self.pos - begin) as usize, len);
        if end - begin == self.sector_size {
            self.cache = Some(CachedSector { offset: begin, data: raw });
        }
        self.pos += part.len() as u64;
        part
    }

    /// What is held of the sector at an offset.
    fn held(&self, offset: u64) -> (data: Option<Vec<u8>>)
        ensures
            opt_view(data) == self@.held(offset as nat),
    {
        if let Some(cached) = &self.cache {
            if cached.offset == offset {
                return Some(crate::bytes::to_vec(&cached.data));
            }
        }
        None
    }

    /// Go on with a write as far as what is there allows.
    ///
    /// Whatever the write does not cover in full has to be read back first, or
    /// the rest of those sectors would be replaced with zeroes. Only the first
    /// and the last sector can be partial, so only those are asked for.
    pub fn write_step(&mut self, w: &mut PendingWrite) -> (step: WriteStep)
        requires
            old(self)@.wf(),
            old(self).fits(old(w)@.data.len()),
            old(w)@.fits(old(self)@),
        ensures
            (final(self)@, final(w)@, step@) == old(self)@.write_step(old(w)@),
            final(self)@.wf(),
            final(w)@.fits(final(self)@),
    {
        let len: usize = w.data.len();
        if len == 0 {
            return WriteStep::Done;
        }
        proof {
            lemma_window(self@, len as nat);
        }
        let (begin, end) = self.window(len);
        let sector: u64 = self.sector_size;
        let head: u64 = self.pos - begin;
        let tail: u64 = end - (self.pos + len as u64);
        let last: u64 = end - sector;
        let needs_head: bool = sector > 1 && head != 0;
        // When the write lives inside a single sector, reading its head has
        // already brought that sector in.
        let needs_tail: bool = sector > 1 && tail != 0 && !(head != 0 && last == begin);
        if needs_head && w.first.is_none() {
            w.first = self.held(begin);
        }
        if needs_tail && w.last.is_none() {
            w.last = self.held(last);
        }
        if needs_head && w.first.is_none() {
            return WriteStep::Fetch { offset: begin, len: sector };
        }
        if needs_tail && w.last.is_none() {
            return WriteStep::Fetch { offset: last, len: sector };
        }
        let mut scratch: Vec<u8> = zero_vec((end - begin) as usize);
        let ghost first_bytes: Seq<u8> = if w.first is Some {
            w.first->0@
        } else {
            Seq::empty()
        };
        let ghost last_bytes: Seq<u8> = if w.last is Some {
            w.last->0@
        } else {
            Seq::empty()
        };
        if needs_tail {
            if let Some(data) = &w.last {
                overwrite(&mut scratch, (last - begin) as usize, data);
            }
        }
        if needs_head {
            if let Some(data) = &w.first {
                overwrite(&mut scratch, 0, data);
            }
        }
        overwrite(&mut scratch, head as usize, &w.data);
        proof {
            let want = self@.image(w.data@, first_bytes, last_bytes);
            assert forall|i: int| 0 <= i < want.len() implies scratch@[i] == #[trigger] want[i] by {
                if !(head <= i < head + len) {
                    lemma_image_bytes(self@, len as nat, i);
                }
            }
            assert(scratch@ =~= want);
        }
        self.cache = None;
        WriteStep::Store { offset: begin, data: scratch }
    }

    /// Take in the sector a write was waiting for.
    pub fn sector_fetched(&mut self, w: &mut PendingWrite, raw: Vec<u8>)
        requires
            old(self)@.wf(),
            old(self).fits(old(w)@.data.len()),
            old(w)@.fits(old(self)@),
            old(w)@.data.len() > 0,
            raw@.len() <= old(self)@.sector,
        ensures
            (final(self)@, final(w)@) == old(self)@.sector_fetched(old(w)@, raw@),
            final(self)@.wf(),
            final(w)@.fits(final(self)@),
    {
        let len: usize = w.data.len();
        proof {
            lemma_window(self@, len as nat);
            lemma_last_aligned(self@, len as nat);
        }
        let (begin, end) = self.window(len);
        let sector: u64 = self.sector_size;
        let head: u64 = self.pos - begin;
        let tail: u64 = end - (self.pos + len as u64);
        let last: u64 = end - sector;
        if sector > 1 && head != 0 && w.first.is_none() {
            w.first = Some(crate::bytes::to_vec(&raw));
            self.cache = Some(CachedSector { offset: begin, data: raw });
        } else if sector > 1 && tail != 0 && !(head != 0 && last == begin) && w.last.is_none() {
            w.last = Some(crate::bytes::to_vec(&raw));
            self.cache = Some(CachedSector { offset: last, data: raw });
        }
    }

    /// Move on past what has been put down.
    pub fn finish_write(&mut self, len: usize)
        requires
            old(self).fits(len as nat),
        ensures
            final(self)@ == (AlignedView { pos: old(self)@.pos + len as nat, ..old(self)@ }),
    {
        self.pos += len as u64;
    }
}

proof fn lemma_last_aligned(d: AlignedView, len: nat)
    requires
        d.sector >= 1,
        len > 0,
    ensures
        d.last(len) % d.sector == 0,
{
    lemma_window(d, len);
    let s = d.sector as int;
    vstd::arithmetic::div_mod::lemma_fundamental_div_mod(d.end(len) as int, s);
    let q = d.end(len) as int / s;
    assert(d.last(len) == s * (q - 1)) by {
        vstd::arithmetic::mul::lemma_mul_is_distributive_sub(s, q, 1);
    }
    vstd::arithmetic::mul::lemma_mul_is_commutative(s, q - 1);
    vstd::arithmetic::div_mod::lemma_mod_multiples_basic(q - 1, s);
}

/// Where each byte of a write's sectors lies.
proof fn lemma_image_bytes(d: AlignedView, len: nat, i: int)
    requires
        d.sector >= 1,
        len > 0,
        0 <= i < d.end(len) - d.begin(),
        !(d.head() <= i < d.head() + len),
    ensures
        i < d.head() ==> i < d.sector && d.needs_head(),
        i < d.head() && d.needs_tail(len) ==> i < d.last(len) - d.begin(),
        i >= d.head() + len ==> i >= d.last(len) - d.begin(),
        i >= d.head() + len && d.last(len) == d.begin() && d.head() != 0 ==> i < d.sector
            && d.needs_head(),
        i >= d.head() + len && !(d.last(len) == d.begin() && d.head() != 0) ==> d.needs_tail(len)
            && (i >= d.sector || !d.needs_head()),
{
    lemma_window(d, len);
    lemma_last_aligned(d, len);
    if d.last(len) > d.begin() {
        lemma_multiples_apart(d.begin(), d.last(len), d.sector);
    }
}

/// Copy some bytes over others.
fn overwrite(data: &mut Vec<u8>, at: usize, with: &[u8])
    requires
        at + with@.len() <= old(data)@.len(),
    ensures
        final(data)@ == splice(old(data)@, at as int, with@),
{
    let n: usize = with.len();
    let total: usize = data.len();
    assert(at + n <= total);
    let mut i: usize = 0;
    while i < n
        invariant
            i <= n,
            n == with@.len(),
            at + n <= total,
            data@.len() == total,
            total == old(data)@.len(),
            forall|k: int|
                0 <= k < total ==> #[trigger] data@[k] == (if at <= k < at + i {
                    with@[k - at]
                } else {
                    old(data)@[k]
                }),
        decreases n - i,
    {
        data[at + i] = with[i];
        i += 1;
    }
    assert(data@ =~= splice(old(data)@, at as int, with@));
}

/// The part of what was read that was really asked for.
fn take_part(raw: &[u8], skip: usize, len: usize) -> (part: Vec<u8>)
    ensures
        part@ == wanted_part(raw@, skip as nat, len as nat),
        part@.len() <= len,
{
    let n: usize = raw.len();
    if n <= skip {
        return Vec::new();
    }
    let taken: usize = if n - skip <= len {
        n - skip
    } else {
        len
    };
    crate::bytes::to_vec(&raw[skip..skip + taken])
}

/// Whatever the alignment, a read gives the bytes that were asked for, as many
/// as there are before the end of the device, and moves on past them; and what
/// it asks the device for is whole sectors.
///
/// This holds as long as the held sector is what the device holds, and still
/// does afterwards.
pub proof fn law_read_gives_what_was_asked_for(d: AlignedView, disk: Seq<u8>, len: nat)
    requires
        d.wf(),
        d.coherent(disk),
    ensures
        match d.start_read(len) {
            (d1, ReadNext::Done(part)) => {
                &&& part == device_read(disk, d.pos, len)
                &&& d1.pos == d.pos + part.len()
                &&& d1.coherent(disk)
            },
            (d1, ReadNext::Fetch(offset, n)) => {
                let (d2, part) = d1.finish_read(len, device_read(disk, offset, n));
                &&& offset % d.sector == 0
                &&& n % d.sector == 0
                &&& part == device_read(disk, d.pos, len)
                &&& d2.pos == d.pos + part.len()
                &&& d2.coherent(disk)
            },
        },
{
    if len > 0 {
        lemma_window(d, len);
        let n = (d.end(len) - d.begin()) as nat;
        let raw = device_read(disk, d.begin(), n);
        assert(wanted_part(raw, d.head(), len) =~= device_read(disk, d.pos, len));
        if d.sector == 1 {
            let raw = device_read(disk, d.pos, len);
            assert(wanted_part(raw, 0, len) =~= raw);
        } else {
            vstd::arithmetic::div_mod::lemma_sub_mod_noop(
                d.end(len) as int,
                d.begin() as int,
                d.sector as int,
            );
            vstd::arithmetic::div_mod::lemma_small_mod(0, d.sector);
        }
    } else {
        assert(device_read(disk, d.pos, 0) =~= Seq::<u8>::empty());
    }
}

/// Whether what a write has of its partial sectors is what the device holds.
pub open spec fn faithful(d: AlignedView, w: PendingView, disk: Seq<u8>) -> bool {
    &&& w.first matches Some(s) ==> s == device_read(disk, d.begin(), d.sector)
    &&& w.last matches Some(s) ==> s == device_read(disk, d.last(w.data.len()), d.sector)
}

/// How many sectors a write has yet to read.
pub open spec fn missing(d: AlignedView, w: PendingView) -> nat {
    (if d.needs_head() && w.first is None {
        1nat
    } else {
        0
    }) + (if d.needs_tail(w.data.len()) && w.last is None {
        1nat
    } else {
        0
    })
}

/// Whatever the alignment, a write puts down its bytes and leaves every other
/// byte of the device alone; and what it asks of the device is whole sectors.
///
/// A sector past the end of the device is filled up with zeroes. Every sector
/// that is fetched brings the write one step closer to its end.
pub proof fn law_write_leaves_the_rest_alone(d: AlignedView, w: PendingView, disk: Seq<u8>)
    requires
        d.wf(),
        d.coherent(disk),
        faithful(d, w, disk),
        w.data.len() > 0,
    ensures
        match d.write_step(w) {
            (d1, w1, WriteNext::Fetch(offset, n)) => {
                let (d2, w2) = d1.sector_fetched(w1, device_read(disk, offset, n));
                &&& offset % d.sector == 0
                &&& n == d.sector
                &&& d2.pos == d.pos
                &&& d2.sector == d.sector
                &&& w2.data == w.data
                &&& d2.coherent(disk)
                &&& faithful(d2, w2, disk)
                &&& missing(d2, w2) < missing(d, w)
            },
            (d1, w1, WriteNext::Store(offset, image)) => {
                let after = device_write(disk, offset, image);
                &&& offset % d.sector == 0
                &&& image.len() % d.sector == 0
                &&& d1.coherent(after)
                &&& d.pos + w.data.len() <= after.len()
                &&& disk.len() <= after.len()
                &&& forall|i: int|
                    0 <= i < after.len() ==> #[trigger] after[i] == (if d.pos <= i < d.pos
                        + w.data.len() {
                        w.data[i - d.pos]
                    } else if i < disk.len() {
                        disk[i]
                    } else {
                        0
                    })
            },
            (_, _, WriteNext::Done) => false,
        },
{
    let len = w.data.len();
    lemma_window(d, len);
    lemma_last_aligned(d, len);
    match d.write_step(w) {
        (d1, w1, WriteNext::Store(offset, image)) => {
            vstd::arithmetic::div_mod::lemma_sub_mod_noop(
                d.end(len) as int,
                d.begin() as int,
                d.sector as int,
            );
            vstd::arithmetic::div_mod::lemma_small_mod(0, d.sector);
            let after = device_write(disk, offset, image);
            assert forall|i: int| 0 <= i < after.len() implies #[trigger] after[i] == (if d.pos
                <= i < d.pos + w.data.len() {
                w.data[i - d.pos]
            } else if i < disk.len() {
                disk[i]
            } else {
                0
            }) by {
                let k = i - offset;
                if 0 <= k < image.len() && !(d.head() <= k < d.head() + len) {
                    lemma_image_bytes(d, len, k);
                }
            }
        },
        _ => {},
    }
}

} // verus!
