//! The device a filesystem lives on, as far as it has been loaded.
//!
//! Nothing here touches a real device. The part of it that has been loaded is
//! held in memory, and what the filesystem writes is queued up in order. An
//! access to a part that has not been loaded reports which part that is, so
//! that whoever owns the real device can load it and try again.

use std::collections::HashMap;

use vstd::prelude::*;

use crate::error::{Error, IoError};

verus! {

/// The unit the device is loaded in, in bytes.
pub const SECTOR_SIZE: u64 = 512;

/// One past the last offset a device can have.
pub const DEVICE_LIMIT: u64 = 0x7fff_ffff_ffff_ffff;

/// A write waiting to be carried out on the real device.
pub struct DeviceWrite {
    pub offset: u64,
    pub data: Vec<u8>,
}

impl DeviceWrite {
    pub open spec fn view(self) -> (nat, Seq<u8>) {
        (self.offset as nat, self.data@)
    }

    pub open spec fn covers(self, i: int) -> bool {
        self.offset <= i < self.offset + self.data@.len()
    }
}

/// What is known of a device: how long it is, the bytes that have been loaded
/// or written, and the writes that have yet to reach it.
#[verifier::ext_equal]
pub struct DeviceView {
    pub len: nat,
    pub known: Map<int, u8>,
    pub outbox: Seq<(nat, Seq<u8>)>,
}

impl DeviceView {
    /// Whether every byte of a range is known.
    pub open spec fn has(self, offset: int, len: int) -> bool {
        forall|i: int| offset <= i < offset + len ==> #[trigger] self.known.contains_key(i)
    }

    /// The bytes of a range that is known.
    pub open spec fn bytes(self, offset: int, len: nat) -> Seq<u8> {
        Seq::new(len, |i: int| self.known[offset + i])
    }

    /// How much of a range lies before the end of the device.
    pub open spec fn available(self, offset: nat, len: nat) -> nat {
        if offset >= self.len {
            0
        } else if offset + len <= self.len {
            len
        } else {
            (self.len - offset) as nat
        }
    }

    /// Read a range, or what there is of it before the end of the device.
    #[verifier::opaque]
    pub open spec fn read(self, offset: nat, len: nat) -> Result<Seq<u8>, Error> {
        let n = self.available(offset, len);
        if self.has(offset as int, n as int) {
            Ok(self.bytes(offset as int, n))
        } else {
            Err(Error::Io(IoError::NotLoaded { offset: offset as u64, len: n as u64 }))
        }
    }

    /// Read the whole of a range, and nothing less.
    pub open spec fn read_exact(self, offset: nat, len: nat) -> Result<Seq<u8>, Error> {
        if offset + len > self.len {
            Err(Error::Io(IoError::UnexpectedEof))
        } else {
            self.read(offset, len)
        }
    }

    /// The device once a write has been queued up. A write past the end makes
    /// the device longer.
    pub open spec fn written(self, offset: nat, data: Seq<u8>) -> DeviceView {
        DeviceView {
            len: if offset + data.len() > self.len {
                offset + data.len()
            } else {
                self.len
            },
            known: Map::new(
                |i: int| self.known.contains_key(i) || offset <= i < offset + data.len(),
                |i: int|
                    if offset <= i < offset + data.len() {
                        data[i - offset]
                    } else {
                        self.known[i]
                    },
            ),
            outbox: self.outbox.push((offset, data)),
        }
    }

    /// Queue up a write, unless it is empty or past anything a device can have.
    pub open spec fn write(self, offset: nat, data: Seq<u8>) -> (DeviceView, Result<(), Error>) {
        if offset + data.len() > DEVICE_LIMIT {
            (self, Err(Error::Io(IoError::OutOfRange)))
        } else if data.len() == 0 {
            (self, Ok(()))
        } else {
            (self.written(offset, data), Ok(()))
        }
    }
}

/// A device, as far as it has been loaded.
pub struct Device {
    len: u64,
    sectors: HashMap<u64, Vec<u8>>,
    outbox: Vec<DeviceWrite>,
    /// Where a rollback returns to.
    mark: usize,
    mark_len: u64,
}

/// The byte at an offset, given what was loaded and what was written since.
pub closed spec fn byte_at(sectors: Map<u64, Vec<u8>>, outbox: Seq<DeviceWrite>, i: int) -> Option<
    u8,
>
    decreases outbox.len(),
{
    if outbox.len() > 0 {
        if outbox.last().covers(i) {
            Some(outbox.last().data@[i - outbox.last().offset])
        } else {
            byte_at(sectors, outbox.drop_last(), i)
        }
    } else if 0 <= i && i / 512 <= u64::MAX && sectors.contains_key((i / 512) as u64) {
        Some(sectors[(i / 512) as u64]@[i % 512])
    } else {
        None
    }
}

spec fn state_view(len: u64, sectors: Map<u64, Vec<u8>>, outbox: Seq<DeviceWrite>) -> DeviceView {
    DeviceView {
        len: len as nat,
        known: Map::new(
            |i: int| byte_at(sectors, outbox, i) is Some,
            |i: int| byte_at(sectors, outbox, i)->0,
        ),
        outbox: outbox.map_values(|w: DeviceWrite| w.view()),
    }
}

impl Device {
    pub closed spec fn view(self) -> DeviceView {
        state_view(self.len, self.sectors@, self.outbox@)
    }

    /// The view a rollback returns to.
    pub closed spec fn marked(self) -> DeviceView {
        state_view(self.mark_len, self.sectors@, self.outbox@.take(self.mark as int))
    }

    pub closed spec fn inv(self) -> bool {
        &&& self.len <= DEVICE_LIMIT
        &&& self.mark_len <= DEVICE_LIMIT
        &&& self.mark <= self.outbox@.len()
        &&& forall|s: u64| #[trigger] self.sectors@.contains_key(s) ==> self.sectors@[s]@.len() == 512
        &&& forall|k: int| 0 <= k < self.outbox@.len() ==> (#[trigger] self.outbox@[k]).offset
            + self.outbox@[k].data@.len() <= DEVICE_LIMIT
    }

    pub proof fn lemma_len(self)
        requires
            self.inv(),
        ensures
            self@.len <= DEVICE_LIMIT,
    {
    }

    /// A device of the given length, of which nothing has been loaded yet.
    pub fn new(len: u64) -> (device: Self)
        requires
            len <= DEVICE_LIMIT,
        ensures
            device.inv(),
            device@ == (DeviceView {
                len: len as nat,
                known: Map::empty(),
                outbox: Seq::empty(),
            }),
            device.marked() == device@,
    {
        broadcast use vstd::std_specs::hash::group_hash_axioms;

        let device = Device {
            len,
            sectors: HashMap::new(),
            outbox: Vec::new(),
            mark: 0,
            mark_len: len,
        };
        assert(device.outbox@.take(0) =~= device.outbox@);
        assert(device@ =~= DeviceView {
            len: len as nat,
            known: Map::empty(),
            outbox: Seq::empty(),
        });
        device
    }

    /// The length of the device in bytes.
    pub fn len(&self) -> (len: u64)
        requires
            self.inv(),
        ensures
            len == self@.len,
            len <= DEVICE_LIMIT,
    {
        self.len
    }

    /// Take in one sector of the real device.
    ///
    /// Past the end of the device a sector is filled up with zeroes. No write
    /// may be waiting, since what was loaded may be older than that.
    pub fn load(&mut self, sector: u64, data: Vec<u8>)
        requires
            old(self).inv(),
            data@.len() == 512,
            old(self)@.outbox.len() == 0,
        ensures
            final(self).inv(),
            final(self)@.len == old(self)@.len,
            final(self)@.outbox == old(self)@.outbox,
            final(self)@.known == Map::new(
                |i: int| old(self)@.known.contains_key(i) || sector * 512 <= i < sector * 512 + 512,
                |i: int|
                    if sector * 512 <= i < sector * 512 + 512 {
                        data@[i - sector * 512]
                    } else {
                        old(self)@.known[i]
                    },
            ),
    {
        broadcast use vstd::std_specs::hash::group_hash_axioms;

        self.sectors.insert(sector, data);
        proof {
            assert(self.outbox@.len() == 0) by {
                assert(old(self)@.outbox.len() == old(self).outbox@.len());
            }
            let known = Map::new(
                |i: int| old(self)@.known.contains_key(i) || sector * 512 <= i < sector * 512 + 512,
                |i: int|
                    if sector * 512 <= i < sector * 512 + 512 {
                        data@[i - sector * 512]
                    } else {
                        old(self)@.known[i]
                    },
            );
            assert forall|i: int| #[trigger] self@.known.contains_key(i) <==> known.contains_key(
                i,
            ) by {
                assert(sector * 512 <= i < sector * 512 + 512 <==> 0 <= i && i / 512 == sector);
            }
            assert forall|i: int| known.contains_key(i) implies #[trigger] self@.known[i]
                == known[i] by {
                assert(sector * 512 <= i < sector * 512 + 512 <==> 0 <= i && i / 512 == sector);
            }
            assert(self@.known =~= known);
            assert(self@.outbox =~= old(self)@.outbox);
        }
    }

    /// The byte at an offset, if it is known.
    fn byte(&self, i: u64) -> (b: Option<u8>)
        requires
            self.inv(),
        ensures
            b == byte_at(self.sectors@, self.outbox@, i as int),
    {
        broadcast use vstd::std_specs::hash::group_hash_axioms;

        let mut k: usize = self.outbox.len();
        assert(self.outbox@.take(k as int) =~= self.outbox@);
        while k > 0
            invariant
                self.inv(),
                k <= self.outbox@.len(),
                byte_at(self.sectors@, self.outbox@, i as int) == byte_at(
                    self.sectors@,
                    self.outbox@.take(k as int),
                    i as int,
                ),
            decreases k,
        {
            let w = &self.outbox[k - 1];
            assert(self.outbox@.take(k as int).last() == self.outbox@[k - 1]);
            assert(self.outbox@.take(k as int).drop_last() =~= self.outbox@.take(k - 1));
            if w.offset <= i && i - w.offset < w.data.len() as u64 {
                return Some(w.data[(i - w.offset) as usize]);
            }
            k -= 1;
        }
        match self.sectors.get(&(i / 512)) {
            Some(data) => Some(data[(i % 512) as usize]),
            None => None,
        }
    }

    /// Read a range, or what there is of it before the end of the device.
    pub fn read(&self, offset: u64, len: u64) -> (r: Result<Vec<u8>, Error>)
        requires
            self.inv(),
        ensures
            (match r {
                Ok(data) => Ok(data@),
                Err(e) => Err(e),
            }) == self@.read(offset as nat, len as nat),
            r matches Ok(data) ==> data@.len() <= len,
    {
        proof {
            reveal(DeviceView::read);
        }
        let n: u64 = if offset >= self.len {
            0
        } else if len <= self.len - offset {
            len
        } else {
            self.len - offset
        };
        let mut data: Vec<u8> = Vec::new();
        let mut i: u64 = 0;
        while i < n
            invariant
                self.inv(),
                i <= n,
                offset + n <= u64::MAX,
                n == self@.available(offset as nat, len as nat),
                self@.has(offset as int, i as int),
                data@ == self@.bytes(offset as int, i as nat),
            decreases n - i,
        {
            match self.byte(offset + i) {
                Some(b) => {
                    assert(self@.known.contains_key(offset + i));
                    assert(self@.known[offset + i] == b);
                    data.push(b);
                    assert(data@ =~= self@.bytes(offset as int, (i + 1) as nat));
                },
                None => {
                    reveal(DeviceView::read);
                    assert(!self@.known.contains_key(offset + i));
                    return Err(Error::Io(IoError::NotLoaded { offset, len: n }));
                },
            }
            i += 1;
        }
        Ok(data)
    }

    /// Read the whole of a range, and nothing less.
    pub fn read_exact(&self, offset: u64, len: u64) -> (r: Result<Vec<u8>, Error>)
        requires
            self.inv(),
        ensures
            (match r {
                Ok(data) => Ok(data@),
                Err(e) => Err(e),
            }) == self@.read_exact(offset as nat, len as nat),
            r matches Ok(data) ==> data@.len() == len,
    {
        proof {
            reveal(DeviceView::read);
        }
        if offset > self.len || len > self.len - offset {
            return Err(Error::Io(IoError::UnexpectedEof));
        }
        self.read(offset, len)
    }

    /// Queue up a write.
    pub fn write(&mut self, offset: u64, data: Vec<u8>) -> (r: Result<(), Error>)
        requires
            old(self).inv(),
        ensures
            final(self).inv(),
            (final(self)@, r) == old(self)@.write(offset as nat, data@),
            final(self).marked() == old(self).marked(),
    {
        let n: usize = data.len();
        if offset > DEVICE_LIMIT || n as u64 > DEVICE_LIMIT - offset {
            return Err(Error::Io(IoError::OutOfRange));
        }
        if n == 0 {
            return Ok(());
        }
        let end: u64 = offset + n as u64;
        if end > self.len {
            self.len = end;
        }
        let ghost w = DeviceWrite { offset, data };
        self.outbox.push(DeviceWrite { offset, data });
        proof {
            assert(self.outbox@.drop_last() =~= old(self).outbox@);
            assert(self.outbox@.take(self.mark as int) =~= old(self).outbox@.take(
                old(self).mark as int,
            ));
            let want = old(self)@.written(offset as nat, w.data@);
            assert(self@.known =~= want.known);
            assert(self@.outbox =~= want.outbox);
        }
        Ok(())
    }

    /// Remember the present state, for a rollback to return to.
    pub fn set_mark(&mut self)
        requires
            old(self).inv(),
        ensures
            final(self).inv(),
            final(self)@ == old(self)@,
            final(self).marked() == old(self)@,
    {
        self.mark = self.outbox.len();
        self.mark_len = self.len;
        assert(self.outbox@.take(self.mark as int) =~= self.outbox@);
    }

    /// Drop every write queued up since the mark was set.
    pub fn rollback(&mut self)
        requires
            old(self).inv(),
        ensures
            final(self).inv(),
            final(self)@ == old(self).marked(),
            final(self).marked() == old(self).marked(),
    {
        self.outbox.truncate(self.mark);
        self.len = self.mark_len;
        assert(self.outbox@ =~= old(self).outbox@.take(old(self).mark as int));
        assert(self.outbox@.take(self.mark as int) =~= self.outbox@);
    }

    /// Hand over the writes that are waiting, in the order they were made.
    ///
    /// Everything that was loaded is dropped along with them, rather than
    /// working out which of it the writes have changed.
    pub fn take_writes(&mut self) -> (writes: Vec<DeviceWrite>)
        requires
            old(self).inv(),
        ensures
            final(self).inv(),
            writes@.map_values(|w: DeviceWrite| w.view()) == old(self)@.outbox,
            final(self)@ == (DeviceView {
                len: old(self)@.len,
                known: Map::empty(),
                outbox: Seq::empty(),
            }),
            final(self).marked() == final(self)@,
    {
        broadcast use vstd::std_specs::hash::group_hash_axioms;

        let mut writes: Vec<DeviceWrite> = Vec::new();
        writes.append(&mut self.outbox);
        assert(writes@ =~= old(self).outbox@);
        self.sectors.clear();
        self.mark = 0;
        self.mark_len = self.len;
        assert(self.outbox@.take(0) =~= self.outbox@);
        assert(self@ =~= DeviceView {
            len: old(self)@.len,
            known: Map::empty(),
            outbox: Seq::empty(),
        });
        writes
    }
}

/// A read gives the bytes it asked for, as many as there are before the end of the
/// device, or else asks for just those to be loaded: once they are, the same read gives
/// them.
pub proof fn law_a_read_asks_for_what_it_lacks(
    dev: DeviceView,
    offset: u64,
    len: u64,
    later: DeviceView,
)
    requires
        later.len == dev.len,
    ensures
        match dev.read(offset as nat, len as nat) {
            Ok(data) => {
                &&& data.len() <= len
                &&& offset + data.len() <= dev.len || data.len() == 0
                &&& data.len() < len ==> offset + data.len() >= dev.len
                &&& forall|i: int|
                    #![trigger data[i]]
                    0 <= i < data.len() ==> dev.known.contains_key(offset + i) && data[i]
                        == dev.known[offset + i]
            },
            Err(e) => e matches Error::Io(IoError::NotLoaded { offset: at, len: n }) && at == offset
                && 0 < n <= len && at + n <= dev.len && (n < len ==> at + n == dev.len) && (later.has(
                at as int,
                n as int,
            ) ==> later.read(offset as nat, len as nat) == Ok::<Seq<u8>, Error>(
                Seq::new(n as nat, |i: int| later.known[offset + i]),
            )),
        },
{
    reveal(DeviceView::read);
    let n = dev.available(offset as nat, len as nat);
    assert(dev.has(offset as int, 0));
    if later.has(offset as int, n as int) {
        assert(later.bytes(offset as int, n) =~= Seq::new(
            n,
            |i: int| later.known[offset + i],
        ));
    }
}

/// A write puts its bytes at its offset, makes the device longer if it goes past the end,
/// waits behind those that wait already, and changes nothing else. Only one past anything
/// a device can have is refused.
pub proof fn law_a_write_puts_its_bytes_at_its_offset(dev: DeviceView, offset: nat, data: Seq<u8>)
    ensures
        ({
            let (w, r) = dev.write(offset, data);
            &&& r is Ok <==> offset + data.len() <= 0x7fff_ffff_ffff_ffff
            &&& r is Err ==> w == dev
            &&& r is Ok ==> {
                &&& forall|i: int| #[trigger]
                    w.known.contains_key(i) <==> dev.known.contains_key(i) || offset <= i < offset
                        + data.len()
                &&& forall|i: int|
                    #![trigger w.known[i]]
                    w.known.contains_key(i) ==> w.known[i] == (if offset <= i < offset + data.len() {
                        data[i - offset]
                    } else {
                        dev.known[i]
                    })
                &&& data.len() > 0 ==> w.outbox == dev.outbox.push((offset, data))
                &&& data.len() > 0 ==> w.len == (if offset + data.len() > dev.len {
                    offset + data.len()
                } else {
                    dev.len
                })
                &&& data.len() == 0 ==> w == dev
            }
        }),
{
}

} // verus!
