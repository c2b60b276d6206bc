//! The file allocation table: which clusters are free, and how the others are
//! chained together.

use vstd::prelude::*;

use crate::bytes::{get_u16, get_u32, put_u16, put_u32, swap_u16, swap_u32, zero_vec};
#[allow(unused_imports)]
use crate::bytes::{
    le16, le16_bytes, le32, le32_bytes, lemma_le16, lemma_le32, lemma_swapped16, lemma_swapped32,
    splice, swapped16, swapped32, zeroes,
};
use crate::error::Error;
use crate::variant::Variant;

verus! {

/// The number of an entry of the table, which is that of its cluster.
pub type FatEntryId = u32;

pub type ClusterId = u32;

/// What the table says of one cluster.
#[derive(Debug, Clone, Copy, PartialEq, Eq, Structural)]
pub enum FatEntry {
    Available,
    Reserved,
    Bad,
    Media,
    /// The last cluster of its chain.
    End,
    /// A cluster followed by another.
    Data(u32),
    Invalid,
}

/// What a 16-bit entry means.
pub open spec fn decode16(value: u16) -> FatEntry {
    if value == 0 {
        FatEntry::Available
    } else if value < 0xfff0 {
        FatEntry::Data(value as u32)
    } else if value == 0xfff0 {
        FatEntry::Reserved
    } else if value == 0xfff7 {
        FatEntry::Bad
    } else if value == 0xfff8 {
        FatEntry::Media
    } else if value == 0xffff {
        FatEntry::End
    } else {
        FatEntry::Invalid
    }
}

/// What a 32-bit entry means.
pub open spec fn decode32(value: u32) -> FatEntry {
    if value == 0 {
        FatEntry::Available
    } else if value < 0xfffffff0 {
        FatEntry::Data(value)
    } else if value == 0xfffffff0 {
        FatEntry::Reserved
    } else if value == 0xfffffff7 {
        FatEntry::Bad
    } else if value == 0xfffffff8 {
        FatEntry::Media
    } else if value == 0xffffffff {
        FatEntry::End
    } else {
        FatEntry::Invalid
    }
}

impl From<u16> for FatEntry {
    fn from(value: u16) -> (entry: Self) {
        match value {
            0x0000 => FatEntry::Available,
            0x0001..=0xffef => FatEntry::Data(value as u32),
            0xfff0 => FatEntry::Reserved,
            0xfff7 => FatEntry::Bad,
            0xfff8 => FatEntry::Media,
            0xffff => FatEntry::End,
            _ => FatEntry::Invalid,
        }
    }
}

impl vstd::std_specs::convert::FromSpecImpl<u16> for FatEntry {
    open spec fn obeys_from_spec() -> bool {
        true
    }

    open spec fn from_spec(value: u16) -> FatEntry {
        decode16(value)
    }
}

impl From<u32> for FatEntry {
    fn from(value: u32) -> (entry: Self) {
        match value {
            0x00000000 => FatEntry::Available,
            0x00000001..=0xffffffef => FatEntry::Data(value),
            0xfffffff0 => FatEntry::Reserved,
            0xfffffff7 => FatEntry::Bad,
            0xfffffff8 => FatEntry::Media,
            0xffffffff => FatEntry::End,
            _ => FatEntry::Invalid,
        }
    }
}

impl vstd::std_specs::convert::FromSpecImpl<u32> for FatEntry {
    open spec fn obeys_from_spec() -> bool {
        true
    }

    open spec fn from_spec(value: u32) -> FatEntry {
        decode32(value)
    }
}

impl FatEntry {
    pub open spec fn raw(self) -> Result<u32, Error> {
        match self {
            FatEntry::Available => Ok(0u32),
            FatEntry::Reserved => Ok(0xfffffff0u32),
            FatEntry::Bad => Ok(0xfffffff7u32),
            FatEntry::Media => Ok(0xfffffff8u32),
            FatEntry::End => Ok(0xffffffffu32),
            FatEntry::Data(cluster) => if cluster == 0 || cluster >= 0xfffffff0 {
                Err(Error::InvalidClusterNumber)
            } else {
                Ok(cluster)
            },
            FatEntry::Invalid => Err(Error::InvalidClusterChain),
        }
    }

    /// The 32-bit value this entry is written as.
    ///
    /// The markers are the same in both table widths once the narrow ones have
    /// been widened, so a filesystem with a narrow table simply truncates the
    /// result.
    pub fn to_raw(self) -> (raw: Result<u32, Error>)
        ensures
            raw == self.raw(),
    {
        match self {
            FatEntry::Available => Ok(0x00000000),
            FatEntry::Reserved => Ok(0xfffffff0),
            FatEntry::Bad => Ok(0xfffffff7),
            FatEntry::Media => Ok(0xfffffff8),
            FatEntry::End => Ok(0xffffffff),
            FatEntry::Data(cluster) => {
                if cluster == 0 || cluster >= 0xfffffff0 {
                    Err(Error::InvalidClusterNumber)
                } else {
                    Ok(cluster)
                }
            },
            FatEntry::Invalid => Err(Error::InvalidClusterChain),
        }
    }
}

/// How many entries a table can have before its entries have to be wide. It
/// must not reach the markers of the narrow kind.
pub const NARROW_LIMIT: u32 = 0xfff0;

/// The table is held in whole blocks of this many bytes.
pub const FAT_BLOCK: u64 = 4096;

/// The table: its bytes in the order of the disk, and which of them have
/// changed since they were last written out.
#[verifier::ext_equal]
pub struct FatView {
    pub entries: nat,
    pub data: Seq<u8>,
    pub dirty: Option<(nat, nat)>,
}

/// The 16-bit value at a place in the table.
pub open spec fn value16(data: Seq<u8>, at: int, swap: bool) -> u16 {
    let value = le16(data.subrange(at, at + 2));
    if swap {
        swapped16(value)
    } else {
        value
    }
}

/// The 32-bit value at a place in the table.
pub open spec fn value32(data: Seq<u8>, at: int, swap: bool) -> u32 {
    let value = le32(data.subrange(at, at + 4));
    if swap {
        swapped32(value)
    } else {
        value
    }
}

/// How large a table with this many entries is, in bytes.
pub open spec fn fat_size(entries: nat) -> nat {
    let bytes = if entries < NARROW_LIMIT {
        entries * 2
    } else {
        entries * 4
    };
    ((bytes + 4095) / 4096 * 4096) as nat
}

impl FatView {
    /// Whether entries take four bytes rather than two.
    pub open spec fn wide(self) -> bool {
        self.entries >= NARROW_LIMIT
    }

    pub open spec fn width(self) -> nat {
        if self.wide() {
            4
        } else {
            2
        }
    }

    pub open spec fn wf(self) -> bool {
        &&& self.entries <= u32::MAX
        &&& self.data.len() == fat_size(self.entries)
        &&& self.dirty matches Some((start, end)) ==> start < end <= self.data.len()
    }

    /// What the table says of cluster `i`.
    pub open spec fn at(self, i: int, variant: Variant) -> FatEntry {
        if self.wide() {
            decode32(value32(self.data, i * 4, variant.spec_needs_swap()))
        } else {
            decode16(value16(self.data, i * 2, variant.spec_needs_swap()))
        }
    }

    /// What the table says of cluster `i`, if it has an entry for it.
    pub open spec fn entry(self, i: FatEntryId, variant: Variant) -> Result<FatEntry, Error> {
        if i >= self.entries {
            Err(Error::InvalidClusterNumber)
        } else {
            Ok(self.at(i as int, variant))
        }
    }

    /// The bytes an entry is stored as.
    pub open spec fn encoded(self, raw: u32, variant: Variant) -> Seq<u8> {
        let swap = variant.spec_needs_swap();
        if self.wide() {
            le32_bytes(
                if swap {
                    swapped32(raw)
                } else {
                    raw
                },
            )
        } else {
            let low = (raw % 65536) as u16;
            le16_bytes(
                if swap {
                    swapped16(low)
                } else {
                    low
                },
            )
        }
    }

    /// The table after entry `i` has been overwritten.
    pub open spec fn stored(self, i: FatEntryId, raw: u32, variant: Variant) -> FatView {
        let start = i as nat * self.width();
        let end = start + self.width();
        FatView {
            data: splice(self.data, start as int, self.encoded(raw, variant)),
            dirty: Some(
                match self.dirty {
                    Some((s, e)) => (
                        if s < start {
                            s
                        } else {
                            start
                        },
                        if e > end {
                            e
                        } else {
                            end
                        },
                    ),
                    None => (start, end),
                },
            ),
            ..self
        }
    }

    /// Overwrite entry `i`, unless there is none or the value cannot be stored.
    pub open spec fn set(self, i: FatEntryId, entry: FatEntry, variant: Variant) -> (
        FatView,
        Result<(), Error>,
    ) {
        if i >= self.entries {
            (self, Err(Error::InvalidClusterNumber))
        } else {
            match entry.raw() {
                Err(e) => (self, Err(e)),
                Ok(raw) => (self.stored(i, raw, variant), Ok(())),
            }
        }
    }

    /// Whether a byte of the table has changed since it was last written out.
    pub open spec fn is_dirty(self, j: int) -> bool {
        self.dirty matches Some((start, end)) && start <= j < end
    }
}

pub proof fn lemma_fat_size(entries: nat)
    requires
        entries <= u32::MAX,
    ensures
        fat_size(entries) >= entries * (if entries < NARROW_LIMIT {
            2
        } else {
            4int
        }),
        fat_size(entries) <= 17179869184 + 4096,
        fat_size(entries) % 4096 == 0,
{
}

/// A table is the shortest run of whole blocks of 4096 bytes that holds all of
/// its entries, each of them two bytes wide in a table of less than 0xfff0 entries
/// and four bytes wide in a larger one. A longer table is never narrower.
pub proof fn law_a_table_is_as_short_as_it_can_be(n: nat, m: nat, size: nat)
    ensures
        fat_size(n) % 4096 == 0,
        n < 0xfff0 ==> n * 2 <= fat_size(n) < n * 2 + 4096,
        n >= 0xfff0 ==> n * 4 <= fat_size(n) < n * 4 + 4096,
        size % 4096 == 0 && n < 0xfff0 && size >= n * 2 ==> size >= fat_size(n),
        size % 4096 == 0 && n >= 0xfff0 && size >= n * 4 ==> size >= fat_size(n),
        n <= m ==> fat_size(n) <= fat_size(m),
{
}

/// Every entry of the table lies within its bytes.
pub proof fn lemma_entry_fits(fat: FatView, i: FatEntryId)
    requires
        fat.wf(),
        i < fat.entries,
    ensures
        i as nat * fat.width() + fat.width() <= fat.data.len(),
        fat.wide() ==> i as nat * fat.width() == i * 4,
        !fat.wide() ==> i as nat * fat.width() == i * 2,
{
    lemma_fat_size(fat.entries);
}

proof fn lemma_splice16(data: Seq<u8>, at: int, x: u16)
    requires
        0 <= at,
        at + 2 <= data.len(),
    ensures
        splice(data, at, le16_bytes(x)).subrange(at, at + 2) == le16_bytes(x),
{
    assert(splice(data, at, le16_bytes(x)).subrange(at, at + 2) =~= le16_bytes(x));
}

proof fn lemma_splice32(data: Seq<u8>, at: int, x: u32)
    requires
        0 <= at,
        at + 4 <= data.len(),
    ensures
        splice(data, at, le32_bytes(x)).subrange(at, at + 4) == le32_bytes(x),
{
    assert(splice(data, at, le32_bytes(x)).subrange(at, at + 4) =~= le32_bytes(x));
}

/// Reading an entry gives back what was last stored in it, and storing an
/// entry leaves every other entry as it was.
///
/// A link has to fit the width of the table: one of two bytes has no room for a
/// number past its own markers. The number of any cluster the table has an entry
/// for does fit.
pub proof fn law_fat_entry_reads_back(
    fat: FatView,
    i: FatEntryId,
    entry: FatEntry,
    variant: Variant,
    j: FatEntryId,
)
    requires
        fat.wf(),
        i < fat.entries,
        entry.raw() is Ok,
        entry matches FatEntry::Data(c) ==> fat.wide() || c < NARROW_LIMIT,
    ensures
        fat.set(i, entry, variant).1 is Ok,
        fat.set(i, entry, variant).0.wf(),
        fat.set(i, entry, variant).0.entry(i, variant) == Ok::<FatEntry, Error>(entry),
        j != i ==> fat.set(i, entry, variant).0.entry(j, variant) == fat.entry(j, variant),
{
    let raw = entry.raw()->Ok_0;
    let new = fat.stored(i, raw, variant);
    lemma_fat_size(fat.entries);
    if fat.wide() {
        let x = if variant.spec_needs_swap() {
            swapped32(raw)
        } else {
            raw
        };
        lemma_splice32(fat.data, i * 4, x);
        lemma_le32(x);
        lemma_swapped32(raw);
        if j != i && j < fat.entries {
            assert(new.data.subrange(j * 4, j * 4 + 4) =~= fat.data.subrange(j * 4, j * 4 + 4));
        }
    } else {
        let low = (raw % 65536) as u16;
        let x = if variant.spec_needs_swap() {
            swapped16(low)
        } else {
            low
        };
        lemma_splice16(fat.data, i * 2, x);
        lemma_le16(x);
        lemma_swapped16(low);
        if j != i && j < fat.entries {
            assert(new.data.subrange(j * 2, j * 2 + 2) =~= fat.data.subrange(j * 2, j * 2 + 2));
        }
    }
}

/// The table, cached as it appears on disk.
pub struct Fat {
    /// How many entries the table actually describes. The cache is rounded up
    /// to a whole number of blocks, so it is longer than that.
    num_entries: u32,
    fat_data: Vec<u8>,
    /// Half-open byte range of `fat_data` modified since the last flush.
    dirty: Option<(usize, usize)>,
    /// What the entries overwritten since the mark was set held before.
    undo: Vec<(usize, u32)>,
    mark_dirty: Option<(usize, usize)>,
}

/// Put back what was overwritten, the last first.
pub closed spec fn rewind(data: Seq<u8>, undo: Seq<(usize, u32)>, wide: bool) -> Seq<u8>
    decreases undo.len(),
{
    if undo.len() == 0 {
        data
    } else {
        let (at, old_value) = undo.last();
        let restored = splice(
            data,
            at as int,
            if wide {
                le32_bytes(old_value)
            } else {
                le16_bytes(old_value as u16)
            },
        );
        rewind(restored, undo.drop_last(), wide)
    }
}

spec fn dirty_view(dirty: Option<(usize, usize)>) -> Option<(nat, nat)> {
    match dirty {
        Some((start, end)) => Some((start as nat, end as nat)),
        None => None,
    }
}

impl Fat {
    pub closed spec fn view(self) -> FatView {
        FatView {
            entries: self.num_entries as nat,
            data: self.fat_data@,
            dirty: dirty_view(self.dirty),
        }
    }

    /// The view a rollback returns to.
    pub closed spec fn marked(self) -> FatView {
        FatView {
            entries: self.num_entries as nat,
            data: rewind(self.fat_data@, self.undo@, self@.wide()),
            dirty: dirty_view(self.mark_dirty),
        }
    }

    pub closed spec fn inv(self) -> bool {
        &&& self@.wf()
        &&& self.mark_dirty matches Some((start, end)) ==> start < end <= self.fat_data@.len()
        &&& forall|k: int| 0 <= k < self.undo@.len() ==> (#[trigger] self.undo@[k]).0 + self@.width()
            <= self.fat_data@.len()
        &&& !self@.wide() ==> forall|k: int| 0 <= k < self.undo@.len() ==> (
        #[trigger] self.undo@[k]).1 < 65536
    }

    pub proof fn lemma_inv(self)
        requires
            self.inv(),
        ensures
            self@.wf(),
    {
    }

    /// A table with the given number of entries, all of them free.
    pub fn new(num_fat_entries: u32) -> (fat: Self)
        requires
            fat_size(num_fat_entries as nat) <= usize::MAX,
        ensures
            fat.inv(),
            fat@ == (FatView {
                entries: num_fat_entries as nat,
                data: zeroes(fat_size(num_fat_entries as nat)),
                dirty: None,
            }),
            fat.marked() == fat@,
    {
        let size: u64 = Self::size_for(num_fat_entries);
        Self {
            num_entries: num_fat_entries,
            fat_data: zero_vec(size as usize),
            dirty: None,
            undo: Vec::new(),
            mark_dirty: None,
        }
    }

    /// The size of a table, rounded up to a whole number of blocks.
    pub fn size_for(num_fat_entries: u32) -> (size: u64)
        ensures
            size == fat_size(num_fat_entries as nat),
            size % 4096 == 0,
            num_fat_entries < 0xfff0 ==> num_fat_entries * 2 <= size < num_fat_entries * 2 + 4096,
            num_fat_entries >= 0xfff0 ==> num_fat_entries * 4 <= size < num_fat_entries * 4 + 4096,
    {
        let bytes: u64 = if num_fat_entries < NARROW_LIMIT {
            num_fat_entries as u64 * 2
        } else {
            num_fat_entries as u64 * 4
        };
        (bytes + 4095) / FAT_BLOCK * FAT_BLOCK
    }

    /// A table holding bytes read from a disk.
    pub fn from_bytes(num_fat_entries: u32, data: Vec<u8>) -> (fat: Self)
        requires
            data@.len() == fat_size(num_fat_entries as nat),
        ensures
            fat.inv(),
            fat@ == (FatView { entries: num_fat_entries as nat, data: data@, dirty: None }),
            fat.marked() == fat@,
    {
        Self {
            num_entries: num_fat_entries,
            fat_data: data,
            dirty: None,
            undo: Vec::new(),
            mark_dirty: None,
        }
    }

    pub fn num_entries(&self) -> (n: u32)
        ensures
            n == self@.entries,
    {
        self.num_entries
    }

    /// Refuse a cluster number the table has no entry for.
    ///
    /// A cluster number read out of a directory entry is whatever the on-disk
    /// bytes say, so a corrupt or hand-made entry can point anywhere.
    fn check_index(&self, index: FatEntryId) -> (r: Result<(), Error>)
        ensures
            r == (if index >= self@.entries {
                Err(Error::InvalidClusterNumber)
            } else {
                Ok(())
            }),
    {
        if index >= self.num_entries {
            return Err(Error::InvalidClusterNumber);
        }
        Ok(())
    }

    /// The width, in bytes, of one entry of this table.
    fn entry_size(&self) -> (width: usize)
        ensures
            width == self@.width(),
    {
        if self.num_entries < NARROW_LIMIT {
            2
        } else {
            4
        }
    }

    /// Read an entry.
    ///
    /// The cache is held in on-disk byte order, so entries are swapped here as
    /// they are read out rather than when the cache is filled.
    pub fn entry(&self, index: FatEntryId, variant: Variant) -> (r: Result<FatEntry, Error>)
        requires
            self.inv(),
        ensures
            r == self@.entry(index, variant),
    {
        self.check_index(index)?;
        proof {
            lemma_entry_fits(self@, index);
        }
        let len: usize = self.fat_data.len();
        assert(index as nat * self@.width() + self@.width() <= len);
        let swap: bool = variant.needs_swap();
        if self.num_entries < NARROW_LIMIT {
            let value: u16 = get_u16(&self.fat_data, index as usize * 2);
            let value: u16 = if swap {
                swap_u16(value)
            } else {
                value
            };
            Ok(FatEntry::from(value))
        } else {
            let value: u32 = get_u32(&self.fat_data, index as usize * 4);
            let value: u32 = if swap {
                swap_u32(value)
            } else {
                value
            };
            Ok(FatEntry::from(value))
        }
    }

    /// Write an entry into the cache, to be flushed later.
    ///
    /// As with reading, the cache is kept in on-disk byte order, so the value
    /// is swapped on its way in.
    pub fn set_entry(&mut self, index: FatEntryId, entry: FatEntry, variant: Variant) -> (r: Result<
        (),
        Error,
    >)
        requires
            old(self).inv(),
        ensures
            final(self).inv(),
            (final(self)@, r) == old(self)@.set(index, entry, variant),
            final(self).marked() == old(self).marked(),
    {
        self.check_index(index)?;
        proof {
            lemma_entry_fits(self@, index);
        }
        let swap: bool = variant.needs_swap();
        let raw: u32 = entry.to_raw()?;
        let len: usize = self.fat_data.len();
        assert(index as nat * self@.width() + self@.width() <= len);
        let offset: usize = index as usize * self.entry_size();
        let end: usize = offset + self.entry_size();

        if self.num_entries < NARROW_LIMIT {
            let value: u16 = (raw % 65536) as u16;
            let value: u16 = if swap {
                swap_u16(value)
            } else {
                value
            };
            let before: u16 = get_u16(&self.fat_data, offset);
            put_u16(&mut self.fat_data, offset, value);
            self.undo.push((offset, before as u32));
            proof {
                lemma_restore16(old(self).fat_data@, offset as int, value);
                assert(self.undo@.drop_last() =~= old(self).undo@);
            }
        } else {
            let value: u32 = if swap {
                swap_u32(raw)
            } else {
                raw
            };
            let before: u32 = get_u32(&self.fat_data, offset);
            put_u32(&mut self.fat_data, offset, value);
            self.undo.push((offset, before));
            proof {
                lemma_restore32(old(self).fat_data@, offset as int, value);
                assert(self.undo@.drop_last() =~= old(self).undo@);
            }
        }

        self.dirty = Some(
            match self.dirty {
                Some((start, prev_end)) => (
                    if start < offset {
                        start
                    } else {
                        offset
                    },
                    if prev_end > end {
                        prev_end
                    } else {
                        end
                    },
                ),
                None => (offset, end),
            },
        );
        Ok(())
    }

    /// The modified part of the cache and where in the table it starts.
    ///
    /// Only the range touched since the last flush is handed out, so a single
    /// entry change does not rewrite a table that may be megabytes long.
    pub fn dirty_range(&self) -> (r: Option<(usize, Vec<u8>)>)
        requires
            self.inv(),
        ensures
            match (r, self@.dirty) {
                (None, None) => true,
                (Some((at, data)), Some((start, end))) => at == start && data@
                    == self@.data.subrange(start as int, end as int),
                _ => false,
            },
    {
        match self.dirty {
            None => None,
            Some((start, end)) => {
                let mut data: Vec<u8> = Vec::new();
                data.extend_from_slice(&self.fat_data[start..end]);
                assert(data@ =~= self@.data.subrange(start as int, end as int));
                Some((start, data))
            },
        }
    }

    /// Record that the modified part has been written out.
    pub fn mark_clean(&mut self)
        requires
            old(self).inv(),
        ensures
            final(self).inv(),
            final(self)@ == (FatView { dirty: None, ..old(self)@ }),
            final(self).marked() == old(self).marked(),
    {
        self.dirty = None;
    }

    /// Remember the present state, for a rollback to return to.
    pub fn set_mark(&mut self)
        requires
            old(self).inv(),
        ensures
            final(self).inv(),
            final(self)@ == old(self)@,
            final(self).marked() == old(self)@,
    {
        self.undo.clear();
        self.mark_dirty = self.dirty;
    }

    /// Put back every entry overwritten since the mark was set.
    pub fn rollback(&mut self)
        requires
            old(self).inv(),
        ensures
            final(self).inv(),
            final(self)@ == old(self).marked(),
            final(self).marked() == old(self).marked(),
    {
        while self.undo.len() > 0
            invariant
                self.inv(),
                self.num_entries == old(self).num_entries,
                self.mark_dirty == old(self).mark_dirty,
                rewind(self.fat_data@, self.undo@, self@.wide()) == rewind(
                    old(self).fat_data@,
                    old(self).undo@,
                    self@.wide(),
                ),
            decreases self.undo@.len(),
        {
            let ghost undo = self.undo@;
            let last: Option<(usize, u32)> = self.undo.pop();
            if let Some((at, value)) = last {
                assert(undo.last() == (at, value));
                assert(self.undo@ =~= undo.drop_last());
                if self.num_entries < NARROW_LIMIT {
                    put_u16(&mut self.fat_data, at, value as u16);
                } else {
                    put_u32(&mut self.fat_data, at, value);
                }
            }
        }
        self.dirty = self.mark_dirty;
    }
}

proof fn lemma_restore16(data: Seq<u8>, at: int, x: u16)
    requires
        0 <= at,
        at + 2 <= data.len(),
    ensures
        splice(
            splice(data, at, le16_bytes(x)),
            at,
            le16_bytes((le16(data.subrange(at, at + 2)) as u32) as u16),
        ) == data,
{
    let b = data.subrange(at, at + 2);
    assert(le16_bytes(le16(b)) =~= b);
    assert(splice(splice(data, at, le16_bytes(x)), at, b) =~= data);
}

proof fn lemma_restore32(data: Seq<u8>, at: int, x: u32)
    requires
        0 <= at,
        at + 4 <= data.len(),
    ensures
        splice(
            splice(data, at, le32_bytes(x)),
            at,
            le32_bytes(le32(data.subrange(at, at + 4))),
        ) == data,
{
    let b = data.subrange(at, at + 4);
    let v: int = b[0] + 256 * b[1] + 65536 * b[2] + 16777216 * b[3];
    assert(v / 256 == b[1] + 256 * b[2] + 65536 * b[3]);
    assert(v / 65536 == b[2] + 256 * b[3]);
    assert(le32_bytes(le32(b)) =~= b);
    assert(splice(splice(data, at, le32_bytes(x)), at, b) =~= data);
}

} // verus!
