//! Directory entries, as values and as bytes.

use vstd::prelude::*;
#[allow(unused_imports)]
use vstd::utf8::{decode_utf8, valid_utf8};

use crate::bytes::{get_u16, get_u32, push_u16, push_u32, string_from_utf8, swap_u16, swap_u32};
#[allow(unused_imports)]
use crate::bytes::{
    le16, le16_bytes, le32, le32_bytes, lemma_le16, lemma_le32, lemma_swapped16, lemma_swapped32,
    swapped16, swapped32,
};
use crate::datetime::DateTime;
use crate::error::Error;
use crate::fat::ClusterId;
use crate::variant::Variant;

verus! {

pub const FATX_MAX_FILENAME_LEN: usize = 42;

/// The size of a directory entry on disk, in bytes.
pub const DIRENT_SIZE: u64 = 64;

// Markers used in the filename_len field of the directory entry.
pub const FATX_DELETED_FILE_MARKER: u8 = 0xe5;

pub const FATX_END_OF_DIR_MARKER: u8 = 0xff;

pub const FATX_END_OF_DIR_MARKER2: u8 = 0x00;

// Byte the unused tail of a filename is padded with.
pub const FATX_FILENAME_PADDING: u8 = 0xff;

// Masks to be applied when reading directory entry attributes.
pub const FATX_ATTR_READ_ONLY: u8 = 0x01;

pub const FATX_ATTR_SYSTEM: u8 = 0x02;

pub const FATX_ATTR_HIDDEN: u8 = 0x04;

pub const FATX_ATTR_VOLUME: u8 = 0x08;

pub const FATX_ATTR_DIRECTORY: u8 = 0x10;

/// Where a directory entry lives on disk.
///
/// An entry has to be found again to be updated, and a directory is a cluster
/// chain rather than a flat array, so the cluster has to be remembered
/// alongside the index of the entry within it.
#[derive(Debug, Clone, Copy, PartialEq, Eq, Structural)]
pub struct EntryLocation {
    pub cluster: ClusterId,
    pub index: u64,
}

impl EntryLocation {
    /// How far into its cluster the entry starts, in bytes.
    pub fn byte_offset_in_cluster(&self) -> (offset: u64)
        requires
            self.index * 64 <= u64::MAX,
        ensures
            offset == self.index * 64,
    {
        self.index * DIRENT_SIZE
    }
}

/// What the length byte of an entry says about it.
#[derive(Debug, Clone, Copy, PartialEq, Eq, Structural)]
pub enum DirectoryEntryKind {
    Valid,
    Deleted,
    EndOfDirectory,
}

/// The fields of a directory entry.
#[verifier::ext_equal]
pub struct EntryView {
    pub filename_len: u8,
    pub attributes: u8,
    pub filename_bytes: Seq<u8>,
    pub first_cluster: u32,
    pub file_size: u32,
    pub modified_time: u16,
    pub modified_date: u16,
    pub created_time: u16,
    pub created_date: u16,
    pub accessed_time: u16,
    pub accessed_date: u16,
}

/// The kind of an entry with the given length byte.
pub open spec fn kind_of(filename_len: u8) -> DirectoryEntryKind {
    if filename_len == FATX_END_OF_DIR_MARKER || filename_len == FATX_END_OF_DIR_MARKER2 {
        DirectoryEntryKind::EndOfDirectory
    } else if filename_len == FATX_DELETED_FILE_MARKER {
        DirectoryEntryKind::Deleted
    } else {
        DirectoryEntryKind::Valid
    }
}

/// A name, padded to fill its field.
pub open spec fn padded(name: Seq<u8>) -> Seq<u8> {
    Seq::new(
        42,
        |i: int|
            if i < name.len() {
                name[i]
            } else {
                FATX_FILENAME_PADDING
            },
    )
}

/// A name an entry can carry: neither empty nor longer than its field, and
/// free of slashes and zero bytes.
pub open spec fn is_file_name(name: Seq<u8>) -> bool {
    &&& 0 < name.len() <= 42
    &&& !name.contains(0x2f)
    &&& !name.contains(0)
}

impl EntryView {
    pub open spec fn kind(self) -> DirectoryEntryKind {
        kind_of(self.filename_len)
    }

    /// The bytes of the name.
    pub open spec fn name_bytes(self) -> Seq<u8> {
        self.filename_bytes.take(self.filename_len as int)
    }

    /// Whether this is a live entry with a name that can be read: one that fits
    /// its field and is text.
    pub open spec fn is_named(self) -> bool {
        &&& self.kind() is Valid
        &&& self.filename_len <= 42
        &&& valid_utf8(self.name_bytes())
    }

    /// The name as text.
    pub open spec fn name(self) -> Seq<char> {
        decode_utf8(self.name_bytes())
    }

    /// Whether this is a live entry with the given name.
    pub open spec fn has_name(self, name: Seq<u8>) -> bool {
        &&& self.kind() is Valid
        &&& self.filename_len <= 42
        &&& self.name_bytes() == name
    }

    pub open spec fn is_volume(self) -> bool {
        self.attributes & FATX_ATTR_VOLUME == FATX_ATTR_VOLUME
    }

    pub open spec fn is_directory(self) -> bool {
        !self.is_volume() && self.attributes & FATX_ATTR_DIRECTORY == FATX_ATTR_DIRECTORY
    }

    pub open spec fn is_file(self) -> bool {
        !self.is_volume() && !self.is_directory()
    }

    /// The entry under another name.
    pub open spec fn renamed(self, name: Seq<u8>) -> EntryView {
        EntryView { filename_len: name.len() as u8, filename_bytes: padded(name), ..self }
    }

    pub open spec fn sized(self, size: u32) -> EntryView {
        EntryView { file_size: size, ..self }
    }

    pub open spec fn starting_at(self, cluster: ClusterId) -> EntryView {
        EntryView { first_cluster: cluster, ..self }
    }

    pub open spec fn created_at(self, dt: DateTime, variant: Variant) -> EntryView {
        EntryView {
            created_date: dt.packed(variant).0,
            created_time: dt.packed(variant).1,
            ..self
        }
    }

    pub open spec fn modified_at(self, dt: DateTime, variant: Variant) -> EntryView {
        EntryView {
            modified_date: dt.packed(variant).0,
            modified_time: dt.packed(variant).1,
            ..self
        }
    }

    pub open spec fn accessed_at(self, dt: DateTime, variant: Variant) -> EntryView {
        EntryView {
            accessed_date: dt.packed(variant).0,
            accessed_time: dt.packed(variant).1,
            ..self
        }
    }

    /// The other side of the conversion between the canonical form and that of
    /// the disk: on an Xbox 360 every multi-byte field has its bytes reversed,
    /// and each timestamp has its date where its time is expected.
    pub open spec fn converted(self, variant: Variant) -> EntryView {
        if variant.spec_needs_swap() {
            EntryView {
                first_cluster: swapped32(self.first_cluster),
                file_size: swapped32(self.file_size),
                modified_time: swapped16(self.modified_date),
                modified_date: swapped16(self.modified_time),
                created_time: swapped16(self.created_date),
                created_date: swapped16(self.created_time),
                accessed_time: swapped16(self.accessed_date),
                accessed_date: swapped16(self.accessed_time),
                ..self
            }
        } else {
            self
        }
    }

    /// The bytes of an entry, every field least significant byte first.
    pub open spec fn to_bytes(self) -> Seq<u8> {
        seq![self.filename_len, self.attributes] + self.filename_bytes + le32_bytes(
            self.first_cluster,
        ) + le32_bytes(self.file_size) + le16_bytes(self.modified_time) + le16_bytes(
            self.modified_date,
        ) + le16_bytes(self.created_time) + le16_bytes(self.created_date) + le16_bytes(
            self.accessed_time,
        ) + le16_bytes(self.accessed_date)
    }

    /// The entry some bytes hold, every field least significant byte first.
    pub open spec fn from_bytes(b: Seq<u8>) -> EntryView {
        EntryView {
            filename_len: b[0],
            attributes: b[1],
            filename_bytes: b.subrange(2, 44),
            first_cluster: le32(b.subrange(44, 48)),
            file_size: le32(b.subrange(48, 52)),
            modified_time: le16(b.subrange(52, 54)),
            modified_date: le16(b.subrange(54, 56)),
            created_time: le16(b.subrange(56, 58)),
            created_date: le16(b.subrange(58, 60)),
            accessed_time: le16(b.subrange(60, 62)),
            accessed_date: le16(b.subrange(62, 64)),
        }
    }

    /// The bytes an entry is written to disk as.
    pub open spec fn encode(self, variant: Variant) -> Seq<u8> {
        self.converted(variant).to_bytes()
    }

    /// The entry the bytes on a disk hold.
    pub open spec fn decode(b: Seq<u8>, variant: Variant) -> EntryView {
        Self::from_bytes(b).converted(variant)
    }

    /// Whether the name field is as long as it is on disk.
    pub open spec fn wf(self) -> bool {
        self.filename_bytes.len() == 42
    }

    /// A brand new entry for a file or directory.
    pub open spec fn new_node(
        name: Seq<u8>,
        attributes: u8,
        first_cluster: ClusterId,
        now: DateTime,
        variant: Variant,
    ) -> EntryView {
        EntryView {
            filename_len: name.len() as u8,
            attributes,
            filename_bytes: padded(name),
            first_cluster,
            file_size: 0,
            modified_time: now.packed(variant).1,
            modified_date: now.packed(variant).0,
            created_time: now.packed(variant).1,
            created_date: now.packed(variant).0,
            accessed_time: now.packed(variant).1,
            accessed_date: now.packed(variant).0,
        }
    }

    /// The entry standing in for the root directory, which the superblock
    /// describes and which has none of its own.
    pub open spec fn root(root_cluster: ClusterId) -> EntryView {
        EntryView {
            filename_len: 8,
            attributes: FATX_ATTR_DIRECTORY,
            filename_bytes: Seq::new(
                42,
                |i: int|
                    if i < 4 {
                        seq![0x72u8, 0x6f, 0x6f, 0x74][i]
                    } else {
                        0u8
                    },
            ),
            first_cluster: root_cluster,
            file_size: 0,
            modified_time: 0,
            modified_date: 0,
            created_time: 0,
            created_date: 0,
            accessed_time: 0,
            accessed_date: 0,
        }
    }
}

proof fn lemma_to_bytes_parts(e: EntryView)
    requires
        e.wf(),
    ensures
        e.to_bytes().len() == 64,
        e.to_bytes()[0] == e.filename_len,
        e.to_bytes()[1] == e.attributes,
        e.to_bytes().subrange(2, 44) == e.filename_bytes,
        e.to_bytes().subrange(44, 48) == le32_bytes(e.first_cluster),
        e.to_bytes().subrange(48, 52) == le32_bytes(e.file_size),
        e.to_bytes().subrange(52, 54) == le16_bytes(e.modified_time),
        e.to_bytes().subrange(54, 56) == le16_bytes(e.modified_date),
        e.to_bytes().subrange(56, 58) == le16_bytes(e.created_time),
        e.to_bytes().subrange(58, 60) == le16_bytes(e.created_date),
        e.to_bytes().subrange(60, 62) == le16_bytes(e.accessed_time),
        e.to_bytes().subrange(62, 64) == le16_bytes(e.accessed_date),
{
    let b = e.to_bytes();
    assert(b.subrange(2, 44) =~= e.filename_bytes);
    assert(b.subrange(44, 48) =~= le32_bytes(e.first_cluster));
    assert(b.subrange(48, 52) =~= le32_bytes(e.file_size));
    assert(b.subrange(52, 54) =~= le16_bytes(e.modified_time));
    assert(b.subrange(54, 56) =~= le16_bytes(e.modified_date));
    assert(b.subrange(56, 58) =~= le16_bytes(e.created_time));
    assert(b.subrange(58, 60) =~= le16_bytes(e.created_date));
    assert(b.subrange(60, 62) =~= le16_bytes(e.accessed_time));
    assert(b.subrange(62, 64) =~= le16_bytes(e.accessed_date));
}

/// Converting an entry between the canonical form and that of the disk is its
/// own inverse.
pub proof fn law_conversion_is_an_involution(e: EntryView, variant: Variant)
    ensures
        e.converted(variant).converted(variant) == e,
{
    lemma_swapped32(e.first_cluster);
    lemma_swapped32(e.file_size);
    lemma_swapped16(e.modified_time);
    lemma_swapped16(e.modified_date);
    lemma_swapped16(e.created_time);
    lemma_swapped16(e.created_date);
    lemma_swapped16(e.accessed_time);
    lemma_swapped16(e.accessed_date);
}

/// An entry read from the bytes it was written as is the entry that was
/// written, and it takes up exactly one slot.
pub proof fn law_entry_reads_back(e: EntryView, variant: Variant)
    requires
        e.wf(),
    ensures
        e.encode(variant).len() == 64,
        e.encode(variant)[0] == e.filename_len,
        EntryView::decode(e.encode(variant), variant) == e,
{
    let c = e.converted(variant);
    lemma_to_bytes_parts(c);
    lemma_le32(c.first_cluster);
    lemma_le32(c.file_size);
    lemma_le16(c.modified_time);
    lemma_le16(c.modified_date);
    lemma_le16(c.created_time);
    lemma_le16(c.created_date);
    lemma_le16(c.accessed_time);
    lemma_le16(c.accessed_date);
    assert(EntryView::from_bytes(c.to_bytes()) =~= c);
    law_conversion_is_an_involution(e, variant);
}

/// On an Xbox 360 disk the numbers of an entry are stored most significant byte
/// first, and each date comes before its time.
pub proof fn law_x360_entries_are_big_endian(e: EntryView)
    requires
        e.wf(),
    ensures
        ({
            let b = e.encode(Variant::X360);
            &&& b[44] * 16777216 + b[45] * 65536 + b[46] * 256 + b[47] == e.first_cluster
            &&& b[48] * 16777216 + b[49] * 65536 + b[50] * 256 + b[51] == e.file_size
            &&& b[52] * 256 + b[53] == e.modified_date
            &&& b[54] * 256 + b[55] == e.modified_time
            &&& b[56] * 256 + b[57] == e.created_date
            &&& b[58] * 256 + b[59] == e.created_time
            &&& b[60] * 256 + b[61] == e.accessed_date
            &&& b[62] * 256 + b[63] == e.accessed_time
        }),
{
    let c = e.converted(Variant::X360);
    let b = c.to_bytes();
    lemma_to_bytes_parts(c);
    lemma_big_endian32(b, 44, e.first_cluster);
    lemma_big_endian32(b, 48, e.file_size);
    lemma_big_endian16(b, 52, e.modified_date);
    lemma_big_endian16(b, 54, e.modified_time);
    lemma_big_endian16(b, 56, e.created_date);
    lemma_big_endian16(b, 58, e.created_time);
    lemma_big_endian16(b, 60, e.accessed_date);
    lemma_big_endian16(b, 62, e.accessed_time);
}

proof fn lemma_big_endian16(b: Seq<u8>, at: int, x: u16)
    requires
        0 <= at,
        at + 2 <= b.len(),
        b.subrange(at, at + 2) == le16_bytes(swapped16(x)),
    ensures
        b[at] * 256 + b[at + 1] == x,
{
    assert(b[at] == b.subrange(at, at + 2)[0]);
    assert(b[at + 1] == b.subrange(at, at + 2)[1]);
}

proof fn lemma_big_endian32(b: Seq<u8>, at: int, x: u32)
    requires
        0 <= at,
        at + 4 <= b.len(),
        b.subrange(at, at + 4) == le32_bytes(swapped32(x)),
    ensures
        b[at] * 16777216 + b[at + 1] * 65536 + b[at + 2] * 256 + b[at + 3] == x,
{
    let s = b.subrange(at, at + 4);
    assert(b[at] == s[0]);
    assert(b[at + 1] == s[1]);
    assert(b[at + 2] == s[2]);
    assert(b[at + 3] == s[3]);
    lemma_swapped32(x);
    let y = swapped32(x);
    assert(swapped32(y) == s[0] * 16777216 + s[1] * 65536 + s[2] * 256 + s[3]);
}

/// The directory entry.
#[derive(Debug, Clone, Copy)]
pub struct DirectoryEntry {
    filename_len: u8,
    attributes: u8,
    filename_bytes: [u8; 42],
    first_cluster: u32,
    file_size: u32,
    modified_time: u16,
    modified_date: u16,
    created_time: u16,
    created_date: u16,
    accessed_time: u16,
    accessed_date: u16,
}

impl DirectoryEntry {
    pub closed spec fn view(self) -> EntryView {
        EntryView {
            filename_len: self.filename_len,
            attributes: self.attributes,
            filename_bytes: self.filename_bytes@,
            first_cluster: self.first_cluster,
            file_size: self.file_size,
            modified_time: self.modified_time,
            modified_date: self.modified_date,
            created_time: self.created_time,
            created_date: self.created_date,
            accessed_time: self.accessed_time,
            accessed_date: self.accessed_date,
        }
    }

    pub proof fn lemma_wf(self)
        ensures
            self@.wf(),
    {
    }

    /// Take an entry from its bytes, every field least significant byte first.
    pub fn from_bytes(b: &[u8]) -> (e: Self)
        requires
            b@.len() == 64,
        ensures
            e@ == EntryView::from_bytes(b@),
    {
        let mut filename_bytes: [u8; 42] = [0u8; 42];
        let mut i: usize = 0;
        while i < 42
            invariant
                i <= 42,
                b@.len() == 64,
                forall|k: int| 0 <= k < i ==> filename_bytes@[k] == b@[k + 2],
            decreases 42 - i,
        {
            filename_bytes[i] = b[i + 2];
            i += 1;
        }
        assert(filename_bytes@ =~= b@.subrange(2, 44));
        Self {
            filename_len: b[0],
            attributes: b[1],
            filename_bytes,
            first_cluster: get_u32(b, 44),
            file_size: get_u32(b, 48),
            modified_time: get_u16(b, 52),
            modified_date: get_u16(b, 54),
            created_time: get_u16(b, 56),
            created_date: get_u16(b, 58),
            accessed_time: get_u16(b, 60),
            accessed_date: get_u16(b, 62),
        }
    }

    /// The bytes of an entry, every field least significant byte first.
    pub fn to_bytes(&self) -> (b: Vec<u8>)
        ensures
            b@ == self@.to_bytes(),
    {
        let mut b: Vec<u8> = Vec::new();
        b.push(self.filename_len);
        b.push(self.attributes);
        let mut i: usize = 0;
        while i < 42
            invariant
                i <= 42,
                b@ == seq![self.filename_len, self.attributes] + self.filename_bytes@.take(
                    i as int,
                ),
            decreases 42 - i,
        {
            b.push(self.filename_bytes[i]);
            i += 1;
            assert(b@ =~= seq![self.filename_len, self.attributes] + self.filename_bytes@.take(
                i as int,
            ));
        }
        assert(self.filename_bytes@.take(42) =~= self.filename_bytes@);
        push_u32(&mut b, self.first_cluster);
        push_u32(&mut b, self.file_size);
        push_u16(&mut b, self.modified_time);
        push_u16(&mut b, self.modified_date);
        push_u16(&mut b, self.created_time);
        push_u16(&mut b, self.created_date);
        push_u16(&mut b, self.accessed_time);
        push_u16(&mut b, self.accessed_date);
        b
    }

    /// Build a brand new entry for a file or directory.
    ///
    /// The unused tail of the filename is padded rather than zeroed, so that
    /// the bytes written match what the consoles write.
    pub fn new_node(
        name: &[u8],
        attributes: u8,
        first_cluster: ClusterId,
        timestamp: &DateTime,
        variant: Variant,
    ) -> (r: Result<Self, Error>)
        ensures
            match r {
                Ok(e) => is_file_name(name@) && e@ == EntryView::new_node(
                    name@,
                    attributes,
                    first_cluster,
                    *timestamp,
                    variant,
                ),
                Err(e) => !is_file_name(name@) && e == Error::InvalidFileName,
            },
    {
        let mut entry = Self {
            filename_len: 0,
            attributes,
            filename_bytes: [FATX_FILENAME_PADDING;42],
            first_cluster,
            file_size: 0,
            modified_time: 0,
            modified_date: 0,
            created_time: 0,
            created_date: 0,
            accessed_time: 0,
            accessed_date: 0,
        };
        entry.set_file_name(name)?;
        entry.set_created(timestamp, variant);
        entry.set_modified(timestamp, variant);
        entry.set_accessed(timestamp, variant);
        Ok(entry)
    }

    /// The entry standing in for the root directory.
    pub fn root(root_cluster: ClusterId) -> (e: Self)
        ensures
            e@ == EntryView::root(root_cluster),
    {
        let mut filename_bytes: [u8; 42] = [0u8; 42];
        filename_bytes[0] = 0x72;
        filename_bytes[1] = 0x6f;
        filename_bytes[2] = 0x6f;
        filename_bytes[3] = 0x74;
        let e = Self {
            filename_len: 8,
            attributes: FATX_ATTR_DIRECTORY,
            filename_bytes,
            first_cluster: root_cluster,
            file_size: 0,
            modified_time: 0,
            modified_date: 0,
            created_time: 0,
            created_date: 0,
            accessed_time: 0,
            accessed_date: 0,
        };
        assert(e@ =~= EntryView::root(root_cluster));
        e
    }

    /// What the length byte says about this entry.
    pub fn kind(&self) -> (kind: DirectoryEntryKind)
        ensures
            kind == self@.kind(),
    {
        match self.filename_len {
            0xff => DirectoryEntryKind::EndOfDirectory,
            0x00 => DirectoryEntryKind::EndOfDirectory,
            0xe5 => DirectoryEntryKind::Deleted,
            _ => DirectoryEntryKind::Valid,
        }
    }

    /// Whether this is a live entry with the given name.
    pub fn has_name(&self, name: &[u8]) -> (b: bool)
        ensures
            b == self@.has_name(name@),
    {
        if self.kind() != DirectoryEntryKind::Valid || self.filename_len > 42 {
            return false;
        }
        let ghost own = self@.filename_bytes.take(self.filename_len as int);
        if self.filename_len as usize != name.len() {
            assert(own.len() != name@.len());
            return false;
        }
        let mut i: usize = 0;
        while i < name.len()
            invariant
                i <= name@.len(),
                name@.len() == self.filename_len,
                self.filename_len <= 42,
                own == self@.filename_bytes.take(self.filename_len as int),
                forall|k: int| 0 <= k < i ==> own[k] == name@[k],
            decreases name@.len() - i,
        {
            if self.filename_bytes[i] != name[i] {
                assert(own[i as int] != name@[i as int]);
                return false;
            }
            i += 1;
        }
        assert(own =~= name@);
        true
    }

    /// The name of this entry, unless it has none that can be read: an entry
    /// that is not live, whose length runs past its field, or whose name is
    /// not text.
    pub fn checked_file_name(&self) -> (name: Option<String>)
        ensures
            match name {
                Some(s) => self@.is_named() && s@ == self@.name(),
                None => !self@.is_named(),
            },
    {
        if self.kind() != DirectoryEntryKind::Valid || self.filename_len > 42 {
            return None;
        }
        let mut bytes: Vec<u8> = Vec::new();
        let mut i: usize = 0;
        while i < self.filename_len as usize
            invariant
                i <= self.filename_len <= 42,
                bytes@ == self.filename_bytes@.take(i as int),
            decreases self.filename_len - i,
        {
            bytes.push(self.filename_bytes[i]);
            i += 1;
            assert(bytes@ =~= self.filename_bytes@.take(i as int));
        }
        string_from_utf8(bytes)
    }

    /// The name of a live entry.
    pub fn file_name(&self) -> (name: String)
        requires
            self@.is_named(),
        ensures
            name@ == self@.name(),
    {
        let name = self.checked_file_name();
        name.unwrap()
    }

    /// Rename this entry.
    ///
    /// A name has to be non-empty, short enough to fit the fixed field, and
    /// must not collide with either of the markers that the length byte doubles
    /// as: a 42 byte name is representable but 0xe5 and 0xff are not lengths.
    pub fn set_file_name(&mut self, name: &[u8]) -> (r: Result<(), Error>)
        ensures
            match r {
                Ok(()) => is_file_name(name@) && final(self)@ == old(self)@.renamed(name@),
                Err(e) => !is_file_name(name@) && e == Error::InvalidFileName && *final(self)
                    == *old(self),
            },
    {
        if name.len() == 0 || name.len() > FATX_MAX_FILENAME_LEN {
            return Err(Error::InvalidFileName);
        }
        let mut filename_bytes: [u8; 42] = [FATX_FILENAME_PADDING;42];
        let mut i: usize = 0;
        while i < name.len()
            invariant
                i <= name@.len() <= 42,
                *self == *old(self),
                forall|k: int| 0 <= k < i ==> name@[k] != 0x2f && name@[k] != 0,
                forall|k: int|
                    0 <= k < 42 ==> filename_bytes@[k] == (if k < i {
                        name@[k]
                    } else {
                        FATX_FILENAME_PADDING
                    }),
            decreases name@.len() - i,
        {
            if name[i] == 0x2f || name[i] == 0 {
                assert(name@.contains(name@[i as int]));
                return Err(Error::InvalidFileName);
            }
            filename_bytes[i] = name[i];
            i += 1;
        }
        self.filename_len = name.len() as u8;
        self.filename_bytes = filename_bytes;
        assert(self@.filename_bytes =~= padded(name@));
        Ok(())
    }

    pub fn file_size(&self) -> (size: u32)
        ensures
            size == self@.file_size,
    {
        self.file_size
    }

    pub fn set_file_size(&mut self, size: u32)
        ensures
            final(self)@ == old(self)@.sized(size),
    {
        self.file_size = size;
    }

    pub fn attributes(&self) -> (attributes: u8)
        ensures
            attributes == self@.attributes,
    {
        self.attributes
    }

    pub fn is_directory(&self) -> (b: bool)
        ensures
            b == self@.is_directory(),
    {
        !self.is_volume() && self.attributes & FATX_ATTR_DIRECTORY == FATX_ATTR_DIRECTORY
    }

    pub fn is_file(&self) -> (b: bool)
        ensures
            b == self@.is_file(),
    {
        !self.is_volume() && !self.is_directory()
    }

    pub fn is_hidden(&self) -> (b: bool)
        ensures
            b == (self@.attributes & FATX_ATTR_HIDDEN == FATX_ATTR_HIDDEN),
    {
        self.attributes & FATX_ATTR_HIDDEN == FATX_ATTR_HIDDEN
    }

    pub fn is_read_only(&self) -> (b: bool)
        ensures
            b == (self@.attributes & FATX_ATTR_READ_ONLY == FATX_ATTR_READ_ONLY),
    {
        self.attributes & FATX_ATTR_READ_ONLY == FATX_ATTR_READ_ONLY
    }

    pub fn is_volume(&self) -> (b: bool)
        ensures
            b == self@.is_volume(),
    {
        self.attributes & FATX_ATTR_VOLUME == FATX_ATTR_VOLUME
    }

    pub fn is_system(&self) -> (b: bool)
        ensures
            b == (self@.attributes & FATX_ATTR_SYSTEM == FATX_ATTR_SYSTEM),
    {
        self.attributes & FATX_ATTR_SYSTEM == FATX_ATTR_SYSTEM
    }

    pub fn created(&self, variant: Variant) -> (dt: DateTime)
        ensures
            dt.unpacks_from(self@.created_date, self@.created_time, variant),
    {
        DateTime::from_fatx_encoding(self.created_date, self.created_time, variant)
    }

    pub fn modified(&self, variant: Variant) -> (dt: DateTime)
        ensures
            dt.unpacks_from(self@.modified_date, self@.modified_time, variant),
    {
        DateTime::from_fatx_encoding(self.modified_date, self.modified_time, variant)
    }

    pub fn accessed(&self, variant: Variant) -> (dt: DateTime)
        ensures
            dt.unpacks_from(self@.accessed_date, self@.accessed_time, variant),
    {
        DateTime::from_fatx_encoding(self.accessed_date, self.accessed_time, variant)
    }

    /// Timestamps are held packed, in the encoding of the filesystem they came
    /// from or are going to: the two variants disagree on the epoch and on the
    /// width of the hour and minute fields, so a packed timestamp only means
    /// anything alongside its variant.
    pub fn set_created(&mut self, timestamp: &DateTime, variant: Variant)
        ensures
            final(self)@ == old(self)@.created_at(*timestamp, variant),
    {
        let (date, time): (u16, u16) = timestamp.to_fatx_encoding(variant);
        self.created_date = date;
        self.created_time = time;
    }

    pub fn set_modified(&mut self, timestamp: &DateTime, variant: Variant)
        ensures
            final(self)@ == old(self)@.modified_at(*timestamp, variant),
    {
        let (date, time): (u16, u16) = timestamp.to_fatx_encoding(variant);
        self.modified_date = date;
        self.modified_time = time;
    }

    pub fn set_accessed(&mut self, timestamp: &DateTime, variant: Variant)
        ensures
            final(self)@ == old(self)@.accessed_at(*timestamp, variant),
    {
        let (date, time): (u16, u16) = timestamp.to_fatx_encoding(variant);
        self.accessed_date = date;
        self.accessed_time = time;
    }

    pub fn first_cluster(&self) -> (cluster: ClusterId)
        ensures
            cluster == self@.first_cluster,
    {
        self.first_cluster
    }

    pub fn set_first_cluster(&mut self, cluster: ClusterId)
        ensures
            final(self)@ == old(self)@.starting_at(cluster),
    {
        self.first_cluster = cluster;
    }

    /// Convert this entry from on-disk form into the canonical little-endian,
    /// time-then-date layout the accessors above expect.
    ///
    /// Must be called on every entry read from a device. For the original Xbox
    /// it does nothing. For the 360 it swaps each multi-byte field, and swaps
    /// the two halves of each timestamp: the 360 stores the date first.
    pub fn normalize(&mut self, variant: Variant)
        ensures
            final(self)@ == old(self)@.converted(variant),
    {
        if !variant.needs_swap() {
            return;
        }
        self.first_cluster = swap_u32(self.first_cluster);
        self.file_size = swap_u32(self.file_size);
        let (time, date): (u16, u16) = (self.modified_time, self.modified_date);
        self.modified_time = swap_u16(date);
        self.modified_date = swap_u16(time);
        let (time, date): (u16, u16) = (self.created_time, self.created_date);
        self.created_time = swap_u16(date);
        self.created_date = swap_u16(time);
        let (time, date): (u16, u16) = (self.accessed_time, self.accessed_date);
        self.accessed_time = swap_u16(date);
        self.accessed_date = swap_u16(time);
    }

    /// Convert this entry from the canonical form back into on-disk form.
    ///
    /// Swapping a pair of fields and swapping their bytes are both their own
    /// inverse, so this is the same operation as `normalize`; it exists under
    /// its own name so that call sites say which way they are converting.
    pub fn denormalize(&mut self, variant: Variant)
        ensures
            final(self)@ == old(self)@.converted(variant),
    {
        self.normalize(variant);
    }
}

/// Three bits of the attributes tell whether an entry is read only, belongs to the
/// system or is hidden: the first, the second and the third.
pub proof fn law_flags_are_bits_of_the_attributes(
    e: DirectoryEntry,
    read_only: bool,
    system: bool,
    hidden: bool,
)
    requires
        call_ensures(DirectoryEntry::is_read_only, (&e,), read_only),
        call_ensures(DirectoryEntry::is_system, (&e,), system),
        call_ensures(DirectoryEntry::is_hidden, (&e,), hidden),
    ensures
        read_only <==> e@.attributes as int % 2 == 1,
        system <==> e@.attributes as int / 2 % 2 == 1,
        hidden <==> e@.attributes as int / 4 % 2 == 1,
{
    let a = e@.attributes;
    assert((a & 0x01 == 0x01) == (a % 2 == 1)) by (bit_vector);
    assert((a & 0x02 == 0x02) == (a / 2 % 2 == 1)) by (bit_vector);
    assert((a & 0x04 == 0x04) == (a / 4 % 2 == 1)) by (bit_vector);
}

/// A name that an entry is given is the one it has, and nothing else of the entry
/// changes.
pub proof fn law_an_entry_has_the_name_it_was_given(e: EntryView, name: Seq<u8>)
    requires
        is_file_name(name),
    ensures
        ({
            let f = e.renamed(name);
            &&& f.wf()
            &&& f.filename_len == name.len()
            &&& forall|i: int|
                #![trigger f.filename_bytes[i]]
                0 <= i < 42 ==> f.filename_bytes[i] == (if i < name.len() {
                    name[i]
                } else {
                    0xff
                })
            &&& f.name_bytes() == name
            &&& f == (EntryView {
                filename_len: f.filename_len,
                filename_bytes: f.filename_bytes,
                ..e
            })
        }),
{
    assert(e.renamed(name).name_bytes() =~= name);
}

} // verus!
