//! How an image is laid out on a disk, byte by byte.

use vstd::prelude::*;

#[allow(unused_imports)]
use crate::attr::NodeKind;
#[allow(unused_imports)]
use crate::bytes::{le16, le16_bytes, le32, le32_bytes, swapped16, swapped32};
use crate::datetime::DateTime;
#[allow(unused_imports)]
use crate::device::{DeviceView, DEVICE_LIMIT};
#[allow(unused_imports)]
use crate::dir::{law_entry_reads_back, EntryView};
use crate::error::Error;
#[allow(unused_imports)]
use crate::fat::{
    fat_size, law_a_table_is_as_short_as_it_can_be, law_fat_entry_reads_back, FatEntry, FatView,
};
#[allow(unused_imports)]
use crate::fs::{is_cluster_sectors, ConfigView, Superblock};
use crate::variant::Variant;
#[allow(unused_imports)]
use crate::volume::Geometry;

verus! {

/// The number in four bytes, the most significant of them first on an Xbox 360 and
/// the least significant first on an Xbox.
pub open spec fn number32(b: Seq<u8>, at: int, variant: Variant) -> int {
    if variant is X360 {
        b[at] * 16777216 + b[at + 1] * 65536 + b[at + 2] * 256 + b[at + 3]
    } else {
        b[at] + b[at + 1] * 256 + b[at + 2] * 65536 + b[at + 3] * 16777216
    }
}

/// The number in two bytes, the most significant of them first on an Xbox 360 and the
/// least significant first on an Xbox.
pub open spec fn number16(b: Seq<u8>, at: int, variant: Variant) -> int {
    if variant is X360 {
        b[at] * 256 + b[at + 1]
    } else {
        b[at] + b[at + 1] * 256
    }
}

proof fn lemma_number32(b: Seq<u8>, at: int)
    requires
        0 <= at,
        at + 4 <= b.len(),
    ensures
        le32(b.subrange(at, at + 4)) == number32(b, at, Variant::Xbox),
        swapped32(le32(b.subrange(at, at + 4))) == number32(b, at, Variant::X360),
{
    let s = b.subrange(at, at + 4);
    let x = le32(s) as int;
    let b0 = s[0] as int;
    let b1 = s[1] as int;
    let b2 = s[2] as int;
    let b3 = s[3] as int;
    assert(x == b0 + 256 * b1 + 65536 * b2 + 16777216 * b3);
    assert(x % 256 == b0);
    assert(x / 256 == b1 + 256 * b2 + 65536 * b3);
    assert(x / 256 % 256 == b1);
    assert(x / 65536 == b2 + 256 * b3);
    assert(x / 65536 % 256 == b2);
    assert(x / 16777216 == b3);
}

proof fn lemma_number16(b: Seq<u8>, at: int)
    requires
        0 <= at,
        at + 2 <= b.len(),
    ensures
        le16(b.subrange(at, at + 2)) == number16(b, at, Variant::Xbox),
        swapped16(le16(b.subrange(at, at + 2))) == number16(b, at, Variant::X360),
{
    let s = b.subrange(at, at + 2);
    let x = le16(s) as int;
    assert(x == s[0] + 256 * s[1]);
}

/// Whether four bytes are the signature of a filesystem of some kind: the letters
/// FATX, or XTAF on an Xbox 360.
pub open spec fn is_signature(b: Seq<u8>, variant: Variant) -> bool {
    match variant {
        Variant::Auto => false,
        Variant::Xbox => b[0] == 0x46 && b[1] == 0x41 && b[2] == 0x54 && b[3] == 0x58,
        Variant::X360 => b[0] == 0x58 && b[1] == 0x54 && b[2] == 0x41 && b[3] == 0x46,
    }
}

/// The superblock of a partition, as far as it is known.
pub open spec fn superblock_bytes(config: ConfigView, dev: DeviceView) -> Seq<u8> {
    Seq::new(4096, |i: int| dev.known[config.partition_offset_bytes + i])
}

proof fn lemma_signature(b: Seq<u8>)
    requires
        b.len() >= 4,
    ensures
        le32(b.subrange(0, 4)) == 0x58544146 <==> is_signature(b, Variant::Xbox),
        le32(b.subrange(0, 4)) == 0x46415458 <==> is_signature(b, Variant::X360),
        swapped32(0x58544146) == 0x46415458,
{
    let s = b.subrange(0, 4);
    let x = le32(s) as int;
    assert(x == s[0] + 256 * s[1] + 65536 * s[2] + 16777216 * s[3]);
    assert(s[0] == b[0] && s[1] == b[1] && s[2] == b[2] && s[3] == b[3]);
}

proof fn lemma_superblock(config: ConfigView, dev: DeviceView)
    requires
        config.superblock(dev) is Ok,
    ensures
        ({
            let (variant, sb) = config.superblock(dev)->Ok_0;
            let b = superblock_bytes(config, dev);
            &&& config.partition_offset_bytes + 4096 <= dev.len
            &&& is_signature(b, variant)
            &&& config.variant is Auto || config.variant == variant
            &&& sb.num_sectors_per_cluster == number32(b, 8, variant)
            &&& sb.root_cluster == number32(b, 12, variant)
            &&& sb.volume_id == number32(b, 4, variant)
        }),
{
    reveal(ConfigView::superblock);
    reveal(DeviceView::read);
    let b = superblock_bytes(config, dev);
    assert(dev.bytes(config.partition_offset_bytes as int, 4096) =~= b);
    lemma_signature(b);
    lemma_number32(b, 4);
    lemma_number32(b, 8);
    lemma_number32(b, 12);
}

proof fn lemma_fits(x: int, bpc: int)
    requires
        bpc > 0,
        0 <= x,
    ensures
        (x / bpc) * bpc <= x,
        x < (x / bpc + 1) * bpc,
        0 <= x / bpc,
        x < 0x1_0000_0000 * bpc ==> x / bpc < 0x1_0000_0000,
        x < 0xffff_ffff * bpc ==> x / bpc < 0xffff_ffff,
{
    let q = x / bpc;
    vstd::arithmetic::div_mod::lemma_fundamental_div_mod(x, bpc);
    vstd::arithmetic::div_mod::lemma_mod_bound(x, bpc);
    vstd::arithmetic::div_mod::lemma_div_pos_is_pos(x, bpc);
    vstd::arithmetic::mul::lemma_mul_is_commutative(bpc, q);
    assert((q + 1) * bpc == q * bpc + bpc) by (nonlinear_arith);
    if q >= 0x1_0000_0000 {
        assert(q * bpc >= 0x1_0000_0000 * bpc) by (nonlinear_arith)
            requires
                q >= 0x1_0000_0000,
                bpc > 0,
        ;
    }
    if q >= 0xffff_ffff {
        assert(q * bpc >= 0xffff_ffff * bpc) by (nonlinear_arith)
            requires
                q >= 0xffff_ffff,
                bpc > 0,
        ;
    }
}

/// What opening a filesystem finds is what its partition and its superblock say.
///
/// The partition starts where it was said to, and is as long as it was said to be, or
/// as the whole sectors that are left of the device. The first four bytes tell the
/// kind of console, a cluster is as many sectors of 512 bytes as the superblock says,
/// and the table has an entry for each whole cluster of the partition. The table
/// follows the superblock, in as few blocks of 4096 bytes as hold it, and the clusters
/// follow the table, as many as there is room for and one more.
pub proof fn law_opening_finds_what_the_disk_says(config: ConfigView, dev: DeviceView)
    requires
        dev.len <= 0x7fff_ffff_ffff_ffff,
        config.mounted(dev) is Ok,
    ensures
        ({
            let (geo, entries, table) = config.mounted(dev)->Ok_0;
            let at = config.partition_offset_bytes as int;
            let size = geo.partition_size_bytes as int;
            let b = superblock_bytes(config, dev);
            let sectors = number32(b, 8, geo.variant);
            let bpc = sectors * 512;
            let room = size - 4096 - table.len();
            &&& at % 512 == 0
            &&& geo.partition_offset_bytes == at
            &&& geo.writable == config.writable
            &&& size % 512 == 0
            &&& config.partition_size_bytes != 0xffff_ffff_ffff_ffff ==> size
                == config.partition_size_bytes
            &&& config.partition_size_bytes == 0xffff_ffff_ffff_ffff ==> at + size <= dev.len < at
                + size + 512
            &&& is_signature(b, geo.variant)
            &&& config.variant is Auto || config.variant == geo.variant
            &&& sectors == 1 || sectors == 2 || sectors == 4 || sectors == 8 || sectors == 16
                || sectors == 32 || sectors == 64 || sectors == 128 || sectors == 256 || sectors
                == 512 || sectors == 1024
            &&& geo.num_bytes_per_cluster == bpc
            &&& geo.num_entries_per_cluster * 64 == bpc
            &&& geo.root_cluster == number32(b, 12, geo.variant)
            &&& geo.root_cluster < entries
            &&& size < 0x1_0000_0000 * bpc ==> entries * bpc <= size < (entries + 1) * bpc
            &&& table.len() % 4096 == 0
            &&& entries < 0xfff0 ==> entries * 2 <= table.len() < entries * 2 + 4096
            &&& entries >= 0xfff0 ==> entries * 4 <= table.len() < entries * 4 + 4096
            &&& geo.fat_offset_bytes == at + 4096
            &&& geo.cluster_offset_bytes == at + 4096 + table.len()
            &&& forall|i: int|
                0 <= i < table.len() ==> #[trigger] table[i] == dev.known[at + 4096 + i]
            &&& 0 <= room
            &&& room < 0xffff_ffff * bpc ==> (geo.num_clusters - 1) * bpc <= room
                < geo.num_clusters * bpc
        }),
{
    let (geo, entries, table) = config.mounted(dev)->Ok_0;
    lemma_superblock(config, dev);
    let size = config.partition_size(dev.len)->Ok_0;
    let (variant, sb) = config.superblock(dev)->Ok_0;
    reveal(ConfigView::layout);
    reveal(DeviceView::read);
    let bpc = sb.num_sectors_per_cluster * 512;
    lemma_fits(size as int, bpc);
    law_a_table_is_as_short_as_it_can_be(entries as nat, entries as nat, 0);
    assert(geo.fat_offset_bytes == config.partition_offset_bytes + 4096);
    assert(table =~= dev.bytes(geo.fat_offset_bytes as int, fat_size(entries as nat)));
    let room = size - 4096 - table.len();
    lemma_fits(room, bpc);
}

/// A filesystem whose superblock and table have been loaded, and are sound, can be
/// opened.
pub proof fn law_a_sound_image_opens(config: ConfigView, dev: DeviceView, variant: Variant)
    requires
        dev.len <= 0x7fff_ffff_ffff_ffff,
        config.partition_offset_bytes % 512 == 0,
        config.partition_size_bytes == 0xffff_ffff_ffff_ffff || config.partition_size_bytes % 512
            == 0,
        ({
            let at = config.partition_offset_bytes as int;
            let b = superblock_bytes(config, dev);
            let sectors = number32(b, 8, variant);
            let bpc = sectors * 512;
            let size = if config.partition_size_bytes == 0xffff_ffff_ffff_ffff {
                dev.len - at - (dev.len - at) % 512
            } else {
                config.partition_size_bytes as int
            };
            let entries = size / bpc;
            let length = if entries < 0xfff0 {
                (entries * 2 + 4095) / 4096 * 4096
            } else {
                (entries * 4 + 4095) / 4096 * 4096
            };
            &&& forall|i: int| at <= i < at + 4096 + length ==> #[trigger] dev.known.contains_key(i)
            &&& at + 4096 + length <= dev.len
            &&& is_signature(b, variant)
            &&& config.variant is Auto || config.variant == variant
            &&& sectors == 1 || sectors == 2 || sectors == 4 || sectors == 8 || sectors == 16
                || sectors == 32 || sectors == 64 || sectors == 128 || sectors == 256 || sectors
                == 512 || sectors == 1024
            &&& entries < 0x1_0000_0000
            &&& number32(b, 12, variant) < entries
            &&& 4096 + length <= size
            &&& at + 4096 + length + ((size - 4096 - length) / bpc + 1) * bpc
                <= 0x7fff_ffff_ffff_ffff
            &&& (size - 4096 - length) / bpc + 1 < 0x1_0000_0000
        }),
    ensures
        config.mounted(dev) is Ok,
{
    let at = config.partition_offset_bytes as int;
    let b = superblock_bytes(config, dev);
    let bpc = number32(b, 8, variant) * 512;
    let size = if config.partition_size_bytes == 0xffff_ffff_ffff_ffff {
        dev.len - at - (dev.len - at) % 512
    } else {
        config.partition_size_bytes as int
    };
    let entries = size / bpc;
    let length = fat_size(entries as nat) as int;
    assert(config.partition_size(dev.len) == Ok::<u64, Error>(size as u64) && size == size as u64);
    lemma_superblock_is_found(config, dev, variant);
    let sb = (config.superblock(dev)->Ok_0).1;
    lemma_layout_is_found(config, size as u64, variant, sb);
    let (geo, n) = config.layout(size as u64, variant, sb)->Ok_0;
    assert(dev.read_exact(geo.fat_offset_bytes as nat, fat_size(n as nat)) is Ok) by {
        reveal(DeviceView::read);
        assert(dev.has(at + 4096, length));
    }
}

proof fn lemma_superblock_is_found(config: ConfigView, dev: DeviceView, variant: Variant)
    requires
        config.partition_offset_bytes + 4096 <= dev.len,
        forall|i: int|
            config.partition_offset_bytes <= i < config.partition_offset_bytes + 4096
                ==> #[trigger] dev.known.contains_key(i),
        is_signature(superblock_bytes(config, dev), variant),
        config.variant is Auto || config.variant == variant,
    ensures
        ({
            let b = superblock_bytes(config, dev);
            config.superblock(dev) matches Ok((found, sb)) && found == variant
                && sb.num_sectors_per_cluster == number32(b, 8, variant) && sb.root_cluster
                == number32(b, 12, variant)
        }),
{
    let at = config.partition_offset_bytes as int;
    let b = superblock_bytes(config, dev);
    reveal(ConfigView::superblock);
    reveal(DeviceView::read);
    lemma_signature(b);
    lemma_number32(b, 8);
    lemma_number32(b, 12);
    assert(dev.has(at, 4096));
    assert(dev.bytes(at, 4096) =~= b);
}

proof fn lemma_layout_is_found(config: ConfigView, size: u64, variant: Variant, sb: Superblock)
    requires
        is_cluster_sectors(sb.num_sectors_per_cluster),
        config.partition_offset_bytes <= 0x7fff_ffff_ffff_ffff,
        ({
            let bpc = sb.num_sectors_per_cluster * 512;
            let entries = size as int / bpc;
            let length = fat_size(entries as nat);
            &&& entries < 0x1_0000_0000
            &&& sb.root_cluster < entries
            &&& 4096 + length <= size
            &&& (size - 4096 - length) / bpc + 1 < 0x1_0000_0000
        }),
    ensures
        ({
            let bpc = sb.num_sectors_per_cluster * 512;
            let entries = size as int / bpc;
            let length = fat_size(entries as nat);
            config.layout(size, variant, sb) matches Ok((geo, n)) && n == entries
                && geo.fat_offset_bytes == config.partition_offset_bytes + 4096
                && geo.partition_size_bytes == size && geo.num_bytes_per_cluster == bpc
                && geo.num_clusters == (size - 4096 - length) / bpc + 1 && geo.cluster_offset_bytes
                == config.partition_offset_bytes + 4096 + length
        }),
{
    reveal(ConfigView::layout);
    let bpc = sb.num_sectors_per_cluster * 512;
    lemma_fits(size as int, bpc);
    let entries = size as int / bpc;
    assert(entries % 0x1_0000_0000 == entries);
    law_a_table_is_as_short_as_it_can_be(entries as nat, entries as nat, 0);
    let room = size - 4096 - fat_size(entries as nat);
    lemma_fits(room, bpc);
    let q = room / bpc + 1;
    assert(q % 0x1_0000_0000 == q);
}

/// Clusters follow one another from where the first of them starts, without a gap, and
/// one is there to be used just if its number is not past the last and it starts
/// within the partition.
pub proof fn law_clusters_follow_one_another(geo: Geometry, c: u32)
    requires
        geo.wf(),
        c >= 1,
    ensures
        c == 1 ==> geo.start_of(c) == geo.cluster_offset_bytes,
        c < u32::MAX ==> geo.start_of((c + 1) as u32) == geo.start_of(c)
            + geo.num_bytes_per_cluster,
        geo.byte_offset(c) matches Ok(start) ==> start == geo.cluster_offset_bytes + (c - 1)
            * geo.num_bytes_per_cluster,
        geo.byte_offset(c) is Ok <==> c <= geo.num_clusters && geo.cluster_offset_bytes + (c - 1)
            * geo.num_bytes_per_cluster < geo.partition_offset_bytes + geo.partition_size_bytes,
        geo.byte_offset(0) == Err::<u64, Error>(Error::InvalidClusterNumber),
{
    let bpc = geo.num_bytes_per_cluster as int;
    let d = c as int;
    assert(d * bpc == (d - 1) * bpc + bpc) by (nonlinear_arith);
    assert(0 * bpc == 0);
    if geo.has_cluster(c) {
        geo.lemma_cluster_fits(c);
    }
}

/// What an entry on a disk says is in its bytes: the length of its name, its
/// attributes, its name, where its clusters start, how long it is, and then when it
/// was last changed, created and last used. On an Xbox each of these three is a time
/// followed by a date, on an Xbox 360 a date followed by a time.
pub proof fn law_an_entry_is_in_its_bytes(b: Seq<u8>, variant: Variant)
    requires
        b.len() == 64,
    ensures
        ({
            let e = EntryView::decode(b, variant);
            &&& e.filename_len == b[0]
            &&& e.attributes == b[1]
            &&& e.filename_bytes == b.subrange(2, 44)
            &&& e.first_cluster == number32(b, 44, variant)
            &&& e.file_size == number32(b, 48, variant)
            &&& variant is X360 ==> {
                &&& e.modified_date == number16(b, 52, variant)
                &&& e.modified_time == number16(b, 54, variant)
                &&& e.created_date == number16(b, 56, variant)
                &&& e.created_time == number16(b, 58, variant)
                &&& e.accessed_date == number16(b, 60, variant)
                &&& e.accessed_time == number16(b, 62, variant)
            }
            &&& !(variant is X360) ==> {
                &&& e.modified_time == number16(b, 52, variant)
                &&& e.modified_date == number16(b, 54, variant)
                &&& e.created_time == number16(b, 56, variant)
                &&& e.created_date == number16(b, 58, variant)
                &&& e.accessed_time == number16(b, 60, variant)
                &&& e.accessed_date == number16(b, 62, variant)
            }
        }),
{
    lemma_number32(b, 44);
    lemma_number32(b, 48);
    lemma_number16(b, 52);
    lemma_number16(b, 54);
    lemma_number16(b, 56);
    lemma_number16(b, 58);
    lemma_number16(b, 60);
    lemma_number16(b, 62);
}

/// An entry goes to the disk as the bytes that say what it says.
pub proof fn law_an_entry_is_written_as_its_bytes(e: EntryView, variant: Variant)
    requires
        e.wf(),
    ensures
        ({
            let b = e.encode(variant);
            &&& b.len() == 64
            &&& b[0] == e.filename_len
            &&& b[1] == e.attributes
            &&& b.subrange(2, 44) == e.filename_bytes
            &&& number32(b, 44, variant) == e.first_cluster
            &&& number32(b, 48, variant) == e.file_size
            &&& variant is X360 ==> {
                &&& number16(b, 52, variant) == e.modified_date
                &&& number16(b, 54, variant) == e.modified_time
                &&& number16(b, 56, variant) == e.created_date
                &&& number16(b, 58, variant) == e.created_time
                &&& number16(b, 60, variant) == e.accessed_date
                &&& number16(b, 62, variant) == e.accessed_time
            }
            &&& !(variant is X360) ==> {
                &&& number16(b, 52, variant) == e.modified_time
                &&& number16(b, 54, variant) == e.modified_date
                &&& number16(b, 56, variant) == e.created_time
                &&& number16(b, 58, variant) == e.created_date
                &&& number16(b, 60, variant) == e.accessed_time
                &&& number16(b, 62, variant) == e.accessed_date
            }
        }),
{
    law_entry_reads_back(e, variant);
    law_an_entry_is_in_its_bytes(e.encode(variant), variant);
}

/// The kind of an entry is told by the length of its name: 0xe5 is one that has been
/// deleted, 0xff and zero are the end of a directory, and any other is live. What a
/// live entry stands for is told by two bits of its attributes: a volume label has the
/// fourth, a directory has the fifth and not the fourth, and a file has neither.
pub proof fn law_an_entry_tells_its_kind(e: EntryView)
    ensures
        e.kind() is Deleted <==> e.filename_len == 0xe5,
        e.kind() is EndOfDirectory <==> e.filename_len == 0xff || e.filename_len == 0,
        e.kind() is Valid <==> e.filename_len != 0xe5 && e.filename_len != 0xff && e.filename_len
            != 0,
        e.is_volume() <==> e.attributes as int / 8 % 2 == 1,
        e.is_directory() <==> e.attributes as int / 16 % 2 == 1 && e.attributes as int / 8 % 2 == 0,
        e.is_file() <==> e.attributes as int / 16 % 2 == 0 && e.attributes as int / 8 % 2 == 0,
        e.node_kind() == (if e.is_directory() {
            Some(NodeKind::Directory)
        } else if e.is_file() {
            Some(NodeKind::RegularFile)
        } else {
            None
        }),
        e.node_kind() is None <==> e.is_volume(),
{
    let a = e.attributes;
    assert((a & 0x08 == 0x08) == (a / 8 % 2 == 1)) by (bit_vector);
    assert((a & 0x10 == 0x10) == (a / 16 % 2 == 1)) by (bit_vector);
    assert(a / 8 % 2 == 0 || a / 8 % 2 == 1);
    assert(a / 16 % 2 == 0 || a / 16 % 2 == 1);
}

/// The number that the table holds for a cluster.
pub open spec fn table_number(fat: FatView, i: int, variant: Variant) -> int {
    if fat.entries < 0xfff0 {
        number16(fat.data, i * 2, variant)
    } else {
        number32(fat.data, i * 4, variant)
    }
}

/// What the number that a table holds for a cluster means: none that the cluster is
/// free, the largest of all that it is the last of its chain, the sixteen largest are
/// set aside, and any other is the number of the cluster that follows it. A table of
/// less than 0xfff0 entries has numbers of two bytes, a larger one has numbers of four.
pub proof fn law_a_table_entry_means_its_number(fat: FatView, i: u32, variant: Variant)
    requires
        fat.wf(),
    ensures
        i >= fat.entries ==> fat.entry(i, variant) == Err::<FatEntry, Error>(
            Error::InvalidClusterNumber,
        ),
        i < fat.entries ==> ({
            let x = table_number(fat, i as int, variant);
            let top: int = if fat.entries < 0xfff0 {
                0xffff
            } else {
                0xffff_ffff
            };
            &&& fat.entry(i, variant) is Ok
            &&& 0 <= x <= top
            &&& match fat.entry(i, variant)->Ok_0 {
                FatEntry::Available => x == 0,
                FatEntry::Data(c) => x == c && 0 < x < top - 15,
                FatEntry::Reserved => x == top - 15,
                FatEntry::Bad => x == top - 8,
                FatEntry::Media => x == top - 7,
                FatEntry::End => x == top,
                FatEntry::Invalid => top - 15 < x < top && x != top - 8 && x != top - 7,
            }
        }),
{
    if i < fat.entries {
        law_a_table_is_as_short_as_it_can_be(fat.entries, fat.entries, 0);
        if fat.entries < 0xfff0 {
            lemma_number16(fat.data, i * 2);
        } else {
            lemma_number32(fat.data, i * 4);
        }
    }
}

/// Storing an entry puts the number that means it in its place in the table, and
/// leaves every other byte of the table as it was. The range that has to be written
/// out covers what it covered and that place.
pub proof fn law_a_table_entry_is_stored_as_its_number(
    fat: FatView,
    i: u32,
    entry: FatEntry,
    variant: Variant,
)
    requires
        fat.wf(),
        i < fat.entries,
        entry.raw() is Ok,
        entry matches FatEntry::Data(c) ==> fat.wide() || c < 0xfff0,
    ensures
        ({
            let (new, r) = fat.set(i, entry, variant);
            let x = table_number(new, i as int, variant);
            let width: int = if fat.entries < 0xfff0 {
                2
            } else {
                4
            };
            let top: int = if fat.entries < 0xfff0 {
                0xffff
            } else {
                0xffff_ffff
            };
            &&& r is Ok
            &&& match entry {
                FatEntry::Available => x == 0,
                FatEntry::Data(c) => x == c,
                FatEntry::Reserved => x == top - 15,
                FatEntry::Bad => x == top - 8,
                FatEntry::Media => x == top - 7,
                FatEntry::End => x == top,
                FatEntry::Invalid => false,
            }
            &&& new.entries == fat.entries
            &&& new.data.len() == fat.data.len()
            &&& forall|k: int|
                0 <= k < fat.data.len() && !(i * width <= k < i * width + width)
                    ==> #[trigger] new.data[k] == fat.data[k]
            &&& forall|k: int|
                fat.is_dirty(k) || i * width <= k < i * width + width ==> #[trigger] new.is_dirty(k)
        }),
{
    law_fat_entry_reads_back(fat, i, entry, variant, i);
    let (new, _) = fat.set(i, entry, variant);
    law_a_table_entry_means_its_number(new, i, variant);
    law_a_table_is_as_short_as_it_can_be(fat.entries, fat.entries, 0);
}

/// A timestamp is packed bit by bit: five bits of day, four of month and seven of the
/// years since 2000, or 1980 on an Xbox 360, and then five bits of half the second, the
/// minute and the hour. On an Xbox the minute has five bits and the hour four, on an
/// Xbox 360 the minute has six and the hour five.
pub proof fn law_a_timestamp_is_packed_bit_by_bit(dt: DateTime, variant: Variant)
    ensures
        ({
            let (date, time) = dt.packed(variant);
            let (year, month, day, hour, minute, second) = dt.fields();
            &&& date as int % 32 == day as int % 32
            &&& date as int / 32 % 16 == month as int % 16
            &&& variant is X360 ==> date as int / 512 == (year - 1980) % 128
            &&& !(variant is X360) ==> date as int / 512 == (year - 2000) % 128
            &&& time as int % 32 == second as int / 2 % 32
            &&& variant is X360 ==> time as int / 32 % 64 == minute as int % 64
            &&& variant is X360 ==> time as int / 2048 == hour as int % 32
            &&& !(variant is X360) ==> time as int / 32 % 64 == minute as int % 32
            &&& !(variant is X360) ==> time as int / 2048 == hour as int % 16
        }),
{
    let (year, month, day, hour, minute, second) = dt.fields();
    let years = (year - variant.spec_epoch()) % 128;
    let d = day as int % 32;
    let m = month as int % 16;
    let date = d + m * 32 + years * 512;
    assert(dt.packed(variant).0 == date);
    assert(date % 32 == d && date / 32 % 16 == m && date / 512 == years);
    let (hours, minutes) = crate::datetime::Time::field_sizes(variant);
    let h = hour as int % hours;
    let n = minute as int % minutes;
    let half = second as int / 2 % 32;
    assert(0 <= h < 32 && 0 <= n < 64);
    let time = h * 2048 + n * 32 + half;
    assert(dt.packed(variant).1 == time);
    assert(time % 32 == half && time / 32 % 64 == n && time / 2048 == h);
}

/// A timestamp is unpacked bit by bit, as it was packed.
pub proof fn law_a_timestamp_is_unpacked_bit_by_bit(
    dt: DateTime,
    date: u16,
    time: u16,
    variant: Variant,
)
    requires
        dt.unpacks_from(date, time, variant),
    ensures
        ({
            let (year, month, day, hour, minute, second) = dt.fields();
            &&& day == date as int % 32
            &&& month == date as int / 32 % 16
            &&& variant is X360 ==> year == 1980 + date as int / 512
            &&& !(variant is X360) ==> year == 2000 + date as int / 512
            &&& second == time as int % 32 * 2
            &&& variant is X360 ==> minute == time as int / 32 % 64
            &&& variant is X360 ==> hour == time as int / 2048
            &&& !(variant is X360) ==> minute == time as int / 32 % 32
            &&& !(variant is X360) ==> hour == time as int / 2048 % 16
        }),
{
}

/// A filesystem that cannot be opened is refused for what is wrong with it: an offset or a
/// length that is not whole sectors, a signature that is not the one asked for, clusters of
/// a size that none can have, or a root directory outside of the partition.
pub proof fn law_a_faulty_image_is_refused_for_its_fault(config: ConfigView, dev: DeviceView)
    ensures
        config.partition_offset_bytes % 512 != 0 ==> config.mounted(dev) == Err::<
            (Geometry, u32, Seq<u8>),
            Error,
        >(Error::InvalidPartitionOffset),
        config.partition_offset_bytes % 512 == 0 && config.partition_size_bytes
            != 0xffff_ffff_ffff_ffff && config.partition_size_bytes % 512 != 0 ==> config.mounted(
            dev,
        ) == Err::<(Geometry, u32, Seq<u8>), Error>(Error::InvalidPartitionSize),
        config.partition_offset_bytes % 512 == 0 && config.partition_size_bytes
            == 0xffff_ffff_ffff_ffff && dev.len <= config.partition_offset_bytes ==> config.mounted(
            dev,
        ) == Err::<(Geometry, u32, Seq<u8>), Error>(Error::InvalidPartitionSize),
        config.partition_offset_bytes % 512 == 0 && config.partition_size_bytes % 512 == 0
            && config.partition_offset_bytes + 4096 <= dev.len && dev.has(
            config.partition_offset_bytes as int,
            4096,
        ) ==> ({
            let b = superblock_bytes(config, dev);
            let xbox = is_signature(b, Variant::Xbox) && !(config.variant is X360);
            let x360 = is_signature(b, Variant::X360) && !(config.variant is Xbox);
            let variant = if xbox {
                Variant::Xbox
            } else {
                Variant::X360
            };
            let sectors = number32(b, 8, variant);
            if !xbox && !x360 {
                config.mounted(dev) == Err::<(Geometry, u32, Seq<u8>), Error>(
                    Error::InvalidFilesystemSignature,
                )
            } else if !(sectors == 1 || sectors == 2 || sectors == 4 || sectors == 8 || sectors
                == 16 || sectors == 32 || sectors == 64 || sectors == 128 || sectors == 256
                || sectors == 512 || sectors == 1024) {
                config.mounted(dev) == Err::<(Geometry, u32, Seq<u8>), Error>(
                    Error::InvalidSectorsPerCluster,
                )
            } else {
                number32(b, 12, variant) >= config.partition_size_bytes as int / (sectors * 512)
                    ==> config.mounted(dev) == Err::<(Geometry, u32, Seq<u8>), Error>(
                    Error::InvalidRootCluster,
                )
            }
        }),
{
    if config.partition_offset_bytes % 512 == 0 && config.partition_size_bytes % 512 == 0
        && config.partition_offset_bytes + 4096 <= dev.len && dev.has(
        config.partition_offset_bytes as int,
        4096,
    ) {
        let b = superblock_bytes(config, dev);
        reveal(ConfigView::superblock);
        reveal(ConfigView::layout);
        reveal(DeviceView::read);
        lemma_signature(b);
        lemma_number32(b, 8);
        lemma_number32(b, 12);
        assert(dev.bytes(config.partition_offset_bytes as int, 4096) =~= b);
        if let Ok((_, sb)) = config.superblock(dev) {
            if is_cluster_sectors(sb.num_sectors_per_cluster) {
                let bpc = sb.num_sectors_per_cluster * 512;
                lemma_fits(config.partition_size_bytes as int, bpc);
                let q = config.partition_size_bytes as int / bpc;
                assert(q % 0x1_0000_0000 <= q);
            }
        }
    }
}

} // verus!
