//! Where the consoles put their partitions.

use vstd::prelude::*;

use crate::bytes::str_eq;

verus! {

/// A partition that runs to the end of the disk has this as its size.
pub const REST_OF_DEVICE: u64 = 0xffff_ffff_ffff_ffff;

/// Where a partition starts and how long it is, in bytes.
#[derive(Debug, Clone, Copy, PartialEq, Eq, Structural)]
pub struct PartitionMapEntry {
    pub offset_bytes: u64,
    pub size_bytes: u64,
}

impl PartitionMapEntry {
    pub open spec fn at(offset_bytes: u64, size_bytes: u64) -> PartitionMapEntry {
        PartitionMapEntry { offset_bytes, size_bytes }
    }

    /// The layout of an original Xbox disk, by drive letter.
    pub open spec fn spec_from_letter(letter: Seq<char>) -> Option<PartitionMapEntry> {
        if letter == "x"@ {
            Some(Self::at(0x80000, 0x2ee00000))
        } else if letter == "y"@ {
            Some(Self::at(0x2ee80000, 0x2ee00000))
        } else if letter == "z"@ {
            Some(Self::at(0x5dc80000, 0x2ee00000))
        } else if letter == "c"@ {
            Some(Self::at(0x8ca80000, 0x1f400000))
        } else if letter == "e"@ {
            Some(Self::at(0xabe80000, 0x1312d6000))
        } else if letter == "f"@ {
            Some(Self::at(0x1dd156000, REST_OF_DEVICE))
        } else {
            None
        }
    }

    /// The partition of an original Xbox disk with the given drive letter.
    pub fn from_letter(letter: &str) -> (entry: Option<PartitionMapEntry>)
        ensures
            entry == Self::spec_from_letter(letter@),
    {
        if str_eq(letter, "x") {
            Some(PartitionMapEntry { offset_bytes: 0x80000, size_bytes: 0x2ee00000 })
        } else if str_eq(letter, "y") {
            Some(PartitionMapEntry { offset_bytes: 0x2ee80000, size_bytes: 0x2ee00000 })
        } else if str_eq(letter, "z") {
            Some(PartitionMapEntry { offset_bytes: 0x5dc80000, size_bytes: 0x2ee00000 })
        } else if str_eq(letter, "c") {
            Some(PartitionMapEntry { offset_bytes: 0x8ca80000, size_bytes: 0x1f400000 })
        } else if str_eq(letter, "e") {
            Some(PartitionMapEntry { offset_bytes: 0xabe80000, size_bytes: 0x1312d6000 })
        } else if str_eq(letter, "f") {
            Some(PartitionMapEntry { offset_bytes: 0x1dd156000, size_bytes: REST_OF_DEVICE })
        } else {
            None
        }
    }

    /// The layout of an Xbox 360 disk, by partition name.
    pub open spec fn spec_from_x360_name(name: Seq<char>) -> Option<PartitionMapEntry> {
        if name == "sysext"@ {
            Some(Self::at(0x10c080000, 0xce30000))
        } else if name == "sysext2"@ {
            Some(Self::at(0x118eb0000, 0x8000000))
        } else if name == "compat"@ {
            Some(Self::at(0x120eb0000, 0x10000000))
        } else if name == "data"@ {
            Some(Self::at(0x130eb0000, REST_OF_DEVICE))
        } else {
            None
        }
    }

    /// The partition of an Xbox 360 disk with the given name.
    pub fn from_x360_name(name: &str) -> (entry: Option<PartitionMapEntry>)
        ensures
            entry == Self::spec_from_x360_name(name@),
    {
        if str_eq(name, "sysext") {
            Some(PartitionMapEntry { offset_bytes: 0x10c080000, size_bytes: 0xce30000 })
        } else if str_eq(name, "sysext2") {
            Some(PartitionMapEntry { offset_bytes: 0x118eb0000, size_bytes: 0x8000000 })
        } else if str_eq(name, "compat") {
            Some(PartitionMapEntry { offset_bytes: 0x120eb0000, size_bytes: 0x10000000 })
        } else if str_eq(name, "data") {
            Some(PartitionMapEntry { offset_bytes: 0x130eb0000, size_bytes: REST_OF_DEVICE })
        } else {
            None
        }
    }
}

/// The partitions of an original Xbox disk follow one another without a gap, from
/// 0x80000 on: three caches of 750 megabytes, 500 megabytes of system, the partition for
/// games, and what is left of the disk. No other letter names one.
pub proof fn law_drives_follow_one_another(letter: Seq<char>)
    ensures
        ({
            let x = PartitionMapEntry::spec_from_letter("x"@);
            let y = PartitionMapEntry::spec_from_letter("y"@);
            let z = PartitionMapEntry::spec_from_letter("z"@);
            let c = PartitionMapEntry::spec_from_letter("c"@);
            let e = PartitionMapEntry::spec_from_letter("e"@);
            let f = PartitionMapEntry::spec_from_letter("f"@);
            &&& x is Some && y is Some && z is Some && c is Some && e is Some && f is Some
            &&& x->0.offset_bytes == 512 * 1024
            &&& x->0.size_bytes == 750 * 1024 * 1024
            &&& y->0.offset_bytes == x->0.offset_bytes + x->0.size_bytes
            &&& y->0.size_bytes == 750 * 1024 * 1024
            &&& z->0.offset_bytes == y->0.offset_bytes + y->0.size_bytes
            &&& z->0.size_bytes == 750 * 1024 * 1024
            &&& c->0.offset_bytes == z->0.offset_bytes + z->0.size_bytes
            &&& c->0.size_bytes == 500 * 1024 * 1024
            &&& e->0.offset_bytes == c->0.offset_bytes + c->0.size_bytes
            &&& f->0.offset_bytes == e->0.offset_bytes + e->0.size_bytes
            &&& f->0.offset_bytes == 0x1dd156000
            &&& f->0.size_bytes == 0xffff_ffff_ffff_ffff
        }),
        PartitionMapEntry::spec_from_letter(letter) is Some <==> letter == "x"@ || letter == "y"@
            || letter == "z"@ || letter == "c"@ || letter == "e"@ || letter == "f"@,
{
    reveal_strlit("x");
    reveal_strlit("y");
    reveal_strlit("z");
    reveal_strlit("c");
    reveal_strlit("e");
    reveal_strlit("f");
    assert("x"@[0] == 'x' && "y"@[0] == 'y' && "z"@[0] == 'z' && "c"@[0] == 'c' && "e"@[0] == 'e'
        && "f"@[0] == 'f');
}

/// The partitions of an Xbox 360 disk follow one another without a gap, and the last of
/// them is what is left of the disk. No other name names one.
pub proof fn law_x360_partitions_follow_one_another(name: Seq<char>)
    ensures
        ({
            let sysext = PartitionMapEntry::spec_from_x360_name("sysext"@);
            let sysext2 = PartitionMapEntry::spec_from_x360_name("sysext2"@);
            let compat = PartitionMapEntry::spec_from_x360_name("compat"@);
            let data = PartitionMapEntry::spec_from_x360_name("data"@);
            &&& sysext is Some && sysext2 is Some && compat is Some && data is Some
            &&& sysext->0.offset_bytes == 0x10c080000
            &&& sysext2->0.offset_bytes == sysext->0.offset_bytes + sysext->0.size_bytes
            &&& sysext2->0.size_bytes == 128 * 1024 * 1024
            &&& compat->0.offset_bytes == sysext2->0.offset_bytes + sysext2->0.size_bytes
            &&& compat->0.size_bytes == 256 * 1024 * 1024
            &&& data->0.offset_bytes == compat->0.offset_bytes + compat->0.size_bytes
            &&& data->0.offset_bytes == 0x130eb0000
            &&& data->0.size_bytes == 0xffff_ffff_ffff_ffff
        }),
        PartitionMapEntry::spec_from_x360_name(name) is Some <==> name == "sysext"@ || name
            == "sysext2"@ || name == "compat"@ || name == "data"@,
{
    reveal_strlit("sysext");
    reveal_strlit("sysext2");
    reveal_strlit("compat");
    reveal_strlit("data");
    assert("sysext"@.len() == 6 && "sysext2"@.len() == 7 && "compat"@.len() == 6 && "data"@.len()
        == 4);
    assert("sysext"@[0] == 's' && "compat"@[0] == 'c');
}

} // verus!
