//! Choosing the filesystem to open from what a user asked for.

use vstd::prelude::*;

use crate::fs::FatxFsConfig;
#[allow(unused_imports)]
use crate::fs::ConfigView;
use crate::partition::PartitionMapEntry;
use crate::variant::Variant;

verus! {

/// Something is wrong with what was asked for.
#[derive(Debug, Clone, Copy, PartialEq, Eq, Structural)]
pub enum ChoiceError {
    /// An offset was given without a size, or a size without an offset.
    OffsetWithoutSize,
    /// No partition of an original Xbox disk has that letter.
    UnknownLetter,
    /// No partition of an Xbox 360 disk has that name.
    UnknownPartition,
}

pub open spec fn opt_chars(s: Option<String>) -> Option<Seq<char>> {
    match s {
        Some(s) => Some(s@),
        None => None,
    }
}

/// Where the partition that was asked for is.
///
/// A range that was given counts for most, and then a partition that was named.
/// An Xbox 360 disk has no drive letters, so it defaults to user content rather
/// than to the original Xbox's drive letters.
pub open spec fn chosen(
    variant: Variant,
    letter: Seq<char>,
    partition: Option<Seq<char>>,
    offset: Option<u64>,
    size: Option<u64>,
) -> Result<PartitionMapEntry, ChoiceError> {
    match (offset, size) {
        (Some(offset_bytes), Some(size_bytes)) => Ok(
            PartitionMapEntry { offset_bytes, size_bytes },
        ),
        (None, None) => {
            let name = match partition {
                Some(name) => Some(name),
                None => if variant is X360 {
                    Some("data"@)
                } else {
                    None
                },
            };
            match name {
                Some(name) => match PartitionMapEntry::spec_from_x360_name(name) {
                    Some(entry) => Ok(entry),
                    None => Err(ChoiceError::UnknownPartition),
                },
                None => match PartitionMapEntry::spec_from_letter(letter) {
                    Some(entry) => Ok(entry),
                    None => Err(ChoiceError::UnknownLetter),
                },
            }
        },
        _ => Err(ChoiceError::OffsetWithoutSize),
    }
}

/// Describe the filesystem to open.
pub fn choose_config(
    device_path: String,
    variant: Variant,
    writable: bool,
    letter: &str,
    partition: Option<String>,
    offset: Option<u64>,
    size: Option<u64>,
) -> (r: Result<FatxFsConfig, ChoiceError>)
    ensures
        match (r, chosen(variant, letter@, opt_chars(partition), offset, size)) {
            (Ok(config), Ok(entry)) => {
                &&& config.inv()
                &&& config@ == (ConfigView {
                    device_path: device_path@,
                    partition_offset_bytes: entry.offset_bytes,
                    partition_size_bytes: entry.size_bytes,
                    num_bytes_per_sector: 512,
                    variant,
                    writable,
                })
            },
            (Err(e), Err(error)) => e == error,
            _ => false,
        },
{
    let config = FatxFsConfig::new(device_path).variant(variant).writable(writable);
    match (offset, size) {
        (Some(offset), Some(size)) => Ok(
            config.partition_offset_bytes(offset).partition_size_bytes(size),
        ),
        (None, None) => {
            let name: Option<String> = match partition {
                Some(name) => Some(name),
                None => {
                    if variant == Variant::X360 {
                        Some("data".to_owned())
                    } else {
                        None
                    }
                },
            };
            match name {
                Some(name) => {
                    if PartitionMapEntry::from_x360_name(name.as_str()).is_none() {
                        return Err(ChoiceError::UnknownPartition);
                    }
                    Ok(config.x360_partition(name.as_str()))
                },
                None => {
                    if PartitionMapEntry::from_letter(letter).is_none() {
                        return Err(ChoiceError::UnknownLetter);
                    }
                    Ok(config.drive_letter(letter))
                },
            }
        },
        _ => Err(ChoiceError::OffsetWithoutSize),
    }
}

/// A range that was given is what is opened, whatever else was asked for, and half of
/// one is refused. Without one a named partition is taken from the Xbox 360's, whichever
/// console was asked for. Without a name it is that of user content for an Xbox 360, and
/// else the drive with the letter.
pub proof fn law_what_was_asked_for_is_chosen(
    variant: Variant,
    letter: Seq<char>,
    partition: Option<Seq<char>>,
    offset: u64,
    size: u64,
    name: Seq<char>,
)
    ensures
        chosen(variant, letter, partition, Some(offset), Some(size)) matches Ok(entry)
            && entry.offset_bytes == offset && entry.size_bytes == size,
        chosen(variant, letter, partition, Some(offset), None) is Err,
        chosen(variant, letter, partition, None, Some(size)) is Err,
        match PartitionMapEntry::spec_from_x360_name(name) {
            Some(entry) => chosen(variant, letter, Some(name), None, None) == Ok::<
                PartitionMapEntry,
                ChoiceError,
            >(entry),
            None => chosen(variant, letter, Some(name), None, None) is Err,
        },
        chosen(Variant::X360, letter, None, None, None) == chosen(
            variant,
            letter,
            Some("data"@),
            None,
            None,
        ),
        !(variant is X360) ==> match PartitionMapEntry::spec_from_letter(letter) {
            Some(entry) => chosen(variant, letter, None, None, None) == Ok::<
                PartitionMapEntry,
                ChoiceError,
            >(entry),
            None => chosen(variant, letter, None, None, None) is Err,
        },
{
}

} // verus!
