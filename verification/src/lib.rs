//! The FATX filesystem of the Xbox and the Xbox 360.

pub mod align;
pub mod attr;
pub mod bytes;
pub mod chain;
pub mod choice;
pub mod contents;
pub mod datetime;
pub mod device;
pub mod dir;
pub mod disk;
pub mod driver;
pub mod error;
pub mod fat;
pub mod file;
pub mod format;
pub mod fs;
pub mod inode;
pub mod listing;
pub mod loading;
pub mod moving;
pub mod names;
pub mod nodes;
pub mod ops;
pub mod order;
pub mod partition;
pub mod path;
pub mod platform;
pub mod refusals;
pub mod renaming;
pub mod replies;
pub mod requests;
pub mod resize;
pub mod room;
pub mod slots;
pub mod tree;
pub mod updates;
pub mod variant;
pub mod volume;
pub mod walk;

pub use datetime::DateTime;
pub use device::{Device, DeviceWrite};
pub use dir::{DirectoryEntry, DirectoryEntryKind, FATX_MAX_FILENAME_LEN};
pub use error::Error;
pub use file::{File, SeekFrom};
pub use fs::{FatxFsConfig, FatxFsHandle};
pub use ops::Space;
pub use partition::PartitionMapEntry;
pub use variant::Variant;
pub use volume::FatxFs;
pub use walk::DirectoryEntryIntoIterator;
