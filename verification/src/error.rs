//! What can go wrong, and how each failure is reported to the layers above.

use vstd::prelude::*;

verus! {

/// What went wrong with the device itself.
#[derive(Debug, Clone, Copy, PartialEq, Eq, Structural)]
pub enum IoError {
    /// The bytes asked for have not been loaded from the device yet.
    ///
    /// This is a request rather than a failure: once the range has been
    /// loaded, the operation that met the gap can simply be run again.
    NotLoaded { offset: u64, len: u64 },
    /// The device ended before everything that was asked for could be read.
    UnexpectedEof,
    /// The offset lies past anything a device can address.
    OutOfRange,
    /// A seek would have ended before the start of the file.
    NegativeSeek,
}

/// Everything an operation on a filesystem can fail with.
#[derive(Debug, Clone, Copy, PartialEq, Eq, Structural)]
pub enum Error {
    Io(IoError),
    /// The filesystem did not have the expected signature.
    InvalidFilesystemSignature,
    /// The partition offset is invalid.
    InvalidPartitionOffset,
    /// The partition size is invalid.
    InvalidPartitionSize,
    /// The number of sectors per cluster is invalid.
    InvalidSectorsPerCluster,
    /// The root cluster is invalid.
    InvalidRootCluster,
    /// The cluster number is invalid.
    InvalidClusterNumber,
    /// The cluster chain is corrupt.
    InvalidClusterChain,
    /// The desired item could not be found.
    NotFound,
    /// One path component is not a directory.
    NotADirectory,
    /// The path unexpectedly identifies a directory.
    IsADirectory,
    /// The filesystem was not opened for writing.
    ReadOnlyFilesystem,
    /// An item with that name already exists.
    AlreadyExists,
    /// The file name is empty or longer than the filesystem allows.
    InvalidFileName,
    /// The directory is not empty.
    DirectoryNotEmpty,
    /// No free cluster is left on the filesystem.
    NoSpaceLeft,
    /// The file is larger than the filesystem can describe.
    FileTooLarge,
    /// A directory cannot be moved inside itself.
    InvalidRename,
    /// The operation is not allowed on the root directory.
    IsRootDirectory,
}

/// The kind of I/O error a failure is passed on as.
#[derive(Debug, Clone, Copy, PartialEq, Eq, Structural)]
pub enum ErrorKind {
    NotFound,
    NotADirectory,
    IsADirectory,
    ReadOnlyFilesystem,
    AlreadyExists,
    InvalidInput,
    DirectoryNotEmpty,
    StorageFull,
    FileTooLarge,
    PermissionDenied,
    UnexpectedEof,
    Other,
}

/// The answer a mounted filesystem gives for a failure.
#[derive(Debug, Clone, Copy, PartialEq, Eq, Structural)]
pub enum Errno {
    Enoent,
    Enotdir,
    Eisdir,
    Eexist,
    Enotempty,
    Enospc,
    Erofs,
    Enametoolong,
    Eperm,
    Efbig,
    Einval,
    Eio,
}

/// Whether an outcome asks for more of the device to be loaded.
pub open spec fn wants_more<T>(r: Result<T, Error>) -> bool {
    r matches Err(Error::Io(IoError::NotLoaded { .. }))
}

impl Error {
    pub open spec fn spec_kind(self) -> ErrorKind {
        match self {
            Error::Io(IoError::UnexpectedEof) => ErrorKind::UnexpectedEof,
            Error::Io(IoError::OutOfRange) => ErrorKind::InvalidInput,
            Error::Io(IoError::NegativeSeek) => ErrorKind::InvalidInput,
            Error::NotFound => ErrorKind::NotFound,
            Error::NotADirectory => ErrorKind::NotADirectory,
            Error::IsADirectory => ErrorKind::IsADirectory,
            Error::ReadOnlyFilesystem => ErrorKind::ReadOnlyFilesystem,
            Error::AlreadyExists => ErrorKind::AlreadyExists,
            Error::InvalidFileName => ErrorKind::InvalidInput,
            Error::DirectoryNotEmpty => ErrorKind::DirectoryNotEmpty,
            Error::NoSpaceLeft => ErrorKind::StorageFull,
            Error::FileTooLarge => ErrorKind::FileTooLarge,
            Error::InvalidRename => ErrorKind::InvalidInput,
            Error::IsRootDirectory => ErrorKind::PermissionDenied,
            _ => ErrorKind::Other,
        }
    }

    /// The kind of I/O error this failure becomes when it leaves the library
    /// through a reader or a writer.
    pub fn kind(&self) -> (kind: ErrorKind)
        ensures
            kind == self.spec_kind(),
    {
        match *self {
            Error::Io(IoError::UnexpectedEof) => ErrorKind::UnexpectedEof,
            Error::Io(IoError::OutOfRange) => ErrorKind::InvalidInput,
            Error::Io(IoError::NegativeSeek) => ErrorKind::InvalidInput,
            Error::NotFound => ErrorKind::NotFound,
            Error::NotADirectory => ErrorKind::NotADirectory,
            Error::IsADirectory => ErrorKind::IsADirectory,
            Error::ReadOnlyFilesystem => ErrorKind::ReadOnlyFilesystem,
            Error::AlreadyExists => ErrorKind::AlreadyExists,
            Error::InvalidFileName => ErrorKind::InvalidInput,
            Error::DirectoryNotEmpty => ErrorKind::DirectoryNotEmpty,
            Error::NoSpaceLeft => ErrorKind::StorageFull,
            Error::FileTooLarge => ErrorKind::FileTooLarge,
            Error::InvalidRename => ErrorKind::InvalidInput,
            Error::IsRootDirectory => ErrorKind::PermissionDenied,
            _ => ErrorKind::Other,
        }
    }

    pub open spec fn spec_errno(self) -> Errno {
        match self {
            Error::NotFound => Errno::Enoent,
            Error::NotADirectory => Errno::Enotdir,
            Error::IsADirectory => Errno::Eisdir,
            Error::AlreadyExists => Errno::Eexist,
            Error::DirectoryNotEmpty => Errno::Enotempty,
            Error::NoSpaceLeft => Errno::Enospc,
            Error::ReadOnlyFilesystem => Errno::Erofs,
            Error::InvalidFileName => Errno::Enametoolong,
            Error::IsRootDirectory => Errno::Eperm,
            Error::FileTooLarge => Errno::Efbig,
            Error::InvalidRename => Errno::Einval,
            Error::Io(_) => self.spec_kind().spec_errno(),
            _ => Errno::Eio,
        }
    }

    /// Translate a failure into the answer a mounted filesystem gives for it.
    pub fn errno(&self) -> (errno: Errno)
        ensures
            errno == self.spec_errno(),
    {
        match *self {
            Error::NotFound => Errno::Enoent,
            Error::NotADirectory => Errno::Enotdir,
            Error::IsADirectory => Errno::Eisdir,
            Error::AlreadyExists => Errno::Eexist,
            Error::DirectoryNotEmpty => Errno::Enotempty,
            Error::NoSpaceLeft => Errno::Enospc,
            Error::ReadOnlyFilesystem => Errno::Erofs,
            Error::InvalidFileName => Errno::Enametoolong,
            Error::IsRootDirectory => Errno::Eperm,
            Error::FileTooLarge => Errno::Efbig,
            Error::InvalidRename => Errno::Einval,
            Error::Io(_) => self.kind().errno(),
            _ => Errno::Eio,
        }
    }

    /// Whether this failure only asks for more of the device to be loaded.
    pub fn is_not_loaded(&self) -> (b: bool)
        ensures
            b == (*self matches Error::Io(IoError::NotLoaded { .. })),
    {
        matches!(*self, Error::Io(IoError::NotLoaded { .. }))
    }
}

impl ErrorKind {
    pub open spec fn spec_errno(self) -> Errno {
        match self {
            ErrorKind::NotFound => Errno::Enoent,
            ErrorKind::NotADirectory => Errno::Enotdir,
            ErrorKind::IsADirectory => Errno::Eisdir,
            ErrorKind::AlreadyExists => Errno::Eexist,
            ErrorKind::DirectoryNotEmpty => Errno::Enotempty,
            ErrorKind::StorageFull => Errno::Enospc,
            ErrorKind::ReadOnlyFilesystem => Errno::Erofs,
            ErrorKind::FileTooLarge => Errno::Efbig,
            ErrorKind::InvalidInput => Errno::Einval,
            ErrorKind::PermissionDenied => Errno::Eperm,
            _ => Errno::Eio,
        }
    }

    /// Translate the kind of an I/O error that carries no error number of its
    /// own into the answer a mounted filesystem gives for it.
    ///
    /// Without this every failure of a read or a write would be reported as a
    /// plain I/O error.
    pub fn errno(&self) -> (errno: Errno)
        ensures
            errno == self.spec_errno(),
    {
        match *self {
            ErrorKind::NotFound => Errno::Enoent,
            ErrorKind::NotADirectory => Errno::Enotdir,
            ErrorKind::IsADirectory => Errno::Eisdir,
            ErrorKind::AlreadyExists => Errno::Eexist,
            ErrorKind::DirectoryNotEmpty => Errno::Enotempty,
            ErrorKind::StorageFull => Errno::Enospc,
            ErrorKind::ReadOnlyFilesystem => Errno::Erofs,
            ErrorKind::FileTooLarge => Errno::Efbig,
            ErrorKind::InvalidInput => Errno::Einval,
            ErrorKind::PermissionDenied => Errno::Eperm,
            _ => Errno::Eio,
        }
    }
}

/// Each failure is answered by the error that stands for it, and those that have none
/// by the one for a failed access.
pub proof fn law_each_failure_has_its_answer(e: Error)
    ensures
        (e.spec_errno() is Enoent) == (e is NotFound),
        (e.spec_errno() is Enotdir) == (e is NotADirectory),
        (e.spec_errno() is Eisdir) == (e is IsADirectory),
        (e.spec_errno() is Eexist) == (e is AlreadyExists),
        (e.spec_errno() is Enotempty) == (e is DirectoryNotEmpty),
        (e.spec_errno() is Enospc) == (e is NoSpaceLeft),
        (e.spec_errno() is Erofs) == (e is ReadOnlyFilesystem),
        (e.spec_errno() is Enametoolong) == (e is InvalidFileName),
        (e.spec_errno() is Eperm) == (e is IsRootDirectory),
        (e.spec_errno() is Efbig) == (e is FileTooLarge),
        (e.spec_errno() is Einval) == (e is InvalidRename || e == Error::Io(IoError::NegativeSeek)
            || e == Error::Io(IoError::OutOfRange)),
        !(e is InvalidFileName) ==> e.spec_kind().spec_errno() == e.spec_errno(),
        e is InvalidFileName ==> e.spec_kind().spec_errno() is Einval,
{
}

} // verus!
