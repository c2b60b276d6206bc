//! Which requests are refused, and that those change nothing.

use vstd::prelude::*;

use crate::datetime::DateTime;
#[allow(unused_imports)]
use crate::dir::{EntryLocation, EntryView};
#[allow(unused_imports)]
use crate::driver::Stop;
#[allow(unused_imports)]
use crate::error::{Errno, Error, IoError};
#[allow(unused_imports)]
use crate::file::{FileView, SeekFrom};
use crate::path::PathView;
use crate::volume::FsView;

verus! {

/// Only files are read from and written to. A request about a directory, about anything
/// that is not found, or about an offset past the largest size a file can have is
/// refused, as is every write to a filesystem that was not opened for writing, and none
/// of them changes anything.
pub proof fn law_only_files_are_read_and_written(
    v: FsView,
    path: PathView,
    offset: u64,
    want: nat,
    data: Seq<u8>,
    now: DateTime,
)
    requires
        data.len() > 0,
    ensures
        match v.lookup(path) {
            Err(e) => {
                &&& v.read_file(path, offset, want) == Err::<Seq<u8>, Error>(e)
                &&& v.write_file(path, offset, data, now).0 == v
                &&& v.write_file(path, offset, data, now).1 is Err
            },
            Ok((e, _)) => if !e.is_file() {
                &&& v.read_file(path, offset, want) == Err::<Seq<u8>, Error>(Error::IsADirectory)
                &&& v.write_file(path, offset, data, now) == (
                    v,
                    Err::<(), Stop>(Stop::Answer(Errno::Eisdir)),
                )
            } else if offset > 0x7fff_ffff_ffff_ffff {
                &&& v.read_file(path, offset, want) == Err::<Seq<u8>, Error>(
                    Error::Io(IoError::NegativeSeek),
                )
                &&& v.write_file(path, offset, data, now) == (
                    v,
                    Err::<(), Stop>(Stop::Answer(Errno::Einval)),
                )
            } else if offset > 0xffff_ffff {
                &&& v.read_file(path, offset, want) == Err::<Seq<u8>, Error>(Error::FileTooLarge)
                &&& v.write_file(path, offset, data, now) == (
                    v,
                    Err::<(), Stop>(Stop::Answer(Errno::Efbig)),
                )
            } else {
                !v.geo.writable ==> v.write_file(path, offset, data, now) == (
                    v,
                    Err::<(), Stop>(Stop::Answer(Errno::Erofs)),
                )
            },
        },
{
    if let Ok((e, location)) = v.lookup(path) {
        if e.is_file() && offset <= 0xffff_ffff && !v.geo.writable {
            let f = FileView { pos: offset as u32, ..FileView::opened(e, location) };
            assert(v.open(path) == Ok::<FileView, Error>(FileView::opened(e, location)));
            assert(FileView::opened(e, location).seek(SeekFrom::Start(offset)) == (
                f,
                Ok::<u64, Error>(offset),
            ));
            assert(f.write(v, data, now) == (f, v, Err::<nat, Error>(Error::ReadOnlyFilesystem)))
                by {
                reveal(FileView::write);
            }
        }
    }
}

/// Only files have a size to change: a request to change that of a directory is refused,
/// as is one about anything that is not found, and neither changes anything.
pub proof fn law_only_files_have_a_size_to_change(
    v: FsView,
    path: PathView,
    size: u64,
    accessed: Option<DateTime>,
    modified: Option<DateTime>,
    now: DateTime,
)
    ensures
        !v.geo.writable ==> v.change_entry(path, Some(size), accessed, modified, now) == (
            v,
            Err::<EntryView, Error>(Error::ReadOnlyFilesystem),
        ),
        v.geo.writable ==> match v.lookup(path) {
            Err(e) => v.change_entry(path, Some(size), accessed, modified, now) == (
                v,
                Err::<EntryView, Error>(e),
            ),
            Ok((e, location)) => e.is_directory() && location is Some || location is None
                ==> v.change_entry(path, Some(size), accessed, modified, now) == (
                v,
                Err::<EntryView, Error>(Error::IsADirectory),
            ),
        },
{
}

/// Nothing is created where the directory it would lie in is not found, or is a file:
/// the request is refused and changes nothing, as is every one on a filesystem that was
/// not opened for writing.
pub proof fn law_nothing_is_created_nowhere(v: FsView, path: PathView, now: DateTime)
    ensures
        !v.geo.writable ==> v.create_entry(path, now) == (
            v,
            Err::<EntryView, Error>(Error::ReadOnlyFilesystem),
        ) && v.mkdir_entry(path, now) == (v, Err::<EntryView, Error>(Error::ReadOnlyFilesystem)),
        v.geo.writable && v.lookup(path) is Ok ==> v.create_entry(path, now) == (
            v,
            Err::<EntryView, Error>(Error::AlreadyExists),
        ) && v.mkdir_entry(path, now) == (v, Err::<EntryView, Error>(Error::AlreadyExists)),
        v.geo.writable && path.comps.len() > 0 && v.lookup(path) is Err ==> match v.lookup(
            (PathView { absolute: path.absolute, comps: path.comps.drop_last() }),
        ) {
            Err(_) => {
                &&& v.create_entry(path, now).0 == v
                &&& v.create_entry(path, now).1 is Err
                &&& v.mkdir_entry(path, now).0 == v
                &&& v.mkdir_entry(path, now).1 is Err
            },
            Ok((e, _)) => !e.is_directory() ==> {
                &&& v.create_entry(path, now).0 == v
                &&& v.create_entry(path, now).1 is Err
                &&& v.mkdir_entry(path, now).0 == v
                &&& v.mkdir_entry(path, now).1 is Err
            },
        },
{
    reveal(FsView::create_node);
}

/// Nothing is moved that is not found, nor is the root, nor to where there is no
/// directory: the request is refused and changes nothing, as is every one on a
/// filesystem that was not opened for writing.
pub proof fn law_nothing_is_moved_from_or_to_nowhere(v: FsView, from: PathView, to: PathView)
    requires
        from != to,
    ensures
        !v.geo.writable ==> v.rename(from, to) == (
            v,
            Err::<(), Error>(Error::ReadOnlyFilesystem),
        ),
        v.geo.writable ==> match v.lookup(from) {
            Err(e) => v.rename(from, to) == (v, Err::<(), Error>(e)),
            Ok((_, None)) => v.rename(from, to) == (v, Err::<(), Error>(Error::IsRootDirectory)),
            Ok((e, Some(_))) => to.comps.len() > 0 && !(e.is_directory() && to.starts_with(from))
                ==> match v.lookup(
                (PathView { absolute: to.absolute, comps: to.comps.drop_last() }),
            ) {
                Err(er) => v.rename(from, to) == (v, Err::<(), Error>(er)),
                Ok((d, _)) => !d.is_directory() ==> v.rename(from, to) == (
                    v,
                    Err::<(), Error>(Error::NotADirectory),
                ),
            },
        },
{
}

/// What is at the destination of a rename is removed as a request to remove it would.
pub proof fn law_replacing_is_removing(v: FsView, path: PathView)
    ensures
        match v.lookup(path) {
            Ok((e, _)) => v.replace(path) == (if e.is_directory() {
                v.rmdir(path)
            } else {
                v.unlink(path)
            }),
            Err(e) => v.replace(path).0 == v && (v.replace(path).1 is Ok <==> e is NotFound),
        },
{
}

} // verus!
