//! What the answers of a mounted filesystem tell, and what is told of the same nodes
//! afterwards.

use vstd::prelude::*;
#[allow(unused_imports)]
use vstd::utf8::encode_utf8;

#[allow(unused_imports)]
use crate::attr::{Attributes, NodeKind};
use crate::datetime::DateTime;
#[allow(unused_imports)]
use crate::dir::{EntryLocation, EntryView};
#[allow(unused_imports)]
use crate::disk::{lemma_create_follows, lemma_follows, lemma_mkdir_follows};
#[allow(unused_imports)]
use crate::driver::{stopped, DriverView, Stop};
use crate::error::{Errno, Error, IoError};
#[allow(unused_imports)]
use crate::fs::{named, settled};
#[allow(unused_imports)]
use crate::inode::{
    joined, law_a_name_in_a_directory_is_one_step_on, law_a_path_keeps_its_number, Inode,
    TrackerView,
};
use crate::names::Tree;
#[allow(unused_imports)]
use crate::nodes::{
    law_a_created_directory_is_there_and_empty, law_a_created_file_is_there_and_empty,
    law_a_removed_directory_was_empty_and_is_gone, law_an_unlinked_file_is_gone,
};
#[allow(unused_imports)]
use crate::order::{clusters_of, in_order};
#[allow(unused_imports)]
use crate::path::is_component;
#[allow(unused_imports)]
use crate::requests::law_a_file_has_the_size_it_was_given;
use crate::volume::FsView;

verus! {

/// Whether attributes are those that are told of a path from now on: its number stands
/// for the path and for no other, and asking for the attributes of that number gives
/// the same again.
pub open spec fn is_told(d: DriverView, path: Seq<char>, attr: Attributes) -> bool {
    &&& d.inodes.paths.contains_key(attr.ino)
    &&& d.inodes.paths[attr.ino] == path
    &&& forall|i: u64| #[trigger]
        d.inodes.paths.contains_key(i) && d.inodes.paths[i] == path ==> i == attr.ino
    &&& d.fs.entry_of(named(path)) matches Ok(e) && attr.describes(
        attr.ino,
        e,
        d.fs.geo.variant,
    )
}

/// A node that has been looked up is known by the number in the answer from then on,
/// and every number that stood for something stands for the same.
pub proof fn law_a_node_is_known_by_the_number_it_was_answered_with(
    d: DriverView,
    path: Seq<char>,
    after: DriverView,
    attr: Attributes,
    otherwise: Errno,
)
    requires
        d.inodes.wf(),
        d.inodes.has_numbers(),
        d.fs.entry_of(named(path)) is Ok,
        after.fs == d.fs,
        d.tells_of(path, d.fs.entry_of(named(path))->Ok_0, after.inodes, Ok(attr), otherwise),
    ensures
        is_told(after, path, attr),
        forall|i: u64| #[trigger]
            d.inodes.paths.contains_key(i) ==> after.inodes.paths.contains_key(i)
                && after.inodes.paths[i] == d.inodes.paths[i],
{
    lemma_told(d, path, after, attr);
}

proof fn lemma_told(d: DriverView, path: Seq<char>, after: DriverView, attr: Attributes)
    requires
        d.inodes.wf(),
        d.inodes.has_numbers(),
        (after.inodes, attr.ino) == d.inodes.numbered(path),
        after.fs.entry_of(named(path)) is Ok,
        attr.describes(
            attr.ino,
            after.fs.entry_of(named(path))->Ok_0,
            after.fs.geo.variant,
        ),
    ensures
        is_told(after, path, attr),
        forall|i: u64| #[trigger]
            d.inodes.paths.contains_key(i) ==> after.inodes.paths.contains_key(i)
                && after.inodes.paths[i] == d.inodes.paths[i],
{
    law_a_path_keeps_its_number(d.inodes, path, path);
    assert forall|i: u64| #[trigger]
        after.inodes.paths.contains_key(i) && after.inodes.paths[i] == path implies i
        == attr.ino by {
        assert(after.inodes.paths[i] == after.inodes.paths[attr.ino]);
    }
}

/// The answer to a request that changes the size of a file tells that size, and so does
/// every later one. Reading the file then gives what it gave, as far as it still goes,
/// and zeroes from there on.
pub proof fn law_a_change_of_size_is_answered_with_that_size(
    d: DriverView,
    tree: Tree,
    path: Seq<char>,
    size: u64,
    accessed: Option<DateTime>,
    modified: Option<DateTime>,
    now: DateTime,
    after: DriverView,
    attr: Attributes,
)
    requires
        d.fs.wf(),
        d.fs.linkable(),
        in_order(d.fs, tree),
        d.inodes.wf(),
        d.inodes.has_numbers(),
        d.fs.lookup(named(path)) matches Ok((e, Some(_))) && e.is_file(),
        d.answers(
            path,
            d.fs.change_entry(named(path), Some(size), accessed, modified, now),
            after,
            Ok(attr),
        ),
    ensures
        attr.size == size,
        attr.kind is RegularFile,
        is_told(after, path, attr),
        ({
            let e = (d.fs.lookup(named(path))->Ok_0).0;
            let s = clusters_of(d.fs, tree, e);
            let m: int = if size < e.file_size {
                size as int
            } else {
                e.file_size as int
            };
            d.fs.has_file_bytes(s, 0, m as nat) ==> {
                &&& d.fs.read_file(named(path), 0, m as nat) matches Ok(before) && before.len() == m
                    && after.fs.read_file(named(path), 0, size as nat) == Ok::<Seq<u8>, Error>(
                    before + Seq::new((size - m) as nat, |k: int| 0u8),
                )
            }
        }),
{
    let _ = law_a_file_has_the_size_it_was_given(
        d.fs,
        tree,
        named(path),
        size,
        accessed,
        modified,
        now,
    );
    lemma_told(d, path, after, attr);
}

/// The answer to a request that creates a file tells of an empty file with the times of
/// the request, and so does every later one.
pub proof fn law_a_created_file_is_answered_as_empty(
    d: DriverView,
    tree: Tree,
    path: Seq<char>,
    now: DateTime,
    after: DriverView,
    attr: Attributes,
)
    requires
        d.fs.wf(),
        d.fs.linkable(),
        d.fs.geo.writable,
        in_order(d.fs, tree),
        d.inodes.wf(),
        d.inodes.has_numbers(),
        d.fs.split_parent(named(path)) is Ok,
        d.answers(path, d.fs.create_entry(named(path), now), after, Ok(attr)),
    ensures
        attr.size == 0,
        attr.kind is RegularFile,
        ({
            let (date, time) = now.packed(d.fs.geo.variant);
            &&& attr.created.unpacks_from(date, time, d.fs.geo.variant)
            &&& attr.modified.unpacks_from(date, time, d.fs.geo.variant)
            &&& attr.accessed.unpacks_from(date, time, d.fs.geo.variant)
        }),
        is_told(after, path, attr),
{
    law_a_created_file_is_there_and_empty(d.fs, tree, named(path), now, 0, 0);
    assert(0u8 & 0x08u8 != 0x08u8) by (bit_vector);
    assert(0u8 & 0x10u8 != 0x10u8) by (bit_vector);
    assert(after.fs.geo == d.fs.geo) by {
        lemma_create_follows(d.fs, named(path), 0, now);
        lemma_follows(d.fs, d.fs.create(named(path), now).0);
    }
    lemma_told(d, path, after, attr);
}

/// The answer to a request that creates a directory tells of a directory with the times
/// of the request, and so does every later one.
pub proof fn law_a_created_directory_is_answered_as_one(
    d: DriverView,
    tree: Tree,
    path: Seq<char>,
    now: DateTime,
    after: DriverView,
    attr: Attributes,
)
    requires
        d.fs.wf(),
        d.fs.linkable(),
        d.fs.geo.writable,
        in_order(d.fs, tree),
        d.inodes.wf(),
        d.inodes.has_numbers(),
        d.fs.split_parent(named(path)) is Ok,
        d.answers(path, d.fs.mkdir_entry(named(path), now), after, Ok(attr)),
    ensures
        attr.kind is Directory,
        ({
            let (date, time) = now.packed(d.fs.geo.variant);
            &&& attr.created.unpacks_from(date, time, d.fs.geo.variant)
            &&& attr.modified.unpacks_from(date, time, d.fs.geo.variant)
            &&& attr.accessed.unpacks_from(date, time, d.fs.geo.variant)
        }),
        is_told(after, path, attr),
{
    law_a_created_directory_is_there_and_empty(d.fs, tree, named(path), now);
    assert(0x10u8 & 0x08u8 != 0x08u8) by (bit_vector);
    assert(0x10u8 & 0x10u8 == 0x10u8) by (bit_vector);
    assert(after.fs.geo == d.fs.geo) by {
        lemma_mkdir_follows(d.fs, named(path), now);
        lemma_follows(d.fs, d.fs.mkdir(named(path), now).0);
    }
    lemma_told(d, path, after, attr);
}

/// What a request has removed is neither known by a number nor found any longer, and
/// every other number stands for what it stood for.
pub proof fn law_a_removed_node_is_forgotten(
    d: DriverView,
    tree: Tree,
    path: Seq<char>,
    directory: bool,
    after: DriverView,
)
    requires
        d.fs.wf(),
        d.fs.geo.writable,
        in_order(d.fs, tree),
        ({
            let (v, outcome) = settled(
                d.fs,
                if directory {
                    d.fs.rmdir(named(path))
                } else {
                    d.fs.unlink(named(path))
                },
            );
            d.forgot(path, v, outcome) == (after, Ok::<(), Stop>(()))
        }),
    ensures
        after.fs.entry_of(named(path)) == Err::<EntryView, Error>(Error::NotFound),
        forall|i: u64| #[trigger]
            after.inodes.paths.contains_key(i) <==> d.inodes.paths.contains_key(i)
                && d.inodes.paths[i] != path,
        forall|i: u64| #[trigger]
            after.inodes.paths.contains_key(i) ==> after.inodes.paths[i] == d.inodes.paths[i],
{
    law_an_unlinked_file_is_gone(d.fs, tree, named(path));
    law_a_removed_directory_was_empty_and_is_gone(d.fs, tree, named(path));
}

/// A request that fails tells what failed, unless it has to be made again once more of
/// the device has been loaded.
pub proof fn law_a_failure_is_answered_or_asks_for_more(e: Error, errno: Errno)
    ensures
        match stopped(e, errno) {
            Stop::Load { offset, len } => e == Error::Io(
                IoError::NotLoaded { offset, len },
            ),
            Stop::Answer(a) => a == errno && !(e matches Error::Io(
                IoError::NotLoaded { .. },
            )),
        },
{
}

/// The path of a name in a directory is known just if the number of the directory is,
/// and leads one step on from it.
pub proof fn law_a_name_is_looked_up_in_its_directory(
    d: DriverView,
    parent: Inode,
    name: Seq<char>,
)
    ensures
        d.child(parent, name) is Some <==> d.inodes.paths.contains_key(parent),
        d.child(parent, name) matches Some(path) ==> {
            let dir = d.inodes.paths[parent];
            &&& is_component(encode_utf8(name)) ==> named(path).comps == named(dir).comps.push(
                encode_utf8(name),
            )
            &&& is_component(encode_utf8(name)) ==> named(path).absolute == named(dir).absolute
            &&& name.len() > 0 && name[0] == '/' ==> path == name
        },
{
    if d.child(parent, name) is Some && is_component(encode_utf8(name)) {
        law_a_name_in_a_directory_is_one_step_on(d.inodes.paths[parent], name);
    }
}

/// A request that ends in looking up a node and fails leaves the numbers as they were,
/// and is answered with its failure. One that needs more of the device leaves the
/// filesystem as it was too.
pub proof fn law_a_failed_request_gives_no_number(
    d: DriverView,
    path: Seq<char>,
    v: FsView,
    e: Error,
    after: DriverView,
    r: Result<Attributes, Stop>,
)
    requires
        d.answers(path, (v, Err(e)), after, r),
    ensures
        after.inodes == d.inodes,
        match e {
            Error::Io(IoError::NotLoaded { offset, len }) => after.fs == d.fs && r == Err::<
                Attributes,
                Stop,
            >(Stop::Load { offset, len }),
            _ => after.fs == v && r == Err::<Attributes, Stop>(Stop::Answer(e.spec_errno())),
        },
{
}

/// A request to remove a node that fails leaves the numbers as they were, and is answered
/// with its failure.
pub proof fn law_a_failed_removal_forgets_nothing(
    d: DriverView,
    path: Seq<char>,
    v: FsView,
    e: Error,
)
    ensures
        ({
            let (after, r) = d.forgot(path, v, Err(e));
            &&& after.inodes == d.inodes
            &&& after.fs == v
            &&& match e {
                Error::Io(IoError::NotLoaded { offset, len }) => r == Err::<(), Stop>(
                    Stop::Load { offset, len },
                ),
                _ => r == Err::<(), Stop>(Stop::Answer(e.spec_errno())),
            }
        }),
        ({
            let (after, r) = settled(d.fs, (v, Err::<(), Error>(e)));
            &&& r == Err::<(), Error>(e)
            &&& e matches Error::Io(IoError::NotLoaded { .. }) ==> after == d.fs
            &&& !(e matches Error::Io(IoError::NotLoaded { .. })) ==> after == v
        }),
        settled(d.fs, (v, Ok::<(), Error>(()))) == (v, Ok::<(), Error>(())),
{
}

} // verus!
