//! What requests that create and remove nodes come to, on an image that is in
//! order.

use vstd::prelude::*;

#[allow(unused_imports)]
use crate::chain::{kept, lemma_kept_refl, same_bytes};
#[allow(unused_imports)]
use crate::contents::{lemma_same_file, same_file_byte};
use crate::datetime::DateTime;
#[allow(unused_imports)]
use crate::dir::{is_file_name, padded, EntryLocation, EntryView};
use crate::error::Error;
use crate::fat::ClusterId;
#[allow(unused_imports)]
use crate::listing::{
    is_called, law_a_directory_lists_its_live_entries, law_an_empty_directory_lists_nothing,
};
#[allow(unused_imports)]
use crate::names::{
    at_most_one_free, created, dir_of, finds_all_but, finds_as_much, is_tree,
    law_a_new_directory_is_empty, law_created_node_is_found, law_only_an_empty_directory_is_removed,
    law_removed_file_is_gone, leads_to_entry, lemma_dir_of, lemma_dir_of_kept,
    lemma_dir_of_avoids, lemma_dir_of_without, lemma_empty_dir, lemma_lookup, parent_dir, removed,
    undone, Tree,
};
#[allow(unused_imports)]
use crate::order::{
    are_apart, clusters_of, entry_of, holds, in_order, is_sound, lemma_found, lemma_parent_found,
};
use crate::path::PathView;
#[allow(unused_imports)]
use crate::requests::{
    is_there, law_a_file_has_the_size_it_was_given, law_a_read_request_gives_the_bytes_of_the_file,
    law_a_write_request_puts_its_bytes_down, lemma_other_path,
};
#[allow(unused_imports)]
use crate::slots::search;
#[allow(unused_imports)]
use crate::tree::{avoids, same_find};
#[allow(unused_imports)]
use crate::updates::lemma_location;
use crate::volume::FsView;

verus! {

/// Whether the file that a path led to has the same clusters later on, and holds the
/// same in each of them.
pub open spec fn holds_the_same(v: FsView, tree: Tree, w: FsView, path: PathView) -> bool {
    let e = (v.lookup(path)->Ok_0).0;
    let s = clusters_of(v, tree, e);
    forall|p: int| 0 <= p < e.file_size ==> #[trigger] same_file_byte(v, s, w, s, p)
}

/// A file none of whose clusters has been touched holds the same.
pub proof fn lemma_holds_the_same(
    v: FsView,
    tree: Tree,
    w: FsView,
    path: PathView,
    changed: Set<ClusterId>,
)
    requires
        v.wf(),
        in_order(v, tree),
        kept(v, w, changed),
        v.lookup(path) matches Ok((e, Some(_))) && !e.is_directory(),
        forall|i: int|
            #![trigger clusters_of(v, tree, (v.lookup(path)->Ok_0).0)[i]]
            0 <= i < clusters_of(v, tree, (v.lookup(path)->Ok_0).0).len() ==> !changed.contains(
                clusters_of(v, tree, (v.lookup(path)->Ok_0).0)[i],
            ),
    ensures
        holds_the_same(v, tree, w, path),
{
    lemma_found(v, tree, path);
    let e = (v.lookup(path)->Ok_0).0;
    let s = clusters_of(v, tree, e);
    assert(holds(v, tree, e, s));
    if e.file_size > 0 {
        assert forall|i: int| #![trigger s[i]] 0 <= i < s.len() implies same_bytes(v, w, s[i]) by {
            if i < s.len() - 1 {
                assert(v.leads_to(s[i], s[i + 1]));
            }
            assert(v.geo.has_cluster(s[i]));
        }
        lemma_same_file(v, w, s);
    }
}

/// A file has no cluster of a directory.
pub proof fn lemma_no_directory(v: FsView, tree: Tree, path: PathView, c: ClusterId, i: int)
    requires
        v.wf(),
        in_order(v, tree),
        v.lookup(path) matches Ok((e, Some(_))) && !e.is_directory(),
        tree.contains_key(c),
        0 <= i < clusters_of(v, tree, (v.lookup(path)->Ok_0).0).len(),
    ensures
        !tree[c].to_set().contains(clusters_of(v, tree, (v.lookup(path)->Ok_0).0)[i]),
{
    lemma_found(v, tree, path);
    let e = (v.lookup(path)->Ok_0).0;
    let s = clusters_of(v, tree, e);
    assert(holds(v, tree, e, s));
    assert(avoids(tree[c], s.to_set()));
    if tree[c].to_set().contains(s[i]) {
        let j = choose|j: int| 0 <= j < tree[c].len() && tree[c][j] == s[i];
        assert(!s.to_set().contains(tree[c][j]));
        assert(s.contains(s[i]));
    }
}

/// Two files have no cluster in common.
pub proof fn lemma_no_sharing(v: FsView, tree: Tree, path: PathView, other: PathView, i: int)
    requires
        v.wf(),
        in_order(v, tree),
        path != other,
        v.lookup(path) matches Ok((e, Some(_))) && !e.is_directory(),
        v.lookup(other) matches Ok((e, Some(_))) && !e.is_directory(),
        0 <= i < clusters_of(v, tree, (v.lookup(other)->Ok_0).0).len(),
    ensures
        !clusters_of(v, tree, (v.lookup(path)->Ok_0).0).to_set().contains(
            clusters_of(v, tree, (v.lookup(other)->Ok_0).0)[i],
        ),
{
    lemma_other_path(v, tree, path, other);
    lemma_found(v, tree, path);
    lemma_found(v, tree, other);
    let a = parent_dir(v, tree, path.comps)->0;
    let b = parent_dir(v, tree, other.comps)->0;
    let e = entry_of(v, tree, a, path.comps.last())->0;
    let f = entry_of(v, tree, b, other.comps.last())->0;
    assert(are_apart(v, tree, f, e)) by {
        reveal(in_order);
    }
    assert(avoids(clusters_of(v, tree, f), clusters_of(v, tree, e).to_set()));
}

/// What is found in more directories than before is found as it was.
proof fn lemma_finds_the_same(v: FsView, tree: Tree, w: FsView, later: Tree, path: PathView)
    requires
        v.wf(),
        w.wf(),
        in_order(v, tree),
        is_there(v, path),
        is_tree(w, later),
        finds_as_much(v, tree, w, later),
    ensures
        w.lookup(path) == v.lookup(path),
{
    lemma_found(v, tree, path);
    let root = v.geo.root_cluster;
    let n = (path.comps.len() - 1) as nat;
    assert(is_tree(v, tree) && tree.contains_key(root)) by {
        reveal(in_order);
    }
    let b = parent_dir(v, tree, path.comps)->0;
    lemma_dir_of_kept(v, tree, w, later, root, path.comps, 0, n);
    lemma_lookup(v, tree, path, b);
    lemma_lookup(w, later, path, b);
    assert(search(w.slots(later[b]), path.comps.last()) == search(
        v.slots(tree[b]),
        path.comps.last(),
    ));
}

/// The name of a new node is the one that was asked for.
proof fn lemma_new_name(name: Seq<u8>, attributes: u8, c: ClusterId, now: DateTime, v: FsView)
    requires
        is_file_name(name),
        name.len() <= 42,
    ensures
        is_called(EntryView::new_node(name, attributes, c, now, v.geo.variant), name),
{
}

/// Whether an entry is that of a node that has just been made: it has the name and
/// the attributes that were asked for, all its times are that of the request, and it
/// is empty.
pub open spec fn is_new(
    e: EntryView,
    name: Seq<u8>,
    attributes: u8,
    now: DateTime,
    v: FsView,
) -> bool {
    &&& is_called(e, name)
    &&& e.attributes == attributes
    &&& e.file_size == 0
    &&& (e.created_date, e.created_time) == now.packed(v.geo.variant)
    &&& (e.modified_date, e.modified_time) == now.packed(v.geo.variant)
    &&& (e.accessed_date, e.accessed_time) == now.packed(v.geo.variant)
}

/// Whether a name can be given to a node.
pub open spec fn is_usable(name: Seq<u8>) -> bool {
    &&& 1 <= name.len() <= 42
    &&& forall|i: int| 0 <= i < name.len() ==> #[trigger] name[i] != 0 && name[i] != 0x2f
}

pub proof fn lemma_usable(name: Seq<u8>)
    ensures
        is_usable(name) == is_file_name(name),
{
    if is_file_name(name) {
        assert forall|i: int| 0 <= i < name.len() implies #[trigger] name[i] != 0 && name[i]
            != 0x2f by {
            assert(name.contains(name[i]));
        }
    }
}

/// Whether all that was found is found as it was, and every file holds what it held.
pub open spec fn all_as_before(v: FsView, tree: Tree, w: FsView) -> bool {
    &&& forall|other: PathView| is_there(v, other) ==> #[trigger] w.lookup(other) == v.lookup(other)
    &&& forall|other: PathView|
        is_there(v, other) && !(v.lookup(other)->Ok_0).0.is_directory()
            ==> #[trigger] holds_the_same(v, tree, w, other)
}

proof fn lemma_all_as_before(v: FsView, tree: Tree, w: FsView, later: Tree, b: ClusterId)
    requires
        v.wf(),
        w.wf(),
        in_order(v, tree),
        is_tree(w, later),
        tree.contains_key(b),
        finds_as_much(v, tree, w, later),
        kept(v, w, tree[b].to_set()),
    ensures
        all_as_before(v, tree, w),
{
    assert forall|other: PathView| is_there(v, other) implies #[trigger] w.lookup(other)
        == v.lookup(other) by {
        lemma_finds_the_same(v, tree, w, later, other);
    }
    assert forall|other: PathView|
        is_there(v, other) && !(v.lookup(other)->Ok_0).0.is_directory() implies #[trigger] holds_the_same(
        v,
        tree,
        w,
        other,
    ) by {
        let s = clusters_of(v, tree, (v.lookup(other)->Ok_0).0);
        assert forall|i: int| #![trigger s[i]] 0 <= i < s.len() implies !tree[b].to_set().contains(
            s[i],
        ) by {
            lemma_no_directory(v, tree, other, b, i);
        }
        lemma_holds_the_same(v, tree, w, other, tree[b].to_set());
    }
}

/// A request to create a file makes an empty one with the name that was asked for,
/// where there was nothing, and finds it there: reading it gives nothing. What is
/// already there is not created again, and nothing but a name that cannot be used or
/// the lack of two free clusters stands in the way. Either way all else is found as
/// it was, and every other file holds what it held.
pub proof fn law_a_created_file_is_there_and_empty(
    v: FsView,
    tree: Tree,
    path: PathView,
    now: DateTime,
    offset: u64,
    want: nat,
)
    requires
        v.wf(),
        v.linkable(),
        v.geo.writable,
        in_order(v, tree),
        v.split_parent(path) is Ok,
        offset <= u32::MAX,
    ensures
        ({
            let name = path.comps.last();
            let (w, r) = v.create_entry(path, now);
            &&& all_as_before(v, tree, w)
            &&& match r {
                Ok(e) => {
                    &&& v.lookup(path) == Err::<(EntryView, Option<EntryLocation>), Error>(
                        Error::NotFound,
                    )
                    &&& is_usable(name)
                    &&& is_new(e, name, 0, now, v)
                    &&& is_there(w, path)
                    &&& (w.lookup(path)->Ok_0).0 == e
                    &&& w.read_file(path, offset, want) == Ok::<Seq<u8>, Error>(Seq::empty())
                },
                Err(er) => if is_there(v, path) {
                    er == Error::AlreadyExists && w == v
                } else {
                    ||| er == Error::NoSpaceLeft && at_most_one_free(v)
                    ||| er == Error::InvalidFileName && !is_usable(name)
                },
            }
        }),
{
    lemma_parent_found(v, tree, path);
    let b = parent_dir(v, tree, path.comps)->0;
    let name = path.comps.last();
    assert(is_tree(v, tree) && tree.contains_key(v.geo.root_cluster)) by {
        reveal(in_order);
    }
    lemma_lookup(v, tree, path, b);
    lemma_usable(name);
    let later = law_created_node_is_found(v, tree, path, 0, now);
    let (w, r) = v.create_node(path, 0, now);
    match r {
        Ok((e, location)) => {
            lemma_new_name(name, 0, e.first_cluster, now, v);
            lemma_all_as_before(v, tree, w, later, b);
            assert(e.is_file()) by {
                assert(0u8 & 0x08u8 != 0x08u8) by (bit_vector);
                assert(0u8 & 0x10u8 != 0x10u8) by (bit_vector);
            }
            law_a_read_request_gives_the_bytes_of_the_file(
                w,
                path,
                e,
                Some(location),
                seq![e.first_cluster],
                offset,
                want,
            );
        },
        Err(_) => {
            if is_there(v, path) {
                lemma_kept_refl(v, tree[b].to_set());
                lemma_all_as_before(v, tree, v, tree, b);
            } else {
                lemma_all_as_before(v, tree, w, later, b);
            }
        },
    }
}

/// A request to create a directory makes one with the name that was asked for, where
/// there was nothing, and finds it there: listing it gives nothing. What is already
/// there is not created again, and nothing but a name that cannot be used or the lack
/// of two free clusters stands in the way. Either way all else is found as it was,
/// and every file holds what it held.
pub proof fn law_a_created_directory_is_there_and_empty(
    v: FsView,
    tree: Tree,
    path: PathView,
    now: DateTime,
)
    requires
        v.wf(),
        v.linkable(),
        v.geo.writable,
        in_order(v, tree),
        v.split_parent(path) is Ok,
    ensures
        ({
            let name = path.comps.last();
            let (w, r) = v.mkdir_entry(path, now);
            &&& all_as_before(v, tree, w)
            &&& match r {
                Ok(e) => {
                    &&& v.lookup(path) == Err::<(EntryView, Option<EntryLocation>), Error>(
                        Error::NotFound,
                    )
                    &&& is_usable(name)
                    &&& is_new(e, name, 0x10, now, v)
                    &&& is_there(w, path)
                    &&& (w.lookup(path)->Ok_0).0 == e
                    &&& w.entries_of(path) == Ok::<Seq<EntryView>, Error>(Seq::empty())
                },
                Err(er) => if is_there(v, path) {
                    er == Error::AlreadyExists && w == v
                } else {
                    ||| er == Error::NoSpaceLeft && at_most_one_free(v)
                    ||| er == Error::InvalidFileName && !is_usable(name)
                },
            }
        }),
{
    lemma_parent_found(v, tree, path);
    let b = parent_dir(v, tree, path.comps)->0;
    let name = path.comps.last();
    assert(is_tree(v, tree) && tree.contains_key(v.geo.root_cluster)) by {
        reveal(in_order);
    }
    lemma_lookup(v, tree, path, b);
    lemma_usable(name);
    let later = law_a_new_directory_is_empty(v, tree, path, now);
    let (w, r) = v.mkdir(path, now);
    match r {
        Ok(()) => {
            let (e, location) = leads_to_entry(w, later, path.comps)->0;
            lemma_new_name(name, 0x10, e.first_cluster, now, v);
            lemma_all_as_before(v, tree, w, later, b);
            let d = later[e.first_cluster];
            let end = law_a_directory_lists_its_live_entries(w, path, e, Some(location), d);
            assert(end == 0);
            assert(w.slots(d).take(0) =~= Seq::empty());
            reveal(Seq::filter);
            assert(w.slots(d).take(0).filter(
                |e: EntryView| crate::listing::is_live(e),
            ) =~= Seq::empty());
        },
        Err(_) => {
            if is_there(v, path) {
                lemma_kept_refl(v, tree[b].to_set());
                lemma_all_as_before(v, tree, v, tree, b);
            } else {
                lemma_all_as_before(v, tree, w, later, b);
            }
        },
    }
}

/// What lies elsewhere is found as it was once an entry has been deleted.
proof fn lemma_left_alone(
    v: FsView,
    tree: Tree,
    rest: Tree,
    w: FsView,
    path: PathView,
    other: PathView,
)
    requires
        v.wf(),
        w.wf(),
        in_order(v, tree),
        path != other,
        is_there(v, path),
        is_there(v, other),
        is_tree(w, rest),
        rest.contains_key(v.geo.root_cluster),
        forall|c: ClusterId| #[trigger] rest.contains_key(c) ==> tree[c] == rest[c],
        parent_dir(v, rest, path.comps) == parent_dir(v, tree, path.comps),
        parent_dir(v, rest, other.comps) == parent_dir(v, tree, other.comps),
        rest.contains_key(parent_dir(v, tree, path.comps)->0),
        finds_all_but(v, w, rest, parent_dir(v, tree, path.comps)->0, path.comps.last()),
        ({
            let e = (v.lookup(path)->Ok_0).0;
            !(e.is_directory() && rest.contains_key(e.first_cluster))
        }),
    ensures
        w.lookup(other) == v.lookup(other),
{
    lemma_found(v, tree, path);
    lemma_found(v, tree, other);
    lemma_other_path(v, tree, path, other);
    let root = v.geo.root_cluster;
    let b = parent_dir(v, tree, path.comps)->0;
    let c = parent_dir(v, tree, other.comps)->0;
    let m = (other.comps.len() - 1) as nat;
    assert(is_tree(v, tree) && tree.contains_key(root)) by {
        reveal(in_order);
    }
    lemma_dir_of_without(v, w, rest, b, path.comps.last(), root, other.comps, 0, m);
    lemma_dir_of(v, rest, root, other.comps, 0, m);
    lemma_lookup(v, tree, other, c);
    lemma_lookup(w, rest, other, c);
    assert(same_find(v.slots(rest[c]), w.slots(rest[c]), other.comps.last()));
}

/// Whether all that was found but for one path is found as it was, and every file but
/// for the one at that path holds what it held.
pub open spec fn all_but_one_as_before(v: FsView, tree: Tree, w: FsView, path: PathView) -> bool {
    &&& forall|other: PathView|
        other != path && is_there(v, other) ==> #[trigger] w.lookup(other) == v.lookup(other)
    &&& forall|other: PathView|
        other != path && is_there(v, other) && !(v.lookup(other)->Ok_0).0.is_directory()
            ==> #[trigger] holds_the_same(v, tree, w, other)
}

/// A request to remove a file removes it: it is no longer found, and its clusters are
/// free. All else is found as it was, and every other file holds what it held. A
/// directory is not removed this way, nor is anything where nothing is found.
pub proof fn law_an_unlinked_file_is_gone(v: FsView, tree: Tree, path: PathView)
    requires
        v.wf(),
        v.geo.writable,
        in_order(v, tree),
    ensures
        match v.lookup(path) {
            Err(er) => v.unlink(path) == (v, Err::<(), Error>(er)),
            Ok((_, None)) => v.unlink(path) == (v, Err::<(), Error>(Error::IsRootDirectory)),
            Ok((e, Some(_))) => if e.is_directory() {
                v.unlink(path) == (v, Err::<(), Error>(Error::IsADirectory))
            } else {
                let (w, r) = v.unlink(path);
                let s = clusters_of(v, tree, e);
                &&& r == Ok::<(), Error>(())
                &&& w.lookup(path) == Err::<(EntryView, Option<EntryLocation>), Error>(
                    Error::NotFound,
                )
                &&& forall|i: int| 0 <= i < s.len() ==> w.is_free(#[trigger] s[i])
                &&& all_but_one_as_before(v, tree, w, path)
            },
        },
{
    if is_there(v, path) && !(v.lookup(path)->Ok_0).0.is_directory() {
        lemma_found(v, tree, path);
        let e = (v.lookup(path)->Ok_0).0;
        let s = clusters_of(v, tree, e);
        assert(holds(v, tree, e, s));
        let b = parent_dir(v, tree, path.comps)->0;
        assert(is_tree(v, tree) && tree.contains_key(v.geo.root_cluster)) by {
            reveal(in_order);
        }
        law_removed_file_is_gone(v, tree, path, s);
        let w = v.unlink(path).0;
        assert forall|other: PathView| other != path && is_there(v, other) implies #[trigger] w.lookup(
            other,
        ) == v.lookup(other) by {
            lemma_found(v, tree, other);
            lemma_left_alone(v, tree, tree, w, path, other);
        }
        let changed = tree[b].to_set() + s.to_set();
        assert forall|other: PathView|
            other != path && is_there(v, other) && !(v.lookup(
                other,
            )->Ok_0).0.is_directory() implies #[trigger] holds_the_same(v, tree, w, other) by {
            let t = clusters_of(v, tree, (v.lookup(other)->Ok_0).0);
            assert forall|i: int| #![trigger t[i]] 0 <= i < t.len() implies !changed.contains(
                t[i],
            ) by {
                lemma_no_directory(v, tree, other, b, i);
                lemma_no_sharing(v, tree, path, other, i);
            }
            lemma_holds_the_same(v, tree, w, other, changed);
        }
    }
}

/// A request to remove a directory removes it if listing it gives nothing: it is no
/// longer found, and its clusters are free. While listing it gives anything the
/// request is refused. All else is found as it was, and every file holds what it held.
/// A file is not removed this way, nor is anything where nothing is found.
pub proof fn law_a_removed_directory_was_empty_and_is_gone(
    v: FsView,
    tree: Tree,
    path: PathView,
)
    requires
        v.wf(),
        v.geo.writable,
        in_order(v, tree),
    ensures
        match v.lookup(path) {
            Err(er) => v.rmdir(path) == (v, Err::<(), Error>(er)),
            Ok((_, None)) => v.rmdir(path) == (v, Err::<(), Error>(Error::IsRootDirectory)),
            Ok((e, Some(_))) => if !e.is_directory() {
                v.rmdir(path) == (v, Err::<(), Error>(Error::NotADirectory))
            } else {
                let (w, r) = v.rmdir(path);
                let s = clusters_of(v, tree, e);
                match r {
                    Ok(()) => {
                        &&& v.entries_of(path) == Ok::<Seq<EntryView>, Error>(Seq::empty())
                        &&& w.lookup(path) == Err::<(EntryView, Option<EntryLocation>), Error>(
                            Error::NotFound,
                        )
                        &&& forall|i: int| 0 <= i < s.len() ==> w.is_free(#[trigger] s[i])
                        &&& all_but_one_as_before(v, tree, w, path)
                    },
                    Err(er) => {
                        &&& er == Error::DirectoryNotEmpty
                        &&& w == v
                        &&& v.entries_of(path) matches Ok(all) && all.len() > 0
                    },
                }
            },
        },
{
    if is_there(v, path) && (v.lookup(path)->Ok_0).0.is_directory() {
        lemma_found(v, tree, path);
        let root = v.geo.root_cluster;
        let e = (v.lookup(path)->Ok_0).0;
        let gone = e.first_cluster;
        let b = parent_dir(v, tree, path.comps)->0;
        assert(is_tree(v, tree) && tree.contains_key(root)) by {
            reveal(in_order);
        }
        law_only_an_empty_directory_is_removed(v, tree, path);
        lemma_empty_dir(v, tree[gone]);
        law_an_empty_directory_lists_nothing(
            v,
            path,
            e,
            (v.lookup(path)->Ok_0).1,
            tree[gone],
        );
        if v.rmdir(path).1 is Err && v.entries_of(path)->Ok_0.len() == 0 {
            assert(v.entries_of(path)->Ok_0 =~= Seq::empty());
        }
        if v.rmdir(path).1 is Ok {
            let w = v.rmdir(path).0;
            let rest = tree.remove(gone);
            assert(search(v.slots(tree[gone]), path.comps.last()) is None);
            let n = (path.comps.len() - 1) as nat;
            lemma_dir_of_avoids(v, tree, gone, root, path.comps, 0, n, b);
            assert forall|other: PathView| other != path && is_there(
                v,
                other,
            ) implies #[trigger] w.lookup(other) == v.lookup(other) by {
                lemma_found(v, tree, other);
                let c = parent_dir(v, tree, other.comps)->0;
                let m = (other.comps.len() - 1) as nat;
                assert(search(v.slots(tree[gone]), other.comps.last()) is None);
                lemma_dir_of_avoids(v, tree, gone, root, other.comps, 0, m, c);
                lemma_left_alone(v, tree, rest, w, path, other);
            }
            let changed = rest[b].to_set() + tree[gone].to_set();
            assert forall|other: PathView|
                other != path && is_there(v, other) && !(v.lookup(
                    other,
                )->Ok_0).0.is_directory() implies #[trigger] holds_the_same(v, tree, w, other) by {
                let t = clusters_of(v, tree, (v.lookup(other)->Ok_0).0);
                assert forall|i: int| #![trigger t[i]] 0 <= i < t.len() implies !changed.contains(
                    t[i],
                ) by {
                    lemma_no_directory(v, tree, other, b, i);
                    lemma_no_directory(v, tree, other, gone, i);
                }
                lemma_holds_the_same(v, tree, w, other, changed);
            }
        }
    }
}

/// A change to a file and to its entry leaves every other file as it was.
proof fn lemma_other_files(v: FsView, tree: Tree, path: PathView, w: FsView)
    requires
        v.wf(),
        in_order(v, tree),
        v.lookup(path) matches Ok((e, Some(_))) && !e.is_directory(),
        ({
            let (e, location) = v.lookup(path)->Ok_0;
            kept(v, w, clusters_of(v, tree, e).to_set().insert((location->0).cluster))
        }),
    ensures
        forall|other: PathView|
            other != path && is_there(v, other) && !(v.lookup(other)->Ok_0).0.is_directory()
                ==> #[trigger] holds_the_same(v, tree, w, other),
{
    lemma_found(v, tree, path);
    assert(is_tree(v, tree) && tree.contains_key(v.geo.root_cluster)) by {
        reveal(in_order);
    }
    let (e, there) = v.lookup(path)->Ok_0;
    let location = there->0;
    let changed = clusters_of(v, tree, e).to_set().insert(location.cluster);
    lemma_location(v, tree, path);
    let (b, k) = choose|b: ClusterId, k: int|
        #![trigger tree[b][k]]
        tree.contains_key(b) && 0 <= k < tree[b].len() && tree[b][k] == location.cluster;
    assert forall|other: PathView|
        other != path && is_there(v, other) && !(v.lookup(
            other,
        )->Ok_0).0.is_directory() implies #[trigger] holds_the_same(v, tree, w, other) by {
        let t = clusters_of(v, tree, (v.lookup(other)->Ok_0).0);
        assert forall|i: int| #![trigger t[i]] 0 <= i < t.len() implies !changed.contains(t[i]) by {
            lemma_no_sharing(v, tree, path, other, i);
            lemma_no_directory(v, tree, other, b, i);
            assert(tree[b].contains(tree[b][k]));
            assert(tree[b].to_set().contains(location.cluster));
        }
        lemma_holds_the_same(v, tree, w, other, changed);
    }
}

/// A request to write to a file leaves every other node as it was.
pub proof fn law_a_write_request_leaves_the_rest_alone(
    v: FsView,
    tree: Tree,
    path: PathView,
    offset: u64,
    data: Seq<u8>,
    now: DateTime,
)
    requires
        v.wf(),
        v.linkable(),
        in_order(v, tree),
        v.lookup(path) matches Ok((e, Some(_))) && e.is_file(),
        v.write_file(path, offset, data, now).1 is Ok,
    ensures
        all_but_one_as_before(v, tree, v.write_file(path, offset, data, now).0, path),
        data.len() == 0 ==> v.write_file(path, offset, data, now).0 == v,
{
    let w = v.write_file(path, offset, data, now).0;
    if data.len() > 0 {
        let _ = law_a_write_request_puts_its_bytes_down(v, tree, path, offset, data, now);
    } else {
        lemma_kept_refl(
            v,
            clusters_of(v, tree, (v.lookup(path)->Ok_0).0).to_set().insert(
                ((v.lookup(path)->Ok_0).1->0).cluster,
            ),
        );
    }
    lemma_other_files(v, tree, path, w);
}

/// A request to change the size of a file leaves every other node as it was.
pub proof fn law_a_change_of_size_leaves_the_rest_alone(
    v: FsView,
    tree: Tree,
    path: PathView,
    size: u64,
    accessed: Option<DateTime>,
    modified: Option<DateTime>,
    now: DateTime,
)
    requires
        v.wf(),
        v.linkable(),
        in_order(v, tree),
        v.lookup(path) matches Ok((e, Some(_))) && e.is_file(),
        v.change_entry(path, Some(size), accessed, modified, now).1 is Ok,
    ensures
        all_but_one_as_before(
            v,
            tree,
            v.change_entry(path, Some(size), accessed, modified, now).0,
            path,
        ),
{
    let w = v.change_entry(path, Some(size), accessed, modified, now).0;
    let _ = law_a_file_has_the_size_it_was_given(v, tree, path, size, accessed, modified, now);
    lemma_other_files(v, tree, path, w);
}

} // verus!
