//! What paths lead to, and how creating, removing and renaming change that.

use vstd::prelude::*;

#[allow(unused_imports)]
use crate::chain::{
    is_zero, kept, law_a_cluster_handed_out_was_free, law_a_freed_chain_is_available_again,
    lemma_kept_refl, lemma_kept_trans, same_bytes, within_or_free,
};
#[allow(unused_imports)]
use crate::contents::{lemma_flush, lemma_kept_wider};
use crate::datetime::DateTime;
#[allow(unused_imports)]
use crate::dir::{
    is_file_name, padded, EntryLocation, EntryView, FATX_ATTR_DIRECTORY, FATX_DELETED_FILE_MARKER,
    FATX_END_OF_DIR_MARKER,
};
use crate::error::Error;
use crate::fat::ClusterId;
#[allow(unused_imports)]
use crate::path::PathView;
#[allow(unused_imports)]
use crate::slots::{
    first_stop, is_before_end, lemma_delete, lemma_first_stop, lemma_insert, lemma_search,
    names_differ, search,
};
#[allow(unused_imports)]
use crate::tree::{
    avoids, lemma_alloc_entry, lemma_dir_kept, lemma_find, lemma_place_kept, lemma_put_mark,
    lemma_put_slot, lemma_reshaped_refl, lemma_reshaped_trans, lemma_slot_split, lemma_walk, marked,
    reshaped, same_find,
};
#[allow(unused_imports)]
use crate::volume::FsView;

verus! {

/// The directories of a filesystem, each by its first cluster.
pub type Tree = Map<ClusterId, Seq<ClusterId>>;

/// Whether some directories are what they are said to be, and no two of them
/// have a cluster in common.
pub open spec fn is_tree(v: FsView, tree: Tree) -> bool {
    &&& forall|c: ClusterId| #[trigger]
        tree.contains_key(c) ==> v.is_dir(tree[c]) && tree[c][0] == c
    &&& forall|a: ClusterId, b: ClusterId, i: int, j: int|
        #![trigger tree[a][i], tree[b][j]]
        tree.contains_key(a) && tree.contains_key(b) && a != b && 0 <= i < tree[a].len() && 0 <= j
            < tree[b].len() ==> tree[a][i] != tree[b][j]
}

/// The directory the components of a path from `k` up to `n` lead to, starting
/// in a directory.
pub open spec fn dir_of(
    v: FsView,
    tree: Tree,
    c: ClusterId,
    comps: Seq<Seq<u8>>,
    k: nat,
    n: nat,
) -> Option<ClusterId>
    decreases n - k,
{
    if k >= n {
        Some(c)
    } else {
        match search(v.slots(tree[c]), comps[k as int]) {
            None => None,
            Some(j) => {
                let e = v.slots(tree[c])[j as int];
                if e.is_directory() && tree.contains_key(e.first_cluster) {
                    dir_of(v, tree, e.first_cluster, comps, k + 1, n)
                } else {
                    None
                }
            },
        }
    }
}

/// The directory a path lies in.
pub open spec fn parent_dir(v: FsView, tree: Tree, comps: Seq<Seq<u8>>) -> Option<ClusterId> {
    dir_of(v, tree, v.geo.root_cluster, comps, 0, (comps.len() - 1) as nat)
}

/// What a path leads to.
pub open spec fn leads_to_entry(v: FsView, tree: Tree, comps: Seq<Seq<u8>>) -> Option<
    (EntryView, EntryLocation),
> {
    match parent_dir(v, tree, comps) {
        None => None,
        Some(b) => match search(v.slots(tree[b]), comps.last()) {
            None => None,
            Some(j) => Some((v.slots(tree[b])[j as int], v.place_of(tree[b], j as int))),
        },
    }
}

pub proof fn lemma_dir_of(
    v: FsView,
    tree: Tree,
    c: ClusterId,
    comps: Seq<Seq<u8>>,
    k: nat,
    n: nat,
)
    requires
        tree.contains_key(c),
    ensures
        dir_of(v, tree, c, comps, k, n) matches Some(b) ==> tree.contains_key(b),
    decreases n - k,
{
    if k < n {
        match search(v.slots(tree[c]), comps[k as int]) {
            Some(j) => {
                let e = v.slots(tree[c])[j as int];
                if e.is_directory() && tree.contains_key(e.first_cluster) {
                    lemma_dir_of(v, tree, e.first_cluster, comps, k + 1, n);
                }
            },
            None => {},
        }
    }
}

/// Descending along a path ends with a search in the directory it lies in.
proof fn lemma_descend(
    v: FsView,
    tree: Tree,
    c: ClusterId,
    comps: Seq<Seq<u8>>,
    k: nat,
    b: ClusterId,
)
    requires
        v.wf(),
        is_tree(v, tree),
        tree.contains_key(c),
        k < comps.len(),
        dir_of(v, tree, c, comps, k, (comps.len() - 1) as nat) == Some(b),
    ensures
        v.descend(c, comps, k) == v.find_in(b, comps.last()),
    decreases comps.len() - k,
{
    if k + 1 < comps.len() {
        lemma_find(v, tree[c], comps[k as int]);
        let j = search(v.slots(tree[c]), comps[k as int])->0;
        let e = v.slots(tree[c])[j as int];
        lemma_descend(v, tree, e.first_cluster, comps, k + 1, b);
    }
}

/// What looking a path up comes to, if the directory it lies in is known.
pub proof fn lemma_lookup(v: FsView, tree: Tree, path: PathView, b: ClusterId)
    requires
        v.wf(),
        is_tree(v, tree),
        tree.contains_key(v.geo.root_cluster),
        path.absolute,
        path.comps.len() > 0,
        parent_dir(v, tree, path.comps) == Some(b),
    ensures
        tree.contains_key(b),
        v.lookup(path) == (match search(v.slots(tree[b]), path.comps.last()) {
            Some(j) => Ok((v.slots(tree[b])[j as int], Some(v.place_of(tree[b], j as int)))),
            None => Err(Error::NotFound),
        }),
{
    lemma_dir_of(
        v,
        tree,
        v.geo.root_cluster,
        path.comps,
        0,
        (path.comps.len() - 1) as nat,
    );
    lemma_descend(v, tree, v.geo.root_cluster, path.comps, 0, b);
    lemma_find(v, tree[b], path.comps.last());
}

/// The components a path has in common with its parent lead to the same
/// directory.
pub proof fn lemma_dir_of_prefix(
    v: FsView,
    tree: Tree,
    c: ClusterId,
    comps: Seq<Seq<u8>>,
    k: nat,
    n: nat,
)
    requires
        n <= comps.len() - 1,
    ensures
        dir_of(v, tree, c, comps.drop_last(), k, n) == dir_of(v, tree, c, comps, k, n),
    decreases n - k,
{
    if k < n {
        assert(comps.drop_last()[k as int] == comps[k as int]);
        match search(v.slots(tree[c]), comps[k as int]) {
            Some(j) => {
                let e = v.slots(tree[c])[j as int];
                lemma_dir_of_prefix(v, tree, e.first_cluster, comps, k + 1, n);
            },
            None => {},
        }
    }
}

/// One step less leads to the directory that holds the entry of the last one.
pub proof fn lemma_dir_of_last(
    v: FsView,
    tree: Tree,
    c: ClusterId,
    comps: Seq<Seq<u8>>,
    k: nat,
    n: nat,
    b: ClusterId,
) -> (a: ClusterId)
    requires
        k < n,
        dir_of(v, tree, c, comps, k, n) == Some(b),
    ensures
        dir_of(v, tree, c, comps, k, (n - 1) as nat) == Some(a),
        search(v.slots(tree[a]), comps[n - 1]) is Some,
        ({
            let e = v.slots(tree[a])[search(v.slots(tree[a]), comps[n - 1])->0 as int];
            e.is_directory() && e.first_cluster == b
        }),
    decreases n - k,
{
    let j = search(v.slots(tree[c]), comps[k as int])->0;
    let e = v.slots(tree[c])[j as int];
    if k + 1 < n {
        lemma_dir_of_last(v, tree, e.first_cluster, comps, k + 1, n, b)
    } else {
        assert(dir_of(v, tree, e.first_cluster, comps, k + 1, n) == Some(e.first_cluster));
        c
    }
}

proof fn lemma_root_is_directory(c: ClusterId)
    ensures
        EntryView::root(c).is_directory(),
{
    assert(0x10u8 & 0x08u8 != 0x08u8) by (bit_vector);
    assert(0x10u8 & 0x10u8 == 0x10u8) by (bit_vector);
}

/// The directory a path lies in is what its parent leads to.
pub proof fn lemma_split_parent(v: FsView, tree: Tree, path: PathView, b: ClusterId)
    requires
        v.wf(),
        is_tree(v, tree),
        tree.contains_key(v.geo.root_cluster),
        path.absolute,
        path.comps.len() > 0,
        parent_dir(v, tree, path.comps) == Some(b),
    ensures
        v.split_parent(path) == Ok::<(ClusterId, Seq<u8>), Error>((b, path.comps.last())),
{
    let n = (path.comps.len() - 1) as nat;
    let root = v.geo.root_cluster;
    if n == 0 {
        lemma_root_is_directory(root);
    } else {
        let a = lemma_dir_of_last(v, tree, root, path.comps, 0, n, b);
        let parent = path.parent();
        lemma_dir_of_prefix(v, tree, root, path.comps, 0, (n - 1) as nat);
        assert(parent.comps.last() == path.comps[n - 1]);
        lemma_lookup(v, tree, parent, a);
    }
}

/// Everything that is found in some directories is still found in a later
/// state, in the same place.
pub open spec fn finds_as_much(v: FsView, tree: Tree, w: FsView, later: Tree) -> bool {
    &&& w.geo == v.geo
    &&& forall|c: ClusterId| #[trigger] tree.contains_key(c) ==> later.contains_key(c)
    &&& forall|c: ClusterId, name: Seq<u8>|
        #![trigger search(w.slots(later[c]), name)]
        #![trigger search(v.slots(tree[c]), name)]
        tree.contains_key(c) && search(v.slots(tree[c]), name) is Some ==> {
            let j = search(v.slots(tree[c]), name)->0;
            &&& search(w.slots(later[c]), name) == Some(j)
            &&& w.slots(later[c])[j as int] == v.slots(tree[c])[j as int]
            &&& w.place_of(later[c], j as int) == v.place_of(tree[c], j as int)
        }
}

pub proof fn lemma_dir_of_kept(
    v: FsView,
    tree: Tree,
    w: FsView,
    later: Tree,
    c: ClusterId,
    comps: Seq<Seq<u8>>,
    k: nat,
    n: nat,
)
    requires
        finds_as_much(v, tree, w, later),
        tree.contains_key(c),
        dir_of(v, tree, c, comps, k, n) is Some,
    ensures
        dir_of(w, later, c, comps, k, n) == dir_of(v, tree, c, comps, k, n),
    decreases n - k,
{
    if k < n {
        let j = search(v.slots(tree[c]), comps[k as int])->0;
        assert(search(w.slots(later[c]), comps[k as int]) == Some(j));
        let e = v.slots(tree[c])[j as int];
        lemma_dir_of_kept(v, tree, w, later, e.first_cluster, comps, k + 1, n);
    }
}

/// A path that leads somewhere still leads there if all that is found is still
/// found.
pub proof fn lemma_leads_kept(v: FsView, tree: Tree, w: FsView, later: Tree, comps: Seq<Seq<u8>>)
    requires
        finds_as_much(v, tree, w, later),
        tree.contains_key(v.geo.root_cluster),
        leads_to_entry(v, tree, comps) is Some,
    ensures
        leads_to_entry(w, later, comps) == leads_to_entry(v, tree, comps),
{
    let n = (comps.len() - 1) as nat;
    let root = v.geo.root_cluster;
    lemma_dir_of_kept(v, tree, w, later, root, comps, 0, n);
    lemma_dir_of(v, tree, root, comps, 0, n);
    let b = parent_dir(v, tree, comps)->0;
    assert(search(w.slots(later[b]), comps.last()) == search(v.slots(tree[b]), comps.last()));
}

/// Directories are the same after a step that changes none of their clusters.
pub proof fn lemma_tree_kept(v: FsView, w: FsView, tree: Tree, s: Set<ClusterId>)
    requires
        v.wf(),
        is_tree(v, tree),
        kept(v, w, s),
        forall|c: ClusterId| #[trigger] tree.contains_key(c) ==> avoids(tree[c], s),
    ensures
        is_tree(w, tree),
        forall|c: ClusterId|
            #![trigger w.slots(tree[c])]
            tree.contains_key(c) ==> w.slots(tree[c]) == v.slots(tree[c]),
        finds_as_much(v, tree, w, tree),
{
    assert forall|c: ClusterId| #[trigger] tree.contains_key(c) implies w.is_dir(tree[c])
        && w.slots(tree[c]) == v.slots(tree[c]) by {
        lemma_dir_kept(v, w, tree[c], s);
    }
}

/// Directories are still what they were once one of them has become another
/// row of clusters.
pub proof fn lemma_tree_reshaped(
    v: FsView,
    tree: Tree,
    b: ClusterId,
    w: FsView,
    e: Seq<ClusterId>,
)
    requires
        v.wf(),
        is_tree(v, tree),
        tree.contains_key(b),
        reshaped(v, tree[b], w, e),
    ensures
        is_tree(w, tree.insert(b, e)),
        forall|c: ClusterId|
            #![trigger w.slots(tree.insert(b, e)[c])]
            tree.contains_key(c) && c != b ==> w.slots(tree.insert(b, e)[c]) == v.slots(tree[c]),
{
    let later = tree.insert(b, e);
    assert(e[0] == tree[b][0]);
    assert forall|c: ClusterId| #[trigger] tree.contains_key(c) && c != b implies w.is_dir(tree[c])
        && w.slots(tree[c]) == v.slots(tree[c]) by {
        assert(avoids(tree[c], tree[b].to_set())) by {
            assert forall|i: int| 0 <= i < tree[c].len() implies !tree[b].to_set().contains(
                #[trigger] tree[c][i],
            ) by {
                if tree[b].to_set().contains(tree[c][i]) {
                    let j = choose|j: int| 0 <= j < tree[b].len() && tree[b][j] == tree[c][i];
                    assert(tree[b][j] != tree[c][i]);
                }
            }
        }
        lemma_dir_kept(v, w, tree[c], tree[b].to_set());
    }
    assert forall|a: ClusterId, c: ClusterId, i: int, j: int|
        #![trigger later[a][i], later[c][j]]
        later.contains_key(a) && later.contains_key(c) && a != c && 0 <= i < later[a].len() && 0
            <= j < later[c].len() implies later[a][i] != later[c][j] by {
        if a == b {
            lemma_apart(v, tree, b, w, e, c, i, j);
        } else if c == b {
            lemma_apart(v, tree, b, w, e, a, j, i);
        } else {
            assert(tree[a][i] != tree[c][j]);
        }
    }
}

proof fn lemma_apart(
    v: FsView,
    tree: Tree,
    b: ClusterId,
    w: FsView,
    e: Seq<ClusterId>,
    c: ClusterId,
    i: int,
    j: int,
)
    requires
        is_tree(v, tree),
        tree.contains_key(b),
        tree.contains_key(c),
        c != b,
        reshaped(v, tree[b], w, e),
        0 <= i < e.len(),
        0 <= j < tree[c].len(),
    ensures
        e[i] != tree[c][j],
{
    if i < tree[b].len() {
        assert(e[i] == tree[b][i]);
        assert(tree[b][i] != tree[c][j]);
    } else {
        assert(v.is_free(e[i]));
        assert(v.is_dir(tree[c]));
        if j < tree[c].len() - 1 {
            assert(v.leads_to(tree[c][j], tree[c][j + 1]));
        }
    }
}

/// A directory in which everything that was found still is.
pub proof fn lemma_finds_more(
    v: FsView,
    tree: Tree,
    b: ClusterId,
    w: FsView,
    e: Seq<ClusterId>,
)
    requires
        v.wf(),
        is_tree(v, tree),
        tree.contains_key(b),
        reshaped(v, tree[b], w, e),
        forall|name: Seq<u8>|
            search(v.slots(tree[b]), name) is Some ==> #[trigger] same_find(
                v.slots(tree[b]),
                w.slots(e),
                name,
            ),
    ensures
        finds_as_much(v, tree, w, tree.insert(b, e)),
{
    let later = tree.insert(b, e);
    lemma_tree_reshaped(v, tree, b, w, e);
    assert forall|c: ClusterId, name: Seq<u8>|
        #![trigger search(w.slots(later[c]), name)]
        #![trigger search(v.slots(tree[c]), name)]
        tree.contains_key(c) && search(v.slots(tree[c]), name) is Some implies ({
        let j = search(v.slots(tree[c]), name)->0;
        &&& search(w.slots(later[c]), name) == Some(j)
        &&& w.slots(later[c])[j as int] == v.slots(tree[c])[j as int]
        &&& w.place_of(later[c], j as int) == v.place_of(tree[c], j as int)
    }) by {
        let j = search(v.slots(tree[c]), name)->0;
        lemma_search(v.slots(tree[c]), name);
        if c == b {
            assert(same_find(v.slots(tree[b]), w.slots(e), name));
            lemma_place_kept(v, tree[b], w, e, j as int);
        } else {
            assert(w.slots(later[c]) == v.slots(tree[c]));
        }
    }
}

pub proof fn lemma_finds_trans(
    v: FsView,
    tree: Tree,
    w: FsView,
    later: Tree,
    x: FsView,
    last: Tree,
)
    requires
        finds_as_much(v, tree, w, later),
        finds_as_much(w, later, x, last),
    ensures
        finds_as_much(v, tree, x, last),
{
    assert forall|c: ClusterId, name: Seq<u8>|
        #![trigger search(x.slots(last[c]), name)]
        #![trigger search(v.slots(tree[c]), name)]
        tree.contains_key(c) && search(v.slots(tree[c]), name) is Some implies ({
        let j = search(v.slots(tree[c]), name)->0;
        &&& search(x.slots(last[c]), name) == Some(j)
        &&& x.slots(last[c])[j as int] == v.slots(tree[c])[j as int]
        &&& x.place_of(last[c], j as int) == v.place_of(tree[c], j as int)
    }) by {
        let j = search(v.slots(tree[c]), name)->0;
        assert(search(w.slots(later[c]), name) == Some(j));
    }
}

/// A name an entry is given is the name it has.
pub proof fn lemma_named(name: Seq<u8>, e: EntryView)
    requires
        is_file_name(name),
        e.filename_len == name.len() as u8,
        e.filename_bytes == padded(name),
    ensures
        e.wf(),
        e.has_name(name),
{
    assert(e.name_bytes() =~= name);
}

/// Putting an entry under a new name into a directory: it is found there, and
/// everything else is found, or not found, as before.
proof fn lemma_link(v: FsView, tree: Tree, b: ClusterId, name: Seq<u8>, e: EntryView) -> (r: (
    Seq<ClusterId>,
    int,
))
    requires
        v.wf(),
        v.linkable(),
        is_tree(v, tree),
        tree.contains_key(b),
        search(v.slots(tree[b]), name) is None,
        e.wf(),
        e.has_name(name),
    ensures
        match v.alloc_entry(b) {
            (u, Ok(location)) => {
                let (w, outcome) = u.put_entry(location, e);
                let (d, k) = r;
                &&& outcome == Ok::<(), Error>(())
                &&& reshaped(v, tree[b], w, d)
                &&& search(w.slots(d), name) == Some(k as nat)
                &&& 0 <= k < w.slots(d).len()
                &&& w.slots(d)[k] == e
                &&& w.place_of(d, k) == location
                &&& forall|n: Seq<u8>|
                    n != name ==> #[trigger] same_find(v.slots(tree[b]), w.slots(d), n)
                &&& is_tree(w, tree.insert(b, d))
                &&& finds_as_much(v, tree, w, tree.insert(b, d))
            },
            (u, Err(er)) => u == v && er == v.no_room() && (v.geo.writable ==> u.is_full()),
        },
{
    let (d, k) = lemma_alloc_entry(v, tree[b]);
    match v.alloc_entry(b) {
        (u, Ok(location)) => {
            assert(same_find(v.slots(tree[b]), u.slots(d), name));
            lemma_insert(u.slots(d), k, e, name);
            lemma_put_slot(u, d, k, e);
            let w = u.put_entry(location, e).0;
            assert(w.slots(d) == u.slots(d).update(k, e));
            assert(w.is_dir(d));
            assert(reshaped(u, d, w, d));
            lemma_reshaped_trans(v, tree[b], u, d, w, d);
            assert forall|n: Seq<u8>| n != name implies #[trigger] same_find(
                v.slots(tree[b]),
                w.slots(d),
                n,
            ) by {
                assert(same_find(v.slots(tree[b]), u.slots(d), n));
                assert(search(u.slots(d).update(k, e), n) == search(u.slots(d), n));
            }
            lemma_tree_reshaped(v, tree, b, w, d);
            lemma_finds_more(v, tree, b, w, d);
        },
        _ => {},
    }
    (d, k)
}

/// Whether there are not two clusters left to hand out.
pub open spec fn at_most_one_free(v: FsView) -> bool {
    forall|c: ClusterId, d: ClusterId|
        #![trigger v.is_free(c), v.is_free(d)]
        2 <= c < v.alloc_end() && 2 <= d < v.alloc_end() && v.is_free(c) && v.is_free(d) ==> c == d
}

/// What creating a node comes to.
pub open spec fn created(
    v: FsView,
    tree: Tree,
    path: PathView,
    attributes: u8,
    now: DateTime,
    outcome: (FsView, Result<(EntryView, EntryLocation), Error>),
    later: Tree,
) -> bool {
    let b = parent_dir(v, tree, path.comps)->0;
    let name = path.comps.last();
    match outcome {
        (w, Ok((e, location))) => {
            &&& leads_to_entry(v, tree, path.comps) is None
            &&& is_file_name(name)
            &&& e == EntryView::new_node(name, attributes, e.first_cluster, now, v.geo.variant)
            &&& v.is_free(e.first_cluster)
            &&& e.first_cluster >= 2
            &&& w.is_chain(seq![e.first_cluster])
            &&& w.is_loaded(e.first_cluster)
            &&& is_zero(w, e.first_cluster)
            &&& w.wf()
            &&& is_tree(w, later)
            &&& later.contains_key(v.geo.root_cluster)
            &&& leads_to_entry(w, later, path.comps) == Some((e, location))
            &&& w.lookup(path) == Ok::<(EntryView, Option<EntryLocation>), Error>(
                (e, Some(location)),
            )
            &&& finds_as_much(v, tree, w, later)
            &&& kept(v, w, tree[b].to_set())
            &&& forall|c: ClusterId| #[trigger]
                later.contains_key(c) ==> avoids(later[c], set![e.first_cluster])
            &&& w.fat.dirty is None
        },
        (w, Err(er)) => if leads_to_entry(v, tree, path.comps) is Some {
            er == Error::AlreadyExists && w == v
        } else {
            &&& er == Error::NoSpaceLeft || (er == Error::InvalidFileName && !is_file_name(name))
            &&& er == Error::NoSpaceLeft ==> later == tree && at_most_one_free(v)
            &&& undone(v, tree, b, w, later)
        },
    }
}

/// Whether nothing is left of an attempt to put something into a directory,
/// but that the directory may have become longer.
pub open spec fn undone(v: FsView, tree: Tree, b: ClusterId, w: FsView, later: Tree) -> bool {
    &&& w.wf()
    &&& is_tree(w, later)
    &&& later.contains_key(b)
    &&& finds_as_much(v, tree, w, later)
    &&& kept(v, w, tree[b].to_set())
    &&& forall|c: ClusterId| v.is_free(c) && !later[b].contains(c) ==> #[trigger] w.is_free(c)
}

/// A cluster that is in use is in none of the directories if it was free
/// before they were what they are.
proof fn lemma_free_not_in_tree(v: FsView, tree: Tree, x: ClusterId)
    requires
        is_tree(v, tree),
        v.is_free(x),
    ensures
        forall|c: ClusterId| #[trigger] tree.contains_key(c) ==> avoids(tree[c], set![x]),
{
    assert forall|c: ClusterId| #[trigger] tree.contains_key(c) implies avoids(
        tree[c],
        set![x],
    ) by {
        let d = tree[c];
        assert forall|i: int| 0 <= i < d.len() implies !set![x].contains(#[trigger] d[i]) by {
            if i < d.len() - 1 {
                assert(v.leads_to(d[i], d[i + 1]));
            }
        }
    }
}

/// Something that can be created where nothing is yet is found there
/// afterwards.
///
/// The entry is what was asked for, it owns a cluster that was free and now
/// holds zeroes, and every path that led somewhere still leads there. What
/// already exists is not created again. All else that is in use is kept, but
/// for the directory the entry goes into. Nothing but an unusable name or the
/// lack of room stands in the way, and then no cluster is lost: each that was
/// free still is, unless the directory has been made longer by it.
#[verifier::rlimit(40)]
pub proof fn law_created_node_is_found(
    v: FsView,
    tree: Tree,
    path: PathView,
    attributes: u8,
    now: DateTime,
) -> (later: Tree)
    requires
        v.wf(),
        v.linkable(),
        v.geo.writable,
        is_tree(v, tree),
        tree.contains_key(v.geo.root_cluster),
        path.absolute,
        path.comps.len() > 0,
        parent_dir(v, tree, path.comps) is Some,
    ensures
        created(v, tree, path, attributes, now, v.create_node(path, attributes, now), later),
{
    reveal(FsView::create_node);
    let b = parent_dir(v, tree, path.comps)->0;
    let name = path.comps.last();
    lemma_lookup(v, tree, path, b);
    if search(v.slots(tree[b]), name) is Some {
        tree
    } else {
        lemma_split_parent(v, tree, path, b);
        law_a_cluster_handed_out_was_free(v);
        match v.alloc_cluster(true) {
            (v1, Ok(c)) => {
                let empty = Set::<ClusterId>::empty();
                lemma_tree_kept(v, v1, tree, empty);
                let e = EntryView::new_node(name, attributes, c, now, v.geo.variant);
                if is_file_name(name) {
                    lemma_named(name, e);
                    let (d, k) = lemma_link(v1, tree, b, name, e);
                    match v1.alloc_entry(b) {
                        (u, Ok(location)) => {
                            let w1 = u.put_entry(location, e).0;
                            let later = tree.insert(b, d);
                            lemma_create_ends(v, tree, path, attributes, now, b, v1, c, w1, d, k);
                            later
                        },
                        (u, Err(er)) => {
                            lemma_one_free(v, v1, c);
                            lemma_reshaped_refl(v1, tree[b]);
                            lemma_create_fails(v, tree, b, v1, c, v1, tree[b]);
                            assert(tree.insert(b, tree[b]) =~= tree);
                            tree
                        },
                    }
                } else {
                    let (d, k) = lemma_alloc_entry(v1, tree[b]);
                    match v1.alloc_entry(b) {
                        (u, Ok(location)) => {
                            lemma_tree_reshaped(v1, tree, b, u, d);
                            lemma_finds_more(v1, tree, b, u, d);
                            lemma_create_fails(v, tree, b, v1, c, u, d);
                            tree.insert(b, d)
                        },
                        (u, Err(er)) => {
                            lemma_one_free(v, v1, c);
                            lemma_reshaped_refl(v1, tree[b]);
                            lemma_create_fails(v, tree, b, v1, c, v1, tree[b]);
                            assert(tree.insert(b, tree[b]) =~= tree);
                            tree
                        },
                    }
                }
            },
            _ => {
                let empty = Set::<ClusterId>::empty();
                lemma_tree_kept(v, v, tree, empty);
                tree
            },
        }
    }
}

/// None of the directories has the cluster of a new node, nor has the one it
/// goes into once that has been made longer.
proof fn lemma_new_cluster_apart(
    v: FsView,
    tree: Tree,
    b: ClusterId,
    v1: FsView,
    c: ClusterId,
    w1: FsView,
    d: Seq<ClusterId>,
)
    requires
        v.wf(),
        is_tree(v, tree),
        tree.contains_key(b),
        v.alloc_cluster(true) == (v1, Ok::<ClusterId, Error>(c)),
        reshaped(v1, tree[b], w1, d),
    ensures
        forall|x: ClusterId| #[trigger]
            tree.insert(b, d).contains_key(x) ==> avoids(tree.insert(b, d)[x], set![c]),
{
    law_a_cluster_handed_out_was_free(v);
    lemma_free_not_in_tree(v, tree, c);
    let later = tree.insert(b, d);
    assert forall|x: ClusterId| #[trigger] later.contains_key(x) implies avoids(
        later[x],
        set![c],
    ) by {
        assert forall|i: int| 0 <= i < later[x].len() implies !set![c].contains(
            #[trigger] later[x][i],
        ) by {
            if x == b {
                if i < tree[b].len() {
                    assert(d[i] == tree[b][i]);
                    assert(!set![c].contains(tree[b][i]));
                } else {
                    assert(v1.is_free(d[i]));
                }
            } else {
                assert(!set![c].contains(tree[x][i]));
            }
        }
    }
}

/// Giving back the cluster of a node that gets no entry leaves nothing of it.
proof fn lemma_create_fails(
    v: FsView,
    tree: Tree,
    b: ClusterId,
    v1: FsView,
    c: ClusterId,
    u: FsView,
    d: Seq<ClusterId>,
)
    requires
        v.wf(),
        v.geo.writable,
        is_tree(v, tree),
        tree.contains_key(b),
        v.alloc_cluster(true) == (v1, Ok::<ClusterId, Error>(c)),
        finds_as_much(v, tree, v1, tree),
        reshaped(v1, tree[b], u, d),
        is_tree(u, tree.insert(b, d)),
        finds_as_much(v1, tree, u, tree.insert(b, d)),
    ensures
        undone(v, tree, b, u.free_cluster_chain(c).0.flush_fat(), tree.insert(b, d)),
{
    law_a_cluster_handed_out_was_free(v);
    lemma_create_keeps(v, tree, b, v1, c, u, d);
    lemma_new_cluster_apart(v, tree, b, v1, c, u, d);
    let later = tree.insert(b, d);
    let empty = Set::<ClusterId>::empty();
    let chain = seq![c];
    lemma_flush(u);
    assert(u.is_chain(chain)) by {
        assert(u.flush_fat().link(c) == u.link(c));
        assert(u.flush_fat().is_chain(chain));
        assert(u.flush_fat().geo.has_cluster(chain[0]));
    }
    law_a_freed_chain_is_available_again(u, chain);
    let x = u.free_cluster_chain(c).0;
    assert(chain.to_set() =~= set![c]) by {
        assert(chain[0] == c);
    }
    lemma_tree_kept(u, x, later, set![c]);
    lemma_flush(x);
    let w = x.flush_fat();
    assert forall|y: ClusterId| #[trigger] later.contains_key(y) implies avoids(
        later[y],
        empty,
    ) by {}
    lemma_tree_kept(x, w, later, empty);
    lemma_finds_trans(v, tree, v1, tree, u, later);
    lemma_finds_trans(v, tree, u, later, x, later);
    lemma_finds_trans(v, tree, x, later, w, later);
    let s = tree[b].to_set();
    assert(kept(v, v1, s));
    lemma_kept_trans(v, v1, u, s, s);
    lemma_kept_trans(v, u, x, s, set![c]);
    lemma_kept_trans(v, x, w, s, empty);
    assert forall|y: ClusterId| v.is_free(y) && !d.contains(y) implies #[trigger] w.is_free(y) by {
        assert(w.link(y) == x.link(y));
        if y == c {
            assert(x.is_free(chain[0]));
        } else {
            assert(v1.link(y) == v.link(y));
            assert(u.is_free(y));
            assert(x.link(y) == u.link(y));
        }
    }
}

proof fn lemma_one_free(v: FsView, v1: FsView, c: ClusterId)
    requires
        v1.is_full(),
        v1.geo == v.geo,
        v1.fat.entries == v.fat.entries,
        forall|d: ClusterId| d != c ==> #[trigger] v1.link(d) == v.link(d),
    ensures
        at_most_one_free(v),
{
    assert forall|x: ClusterId, y: ClusterId|
        #![trigger v.is_free(x), v.is_free(y)]
        2 <= x < v.alloc_end() && 2 <= y < v.alloc_end() && v.is_free(x) && v.is_free(
            y,
        ) implies x == y by {
        if x != c {
            assert(!v1.is_free(x));
            assert(v1.link(x) == v.link(x));
        }
        if y != c {
            assert(!v1.is_free(y));
            assert(v1.link(y) == v.link(y));
        }
    }
}

proof fn lemma_create_ends(
    v: FsView,
    tree: Tree,
    path: PathView,
    attributes: u8,
    now: DateTime,
    b: ClusterId,
    v1: FsView,
    c: ClusterId,
    w1: FsView,
    d: Seq<ClusterId>,
    k: int,
)
    requires
        v.wf(),
        is_tree(v, tree),
        tree.contains_key(v.geo.root_cluster),
        path.absolute,
        path.comps.len() > 0,
        parent_dir(v, tree, path.comps) == Some(b),
        search(v.slots(tree[b]), path.comps.last()) is None,
        is_file_name(path.comps.last()),
        v.alloc_cluster(true) == (v1, Ok::<ClusterId, Error>(c)),
        is_tree(v1, tree),
        finds_as_much(v, tree, v1, tree),
        tree.contains_key(b),
        reshaped(v1, tree[b], w1, d),
        is_tree(w1, tree.insert(b, d)),
        finds_as_much(v1, tree, w1, tree.insert(b, d)),
        search(w1.slots(d), path.comps.last()) == Some(k as nat),
        0 <= k < w1.slots(d).len(),
        w1.slots(d)[k] == EntryView::new_node(
            path.comps.last(),
            attributes,
            c,
            now,
            v.geo.variant,
        ),
    ensures
        created(
            v,
            tree,
            path,
            attributes,
            now,
            (w1.flush_fat(), Ok((w1.slots(d)[k], w1.place_of(d, k)))),
            tree.insert(b, d),
        ),
{
    law_a_cluster_handed_out_was_free(v);
    let root = v.geo.root_cluster;
    let n = (path.comps.len() - 1) as nat;
    let later = tree.insert(b, d);
    let empty = Set::<ClusterId>::empty();
    lemma_flush(w1);
    let w = w1.flush_fat();
    assert forall|x: ClusterId| #[trigger] later.contains_key(x) implies avoids(
        later[x],
        empty,
    ) by {}
    lemma_tree_kept(w1, w, later, empty);
    lemma_finds_trans(v, tree, v1, tree, w1, later);
    lemma_finds_trans(v, tree, w1, later, w, later);
    lemma_dir_of_kept(v, tree, w, later, root, path.comps, 0, n);
    assert(w.slots(later[b]) == w1.slots(d));
    lemma_lookup(w, later, path, b);
    lemma_create_keeps(v, tree, b, v1, c, w1, d);
    lemma_new_cluster_apart(v, tree, b, v1, c, w1, d);
}

/// The cluster of a new node is still as it was handed out once the node has
/// been put into its directory, and so is everything else that is in use.
proof fn lemma_create_keeps(
    v: FsView,
    tree: Tree,
    b: ClusterId,
    v1: FsView,
    c: ClusterId,
    w1: FsView,
    d: Seq<ClusterId>,
)
    requires
        v.wf(),
        is_tree(v, tree),
        tree.contains_key(b),
        v.alloc_cluster(true) == (v1, Ok::<ClusterId, Error>(c)),
        reshaped(v1, tree[b], w1, d),
    ensures
        v.is_free(c),
        c >= 2,
        w1.flush_fat().wf(),
        w1.flush_fat().is_chain(seq![c]),
        w1.flush_fat().is_loaded(c),
        is_zero(w1.flush_fat(), c),
        kept(v, w1.flush_fat(), tree[b].to_set()),
        w1.flush_fat().fat.dirty is None,
{
    law_a_cluster_handed_out_was_free(v);
    lemma_flush(w1);
    let w = w1.flush_fat();
    let empty = Set::<ClusterId>::empty();
    lemma_free_not_in_tree(v, tree, c);
    assert(!tree[b].contains(c)) by {
        if tree[b].contains(c) {
            let i = choose|i: int| 0 <= i < tree[b].len() && tree[b][i] == c;
            assert(!set![c].contains(tree[b][i]));
        }
    }
    assert(!tree[b].to_set().contains(c));
    assert(w1.link(c) == v1.link(c));
    assert(same_bytes(v1, w1, c));
    assert(same_bytes(w1, w, c));
    crate::chain::lemma_same_bytes_trans(v1, w1, w, c);
    assert forall|at: int|
        #![trigger w.has_byte(c, at)]
        #![trigger w.byte_of(c, at)]
        0 <= at < w.bpc() implies w.has_byte(c, at) && w.byte_of(c, at) == 0 by {
        assert(v1.has_byte(c, at) && v1.byte_of(c, at) == 0);
    }
    assert(w.link(c) == w1.link(c));
    let set = tree[b].to_set();
    lemma_kept_wider(v, v1, empty, set);
    assert(within_or_free(v, set, set));
    lemma_kept_trans(v, v1, w1, set, set);
    assert(within_or_free(v, empty, set));
    lemma_kept_trans(v, w1, w, set, empty);
}

/// Whether everything that is found in some directories but for one name in one
/// of them is still found in a later state, and that name no longer is.
pub open spec fn finds_all_but(
    v: FsView,
    w: FsView,
    tree: Tree,
    b: ClusterId,
    name: Seq<u8>,
) -> bool {
    &&& w.geo == v.geo
    &&& search(w.slots(tree[b]), name) is None
    &&& forall|c: ClusterId, n: Seq<u8>|
        #![trigger search(w.slots(tree[c]), n)]
        #![trigger search(v.slots(tree[c]), n)]
        tree.contains_key(c) && (c != b || n != name) ==> same_find(
            v.slots(tree[c]),
            w.slots(tree[c]),
            n,
        )
}

/// Deleting an entry of a directory.
pub proof fn lemma_unmark(v: FsView, tree: Tree, b: ClusterId, name: Seq<u8>, k: int)
    requires
        v.wf(),
        is_tree(v, tree),
        tree.contains_key(b),
        0 <= k,
        search(v.slots(tree[b]), name) == Some(k as nat),
    ensures
        ({
            let (w, r) = v.put_marker(v.place_of(tree[b], k), FATX_DELETED_FILE_MARKER);
            &&& r == Ok::<(), Error>(())
            &&& is_tree(w, tree)
            &&& finds_all_but(v, w, tree, b, name)
            &&& kept(v, w, tree[b].to_set())
            &&& w.fat == v.fat
            &&& w.slots(tree[b]) == v.slots(tree[b]).update(
                k,
                marked(v.slots(tree[b])[k], FATX_DELETED_FILE_MARKER),
            )
        }),
{
    let d = tree[b];
    lemma_search(v.slots(d), name);
    lemma_put_mark(v, d, k, FATX_DELETED_FILE_MARKER);
    let w = v.put_marker(v.place_of(d, k), FATX_DELETED_FILE_MARKER).0;
    let gone = marked(v.slots(d)[k], FATX_DELETED_FILE_MARKER);
    lemma_delete(v.slots(d), k, gone, name);
    assert(w.is_dir(d));
    assert(reshaped(v, d, w, d));
    lemma_tree_reshaped(v, tree, b, w, d);
    assert(tree.insert(b, d) =~= tree);
    assert forall|c: ClusterId, n: Seq<u8>|
        #![trigger search(w.slots(tree[c]), n)]
        #![trigger search(v.slots(tree[c]), n)]
        tree.contains_key(c) && (c != b || n != name) implies same_find(
        v.slots(tree[c]),
        w.slots(tree[c]),
        n,
    ) by {
        lemma_search(v.slots(tree[c]), n);
        if c == b {
            assert(search(v.slots(d).update(k, gone), n) == search(v.slots(d), n));
        } else {
            assert(w.slots(tree.insert(b, d)[c]) == v.slots(tree[c]));
        }
    }
}

/// Whether an entry owns some clusters, or none.
pub open spec fn owns(v: FsView, e: EntryView, s: Seq<ClusterId>) -> bool {
    if e.first_cluster == 0 {
        s.len() == 0
    } else {
        v.is_chain(s) && s[0] == e.first_cluster
    }
}

/// What removing an entry comes to: it is no longer found, everything else
/// still is, and its clusters are free.
pub open spec fn removed(
    v: FsView,
    w: FsView,
    tree: Tree,
    b: ClusterId,
    name: Seq<u8>,
    s: Seq<ClusterId>,
) -> bool {
    &&& w.wf()
    &&& is_tree(w, tree)
    &&& finds_all_but(v, w, tree, b, name)
    &&& forall|i: int| 0 <= i < s.len() ==> w.is_free(#[trigger] s[i])
    &&& kept(v, w, tree[b].to_set() + s.to_set())
    &&& w.fat.dirty is None
}

/// Giving back the clusters of a node and deleting its entry.
pub proof fn lemma_remove(
    v: FsView,
    tree: Tree,
    b: ClusterId,
    name: Seq<u8>,
    k: int,
    s: Seq<ClusterId>,
)
    requires
        v.wf(),
        v.geo.writable,
        is_tree(v, tree),
        tree.contains_key(b),
        0 <= k,
        search(v.slots(tree[b]), name) == Some(k as nat),
        owns(v, v.slots(tree[b])[k], s),
        forall|c: ClusterId| #[trigger] tree.contains_key(c) ==> avoids(tree[c], s.to_set()),
    ensures
        v.remove(v.slots(tree[b])[k], v.place_of(tree[b], k)).1 == Ok::<(), Error>(()),
        removed(
            v,
            v.remove(v.slots(tree[b])[k], v.place_of(tree[b], k)).0,
            tree,
            b,
            name,
            s,
        ),
        v.remove(v.slots(tree[b])[k], v.place_of(tree[b], k)).0.slots(tree[b]) == v.slots(
            tree[b],
        ).update(k, marked(v.slots(tree[b])[k], FATX_DELETED_FILE_MARKER)),
{
    let e = v.slots(tree[b])[k];
    let location = v.place_of(tree[b], k);
    let v1 = if e.first_cluster != 0 {
        v.free_cluster_chain(e.first_cluster).0
    } else {
        v
    };
    if e.first_cluster != 0 {
        law_a_freed_chain_is_available_again(v, s);
    } else {
        lemma_kept_refl(v, s.to_set());
    }
    assert(kept(v, v1, s.to_set()));
    assert forall|i: int| 0 <= i < s.len() implies v1.is_free(#[trigger] s[i]) by {}
    lemma_tree_kept(v, v1, tree, s.to_set());
    assert(v1.place_of(tree[b], k) == location);
    lemma_unmark(v1, tree, b, name, k);
    let w1 = v1.put_marker(location, FATX_DELETED_FILE_MARKER).0;
    lemma_flush(w1);
    let w = w1.flush_fat();
    let empty = Set::<ClusterId>::empty();
    lemma_tree_kept(w1, w, tree, empty);
    assert(v.remove(e, location) == (w, Ok::<(), Error>(())));
    assert(finds_all_but(v, w, tree, b, name)) by {
        assert(w.slots(tree[b]) == w1.slots(tree[b]));
        assert forall|c: ClusterId, n: Seq<u8>|
            #![trigger search(w.slots(tree[c]), n)]
            #![trigger search(v.slots(tree[c]), n)]
            tree.contains_key(c) && (c != b || n != name) implies same_find(
            v.slots(tree[c]),
            w.slots(tree[c]),
            n,
        ) by {
            assert(v1.slots(tree[c]) == v.slots(tree[c]));
            assert(w.slots(tree[c]) == w1.slots(tree[c]));
            assert(same_find(v1.slots(tree[c]), w1.slots(tree[c]), n)) by {
                assert(search(w1.slots(tree[c]), n) == search(w1.slots(tree[c]), n));
            }
        }
    }
    assert forall|i: int| 0 <= i < s.len() implies w.is_free(#[trigger] s[i]) by {
        assert(w.link(s[i]) == w1.link(s[i]));
        assert(w1.link(s[i]) == v1.link(s[i]));
        assert(v1.is_free(s[i]));
    }
    let all = tree[b].to_set() + s.to_set();
    lemma_kept_wider(v, v1, s.to_set(), all);
    assert(within_or_free(v, tree[b].to_set(), all));
    lemma_kept_trans(v, v1, w1, all, tree[b].to_set());
    assert(within_or_free(v, empty, all));
    lemma_kept_trans(v, w1, w, all, empty);
}

/// The way to a directory does not go through an entry that is no directory of
/// the tree, so that it is still the way once that entry is gone.
pub proof fn lemma_dir_of_without(
    v: FsView,
    w: FsView,
    tree: Tree,
    b: ClusterId,
    name: Seq<u8>,
    c: ClusterId,
    comps: Seq<Seq<u8>>,
    k: nat,
    n: nat,
)
    requires
        finds_all_but(v, w, tree, b, name),
        tree.contains_key(c),
        dir_of(v, tree, c, comps, k, n) is Some,
        search(v.slots(tree[b]), name) matches Some(j) ==> !(v.slots(
            tree[b],
        )[j as int].is_directory() && tree.contains_key(v.slots(tree[b])[j as int].first_cluster)),
    ensures
        dir_of(w, tree, c, comps, k, n) == dir_of(v, tree, c, comps, k, n),
    decreases n - k,
{
    if k < n {
        let j = search(v.slots(tree[c]), comps[k as int])->0;
        let e = v.slots(tree[c])[j as int];
        assert(c != b || comps[k as int] != name);
        assert(same_find(v.slots(tree[c]), w.slots(tree[c]), comps[k as int]));
        lemma_dir_of_without(v, w, tree, b, name, e.first_cluster, comps, k + 1, n);
    }
}

/// A file that is removed is no longer found, and its clusters are free again.
///
/// Everything else is found, or not found, as before, and all else that is in
/// use is kept but for the slot of the entry.
pub proof fn law_removed_file_is_gone(
    v: FsView,
    tree: Tree,
    path: PathView,
    s: Seq<ClusterId>,
)
    requires
        v.wf(),
        v.geo.writable,
        is_tree(v, tree),
        tree.contains_key(v.geo.root_cluster),
        path.absolute,
        path.comps.len() > 0,
        leads_to_entry(v, tree, path.comps) is Some,
        !(leads_to_entry(v, tree, path.comps)->0).0.is_directory(),
        owns(v, (leads_to_entry(v, tree, path.comps)->0).0, s),
        forall|c: ClusterId| #[trigger] tree.contains_key(c) ==> avoids(tree[c], s.to_set()),
    ensures
        v.unlink(path).1 == Ok::<(), Error>(()),
        removed(
            v,
            v.unlink(path).0,
            tree,
            parent_dir(v, tree, path.comps)->0,
            path.comps.last(),
            s,
        ),
        v.unlink(path).0.lookup(path) == Err::<(EntryView, Option<EntryLocation>), Error>(
            Error::NotFound,
        ),
{
    let b = parent_dir(v, tree, path.comps)->0;
    let name = path.comps.last();
    let n = (path.comps.len() - 1) as nat;
    lemma_lookup(v, tree, path, b);
    let k = search(v.slots(tree[b]), name)->0 as int;
    lemma_remove(v, tree, b, name, k, s);
    let w = v.unlink(path).0;
    lemma_dir_of_without(v, w, tree, b, name, v.geo.root_cluster, path.comps, 0, n);
    lemma_lookup(w, tree, path, b);
}

/// Nothing is found in a directory that holds no live entry.
pub proof fn lemma_empty_dir(v: FsView, d: Seq<ClusterId>)
    requires
        v.wf(),
        v.is_dir(d),
    ensures
        v.directory_is_empty(d[0]) is Ok,
        v.directory_is_empty(d[0]) == Ok::<bool, Error>(true) ==> forall|name: Seq<u8>|
            #[trigger] search(v.slots(d), name) is None,
        (forall|k: int|
            0 <= k < v.slots(d).len() && is_before_end(v.slots(d), k) ==> !((
            #[trigger] v.slots(d)[k]).kind() is Valid)) ==> v.directory_is_empty(d[0]) == Ok::<
            bool,
            Error,
        >(true),
{
    let stop = |e: EntryView| !(e.kind() is Deleted);
    let slots = v.slots(d);
    crate::chain::lemma_chain_len(v, d);
    lemma_walk(v, d, 0, 0, v.fat.entries, stop);
    lemma_first_stop(slots, 0, stop);
    let at = first_stop(slots, 0, stop) as int;
    if v.directory_is_empty(d[0]) == Ok::<bool, Error>(true) {
        assert forall|name: Seq<u8>| #[trigger] search(slots, name) is None by {
            lemma_search(slots, name);
            if let Some(k) = search(slots, name) {
                if k < at {
                    assert(!stop(slots[k as int]));
                } else {
                    assert(!(slots[at].kind() is EndOfDirectory));
                }
            }
        }
    }
    if forall|k: int|
        0 <= k < slots.len() && is_before_end(slots, k) ==> !((
        #[trigger] slots[k]).kind() is Valid) {
        if at < slots.len() && slots[at].kind() is Valid {
            assert(is_before_end(slots, at)) by {
                assert forall|j: int| 0 <= j <= at implies !((
                #[trigger] slots[j]).kind() is EndOfDirectory) by {
                    if j < at {
                        assert(!stop(slots[j]));
                    }
                }
            }
        }
    }
}

/// The way to a directory does not go through an empty one.
pub proof fn lemma_dir_of_avoids(
    v: FsView,
    tree: Tree,
    gone: ClusterId,
    c: ClusterId,
    comps: Seq<Seq<u8>>,
    k: nat,
    n: nat,
    b: ClusterId,
)
    requires
        dir_of(v, tree, c, comps, k, n) == Some(b),
        tree.contains_key(c),
        c != gone,
        b != gone,
        forall|name: Seq<u8>| #[trigger] search(v.slots(tree[gone]), name) is None,
    ensures
        dir_of(v, tree.remove(gone), c, comps, k, n) == Some(b),
    decreases n - k,
{
    if k < n {
        let j = search(v.slots(tree[c]), comps[k as int])->0;
        let e = v.slots(tree[c])[j as int];
        if e.first_cluster == gone {
            assert(dir_of(v, tree, gone, comps, k + 1, n) == Some(b));
            if k + 1 < n {
                assert(search(v.slots(tree[gone]), comps[k as int + 1]) is None);
            }
        } else {
            lemma_dir_of_avoids(v, tree, gone, e.first_cluster, comps, k + 1, n, b);
        }
    }
}

/// A directory whose slots are the same in another state is empty there if it
/// is empty here.
pub proof fn lemma_same_emptiness(v: FsView, w: FsView, d: Seq<ClusterId>)
    requires
        v.wf(),
        w.wf(),
        v.is_dir(d),
        w.is_dir(d),
        w.geo == v.geo,
        w.fat.entries == v.fat.entries,
        w.slots(d) == v.slots(d),
    ensures
        w.directory_is_empty(d[0]) == v.directory_is_empty(d[0]),
{
    let stop = |e: EntryView| !(e.kind() is Deleted);
    crate::chain::lemma_chain_len(v, d);
    crate::chain::lemma_chain_len(w, d);
    lemma_walk(v, d, 0, 0, v.fat.entries, stop);
    lemma_walk(w, d, 0, 0, v.fat.entries, stop);
}

/// A directory can only be removed once it is empty, and is no longer found
/// then.
///
/// While it holds a live entry, the request is refused and nothing changes.
#[verifier::rlimit(40)]
pub proof fn law_only_an_empty_directory_is_removed(v: FsView, tree: Tree, path: PathView)
    requires
        v.wf(),
        v.geo.writable,
        is_tree(v, tree),
        tree.contains_key(v.geo.root_cluster),
        path.absolute,
        path.comps.len() > 0,
        leads_to_entry(v, tree, path.comps) is Some,
        (leads_to_entry(v, tree, path.comps)->0).0.is_directory(),
        tree.contains_key((leads_to_entry(v, tree, path.comps)->0).0.first_cluster),
    ensures
        ({
            let gone = (leads_to_entry(v, tree, path.comps)->0).0.first_cluster;
            match v.directory_is_empty(gone) {
                Ok(true) => {
                    let (w, r) = v.rmdir(path);
                    &&& r == Ok::<(), Error>(())
                    &&& removed(
                        v,
                        w,
                        tree.remove(gone),
                        parent_dir(v, tree, path.comps)->0,
                        path.comps.last(),
                        tree[gone],
                    )
                    &&& w.lookup(path) == Err::<(EntryView, Option<EntryLocation>), Error>(
                        Error::NotFound,
                    )
                },
                Ok(false) => v.rmdir(path) == (v, Err::<(), Error>(Error::DirectoryNotEmpty)),
                Err(_) => false,
            }
        }),
{
    let root = v.geo.root_cluster;
    let b = parent_dir(v, tree, path.comps)->0;
    let name = path.comps.last();
    let n = (path.comps.len() - 1) as nat;
    lemma_lookup(v, tree, path, b);
    let k = search(v.slots(tree[b]), name)->0 as int;
    let e = v.slots(tree[b])[k];
    let gone = e.first_cluster;
    let t = tree[gone];
    lemma_empty_dir(v, t);
    if v.directory_is_empty(gone) == Ok::<bool, Error>(true) {
        assert(b != gone);
        assert(root != gone) by {
            if root == gone && n > 0 {
                assert(search(v.slots(tree[gone]), path.comps[0]) is None);
            }
        }
        let rest = tree.remove(gone);
        assert(v.is_chain(t));
        assert(v.geo.has_cluster(t[0]));
        assert forall|c: ClusterId| #[trigger] rest.contains_key(c) implies avoids(
            rest[c],
            t.to_set(),
        ) by {
            assert forall|i: int| 0 <= i < rest[c].len() implies !t.to_set().contains(
                #[trigger] rest[c][i],
            ) by {
                if t.to_set().contains(rest[c][i]) {
                    let j = choose|j: int| 0 <= j < t.len() && t[j] == rest[c][i];
                    assert(tree[gone][j] != tree[c][i]);
                }
            }
        }
        assert(is_tree(v, rest)) by {
            assert forall|x: ClusterId, y: ClusterId, i: int, j: int|
                #![trigger rest[x][i], rest[y][j]]
                rest.contains_key(x) && rest.contains_key(y) && x != y && 0 <= i < rest[x].len()
                    && 0 <= j < rest[y].len() implies rest[x][i] != rest[y][j] by {
                assert(tree[x][i] != tree[y][j]);
            }
        }
        lemma_remove(v, rest, b, name, k, t);
        lemma_dir_of_avoids(v, tree, gone, root, path.comps, 0, n, b);
        let w = v.rmdir(path).0;
        lemma_dir_of_without(v, w, rest, b, name, root, path.comps, 0, n);
        lemma_lookup(w, rest, path, b);
    }
}

/// A new directory is found under its path, and is empty.
pub proof fn law_a_new_directory_is_empty(
    v: FsView,
    tree: Tree,
    path: PathView,
    now: DateTime,
) -> (later: Tree)
    requires
        v.wf(),
        v.linkable(),
        v.geo.writable,
        is_tree(v, tree),
        tree.contains_key(v.geo.root_cluster),
        path.absolute,
        path.comps.len() > 0,
        parent_dir(v, tree, path.comps) is Some,
    ensures
        match v.mkdir(path, now) {
            (w, Ok(())) => {
                &&& w.wf()
                &&& is_tree(w, later)
                &&& later.contains_key(v.geo.root_cluster)
                &&& finds_as_much(v, tree, w, later)
                &&& leads_to_entry(w, later, path.comps) is Some
                &&& ({
                    let (e, location) = leads_to_entry(w, later, path.comps)->0;
                    &&& e.is_directory()
                    &&& w.lookup(path) == Ok::<(EntryView, Option<EntryLocation>), Error>(
                        (e, Some(location)),
                    )
                    &&& e == EntryView::new_node(
                        path.comps.last(),
                        FATX_ATTR_DIRECTORY,
                        e.first_cluster,
                        now,
                        v.geo.variant,
                    )
                    &&& later.contains_key(e.first_cluster)
                    &&& later[e.first_cluster] == seq![e.first_cluster]
                    &&& w.slots(later[e.first_cluster]).len() > 0
                    &&& w.slots(later[e.first_cluster])[0].filename_len == 0xff
                    &&& w.directory_is_empty(e.first_cluster) == Ok::<bool, Error>(true)
                })
                &&& leads_to_entry(v, tree, path.comps) is None
                &&& is_file_name(path.comps.last())
                &&& kept(v, w, tree[parent_dir(v, tree, path.comps)->0].to_set())
            },
            (w, Err(er)) => if leads_to_entry(v, tree, path.comps) is Some {
                er == Error::AlreadyExists && w == v
            } else {
                &&& er == Error::NoSpaceLeft || (er == Error::InvalidFileName && !is_file_name(
                    path.comps.last(),
                ))
                &&& er == Error::NoSpaceLeft ==> later == tree && at_most_one_free(v)
                &&& undone(v, tree, parent_dir(v, tree, path.comps)->0, w, later)
            },
        },
{
    let middle = law_created_node_is_found(v, tree, path, FATX_ATTR_DIRECTORY, now);
    match v.create_node(path, FATX_ATTR_DIRECTORY, now) {
        (u, Ok((e, location))) => {
            let c = e.first_cluster;
            let d = seq![c];
            let later = middle.insert(c, d);
            assert(e.is_directory()) by {
                assert(0x10u8 & 0x08u8 != 0x08u8) by (bit_vector);
                assert(0x10u8 & 0x10u8 == 0x10u8) by (bit_vector);
            }
            assert(!middle.contains_key(c)) by {
                if middle.contains_key(c) {
                    assert(avoids(middle[c], set![c]));
                    assert(!set![c].contains(middle[c][0]));
                }
            }
            lemma_zero_dir(u, c);
            assert(is_tree(u, later)) by {
                assert forall|x: ClusterId, y: ClusterId, i: int, j: int|
                    #![trigger later[x][i], later[y][j]]
                    later.contains_key(x) && later.contains_key(y) && x != y && 0 <= i
                        < later[x].len() && 0 <= j < later[y].len() implies later[x][i]
                    != later[y][j] by {
                    if x == c {
                        assert(avoids(middle[y], set![c]));
                        assert(!set![c].contains(middle[y][j]));
                    } else if y == c {
                        assert(avoids(middle[x], set![c]));
                        assert(!set![c].contains(middle[x][i]));
                    } else {
                        assert(middle[x][i] != middle[y][j]);
                    }
                }
            }
            assert(u.place_of(d, 0) == EntryLocation { cluster: c, index: 0 }) by {
                lemma_slot_split(u, 0, 1);
                crate::tree::lemma_slot(u, 0, 0);
            }
            lemma_put_mark(u, d, 0, FATX_END_OF_DIR_MARKER);
            let w = u.put_marker(
                EntryLocation { cluster: c, index: 0 },
                FATX_END_OF_DIR_MARKER,
            ).0;
            let end = marked(u.slots(d)[0], FATX_END_OF_DIR_MARKER);
            assert(w.slots(d)[0] == end);
            assert(names_differ(w.slots(d))) by {
                assert forall|i: int, j: int, name: Seq<u8>|
                    #![trigger w.slots(d)[i].has_name(name), w.slots(d)[j].has_name(name)]
                    0 <= i < j < w.slots(d).len() && is_before_end(w.slots(d), j) && w.slots(
                        d,
                    )[i].has_name(name) implies !w.slots(d)[j].has_name(name) by {
                    assert(!(w.slots(d)[0].kind() is EndOfDirectory));
                }
            }
            assert(reshaped(u, d, w, d));
            lemma_tree_reshaped(u, later, c, w, d);
            assert(later.insert(c, d) =~= later);
            assert(finds_as_much(u, middle, w, later)) by {
                assert forall|x: ClusterId, name: Seq<u8>|
                    #![trigger search(w.slots(later[x]), name)]
                    #![trigger search(u.slots(middle[x]), name)]
                    middle.contains_key(x) && search(u.slots(middle[x]), name) is Some implies ({
                    let j = search(u.slots(middle[x]), name)->0;
                    &&& search(w.slots(later[x]), name) == Some(j)
                    &&& w.slots(later[x])[j as int] == u.slots(middle[x])[j as int]
                    &&& w.place_of(later[x], j as int) == u.place_of(middle[x], j as int)
                }) by {
                    assert(w.slots(later.insert(c, d)[x]) == u.slots(later[x]));
                }
            }
            let at = tree[parent_dir(v, tree, path.comps)->0].to_set();
            assert(kept(v, w, at)) by {
                assert(within_or_free(v, d.to_set(), at)) by {
                    assert forall|x: ClusterId| #[trigger] d.to_set().contains(x) implies v.is_free(
                        x,
                    ) by {
                        let i = choose|i: int| 0 <= i < d.len() && d[i] == x;
                        assert(d[i] == c);
                    }
                }
                lemma_kept_trans(v, u, w, at, d.to_set());
            }
            lemma_finds_trans(v, tree, u, middle, w, later);
            lemma_leads_kept(u, middle, w, later, path.comps);
            let b = parent_dir(w, later, path.comps)->0;
            lemma_lookup(w, later, path, b);
            lemma_empty_dir(w, d);
            assert forall|k: int|
                0 <= k < w.slots(d).len() && is_before_end(w.slots(d), k) implies !((
            #[trigger] w.slots(d)[k]).kind() is Valid) by {
                assert(!(w.slots(d)[0].kind() is EndOfDirectory));
            }
            later
        },
        _ => middle,
    }
}

/// A cluster full of zeroes is a directory that ends at once.
proof fn lemma_zero_dir(v: FsView, c: ClusterId)
    requires
        v.wf(),
        v.is_chain(seq![c]),
        v.is_loaded(c),
        is_zero(v, c),
    ensures
        v.is_dir(seq![c]),
        v.slots(seq![c]).len() == v.epc(),
{
    let d = seq![c];
    assert forall|k: int| 0 <= k < v.slots(d).len() implies (
    #[trigger] v.slots(d)[k]).kind() is EndOfDirectory by {
        lemma_slot_split(v, k, 1);
        let j = k % v.epc() as int;
        assert(d[k / v.epc() as int] == c);
        assert(v.has_byte(c, j * 64) && v.byte_of(c, j * 64) == 0);
        assert(v.slot_bytes(c, j)[0] == 0);
    }
    assert(names_differ(v.slots(d))) by {
        assert forall|i: int, j: int, name: Seq<u8>|
            #![trigger v.slots(d)[i].has_name(name), v.slots(d)[j].has_name(name)]
            0 <= i < j < v.slots(d).len() && is_before_end(v.slots(d), j) && v.slots(
                d,
            )[i].has_name(name) implies !v.slots(d)[j].has_name(name) by {
            assert(v.slots(d)[0].kind() is EndOfDirectory);
        }
    }
}

} // verus!
