//! What holds of operations that work out, on an image that is in order.

use vstd::prelude::*;

#[allow(unused_imports)]
use crate::chain::{kept, same_bytes};
#[allow(unused_imports)]
use crate::contents::reads_on_as_zeroes;
use crate::datetime::DateTime;
#[allow(unused_imports)]
use crate::dir::{EntryLocation, EntryView};
use crate::error::Error;
use crate::fat::ClusterId;
#[allow(unused_imports)]
use crate::file::FileView;
#[allow(unused_imports)]
use crate::names::{
    dir_of, is_tree, leads_to_entry, lemma_dir_of, lemma_dir_of_avoids, lemma_dir_of_last,
    lemma_dir_of_prefix, lemma_empty_dir, lemma_finds_more, lemma_lookup, lemma_same_emptiness,
    lemma_split_parent, lemma_tree_reshaped, owns, parent_dir, Tree,
};
#[allow(unused_imports)]
use crate::path::PathView;
#[allow(unused_imports)]
use crate::renaming::{is_apart, is_replaceable, law_renamed_entry_moves, moved, passes};
#[allow(unused_imports)]
use crate::slots::search;
#[allow(unused_imports)]
use crate::tree::{avoids, lemma_alloc_entry, lemma_dir_kept, lemma_find, same_find};
#[allow(unused_imports)]
use crate::updates::law_a_resized_file_is_found;
#[allow(unused_imports)]
use crate::volume::FsView;

verus! {

/// The entry with a given name in one of some directories.
pub open spec fn entry_of(v: FsView, tree: Tree, c: ClusterId, name: Seq<u8>) -> Option<EntryView> {
    match search(v.slots(tree[c]), name) {
        Some(j) => Some(v.slots(tree[c])[j as int]),
        None => None,
    }
}

/// Whether an entry that is no directory has some clusters, enough of them for
/// its size, and none of them is one of a directory.
pub open spec fn holds(v: FsView, tree: Tree, e: EntryView, s: Seq<ClusterId>) -> bool {
    &&& owns(v, e, s)
    &&& e.file_size <= s.len() * v.bpc()
    &&& forall|c: ClusterId| #[trigger] tree.contains_key(c) ==> avoids(tree[c], s.to_set())
}

/// The clusters of an entry.
pub open spec fn clusters_of(v: FsView, tree: Tree, e: EntryView) -> Seq<ClusterId> {
    if e.is_directory() {
        tree[e.first_cluster]
    } else {
        choose|s: Seq<ClusterId>| holds(v, tree, e, s)
    }
}

/// Whether an entry is that of a directory other than the root, or has clusters.
pub open spec fn is_sound(v: FsView, tree: Tree, e: EntryView) -> bool {
    if e.is_directory() {
        tree.contains_key(e.first_cluster) && e.first_cluster != v.geo.root_cluster
    } else {
        exists|s: Seq<ClusterId>| holds(v, tree, e, s)
    }
}

/// Whether two entries do not share anything.
pub open spec fn are_apart(v: FsView, tree: Tree, e: EntryView, f: EntryView) -> bool {
    if e.is_directory() && f.is_directory() {
        e.first_cluster != f.first_cluster
    } else {
        e.is_directory() || f.is_directory() || avoids(
            clusters_of(v, tree, e),
            clusters_of(v, tree, f).to_set(),
        )
    }
}

/// Whether an image is in order: these are all its directories, and every
/// cluster in use belongs to just one entry.
#[verifier::opaque]
pub open spec fn in_order(v: FsView, tree: Tree) -> bool {
    &&& is_tree(v, tree)
    &&& tree.contains_key(v.geo.root_cluster)
    &&& forall|c: ClusterId, name: Seq<u8>|
        #![trigger entry_of(v, tree, c, name)]
        tree.contains_key(c) && entry_of(v, tree, c, name) is Some ==> is_sound(
            v,
            tree,
            entry_of(v, tree, c, name)->0,
        )
    &&& forall|c: ClusterId, name: Seq<u8>, d: ClusterId, other: Seq<u8>|
        #![trigger entry_of(v, tree, c, name), entry_of(v, tree, d, other)]
        tree.contains_key(c) && tree.contains_key(d) && (c != d || name != other) && entry_of(
            v,
            tree,
            c,
            name,
        ) is Some && entry_of(v, tree, d, other) is Some ==> are_apart(
            v,
            tree,
            entry_of(v, tree, c, name)->0,
            entry_of(v, tree, d, other)->0,
        )
}

/// Whether some directories are among others.
pub open spec fn is_part(sub: Tree, tree: Tree) -> bool {
    forall|c: ClusterId| #[trigger]
        sub.contains_key(c) ==> tree.contains_key(c) && tree[c] == sub[c]
}

pub proof fn lemma_dir_of_part(
    v: FsView,
    sub: Tree,
    tree: Tree,
    c: ClusterId,
    comps: Seq<Seq<u8>>,
    k: nat,
    n: nat,
)
    requires
        is_part(sub, tree),
        sub.contains_key(c),
        dir_of(v, sub, c, comps, k, n) is Some,
    ensures
        dir_of(v, tree, c, comps, k, n) == dir_of(v, sub, c, comps, k, n),
    decreases n - k,
{
    if k < n {
        let j = search(v.slots(sub[c]), comps[k as int])->0;
        let e = v.slots(sub[c])[j as int];
        lemma_dir_of_part(v, sub, tree, e.first_cluster, comps, k + 1, n);
    }
}

/// One step more leads to the directory the entry found there is that of.
proof fn lemma_dir_of_more(
    v: FsView,
    tree: Tree,
    c: ClusterId,
    comps: Seq<Seq<u8>>,
    k: nat,
    n: nat,
    a: ClusterId,
)
    requires
        k <= n,
        dir_of(v, tree, c, comps, k, n) == Some(a),
        entry_of(v, tree, a, comps[n as int]) matches Some(e) && e.is_directory()
            && tree.contains_key(e.first_cluster),
    ensures
        dir_of(v, tree, c, comps, k, n + 1) == Some(
            (entry_of(v, tree, a, comps[n as int])->0).first_cluster,
        ),
    decreases n - k,
{
    let j = search(v.slots(tree[c]), comps[k as int])->0;
    let e = v.slots(tree[c])[j as int];
    if k < n {
        lemma_dir_of_more(v, tree, e.first_cluster, comps, k + 1, n, a);
    } else {
        assert(dir_of(v, tree, e.first_cluster, comps, k + 1, n + 1) == Some(e.first_cluster));
    }
}

/// What is found by descending lies in one of the directories.
proof fn lemma_descends(v: FsView, tree: Tree, c: ClusterId, comps: Seq<Seq<u8>>, k: nat)
    requires
        v.wf(),
        in_order(v, tree),
        tree.contains_key(c),
        k < comps.len(),
        v.descend(c, comps, k) is Ok,
    ensures
        dir_of(v, tree, c, comps, k, (comps.len() - 1) as nat) is Some,
    decreases comps.len() - k,
{
    reveal(in_order);
    if k + 1 < comps.len() {
        lemma_find(v, tree[c], comps[k as int]);
        let e = entry_of(v, tree, c, comps[k as int])->0;
        assert(is_sound(v, tree, e));
        lemma_descends(v, tree, e.first_cluster, comps, k + 1);
    }
}

/// What a path is found to lead to lies in one of the directories.
pub proof fn lemma_found(v: FsView, tree: Tree, path: PathView)
    requires
        v.wf(),
        in_order(v, tree),
        v.lookup(path) matches Ok((_, Some(_))),
    ensures
        path.absolute,
        path.comps.len() > 0,
        parent_dir(v, tree, path.comps) is Some,
        tree.contains_key(parent_dir(v, tree, path.comps)->0),
        leads_to_entry(v, tree, path.comps) is Some,
        ({
            let (e, location) = leads_to_entry(v, tree, path.comps)->0;
            &&& v.lookup(path) == Ok::<(EntryView, Option<EntryLocation>), Error>(
                (e, Some(location)),
            )
            &&& entry_of(
                v,
                tree,
                parent_dir(v, tree, path.comps)->0,
                path.comps.last(),
            ) == Some(e)
            &&& is_sound(v, tree, e)
        }),
{
    reveal(in_order);
    lemma_descends(v, tree, v.geo.root_cluster, path.comps, 0);
    let b = parent_dir(v, tree, path.comps)->0;
    lemma_lookup(v, tree, path, b);
    assert(entry_of(v, tree, b, path.comps.last()) is Some);
}

/// The directory that the parent of a path leads to is one of the directories.
pub proof fn lemma_parent_found(v: FsView, tree: Tree, path: PathView)
    requires
        v.wf(),
        in_order(v, tree),
        v.split_parent(path) is Ok,
    ensures
        path.absolute,
        path.comps.len() > 0,
        parent_dir(v, tree, path.comps) is Some,
        tree.contains_key(parent_dir(v, tree, path.comps)->0),
        v.split_parent(path) == Ok::<(ClusterId, Seq<u8>), Error>(
            (parent_dir(v, tree, path.comps)->0, path.comps.last()),
        ),
{
    reveal(in_order);
    let root = v.geo.root_cluster;
    let n = (path.comps.len() - 1) as nat;
    if n > 0 {
        let parent = path.parent();
        lemma_found(v, tree, parent);
        let a = parent_dir(v, tree, parent.comps)->0;
        assert(parent.comps.last() == path.comps[n - 1]);
        lemma_dir_of_prefix(v, tree, root, path.comps, 0, (n - 1) as nat);
        lemma_dir_of_more(v, tree, root, path.comps, 0, (n - 1) as nat, a);
    }
    lemma_dir_of(v, tree, root, path.comps, 0, n);
    lemma_split_parent(v, tree, path, parent_dir(v, tree, path.comps)->0);
}

/// There is just one way to a directory.
pub proof fn lemma_one_way(
    v: FsView,
    tree: Tree,
    p: Seq<Seq<u8>>,
    n: nat,
    q: Seq<Seq<u8>>,
    m: nat,
    x: ClusterId,
)
    requires
        in_order(v, tree),
        dir_of(v, tree, v.geo.root_cluster, p, 0, n) == Some(x),
        dir_of(v, tree, v.geo.root_cluster, q, 0, m) == Some(x),
    ensures
        n == m,
        forall|i: int| 0 <= i < n ==> #[trigger] p[i] == q[i],
    decreases n,
{
    reveal(in_order);
    let root = v.geo.root_cluster;
    if n > 0 {
        let a = lemma_dir_of_last(v, tree, root, p, 0, n, x);
        lemma_dir_of(v, tree, root, p, 0, (n - 1) as nat);
        assert(entry_of(v, tree, a, p[n - 1]) is Some);
        assert(is_sound(v, tree, entry_of(v, tree, a, p[n - 1])->0));
        if m > 0 {
            let b = lemma_dir_of_last(v, tree, root, q, 0, m, x);
            lemma_dir_of(v, tree, root, q, 0, (m - 1) as nat);
            assert(entry_of(v, tree, b, q[m - 1]) is Some);
            if a != b || p[n - 1] != q[m - 1] {
                assert(are_apart(
                    v,
                    tree,
                    entry_of(v, tree, a, p[n - 1])->0,
                    entry_of(v, tree, b, q[m - 1])->0,
                ));
            }
            lemma_one_way(v, tree, p, (n - 1) as nat, q, (m - 1) as nat, a);
        }
    } else if m > 0 {
        let b = lemma_dir_of_last(v, tree, root, q, 0, m, x);
        lemma_dir_of(v, tree, root, q, 0, (m - 1) as nat);
        assert(entry_of(v, tree, b, q[m - 1]) is Some);
        assert(is_sound(v, tree, entry_of(v, tree, b, q[m - 1])->0));
    }
}

/// A way that goes through an entry reaches the directory of that entry first.
proof fn lemma_passes(
    v: FsView,
    tree: Tree,
    c: ClusterId,
    comps: Seq<Seq<u8>>,
    k: nat,
    n: nat,
    a: ClusterId,
    name: Seq<u8>,
) -> (i: nat)
    requires
        dir_of(v, tree, c, comps, k, n) is Some,
        passes(v, tree, c, comps, k, n, a, name),
    ensures
        k <= i < n,
        dir_of(v, tree, c, comps, k, i) == Some(a),
        comps[i as int] == name,
        entry_of(v, tree, a, name) matches Some(e) && e.is_directory(),
    decreases n - k,
{
    if c == a && comps[k as int] == name {
        k
    } else {
        let j = search(v.slots(tree[c]), comps[k as int])->0;
        let e = v.slots(tree[c])[j as int];
        lemma_passes(v, tree, e.first_cluster, comps, k + 1, n, a, name)
    }
}

/// The way to the directory of an entry does not go through that entry, nor
/// does the way to anything that does not lie beneath it.
pub proof fn lemma_ways_apart(v: FsView, sub: Tree, tree: Tree, from: PathView, to: PathView)
    requires
        in_order(v, tree),
        is_part(sub, tree),
        sub.contains_key(v.geo.root_cluster),
        from.absolute,
        to.absolute,
        from.comps.len() > 0,
        to.comps.len() > 0,
        parent_dir(v, sub, from.comps) is Some,
        parent_dir(v, sub, to.comps) is Some,
        ({
            let a = parent_dir(v, sub, from.comps)->0;
            entry_of(v, tree, a, from.comps.last()) matches Some(e) ==> !(e.is_directory()
                && to.starts_with(from))
        }),
    ensures
        is_apart(v, sub, from, parent_dir(v, sub, from.comps)->0, from.comps.last()),
        is_apart(v, sub, to, parent_dir(v, sub, from.comps)->0, from.comps.last()),
{
    reveal(in_order);
    let root = v.geo.root_cluster;
    let name = from.comps.last();
    let a = parent_dir(v, sub, from.comps)->0;
    let n = (from.comps.len() - 1) as nat;
    let m = (to.comps.len() - 1) as nat;
    lemma_dir_of_part(v, sub, tree, root, from.comps, 0, n);
    lemma_dir_of(v, sub, root, from.comps, 0, n);
    if passes(v, sub, root, from.comps, 0, n, a, name) {
        let i = lemma_passes(v, sub, root, from.comps, 0, n, a, name);
        lemma_dir_of_part(v, sub, tree, root, from.comps, 0, i);
        lemma_one_way(v, tree, from.comps, i, from.comps, n, a);
    }
    if passes(v, sub, root, to.comps, 0, m, a, name) {
        let i = lemma_passes(v, sub, root, to.comps, 0, m, a, name);
        lemma_dir_of_part(v, sub, tree, root, to.comps, 0, i);
        lemma_one_way(v, tree, to.comps, i, from.comps, n, a);
        assert(to.comps.take(from.comps.len() as int) =~= from.comps);
        assert(entry_of(v, sub, a, name) == entry_of(v, tree, a, name));
    }
}

/// A directory that has been replaced was empty.
pub proof fn lemma_replaced_was_empty(
    v: FsView,
    tree: Tree,
    to: PathView,
    b: ClusterId,
    existing: EntryView,
)
    requires
        v.wf(),
        v.linkable(),
        in_order(v, tree),
        to.absolute,
        to.comps.len() > 0,
        parent_dir(v, tree, to.comps) == Some(b),
        entry_of(v, tree, b, to.comps.last()) == Some(existing),
        existing.is_directory(),
        v.alloc_entry(b).1 is Ok,
        v.alloc_entry(b).0.replace(to).1 is Ok,
    ensures
        existing.first_cluster != b,
        v.directory_is_empty(existing.first_cluster) == Ok::<bool, Error>(true),
{
    reveal(in_order);
    let root = v.geo.root_cluster;
    let n = (to.comps.len() - 1) as nat;
    let g = existing.first_cluster;
    lemma_dir_of(v, tree, root, to.comps, 0, n);
    assert(is_sound(v, tree, existing));
    if g == b {
        lemma_dir_of_more(v, tree, root, to.comps, 0, n, b);
        lemma_one_way(v, tree, to.comps, n, to.comps, n + 1, b);
    }
    let (d, k) = lemma_alloc_entry(v, tree[b]);
    let u = v.alloc_entry(b).0;
    let later = tree.insert(b, d);
    lemma_tree_reshaped(v, tree, b, u, d);
    lemma_finds_more(v, tree, b, u, d);
    lemma_way_kept_on(v, tree, u, later, to.comps, b);
    assert(same_find(v.slots(tree[b]), u.slots(d), to.comps.last()));
    lemma_lookup(u, later, to, b);
    assert(u.directory_is_empty(g) == Ok::<bool, Error>(true));
    let s = tree[g];
    assert(avoids(s, tree[b].to_set())) by {
        assert forall|i: int| 0 <= i < s.len() implies !tree[b].to_set().contains(
            #[trigger] s[i],
        ) by {
            if tree[b].to_set().contains(s[i]) {
                let j = choose|j: int| 0 <= j < tree[b].len() && tree[b][j] == s[i];
                assert(tree[g][i] != tree[b][j]);
            }
        }
    }
    lemma_dir_kept(v, u, s, tree[b].to_set());
    lemma_same_emptiness(v, u, s);
}

proof fn lemma_way_kept_on(
    v: FsView,
    tree: Tree,
    u: FsView,
    later: Tree,
    comps: Seq<Seq<u8>>,
    b: ClusterId,
)
    requires
        crate::names::finds_as_much(v, tree, u, later),
        tree.contains_key(v.geo.root_cluster),
        parent_dir(v, tree, comps) == Some(b),
    ensures
        parent_dir(u, later, comps) == Some(b),
{
    crate::names::lemma_dir_of_kept(
        v,
        tree,
        u,
        later,
        v.geo.root_cluster,
        comps,
        0,
        (comps.len() - 1) as nat,
    );
}

/// A rename that works out moves a node: it is found under the new path, with
/// nothing but its name changed, and no longer under the old one, and neither its
/// clusters nor what they hold have changed.
pub proof fn law_a_rename_moves_a_node(v: FsView, tree: Tree, from: PathView, to: PathView)
    requires
        v.wf(),
        v.linkable(),
        in_order(v, tree),
        from != to,
        v.rename(from, to).1 is Ok,
    ensures
        v.lookup(from) is Ok,
        ({
            let e = (v.lookup(from)->Ok_0).0;
            let s = clusters_of(v, tree, e);
            let w = v.rename(from, to).0;
            &&& w.lookup(to) matches Ok((f, Some(_))) && f == e.renamed(to.comps.last())
            &&& w.lookup(from) == Err::<(EntryView, Option<EntryLocation>), Error>(Error::NotFound)
            &&& forall|i: int|
                #![trigger s[i]]
                0 <= i < s.len() ==> w.link(s[i]) == v.link(s[i]) && same_bytes(v, w, s[i])
        }),
{
    lemma_rename_steps(v, from, to);
    lemma_rename_found(v, tree, from, to);
    let b = parent_dir(v, tree, to.comps)->0;
    let (e, _) = leads_to_entry(v, tree, from.comps)->0;
    let existing = entry_of(v, tree, b, to.comps.last());
    let gone = if existing is Some {
        clusters_of(v, tree, existing->0)
    } else {
        Seq::empty()
    };
    let sub = if existing is Some && (existing->0).is_directory() {
        tree.remove((existing->0).first_cluster)
    } else {
        tree
    };
    lemma_rename_works(v, tree, from, to, existing, gone, sub);
    lemma_node_apart(v, tree, from, to, e, existing, gone);
    let a = parent_dir(v, tree, from.comps)->0;
    lemma_chain_kept(
        v,
        v.rename(from, to).0,
        clusters_of(v, tree, e),
        tree[a].to_set() + tree[b].to_set() + gone.to_set(),
    );
}

/// Clusters of a chain that are none of those something changes are the same
/// afterwards.
proof fn lemma_chain_kept(v: FsView, w: FsView, s: Seq<ClusterId>, changed: Set<ClusterId>)
    requires
        s.len() > 0 ==> v.is_chain(s),
        kept(v, w, changed),
        avoids(s, changed),
    ensures
        forall|i: int|
            #![trigger s[i]]
            0 <= i < s.len() ==> w.link(s[i]) == v.link(s[i]) && same_bytes(v, w, s[i]),
{
    assert forall|i: int|
        #![trigger s[i]]
        0 <= i < s.len() implies w.link(s[i]) == v.link(s[i]) && same_bytes(v, w, s[i]) by {
        if i < s.len() - 1 {
            assert(v.leads_to(s[i], s[i + 1]));
        }
        assert(!changed.contains(s[i]));
        assert(v.geo.has_cluster(s[i]));
    }
}

/// The steps of a rename that works out.
pub proof fn lemma_rename_steps(v: FsView, from: PathView, to: PathView)
    requires
        from != to,
        v.rename(from, to).1 is Ok,
    ensures
        v.geo.writable,
        v.lookup(from) matches Ok((e, Some(_))) && !(e.is_directory() && to.starts_with(from)),
        v.split_parent(to) matches Ok((b, name)) && crate::dir::is_file_name(name) && v.alloc_entry(
            b,
        ).1 is Ok && v.alloc_entry(b).0.replace(to).1 is Ok,
{
}

/// What a rename that works out has found on its way.
pub proof fn lemma_rename_found(v: FsView, tree: Tree, from: PathView, to: PathView)
    requires
        v.wf(),
        in_order(v, tree),
        from != to,
        v.lookup(from) matches Ok((e, Some(_))) && !(e.is_directory() && to.starts_with(from)),
        v.split_parent(to) is Ok,
    ensures
        from.absolute,
        to.absolute,
        from.comps.len() > 0,
        to.comps.len() > 0,
        leads_to_entry(v, tree, from.comps) is Some,
        parent_dir(v, tree, from.comps) is Some,
        parent_dir(v, tree, to.comps) is Some,
        tree.contains_key(parent_dir(v, tree, from.comps)->0),
        tree.contains_key(parent_dir(v, tree, to.comps)->0),
        v.split_parent(to) == Ok::<(ClusterId, Seq<u8>), Error>(
            (parent_dir(v, tree, to.comps)->0, to.comps.last()),
        ),
        (parent_dir(v, tree, from.comps), from.comps.last()) != (
            parent_dir(v, tree, to.comps),
            to.comps.last(),
        ),
        ({
            let (e, location) = leads_to_entry(v, tree, from.comps)->0;
            &&& v.lookup(from) == Ok::<(EntryView, Option<EntryLocation>), Error>(
                (e, Some(location)),
            )
            &&& entry_of(
                v,
                tree,
                parent_dir(v, tree, from.comps)->0,
                from.comps.last(),
            ) == Some(e)
            &&& !(e.is_directory() && to.starts_with(from))
        }),
{
    lemma_found(v, tree, from);
    lemma_parent_found(v, tree, to);
    let a = parent_dir(v, tree, from.comps)->0;
    let b = parent_dir(v, tree, to.comps)->0;
    let n = (from.comps.len() - 1) as nat;
    let m = (to.comps.len() - 1) as nat;
    if a == b && from.comps.last() == to.comps.last() {
        lemma_one_way(v, tree, from.comps, n, to.comps, m, a);
        assert(from.comps =~= to.comps);
    }
}

/// What such a rename makes of the entry and of everything else.
pub proof fn lemma_rename_works(
    v: FsView,
    tree: Tree,
    from: PathView,
    to: PathView,
    existing: Option<EntryView>,
    gone: Seq<ClusterId>,
    sub: Tree,
) -> (later: Tree)
    requires
        v.wf(),
        v.linkable(),
        in_order(v, tree),
        from != to,
        v.rename(from, to).1 is Ok,
        existing == entry_of(v, tree, parent_dir(v, tree, to.comps)->0, to.comps.last()),
        gone == (if existing is Some {
            clusters_of(v, tree, existing->0)
        } else {
            Seq::empty()
        }),
        sub == (if existing is Some && (existing->0).is_directory() {
            tree.remove((existing->0).first_cluster)
        } else {
            tree
        }),
    ensures
        ({
            let (e, _) = leads_to_entry(v, tree, from.comps)->0;
            let a = parent_dir(v, tree, from.comps)->0;
            let b = parent_dir(v, tree, to.comps)->0;
            let w = v.rename(from, to).0;
            &&& w.lookup(to) matches Ok((f, Some(_))) && f == e.renamed(to.comps.last())
            &&& w.lookup(from) == Err::<(EntryView, Option<EntryLocation>), Error>(Error::NotFound)
            &&& kept(v, w, tree[a].to_set() + tree[b].to_set() + gone.to_set())
            &&& is_tree(w, later)
            &&& moved(v, sub, from, to, gone, (w, Ok(())), later)
        }),
{
    lemma_rename_steps(v, from, to);
    lemma_rename_found(v, tree, from, to);
    lemma_sub(v, tree, from, to, existing, gone, sub);
    lemma_ways_apart(v, sub, tree, from, to);
    let later = law_renamed_entry_moves(v, sub, from, to, gone);
    assert(moved(v, sub, from, to, gone, v.rename(from, to), later));
    later
}

/// The directories but for one that is replaced still lead to both ends of a
/// rename.
pub proof fn lemma_sub(
    v: FsView,
    tree: Tree,
    from: PathView,
    to: PathView,
    existing: Option<EntryView>,
    gone: Seq<ClusterId>,
    sub: Tree,
)
    requires
        v.wf(),
        v.linkable(),
        in_order(v, tree),
        from.absolute,
        to.absolute,
        from.comps.len() > 0,
        to.comps.len() > 0,
        leads_to_entry(v, tree, from.comps) is Some,
        parent_dir(v, tree, to.comps) is Some,
        existing == entry_of(v, tree, parent_dir(v, tree, to.comps)->0, to.comps.last()),
        gone == (if existing is Some {
            clusters_of(v, tree, existing->0)
        } else {
            Seq::empty()
        }),
        sub == (if existing is Some && (existing->0).is_directory() {
            tree.remove((existing->0).first_cluster)
        } else {
            tree
        }),
        v.alloc_entry(parent_dir(v, tree, to.comps)->0).1 is Ok,
        v.alloc_entry(parent_dir(v, tree, to.comps)->0).0.replace(to).1 is Ok,
    ensures
        is_part(sub, tree),
        is_tree(v, sub),
        sub.contains_key(v.geo.root_cluster),
        parent_dir(v, sub, from.comps) == parent_dir(v, tree, from.comps),
        parent_dir(v, sub, to.comps) == parent_dir(v, tree, to.comps),
        sub.contains_key(parent_dir(v, tree, from.comps)->0),
        sub.contains_key(parent_dir(v, tree, to.comps)->0),
        leads_to_entry(v, sub, from.comps) == leads_to_entry(v, tree, from.comps),
        match leads_to_entry(v, sub, to.comps) {
            None => gone.len() == 0,
            Some((e, _)) => is_replaceable(v, e, gone),
        },
        forall|c: ClusterId| #[trigger] sub.contains_key(c) ==> avoids(sub[c], gone.to_set()),
{
    reveal(in_order);
    let root = v.geo.root_cluster;
    let a = parent_dir(v, tree, from.comps)->0;
    let b = parent_dir(v, tree, to.comps)->0;
    let n = (from.comps.len() - 1) as nat;
    let m = (to.comps.len() - 1) as nat;
    lemma_dir_of(v, tree, root, from.comps, 0, n);
    lemma_dir_of(v, tree, root, to.comps, 0, m);
    if existing is Some {
        let x = existing->0;
        assert(is_sound(v, tree, x));
        if x.is_directory() {
            let g = x.first_cluster;
            lemma_replaced_was_empty(v, tree, to, b, x);
            lemma_empty_dir(v, tree[g]);
            assert(search(v.slots(tree[g]), from.comps.last()) is None);
            lemma_dir_of_avoids(v, tree, g, root, from.comps, 0, n, a);
            lemma_dir_of_avoids(v, tree, g, root, to.comps, 0, m, b);
            assert(g != 0) by {
                assert(v.geo.has_cluster(tree[g][0]));
            }
            assert forall|c: ClusterId| #[trigger] sub.contains_key(c) implies avoids(
                sub[c],
                gone.to_set(),
            ) by {
                assert forall|i: int| 0 <= i < sub[c].len() implies !gone.to_set().contains(
                    #[trigger] sub[c][i],
                ) by {
                    if gone.to_set().contains(sub[c][i]) {
                        let j = choose|j: int| 0 <= j < gone.len() && gone[j] == sub[c][i];
                        assert(tree[c][i] != tree[g][j]);
                    }
                }
            }
        }
    } else {
        assert(gone.to_set() =~= Set::empty());
    }
}

/// A node that moves has none of the clusters of the two directories, nor of
/// what it replaces.
proof fn lemma_node_apart(
    v: FsView,
    tree: Tree,
    from: PathView,
    to: PathView,
    e: EntryView,
    existing: Option<EntryView>,
    gone: Seq<ClusterId>,
)
    requires
        v.wf(),
        in_order(v, tree),
        from.comps.len() > 0,
        to.comps.len() > 0,
        from.absolute == to.absolute,
        parent_dir(v, tree, from.comps) is Some,
        parent_dir(v, tree, to.comps) is Some,
        entry_of(v, tree, parent_dir(v, tree, from.comps)->0, from.comps.last()) == Some(e),
        existing == entry_of(v, tree, parent_dir(v, tree, to.comps)->0, to.comps.last()),
        gone == (if existing is Some {
            clusters_of(v, tree, existing->0)
        } else {
            Seq::empty()
        }),
        (parent_dir(v, tree, from.comps), from.comps.last()) != (
            parent_dir(v, tree, to.comps),
            to.comps.last(),
        ),
        !(e.is_directory() && to.starts_with(from)),
    ensures
        ({
            let s = clusters_of(v, tree, e);
            let a = parent_dir(v, tree, from.comps)->0;
            let b = parent_dir(v, tree, to.comps)->0;
            &&& s.len() > 0 ==> v.is_chain(s)
            &&& avoids(s, tree[a].to_set() + tree[b].to_set() + gone.to_set())
        }),
{
    reveal(in_order);
    let root = v.geo.root_cluster;
    let a = parent_dir(v, tree, from.comps)->0;
    let b = parent_dir(v, tree, to.comps)->0;
    let n = (from.comps.len() - 1) as nat;
    let m = (to.comps.len() - 1) as nat;
    let s = clusters_of(v, tree, e);
    lemma_dir_of(v, tree, root, from.comps, 0, n);
    lemma_dir_of(v, tree, root, to.comps, 0, m);
    assert(is_sound(v, tree, e));
    if existing is Some {
        assert(is_sound(v, tree, existing->0));
        assert(are_apart(v, tree, e, existing->0));
    }
    if e.is_directory() {
        let g = e.first_cluster;
        lemma_dir_of_more(v, tree, root, from.comps, 0, n, a);
        if g == a {
            lemma_one_way(v, tree, from.comps, n, from.comps, n + 1, a);
        }
        if g == b {
            lemma_one_way(v, tree, to.comps, m, from.comps, n + 1, b);
            assert(to.comps.take(from.comps.len() as int) =~= from.comps);
        }
    }
    assert forall|i: int|
        #![trigger s[i]]
        0 <= i < s.len() implies !(tree[a].to_set() + tree[b].to_set() + gone.to_set()).contains(
        s[i],
    ) by {
        lemma_not_in_directory(v, tree, e, s, i, a);
        lemma_not_in_directory(v, tree, e, s, i, b);
        if gone.to_set().contains(s[i]) {
            let x = existing->0;
            let j = choose|j: int| 0 <= j < gone.len() && gone[j] == s[i];
            if x.is_directory() {
                lemma_not_in_directory(v, tree, e, s, i, x.first_cluster);
            } else if e.is_directory() {
                assert(holds(v, tree, x, gone));
                assert(avoids(tree[e.first_cluster], gone.to_set()));
                assert(!gone.to_set().contains(tree[e.first_cluster][i]));
            } else {
                assert(avoids(s, gone.to_set()));
            }
        }
    }
}

/// The clusters of an entry are not those of another directory.
proof fn lemma_not_in_directory(
    v: FsView,
    tree: Tree,
    e: EntryView,
    s: Seq<ClusterId>,
    i: int,
    c: ClusterId,
)
    requires
        in_order(v, tree),
        is_sound(v, tree, e),
        s == clusters_of(v, tree, e),
        0 <= i < s.len(),
        tree.contains_key(c),
        e.is_directory() ==> e.first_cluster != c,
    ensures
        !tree[c].to_set().contains(s[i]),
{
    reveal(in_order);
    if tree[c].to_set().contains(s[i]) {
        let j = choose|j: int| 0 <= j < tree[c].len() && tree[c][j] == s[i];
        if e.is_directory() {
            assert(tree[e.first_cluster][i] != tree[c][j]);
        } else {
            assert(holds(v, tree, e, s));
            assert(avoids(tree[c], s.to_set()));
            assert(!s.to_set().contains(tree[c][j]));
            assert(s.contains(s[i]));
        }
    }
}

/// Renaming to the same path is done at once, and changes nothing.
pub proof fn law_renaming_to_the_same_path_changes_nothing(v: FsView, path: PathView)
    requires
        v.geo.writable,
    ensures
        v.rename(path, path) == (v, Ok::<(), Error>(())),
{
}

/// A file that has been given another size reads as it did as far as it still
/// goes, and then as zeroes, whether or not it had clusters to spare, and takes
/// up just as many clusters as that size needs.
pub proof fn law_a_truncated_file_reads_as_it_did(
    v: FsView,
    tree: Tree,
    path: PathView,
    size: u64,
    now: DateTime,
) -> (t: Seq<ClusterId>)
    requires
        v.wf(),
        v.linkable(),
        in_order(v, tree),
        v.truncate(path, size, now).1 is Ok,
    ensures
        v.lookup(path) matches Ok((_, Some(_))),
        size <= u32::MAX,
        ({
            let (e, location) = v.lookup(path)->Ok_0;
            let w = v.truncate(path, size, now).0;
            let f = e.starting_at(t[0]).sized(size as u32).modified_at(now, v.geo.variant);
            &&& w.lookup(path) == Ok::<(EntryView, Option<EntryLocation>), Error>((f, location))
            &&& w.is_chain(t)
            &&& t.len() == v.clusters_for(size as nat)
            &&& reads_on_as_zeroes(
                v,
                clusters_of(v, tree, e),
                e.file_size,
                FileView::opened(f, location),
                w,
            )
        }),
{
    reveal(in_order);
    lemma_found(v, tree, path);
    let (e, location) = leads_to_entry(v, tree, path.comps)->0;
    let s = clusters_of(v, tree, e);
    assert(holds(v, tree, e, s));
    law_a_resized_file_is_found(v, tree, path, s, size as u32, now)
}

} // verus!
