//! What a rename comes to, on an image that is in order.

use vstd::prelude::*;

#[allow(unused_imports)]
use crate::chain::kept;
#[allow(unused_imports)]
use crate::dir::{is_file_name, EntryLocation, EntryView};
use crate::error::Error;
use crate::fat::ClusterId;
#[allow(unused_imports)]
use crate::listing::{is_called, law_what_is_found_has_the_name_looked_for};
#[allow(unused_imports)]
use crate::names::{
    dir_of, is_tree, leads_to_entry, lemma_dir_of, lemma_dir_of_avoids, lemma_empty_dir,
    lemma_lookup, parent_dir, Tree,
};
#[allow(unused_imports)]
use crate::nodes::{
    holds_the_same, is_usable, lemma_holds_the_same, lemma_no_directory, lemma_no_sharing,
    lemma_usable,
};
#[allow(unused_imports)]
use crate::order::{
    clusters_of, entry_of, in_order, is_part, is_sound, lemma_found, lemma_parent_found,
    lemma_one_way, lemma_rename_found, lemma_rename_steps, lemma_rename_works,
    lemma_replaced_was_empty, lemma_sub, lemma_ways_apart,
};
use crate::path::PathView;
#[allow(unused_imports)]
use crate::renaming::{finds_but_two, is_apart, leads_nowhere, lemma_way_kept, moved};
#[allow(unused_imports)]
use crate::requests::{is_there, lemma_other_path};
#[allow(unused_imports)]
use crate::slots::search;
use crate::volume::FsView;

verus! {

/// What is at the destination of a rename.
spec fn replaced_by(v: FsView, tree: Tree, to: PathView) -> Option<EntryView> {
    entry_of(v, tree, parent_dir(v, tree, to.comps)->0, to.comps.last())
}

/// The clusters of what is at the destination of a rename.
spec fn given_back(v: FsView, tree: Tree, to: PathView) -> Seq<ClusterId> {
    match replaced_by(v, tree, to) {
        Some(x) => clusters_of(v, tree, x),
        None => Seq::empty(),
    }
}

/// The directories there are but for one that is replaced.
spec fn left_over(v: FsView, tree: Tree, to: PathView) -> Tree {
    match replaced_by(v, tree, to) {
        Some(x) => if x.is_directory() {
            tree.remove(x.first_cluster)
        } else {
            tree
        },
        None => tree,
    }
}

/// Whether a directory at the destination of a rename holds nothing.
spec fn replaces_nothing_else(v: FsView, tree: Tree, to: PathView) -> bool {
    replaced_by(v, tree, to) matches Some(x) ==> x.is_directory() ==> {
        &&& x.first_cluster != v.geo.root_cluster
        &&& forall|name: Seq<u8>| #[trigger] search(v.slots(tree[x.first_cluster]), name) is None
    }
}

proof fn lemma_replaces_nothing_else(v: FsView, tree: Tree, from: PathView, to: PathView)
    requires
        v.wf(),
        v.linkable(),
        in_order(v, tree),
        from != to,
        v.rename(from, to).1 is Ok,
    ensures
        replaces_nothing_else(v, tree, to),
{
    lemma_rename_steps(v, from, to);
    lemma_rename_found(v, tree, from, to);
    let b = parent_dir(v, tree, to.comps)->0;
    if let Some(x) = replaced_by(v, tree, to) {
        if x.is_directory() {
            lemma_replaced_was_empty(v, tree, to, b, x);
            assert(is_tree(v, tree) && is_sound(v, tree, x)) by {
                reveal(in_order);
            }
            lemma_empty_dir(v, tree[x.first_cluster]);
        }
    }
}

/// The way to a node is the same without a directory that is replaced.
proof fn lemma_way_left(v: FsView, tree: Tree, to: PathView, other: PathView)
    requires
        v.wf(),
        in_order(v, tree),
        replaces_nothing_else(v, tree, to),
        is_there(v, other),
    ensures
        parent_dir(v, left_over(v, tree, to), other.comps) == parent_dir(v, tree, other.comps),
        left_over(v, tree, to).contains_key(parent_dir(v, tree, other.comps)->0),
{
    lemma_found(v, tree, other);
    let c = parent_dir(v, tree, other.comps)->0;
    let root = v.geo.root_cluster;
    if let Some(x) = replaced_by(v, tree, to) {
        if x.is_directory() {
            let g = x.first_cluster;
            assert(tree.contains_key(root)) by {
                reveal(in_order);
            }
            assert(search(v.slots(tree[g]), other.comps.last()) is None);
            lemma_dir_of_avoids(v, tree, g, root, other.comps, 0, (other.comps.len() - 1) as nat, c);
        }
    }
}

/// A node that does not lie beneath what moves, nor is replaced, is not reached by way
/// of either.
proof fn lemma_other_apart(
    v: FsView,
    tree: Tree,
    sub: Tree,
    from: PathView,
    to: PathView,
    other: PathView,
)
    requires
        v.wf(),
        in_order(v, tree),
        is_part(sub, tree),
        sub.contains_key(v.geo.root_cluster),
        is_there(v, from),
        to.absolute,
        to.comps.len() > 0,
        parent_dir(v, sub, from.comps) == parent_dir(v, tree, from.comps),
        parent_dir(v, sub, other.comps) == parent_dir(v, tree, other.comps),
        is_there(v, other),
        !other.starts_with(from),
        other != to,
    ensures
        ({
            let a = parent_dir(v, tree, from.comps);
            let b = parent_dir(v, tree, to.comps);
            let c = parent_dir(v, tree, other.comps);
            &&& is_apart(v, sub, other, a->0, from.comps.last())
            &&& c != a || other.comps.last() != from.comps.last()
            &&& c != b || other.comps.last() != to.comps.last()
        }),
{
    lemma_found(v, tree, from);
    lemma_found(v, tree, other);
    let c = parent_dir(v, tree, other.comps)->0;
    let n = (other.comps.len() - 1) as nat;
    assert(other != from) by {
        assert(from.comps.take(from.comps.len() as int) =~= from.comps);
    }
    assert(Some(c) != parent_dir(v, tree, from.comps) || other.comps.last() != from.comps.last())
        by {
        lemma_other_path(v, tree, from, other);
    }
    if Some(c) == parent_dir(v, tree, to.comps) && other.comps.last() == to.comps.last() {
        let m = (to.comps.len() - 1) as nat;
        lemma_one_way(v, tree, other.comps, n, to.comps, m, c);
        assert(other.comps =~= to.comps);
    }
    lemma_ways_apart(v, sub, tree, from, other);
}

/// A node that neither moves nor lies beneath what moves, nor is replaced, is found
/// as it was.
proof fn lemma_other_left(
    v: FsView,
    tree: Tree,
    sub: Tree,
    from: PathView,
    to: PathView,
    w: FsView,
    later: Tree,
    other: PathView,
)
    requires
        v.wf(),
        in_order(v, tree),
        is_part(sub, tree),
        sub.contains_key(v.geo.root_cluster),
        w.wf(),
        is_tree(w, later),
        is_there(v, other),
        parent_dir(v, sub, other.comps) == parent_dir(v, tree, other.comps),
        sub.contains_key(parent_dir(v, tree, other.comps)->0),
        ({
            let a = parent_dir(v, tree, from.comps)->0;
            let b = parent_dir(v, tree, to.comps)->0;
            let c = parent_dir(v, tree, other.comps)->0;
            &&& finds_but_two(v, sub, w, later, a, from.comps.last(), b, to.comps.last())
            &&& search(v.slots(sub[b]), to.comps.last()) matches Some(j) ==> leads_nowhere(
                sub,
                v.slots(sub[b])[j as int],
            )
            &&& is_apart(v, sub, other, a, from.comps.last())
            &&& c != a || other.comps.last() != from.comps.last()
            &&& c != b || other.comps.last() != to.comps.last()
        }),
    ensures
        is_there(w, other),
        (w.lookup(other)->Ok_0).0 == (v.lookup(other)->Ok_0).0,
{
    let root = v.geo.root_cluster;
    let a = parent_dir(v, tree, from.comps)->0;
    let b = parent_dir(v, tree, to.comps)->0;
    let c = parent_dir(v, tree, other.comps)->0;
    let n = (other.comps.len() - 1) as nat;
    let name = other.comps.last();
    let na = from.comps.last();
    lemma_found(v, tree, other);
    assert(parent_dir(w, later, other.comps) == Some(c)) by {
        lemma_way_kept(v, sub, w, later, a, na, b, to.comps.last(), root, other.comps, 0, n);
    }
    let j = search(v.slots(sub[c]), name)->0 as int;
    assert(v.lookup(other) matches Ok((e, _)) && search(v.slots(sub[c]), name) is Some && e
        == v.slots(sub[c])[j]) by {
        assert(is_tree(v, tree) && tree.contains_key(root)) by {
            reveal(in_order);
        }
        lemma_lookup(v, tree, other, c);
    }
    assert(later.contains_key(root));
    assert(search(w.slots(later[c]), name) == Some(j as nat) && w.slots(later[c])[j]
        == v.slots(sub[c])[j]);
    lemma_lookup(w, later, other, c);
}

/// A rename that works out moves just the node it is about: it is found under the new
/// path, with the new name and nothing else of it changed, and no longer under the
/// old one. All that neither lies beneath it nor was at the new path is found as it
/// was, and every file but one that was at the new path holds what it held. The new
/// name can be used, and a directory does not end up beneath itself.
pub proof fn law_a_rename_moves_just_that_node(v: FsView, tree: Tree, from: PathView, to: PathView)
    requires
        v.wf(),
        v.linkable(),
        in_order(v, tree),
        from != to,
        v.rename(from, to).1 is Ok,
    ensures
        is_there(v, from),
        ({
            let e = (v.lookup(from)->Ok_0).0;
            let w = v.rename(from, to).0;
            &&& is_there(w, to)
            &&& ({
                let f = (w.lookup(to)->Ok_0).0;
                &&& is_called(f, to.comps.last())
                &&& f.attributes == e.attributes
                &&& f.first_cluster == e.first_cluster
                &&& f.file_size == e.file_size
                &&& (f.created_date, f.created_time) == (e.created_date, e.created_time)
                &&& (f.modified_date, f.modified_time) == (e.modified_date, e.modified_time)
                &&& (f.accessed_date, f.accessed_time) == (e.accessed_date, e.accessed_time)
            })
            &&& w.lookup(from) == Err::<(EntryView, Option<EntryLocation>), Error>(Error::NotFound)
            &&& is_usable(to.comps.last())
            &&& e.is_directory() ==> !to.starts_with(from)
            &&& forall|other: PathView|
                #![trigger w.lookup(other)]
                is_there(v, other) && !other.starts_with(from) && other != to ==> is_there(w, other)
                    && (w.lookup(other)->Ok_0).0 == (v.lookup(other)->Ok_0).0
            &&& forall|other: PathView|
                is_there(v, other) && other != to && !(v.lookup(other)->Ok_0).0.is_directory()
                    ==> #[trigger] holds_the_same(v, tree, w, other)
        }),
{
    let later = lemma_renamed(v, tree, from, to);
    let w = v.rename(from, to).0;
    lemma_usable(to.comps.last());
    law_what_is_found_has_the_name_looked_for(w, to);
    lemma_replaces_nothing_else(v, tree, from, to);
    assert(finds_the_rest(v, tree, from, to, w, later)) by {
        reveal(finds_the_rest);
    }
    lemma_others_left(v, tree, from, to, w, later);
    lemma_files_left(v, tree, from, to, w);
}

/// What is known of a rename that has worked out.
proof fn lemma_renamed(v: FsView, tree: Tree, from: PathView, to: PathView) -> (later: Tree)
    requires
        v.wf(),
        v.linkable(),
        in_order(v, tree),
        from != to,
        v.rename(from, to).1 is Ok,
    ensures
        is_there(v, from),
        to.absolute,
        to.comps.len() > 0,
        is_file_name(to.comps.last()),
        parent_dir(v, tree, from.comps) is Some,
        parent_dir(v, tree, to.comps) is Some,
        tree.contains_key(parent_dir(v, tree, from.comps)->0),
        tree.contains_key(parent_dir(v, tree, to.comps)->0),
        ({
            let sub = left_over(v, tree, to);
            let w = v.rename(from, to).0;
            let e = (v.lookup(from)->Ok_0).0;
            let a = parent_dir(v, tree, from.comps)->0;
            let b = parent_dir(v, tree, to.comps)->0;
            let gone = given_back(v, tree, to);
            &&& !(e.is_directory() && to.starts_with(from))
            &&& w.lookup(to) matches Ok((f, Some(_))) && f == e.renamed(to.comps.last())
            &&& w.lookup(from) == Err::<(EntryView, Option<EntryLocation>), Error>(Error::NotFound)
            &&& w.wf()
            &&& is_tree(w, later)
            &&& kept(v, w, tree[a].to_set() + tree[b].to_set() + gone.to_set())
            &&& is_part(sub, tree)
            &&& sub.contains_key(v.geo.root_cluster)
            &&& parent_dir(v, sub, from.comps) == parent_dir(v, tree, from.comps)
            &&& finds_but_two(v, sub, w, later, a, from.comps.last(), b, to.comps.last())
            &&& search(v.slots(sub[b]), to.comps.last()) matches Some(j) ==> leads_nowhere(
                sub,
                v.slots(sub[b])[j as int],
            )
        }),
{
    let sub = left_over(v, tree, to);
    let existing = replaced_by(v, tree, to);
    let gone = given_back(v, tree, to);
    lemma_rename_steps(v, from, to);
    lemma_rename_found(v, tree, from, to);
    lemma_sub(v, tree, from, to, existing, gone, sub);
    lemma_rename_works(v, tree, from, to, existing, gone, sub)
}

/// What a rename that has worked out has found, and what it finds later on.
#[verifier::opaque]
spec fn finds_the_rest(
    v: FsView,
    tree: Tree,
    from: PathView,
    to: PathView,
    w: FsView,
    later: Tree,
) -> bool {
    let sub = left_over(v, tree, to);
    let a = parent_dir(v, tree, from.comps)->0;
    let b = parent_dir(v, tree, to.comps)->0;
    &&& replaces_nothing_else(v, tree, to)
    &&& is_there(v, from)
    &&& to.absolute
    &&& to.comps.len() > 0
    &&& parent_dir(v, tree, to.comps) is Some
    &&& is_tree(w, later)
    &&& is_part(sub, tree)
    &&& sub.contains_key(v.geo.root_cluster)
    &&& parent_dir(v, sub, from.comps) == parent_dir(v, tree, from.comps)
    &&& finds_but_two(v, sub, w, later, a, from.comps.last(), b, to.comps.last())
    &&& search(v.slots(sub[b]), to.comps.last()) matches Some(j) ==> leads_nowhere(
        sub,
        v.slots(sub[b])[j as int],
    )
}

proof fn lemma_left(
    v: FsView,
    tree: Tree,
    from: PathView,
    to: PathView,
    w: FsView,
    later: Tree,
    other: PathView,
)
    requires
        v.wf(),
        in_order(v, tree),
        w.wf(),
        finds_the_rest(v, tree, from, to, w, later),
        is_there(v, other),
        !other.starts_with(from),
        other != to,
    ensures
        is_there(w, other),
        (w.lookup(other)->Ok_0).0 == (v.lookup(other)->Ok_0).0,
{
    let sub = left_over(v, tree, to);
    assert(parent_dir(v, sub, other.comps) == parent_dir(v, tree, other.comps) && sub.contains_key(
        parent_dir(v, tree, other.comps)->0,
    )) by {
        reveal(finds_the_rest);
        lemma_way_left(v, tree, to, other);
    }
    let a = parent_dir(v, tree, from.comps);
    let b = parent_dir(v, tree, to.comps);
    let c = parent_dir(v, tree, other.comps);
    assert(is_apart(v, sub, other, a->0, from.comps.last()) && (c != a || other.comps.last()
        != from.comps.last()) && (c != b || other.comps.last() != to.comps.last())) by {
        reveal(finds_the_rest);
        lemma_other_apart(v, tree, sub, from, to, other);
    }
    assert(c is Some && a is Some) by {
        lemma_found(v, tree, other);
        reveal(finds_the_rest);
        lemma_found(v, tree, from);
    }
    reveal(finds_the_rest);
    lemma_other_left(v, tree, sub, from, to, w, later, other);
}

proof fn lemma_others_left(
    v: FsView,
    tree: Tree,
    from: PathView,
    to: PathView,
    w: FsView,
    later: Tree,
)
    requires
        v.wf(),
        in_order(v, tree),
        w.wf(),
        finds_the_rest(v, tree, from, to, w, later),
    ensures
        forall|other: PathView|
            #![trigger w.lookup(other)]
            is_there(v, other) && !other.starts_with(from) && other != to ==> is_there(w, other)
                && (w.lookup(other)->Ok_0).0 == (v.lookup(other)->Ok_0).0,
{
    assert forall|other: PathView|
        #![trigger w.lookup(other)]
        is_there(v, other) && !other.starts_with(from) && other != to implies is_there(w, other)
        && (w.lookup(other)->Ok_0).0 == (v.lookup(other)->Ok_0).0 by {
        lemma_left(v, tree, from, to, w, later, other);
    }
}

proof fn lemma_files_left(v: FsView, tree: Tree, from: PathView, to: PathView, w: FsView)
    requires
        v.wf(),
        in_order(v, tree),
        to.absolute,
        to.comps.len() > 0,
        parent_dir(v, tree, from.comps) is Some,
        parent_dir(v, tree, to.comps) is Some,
        tree.contains_key(parent_dir(v, tree, from.comps)->0),
        tree.contains_key(parent_dir(v, tree, to.comps)->0),
        kept(
            v,
            w,
            tree[parent_dir(v, tree, from.comps)->0].to_set() + tree[parent_dir(
                v,
                tree,
                to.comps,
            )->0].to_set() + given_back(v, tree, to).to_set(),
        ),
    ensures
        forall|other: PathView|
            is_there(v, other) && other != to && !(v.lookup(other)->Ok_0).0.is_directory()
                ==> #[trigger] holds_the_same(v, tree, w, other),
{
    let a = parent_dir(v, tree, from.comps)->0;
    let b = parent_dir(v, tree, to.comps)->0;
    let changed = tree[a].to_set() + tree[b].to_set() + given_back(v, tree, to).to_set();
    assert forall|other: PathView|
        is_there(v, other) && other != to && !(v.lookup(
            other,
        )->Ok_0).0.is_directory() implies #[trigger] holds_the_same(v, tree, w, other) by {
        let t = clusters_of(v, tree, (v.lookup(other)->Ok_0).0);
        assert forall|i: int| #![trigger t[i]] 0 <= i < t.len() implies !changed.contains(t[i]) by {
            lemma_not_given_back(v, tree, to, other, i);
            lemma_no_directory(v, tree, other, a, i);
            lemma_no_directory(v, tree, other, b, i);
        }
        lemma_holds_the_same(v, tree, w, other, changed);
    }
}

/// A file has no cluster of what is replaced.
proof fn lemma_not_given_back(
    v: FsView,
    tree: Tree,
    to: PathView,
    other: PathView,
    i: int,
)
    requires
        v.wf(),
        in_order(v, tree),
        to.absolute,
        to.comps.len() > 0,
        parent_dir(v, tree, to.comps) is Some,
        tree.contains_key(parent_dir(v, tree, to.comps)->0),
        other != to,
        v.lookup(other) matches Ok((e, Some(_))) && !e.is_directory(),
        0 <= i < clusters_of(v, tree, (v.lookup(other)->Ok_0).0).len(),
    ensures
        !given_back(v, tree, to).to_set().contains(
            clusters_of(v, tree, (v.lookup(other)->Ok_0).0)[i],
        ),
{
    match replaced_by(v, tree, to) {
        None => {
            assert(given_back(v, tree, to).to_set() =~= Set::empty());
        },
        Some(x) => {
            let b = parent_dir(v, tree, to.comps)->0;
            assert(is_tree(v, tree) && tree.contains_key(v.geo.root_cluster) && is_sound(
                v,
                tree,
                x,
            )) by {
                reveal(in_order);
            }
            lemma_lookup(v, tree, to, b);
            if x.is_directory() {
                lemma_no_directory(v, tree, other, x.first_cluster, i);
            } else {
                lemma_no_sharing(v, tree, to, other, i);
            }
        },
    }
}

} // verus!
