//! What a rename changes, and what it leaves alone.

use vstd::prelude::*;

#[allow(unused_imports)]
use crate::chain::{kept, lemma_kept_refl, lemma_kept_trans, within_or_free};
#[allow(unused_imports)]
use crate::contents::{lemma_flush, lemma_kept_wider};
#[allow(unused_imports)]
use crate::dir::{is_file_name, EntryLocation, EntryView, FATX_DELETED_FILE_MARKER};
use crate::error::Error;
use crate::fat::ClusterId;
#[allow(unused_imports)]
use crate::names::{
    dir_of, finds_all_but, finds_as_much, is_tree, leads_to_entry, lemma_dir_of, lemma_finds_more,
    lemma_lookup, lemma_named, lemma_remove, lemma_same_emptiness, lemma_split_parent,
    lemma_tree_kept, lemma_tree_reshaped, lemma_unmark, owns, parent_dir, Tree,
};
#[allow(unused_imports)]
use crate::path::PathView;
#[allow(unused_imports)]
use crate::slots::{is_open, lemma_insert, lemma_search, names_differ, search};
#[allow(unused_imports)]
use crate::tree::{
    avoids, lemma_alloc_entry, lemma_dir_kept, lemma_put_slot, marked, opened_up, reshaped,
    same_find,
};
#[allow(unused_imports)]
use crate::volume::FsView;

verus! {

/// Whether the way to a directory goes through the entry with a given name in a
/// given directory.
pub open spec fn passes(
    v: FsView,
    tree: Tree,
    c: ClusterId,
    comps: Seq<Seq<u8>>,
    k: nat,
    n: nat,
    a: ClusterId,
    name: Seq<u8>,
) -> bool
    decreases n - k,
{
    if k >= n {
        false
    } else if c == a && comps[k as int] == name {
        true
    } else {
        match search(v.slots(tree[c]), comps[k as int]) {
            None => false,
            Some(j) => passes(
                v,
                tree,
                v.slots(tree[c])[j as int].first_cluster,
                comps,
                k + 1,
                n,
                a,
                name,
            ),
        }
    }
}

/// Whether the directory a path lies in is reached without going through a
/// given entry.
pub open spec fn is_apart(
    v: FsView,
    tree: Tree,
    path: PathView,
    a: ClusterId,
    name: Seq<u8>,
) -> bool {
    !passes(
        v,
        tree,
        v.geo.root_cluster,
        path.comps,
        0,
        (path.comps.len() - 1) as nat,
        a,
        name,
    )
}

/// Whether everything that is found in some directories but for two names is
/// still found in a later state, in the same place.
pub open spec fn finds_but_two(
    v: FsView,
    tree: Tree,
    w: FsView,
    later: Tree,
    a: ClusterId,
    na: Seq<u8>,
    b: ClusterId,
    nb: Seq<u8>,
) -> bool {
    &&& w.geo == v.geo
    &&& forall|c: ClusterId| #[trigger] tree.contains_key(c) ==> later.contains_key(c)
    &&& forall|c: ClusterId, name: Seq<u8>|
        #![trigger search(v.slots(tree[c]), name)]
        tree.contains_key(c) && !(c == a && name == na) && !(c == b && name == nb) && search(
            v.slots(tree[c]),
            name,
        ) is Some ==> {
            let j = search(v.slots(tree[c]), name)->0;
            &&& search(w.slots(later[c]), name) == Some(j)
            &&& w.slots(later[c])[j as int] == v.slots(tree[c])[j as int]
        }
}

/// Whether an entry is not that of one of the directories there are.
pub open spec fn leads_nowhere(tree: Tree, e: EntryView) -> bool {
    !(e.is_directory() && tree.contains_key(e.first_cluster))
}

pub proof fn lemma_way_kept(
    v: FsView,
    tree: Tree,
    w: FsView,
    later: Tree,
    a: ClusterId,
    na: Seq<u8>,
    b: ClusterId,
    nb: Seq<u8>,
    c: ClusterId,
    comps: Seq<Seq<u8>>,
    k: nat,
    n: nat,
)
    requires
        finds_but_two(v, tree, w, later, a, na, b, nb),
        tree.contains_key(c),
        dir_of(v, tree, c, comps, k, n) is Some,
        !passes(v, tree, c, comps, k, n, a, na),
        search(v.slots(tree[b]), nb) matches Some(j) ==> leads_nowhere(
            tree,
            v.slots(tree[b])[j as int],
        ),
    ensures
        dir_of(w, later, c, comps, k, n) == dir_of(v, tree, c, comps, k, n),
    decreases n - k,
{
    if k < n {
        let j = search(v.slots(tree[c]), comps[k as int])->0;
        let e = v.slots(tree[c])[j as int];
        assert(search(w.slots(later[c]), comps[k as int]) == Some(j));
        lemma_way_kept(v, tree, w, later, a, na, b, nb, e.first_cluster, comps, k + 1, n);
    }
}

/// A slot in which an entry can be put is still one once another has been
/// deleted.
proof fn lemma_still_open(
    slots: Seq<EntryView>,
    k: int,
    m: int,
    gone: EntryView,
    name: Seq<u8>,
)
    requires
        is_open(slots, k),
        search(slots, name) == Some(m as nat),
        0 <= m,
        gone.kind() is Deleted,
    ensures
        is_open(slots.update(m, gone), k),
{
    lemma_search(slots, name);
    let new = slots.update(m, gone);
    assert(slots[m].kind() is Valid);
    assert(m != k);
    if m == k + 1 && slots[k].kind() is EndOfDirectory {
        assert(slots[k + 1].kind() is EndOfDirectory);
    }
    assert forall|j: int| 0 <= j < k implies !((#[trigger] new[j]).kind() is EndOfDirectory) by {
        if j != m {
            assert(new[j] == slots[j]);
        }
    }
    assert(new[k] == slots[k]);
    if k + 1 < slots.len() && k + 1 != m {
        assert(new[k + 1] == slots[k + 1]);
    }
}

/// Whether something can be replaced by a rename, and has some clusters: it is
/// a file, or an empty directory.
pub open spec fn is_replaceable(v: FsView, e: EntryView, s: Seq<ClusterId>) -> bool {
    &&& owns(v, e, s)
    &&& e.is_directory() ==> v.is_dir(s) && v.directory_is_empty(e.first_cluster) == Ok::<
        bool,
        Error,
    >(true)
}

/// What a rename comes to.
pub open spec fn moved(
    v: FsView,
    tree: Tree,
    from: PathView,
    to: PathView,
    s: Seq<ClusterId>,
    outcome: (FsView, Result<(), Error>),
    later: Tree,
) -> bool {
    let a = parent_dir(v, tree, from.comps)->0;
    let b = parent_dir(v, tree, to.comps)->0;
    let (e, _) = leads_to_entry(v, tree, from.comps)->0;
    match outcome {
        (w, Ok(())) => {
            &&& w.wf()
            &&& is_tree(w, later)
            &&& leads_to_entry(w, later, to.comps) is Some
            &&& ({
                let (f, location) = leads_to_entry(w, later, to.comps)->0;
                &&& f == e.renamed(to.comps.last())
                &&& w.lookup(to) == Ok::<(EntryView, Option<EntryLocation>), Error>(
                    (f, Some(location)),
                )
            })
            &&& w.lookup(from) == Err::<(EntryView, Option<EntryLocation>), Error>(Error::NotFound)
            &&& kept(v, w, tree[a].to_set() + tree[b].to_set() + s.to_set())
            &&& finds_but_two(v, tree, w, later, a, from.comps.last(), b, to.comps.last())
            &&& search(v.slots(tree[b]), to.comps.last()) matches Some(j) ==> leads_nowhere(
                tree,
                v.slots(tree[b])[j as int],
            )
        },
        (w, Err(er)) => w == v && er == Error::NoSpaceLeft && v.is_full(),
    }
}

/// A rename moves an entry without moving what it stands for.
///
/// Afterwards the entry is found under the new path, the same but for its name,
/// and no longer under the old one. A file or an empty directory that was at the
/// new path is replaced: its clusters, `s`, are given back. Everything else that is in use
/// is kept, the clusters of what has moved among it, but for the two
/// directories. Only a lack of room for the entry can stand in the way, and
/// then nothing has changed.
///
/// The way to neither directory may go through the entry that moves, as it
/// would for a directory moved inside itself.
pub proof fn law_renamed_entry_moves(
    v: FsView,
    tree: Tree,
    from: PathView,
    to: PathView,
    s: Seq<ClusterId>,
) -> (later: Tree)
    requires
        v.wf(),
        v.linkable(),
        v.geo.writable,
        is_tree(v, tree),
        tree.contains_key(v.geo.root_cluster),
        from.absolute,
        to.absolute,
        from.comps.len() > 0,
        to.comps.len() > 0,
        leads_to_entry(v, tree, from.comps) is Some,
        parent_dir(v, tree, to.comps) is Some,
        is_file_name(to.comps.last()),
        !((leads_to_entry(v, tree, from.comps)->0).0.is_directory() && to.starts_with(from)),
        (parent_dir(v, tree, from.comps), from.comps.last()) != (
            parent_dir(v, tree, to.comps),
            to.comps.last(),
        ),
        is_apart(v, tree, from, parent_dir(v, tree, from.comps)->0, from.comps.last()),
        is_apart(v, tree, to, parent_dir(v, tree, from.comps)->0, from.comps.last()),
        match leads_to_entry(v, tree, to.comps) {
            None => s.len() == 0,
            Some((existing, _)) => is_replaceable(v, existing, s),
        },
        forall|c: ClusterId| #[trigger] tree.contains_key(c) ==> avoids(tree[c], s.to_set()),
    ensures
        moved(v, tree, from, to, s, v.rename(from, to), later),
{
    let a = parent_dir(v, tree, from.comps)->0;
    let b = parent_dir(v, tree, to.comps)->0;
    lemma_lookup(v, tree, from, a);
    lemma_lookup(v, tree, to, b);
    lemma_split_parent(v, tree, to, b);
    assert(from != to);
    let (d, k) = lemma_alloc_entry(v, tree[b]);
    match v.alloc_entry(b) {
        (u, Ok(to_location)) => {
            lemma_rename_ends(v, tree, from, to, s, u, d, k);
            tree.insert(b, d)
        },
        _ => tree,
    }
}

/// What was at the destination has been taken away.
#[verifier::rlimit(40)]
proof fn lemma_replaced(
    v: FsView,
    tree: Tree,
    to: PathView,
    b: ClusterId,
    s: Seq<ClusterId>,
    u: FsView,
    d: Seq<ClusterId>,
    k: int,
)
    requires
        v.wf(),
        v.geo.writable,
        is_tree(v, tree),
        tree.contains_key(v.geo.root_cluster),
        to.absolute,
        to.comps.len() > 0,
        parent_dir(v, tree, to.comps) == Some(b),
        tree.contains_key(b),
        opened_up(v, tree[b], u, d, k),
        match leads_to_entry(v, tree, to.comps) {
            None => s.len() == 0,
            Some((existing, _)) => is_replaceable(v, existing, s),
        },
        forall|c: ClusterId| #[trigger] tree.contains_key(c) ==> avoids(tree[c], s.to_set()),
    ensures
        ({
            let later = tree.insert(b, d);
            let (x, r) = u.replace(to);
            &&& r == Ok::<(), Error>(())
            &&& x.wf()
            &&& is_tree(u, later)
            &&& is_tree(x, later)
            &&& finds_as_much(v, tree, u, later)
            &&& finds_all_but(u, x, later, b, to.comps.last())
            &&& is_open(x.slots(d), k)
            &&& kept(v, u, tree[b].to_set())
            &&& kept(u, x, d.to_set() + s.to_set())
            &&& x.linkable() == v.linkable()
        }),
{
    let later = tree.insert(b, d);
    let nb = to.comps.last();
    lemma_lookup(v, tree, to, b);
    lemma_tree_reshaped(v, tree, b, u, d);
    lemma_finds_more(v, tree, b, u, d);
    lemma_way_to(v, tree, u, later, to, b);
    lemma_lookup(u, later, to, b);
    assert(same_find(v.slots(tree[b]), u.slots(d), nb));
    match leads_to_entry(v, tree, to.comps) {
        None => {
            let x = u;
            lemma_kept_refl(u, d.to_set() + s.to_set());
            assert forall|c: ClusterId, n: Seq<u8>|
                #![trigger search(x.slots(later[c]), n)]
                #![trigger search(u.slots(later[c]), n)]
                later.contains_key(c) && (c != b || n != nb) implies same_find(
                u.slots(later[c]),
                x.slots(later[c]),
                n,
            ) by {
                lemma_search(u.slots(later[c]), n);
            }
        },
        Some((existing, _)) => {
            let m = search(v.slots(tree[b]), nb)->0 as int;
            assert(search(u.slots(d), nb) == Some(m as nat));
            assert(u.slots(d)[m] == existing);
            lemma_owned_kept(v, tree, b, u, d, existing, s);
            lemma_remove(u, later, b, nb, m, s);
            if existing.is_directory() {
                assert(avoids(s, tree[b].to_set())) by {
                    assert(avoids(tree[b], s.to_set()));
                    lemma_avoid_each_other(tree[b], s);
                }
                lemma_dir_kept(v, u, s, tree[b].to_set());
                lemma_same_emptiness(v, u, s);
            }
            assert(u.replace(to) == u.remove(existing, u.place_of(d, m)));
            let gone = marked(u.slots(d)[m], FATX_DELETED_FILE_MARKER);
            lemma_still_open(u.slots(d), k, m, gone, nb);
        },
    }
}

/// Clusters that avoid some others are avoided by them.
proof fn lemma_avoid_each_other(d: Seq<ClusterId>, s: Seq<ClusterId>)
    requires
        avoids(d, s.to_set()),
    ensures
        avoids(s, d.to_set()),
{
    assert forall|i: int| 0 <= i < s.len() implies !d.to_set().contains(#[trigger] s[i]) by {
        if d.to_set().contains(s[i]) {
            let j = choose|j: int| 0 <= j < d.len() && d[j] == s[i];
            assert(s.contains(s[i]));
            assert(!s.to_set().contains(d[j]));
        }
    }
}

/// The clusters a file owns are still its own, and none of the directories'.
proof fn lemma_owned_kept(
    v: FsView,
    tree: Tree,
    b: ClusterId,
    u: FsView,
    d: Seq<ClusterId>,
    e: EntryView,
    s: Seq<ClusterId>,
)
    requires
        v.wf(),
        is_tree(v, tree),
        tree.contains_key(b),
        reshaped(v, tree[b], u, d),
        owns(v, e, s),
        forall|c: ClusterId| #[trigger] tree.contains_key(c) ==> avoids(tree[c], s.to_set()),
    ensures
        owns(u, e, s),
        forall|c: ClusterId| #[trigger]
            tree.insert(b, d).contains_key(c) ==> avoids(tree.insert(b, d)[c], s.to_set()),
{
    let later = tree.insert(b, d);
    if s.len() > 0 {
        assert(avoids(tree[b], s.to_set()));
        assert forall|i: int| 0 <= i < s.len() implies #[trigger] u.link(s[i]) == v.link(s[i])
            && !v.is_free(s[i]) by {
            if i < s.len() - 1 {
                assert(v.leads_to(s[i], s[i + 1]));
            }
            assert(!tree[b].to_set().contains(s[i])) by {
                if tree[b].to_set().contains(s[i]) {
                    let j = choose|j: int| 0 <= j < tree[b].len() && tree[b][j] == s[i];
                    assert(s.contains(s[i]));
                    assert(!s.to_set().contains(tree[b][j]));
                }
            }
        }
        assert forall|i: int|
            #![trigger s[i]]
            0 <= i < s.len() - 1 implies u.leads_to(s[i], s[i + 1]) by {
            assert(v.leads_to(s[i], s[i + 1]));
            assert(u.link(s[i]) == v.link(s[i]));
        }
        assert(u.link(s[s.len() - 1]) == v.link(s[s.len() - 1]));
        assert(u.is_chain(s));
    }
    assert forall|c: ClusterId| #[trigger] later.contains_key(c) implies avoids(
        later[c],
        s.to_set(),
    ) by {
        if c == b {
            assert forall|i: int| 0 <= i < d.len() implies !s.to_set().contains(
                #[trigger] d[i],
            ) by {
                if i < tree[b].len() {
                    assert(d[i] == tree[b][i]);
                    assert(avoids(tree[b], s.to_set()));
                    assert(!s.to_set().contains(tree[b][i]));
                } else {
                    assert(v.is_free(d[i]));
                    if s.to_set().contains(d[i]) {
                        let j = choose|j: int| 0 <= j < s.len() && s[j] == d[i];
                        assert(u.link(s[j]) == v.link(s[j]) && !v.is_free(s[j]));
                    }
                }
            }
        } else {
            assert(avoids(tree[c], s.to_set()));
        }
    }
}

/// A way that was there is still there if all that is found still is.
proof fn lemma_way_to(
    v: FsView,
    tree: Tree,
    w: FsView,
    later: Tree,
    path: PathView,
    b: ClusterId,
)
    requires
        finds_as_much(v, tree, w, later),
        tree.contains_key(v.geo.root_cluster),
        parent_dir(v, tree, path.comps) == Some(b),
    ensures
        parent_dir(w, later, path.comps) == Some(b),
{
    lemma_way_step(
        v,
        tree,
        w,
        later,
        v.geo.root_cluster,
        path.comps,
        0,
        (path.comps.len() - 1) as nat,
    );
}

proof fn lemma_way_step(
    v: FsView,
    tree: Tree,
    w: FsView,
    later: Tree,
    c: ClusterId,
    comps: Seq<Seq<u8>>,
    k: nat,
    n: nat,
)
    requires
        finds_as_much(v, tree, w, later),
        tree.contains_key(c),
        dir_of(v, tree, c, comps, k, n) is Some,
    ensures
        dir_of(w, later, c, comps, k, n) == dir_of(v, tree, c, comps, k, n),
    decreases n - k,
{
    if k < n {
        let j = search(v.slots(tree[c]), comps[k as int])->0;
        assert(search(w.slots(later[c]), comps[k as int]) == Some(j));
        let e = v.slots(tree[c])[j as int];
        lemma_way_step(v, tree, w, later, e.first_cluster, comps, k + 1, n);
    }
}

/// From the room that was found for the entry to the end of the rename.
proof fn lemma_rename_ends(
    v: FsView,
    tree: Tree,
    from: PathView,
    to: PathView,
    s: Seq<ClusterId>,
    u: FsView,
    d: Seq<ClusterId>,
    k: int,
)
    requires
        v.wf(),
        v.linkable(),
        v.geo.writable,
        is_tree(v, tree),
        tree.contains_key(v.geo.root_cluster),
        from.absolute,
        to.absolute,
        from.comps.len() > 0,
        to.comps.len() > 0,
        leads_to_entry(v, tree, from.comps) is Some,
        parent_dir(v, tree, to.comps) is Some,
        is_file_name(to.comps.last()),
        !((leads_to_entry(v, tree, from.comps)->0).0.is_directory() && to.starts_with(from)),
        (parent_dir(v, tree, from.comps), from.comps.last()) != (
            parent_dir(v, tree, to.comps),
            to.comps.last(),
        ),
        is_apart(v, tree, from, parent_dir(v, tree, from.comps)->0, from.comps.last()),
        is_apart(v, tree, to, parent_dir(v, tree, from.comps)->0, from.comps.last()),
        match leads_to_entry(v, tree, to.comps) {
            None => s.len() == 0,
            Some((existing, _)) => is_replaceable(v, existing, s),
        },
        forall|c: ClusterId| #[trigger] tree.contains_key(c) ==> avoids(tree[c], s.to_set()),
        ({
            let b = parent_dir(v, tree, to.comps)->0;
            &&& opened_up(v, tree[b], u, d, k)
            &&& v.alloc_entry(b) == (u, Ok::<EntryLocation, Error>(u.place_of(d, k)))
        }),
    ensures
        moved(
            v,
            tree,
            from,
            to,
            s,
            v.rename(from, to),
            tree.insert(parent_dir(v, tree, to.comps)->0, d),
        ),
{
    let a = parent_dir(v, tree, from.comps)->0;
    let b = parent_dir(v, tree, to.comps)->0;
    let na = from.comps.last();
    let nb = to.comps.last();
    let later = tree.insert(b, d);
    lemma_dir_reached(v, tree, from);
    lemma_dir_reached(v, tree, to);
    let j = search(v.slots(tree[a]), na)->0 as int;
    let e = v.slots(tree[a])[j];
    let f = e.renamed(nb);
    lemma_named(nb, f);
    lemma_replaced(v, tree, to, b, s, u, d, k);
    let x = u.replace(to).0;
    lemma_rename_moves(v, tree, a, na, b, nb, s, u, x, d, k, f, j);
    lemma_replaced_leads_nowhere(v, tree, b, nb, s);
    let y = x.put_entry(x.place_of(d, k), f).0;
    let z = y.put_marker(v.place_of(tree[a], j), FATX_DELETED_FILE_MARKER).0;
    let w = z.flush_fat();
    assert(v.lookup(from) == Ok::<(EntryView, Option<EntryLocation>), Error>(
        (e, Some(v.place_of(tree[a], j))),
    )) by {
        lemma_lookup(v, tree, from, a);
    }
    assert(v.split_parent(to) == Ok::<(ClusterId, Seq<u8>), Error>((b, nb))) by {
        lemma_split_parent(v, tree, to, b);
    }
    lemma_rename_steps(v, from, to, e, v.place_of(tree[a], j), b, u, x.place_of(d, k));
    lemma_rename_found(v, tree, from, to, w, later, a, b, f, k);
}

/// What is replaced is none of the directories there are.
proof fn lemma_replaced_leads_nowhere(
    v: FsView,
    tree: Tree,
    b: ClusterId,
    name: Seq<u8>,
    s: Seq<ClusterId>,
)
    requires
        is_tree(v, tree),
        search(v.slots(tree[b]), name) matches Some(j) ==> is_replaceable(
            v,
            v.slots(tree[b])[j as int],
            s,
        ),
        forall|c: ClusterId| #[trigger] tree.contains_key(c) ==> avoids(tree[c], s.to_set()),
    ensures
        search(v.slots(tree[b]), name) matches Some(j) ==> leads_nowhere(
            tree,
            v.slots(tree[b])[j as int],
        ),
{
    if let Some(j) = search(v.slots(tree[b]), name) {
        let e = v.slots(tree[b])[j as int];
        let c = e.first_cluster;
        if e.is_directory() && tree.contains_key(c) {
            assert(avoids(tree[c], s.to_set()));
            assert(v.is_dir(tree[c]));
            assert(s[0] == c);
            assert(s.contains(s[0]));
            assert(!s.to_set().contains(tree[c][0]));
        }
    }
}

/// A rename is its steps, one after the other.
proof fn lemma_rename_steps(
    v: FsView,
    from: PathView,
    to: PathView,
    e: EntryView,
    from_location: EntryLocation,
    b: ClusterId,
    u: FsView,
    to_location: EntryLocation,
)
    requires
        v.geo.writable,
        from != to,
        v.lookup(from) == Ok::<(EntryView, Option<EntryLocation>), Error>(
            (e, Some(from_location)),
        ),
        !(e.is_directory() && to.starts_with(from)),
        v.split_parent(to) == Ok::<(ClusterId, Seq<u8>), Error>((b, to.comps.last())),
        is_file_name(to.comps.last()),
        v.alloc_entry(b) == (u, Ok::<EntryLocation, Error>(to_location)),
        u.replace(to).1 == Ok::<(), Error>(()),
        ({
            let x = u.replace(to).0;
            let (y, put) = x.put_entry(to_location, e.renamed(to.comps.last()));
            &&& put == Ok::<(), Error>(())
            &&& y.put_marker(from_location, FATX_DELETED_FILE_MARKER).1 == Ok::<(), Error>(())
        }),
    ensures
        v.rename(from, to) == ({
            let x = u.replace(to).0;
            let y = x.put_entry(to_location, e.renamed(to.comps.last())).0;
            let z = y.put_marker(from_location, FATX_DELETED_FILE_MARKER).0;
            (z.flush_fat(), Ok::<(), Error>(()))
        }),
{
}

/// The entry goes into its new slot, and out of its old one.
proof fn lemma_rename_moves(
    v: FsView,
    tree: Tree,
    a: ClusterId,
    na: Seq<u8>,
    b: ClusterId,
    nb: Seq<u8>,
    s: Seq<ClusterId>,
    u: FsView,
    x: FsView,
    d: Seq<ClusterId>,
    k: int,
    f: EntryView,
    j: int,
)
    requires
        v.wf(),
        is_tree(v, tree),
        tree.contains_key(a),
        tree.contains_key(b),
        a != b || na != nb,
        0 <= j,
        search(v.slots(tree[a]), na) == Some(j as nat),
        reshaped(v, tree[b], u, d),
        x.wf(),
        is_tree(x, tree.insert(b, d)),
        finds_as_much(v, tree, u, tree.insert(b, d)),
        finds_all_but(u, x, tree.insert(b, d), b, nb),
        is_open(x.slots(d), k),
        kept(u, x, d.to_set() + s.to_set()),
        f.wf(),
        f.has_name(nb),
    ensures
        ({
            let later = tree.insert(b, d);
            let (y, put) = x.put_entry(x.place_of(d, k), f);
            let (z, marked) = y.put_marker(v.place_of(tree[a], j), FATX_DELETED_FILE_MARKER);
            let w = z.flush_fat();
            &&& put == Ok::<(), Error>(())
            &&& marked == Ok::<(), Error>(())
            &&& w.wf()
            &&& is_tree(w, later)
            &&& finds_but_two(v, tree, w, later, a, na, b, nb)
            &&& 0 <= k < w.slots(later[b]).len()
            &&& search(w.slots(later[b]), nb) == Some(k as nat)
            &&& w.slots(later[b])[k] == f
            &&& search(w.slots(later[a]), na) is None
            &&& kept(v, w, tree[a].to_set() + tree[b].to_set() + s.to_set())
        }),
{
    let later = tree.insert(b, d);
    lemma_put_in(x, later, b, nb, k, f);
    let y = x.put_entry(x.place_of(d, k), f).0;
    lemma_still_there(v, tree, u, x, y, later, a, na, b, nb, d, k, f, j);
    lemma_unmark(y, later, a, na, j);
    let z = y.put_marker(y.place_of(later[a], j), FATX_DELETED_FILE_MARKER).0;
    let w = z.flush_fat();
    lemma_flush(z);
    assert(is_tree(w, later) && forall|c: ClusterId|
        #![trigger w.slots(later[c])]
        later.contains_key(c) ==> w.slots(later[c]) == z.slots(later[c])) by {
        lemma_tree_kept(z, w, later, Set::empty());
    }
    lemma_rename_finds(v, tree, u, x, y, z, w, later, a, na, b, nb, d, k, f);
    lemma_rename_kept(v, tree, u, x, y, z, w, later, a, b, d, s);
}

/// The directory that a path lies in is one of those there are.
proof fn lemma_dir_reached(v: FsView, tree: Tree, path: PathView)
    requires
        tree.contains_key(v.geo.root_cluster),
        parent_dir(v, tree, path.comps) is Some,
    ensures
        tree.contains_key(parent_dir(v, tree, path.comps)->0),
{
    lemma_dir_of(
        v,
        tree,
        v.geo.root_cluster,
        path.comps,
        0,
        (path.comps.len() - 1) as nat,
    );
}

/// An entry goes into a slot that is open to it.
proof fn lemma_put_in(
    x: FsView,
    tree: Tree,
    b: ClusterId,
    name: Seq<u8>,
    k: int,
    f: EntryView,
)
    requires
        x.wf(),
        is_tree(x, tree),
        tree.contains_key(b),
        is_open(x.slots(tree[b]), k),
        search(x.slots(tree[b]), name) is None,
        f.wf(),
        f.has_name(name),
    ensures
        ({
            let (y, r) = x.put_entry(x.place_of(tree[b], k), f);
            &&& r == Ok::<(), Error>(())
            &&& y.wf()
            &&& is_tree(y, tree)
            &&& kept(x, y, tree[b].to_set())
            &&& y.slots(tree[b]) == x.slots(tree[b]).update(k, f)
            &&& forall|c: ClusterId|
                #![trigger y.slots(tree[c])]
                tree.contains_key(c) && c != b ==> y.slots(tree[c]) == x.slots(tree[c])
        }),
{
    let d = tree[b];
    lemma_put_slot(x, d, k, f);
    let y = x.put_entry(x.place_of(d, k), f).0;
    assert(names_differ(y.slots(d))) by {
        lemma_insert(x.slots(d), k, f, name);
    }
    assert(y.is_dir(d));
    assert(reshaped(x, d, y, d));
    lemma_tree_reshaped(x, tree, b, y, d);
    assert(tree.insert(b, d) =~= tree);
    assert forall|c: ClusterId|
        #![trigger y.slots(tree[c])]
        tree.contains_key(c) && c != b implies y.slots(tree[c]) == x.slots(tree[c]) by {
        assert(y.slots(tree.insert(b, d)[c]) == x.slots(tree[c]));
    }
}

/// Where the two paths lead after a rename.
proof fn lemma_rename_found(
    v: FsView,
    tree: Tree,
    from: PathView,
    to: PathView,
    w: FsView,
    later: Tree,
    a: ClusterId,
    b: ClusterId,
    f: EntryView,
    k: int,
)
    requires
        v.wf(),
        w.wf(),
        is_tree(w, later),
        tree.contains_key(v.geo.root_cluster),
        from.absolute,
        to.absolute,
        from.comps.len() > 0,
        to.comps.len() > 0,
        parent_dir(v, tree, from.comps) == Some(a),
        parent_dir(v, tree, to.comps) == Some(b),
        is_apart(v, tree, from, a, from.comps.last()),
        is_apart(v, tree, to, a, from.comps.last()),
        search(v.slots(tree[b]), to.comps.last()) matches Some(j) ==> leads_nowhere(
            tree,
            v.slots(tree[b])[j as int],
        ),
        finds_but_two(v, tree, w, later, a, from.comps.last(), b, to.comps.last()),
        0 <= k < w.slots(later[b]).len(),
        search(w.slots(later[b]), to.comps.last()) == Some(k as nat),
        w.slots(later[b])[k] == f,
        search(w.slots(later[a]), from.comps.last()) is None,
    ensures
        leads_to_entry(w, later, to.comps) is Some,
        ({
            let (g, location) = leads_to_entry(w, later, to.comps)->0;
            &&& g == f
            &&& w.lookup(to) == Ok::<(EntryView, Option<EntryLocation>), Error>(
                (f, Some(location)),
            )
        }),
        w.lookup(from) == Err::<(EntryView, Option<EntryLocation>), Error>(Error::NotFound),
{
    let root = v.geo.root_cluster;
    let na = from.comps.last();
    let nb = to.comps.last();
    let n_to = (to.comps.len() - 1) as nat;
    let n_from = (from.comps.len() - 1) as nat;
    lemma_way_kept(v, tree, w, later, a, na, b, nb, root, to.comps, 0, n_to);
    lemma_way_kept(v, tree, w, later, a, na, b, nb, root, from.comps, 0, n_from);
    lemma_lookup(w, later, to, b);
    lemma_lookup(w, later, from, a);
}

/// The old entry is untouched by the new one.
proof fn lemma_still_there(
    v: FsView,
    tree: Tree,
    u: FsView,
    x: FsView,
    y: FsView,
    later: Tree,
    a: ClusterId,
    na: Seq<u8>,
    b: ClusterId,
    nb: Seq<u8>,
    d: Seq<ClusterId>,
    k: int,
    f: EntryView,
    j: int,
)
    requires
        v.wf(),
        is_tree(v, tree),
        tree.contains_key(a),
        tree.contains_key(b),
        later == tree.insert(b, d),
        a != b || na != nb,
        0 <= j,
        search(v.slots(tree[a]), na) == Some(j as nat),
        finds_as_much(v, tree, u, later),
        finds_all_but(u, x, later, b, nb),
        is_open(x.slots(d), k),
        f.has_name(nb),
        y.slots(d) == x.slots(d).update(k, f),
        y.geo == v.geo,
        forall|c: ClusterId|
            #![trigger y.slots(later[c])]
            later.contains_key(c) && c != b ==> y.slots(later[c]) == x.slots(later[c]),
    ensures
        later.contains_key(a),
        search(y.slots(later[a]), na) == Some(j as nat),
        y.slots(later[a])[j] == v.slots(tree[a])[j],
        y.place_of(later[a], j) == v.place_of(tree[a], j),
{
    lemma_search(v.slots(tree[a]), na);
    assert(search(u.slots(later[a]), na) == Some(j as nat));
    assert(same_find(u.slots(later[a]), x.slots(later[a]), na)) by {
        assert(search(x.slots(later[a]), na) == search(x.slots(later[a]), na));
    }
    if a == b {
        lemma_insert(x.slots(d), k, f, nb);
        assert(search(x.slots(d).update(k, f), na) == search(x.slots(d), na));
    } else {
        assert(y.slots(later[a]) == x.slots(later[a]));
    }
}

/// What is found after a rename.
proof fn lemma_rename_finds(
    v: FsView,
    tree: Tree,
    u: FsView,
    x: FsView,
    y: FsView,
    z: FsView,
    w: FsView,
    later: Tree,
    a: ClusterId,
    na: Seq<u8>,
    b: ClusterId,
    nb: Seq<u8>,
    d: Seq<ClusterId>,
    k: int,
    f: EntryView,
)
    requires
        v.wf(),
        is_tree(v, tree),
        tree.contains_key(a),
        tree.contains_key(b),
        later == tree.insert(b, d),
        a != b || na != nb,
        finds_as_much(v, tree, u, later),
        finds_all_but(u, x, later, b, nb),
        is_open(x.slots(d), k),
        f.has_name(nb),
        y.slots(d) == x.slots(d).update(k, f),
        forall|c: ClusterId|
            #![trigger y.slots(later[c])]
            later.contains_key(c) && c != b ==> y.slots(later[c]) == x.slots(later[c]),
        finds_all_but(y, z, later, a, na),
        forall|c: ClusterId|
            #![trigger w.slots(later[c])]
            later.contains_key(c) ==> w.slots(later[c]) == z.slots(later[c]),
        w.geo == v.geo,
    ensures
        finds_but_two(v, tree, w, later, a, na, b, nb),
        search(w.slots(later[b]), nb) == Some(k as nat),
        0 <= k < w.slots(later[b]).len(),
        w.slots(later[b])[k] == f,
        search(w.slots(later[a]), na) is None,
{
    lemma_insert(x.slots(d), k, f, nb);
    assert(later[b] == d);
    assert(w.slots(later[b]) == z.slots(later[b]));
    assert(w.slots(later[a]) == z.slots(later[a]));
    assert(same_find(y.slots(later[b]), z.slots(later[b]), nb)) by {
        assert(search(z.slots(later[b]), nb) == search(z.slots(later[b]), nb));
    }
    assert forall|c: ClusterId, name: Seq<u8>|
        #![trigger search(v.slots(tree[c]), name)]
        tree.contains_key(c) && !(c == a && name == na) && !(c == b && name == nb) && search(
            v.slots(tree[c]),
            name,
        ) is Some implies ({
        let j = search(v.slots(tree[c]), name)->0;
        &&& search(w.slots(later[c]), name) == Some(j)
        &&& w.slots(later[c])[j as int] == v.slots(tree[c])[j as int]
    }) by {
        let j = search(v.slots(tree[c]), name)->0;
        assert(search(u.slots(later[c]), name) == Some(j));
        assert(same_find(u.slots(later[c]), x.slots(later[c]), name)) by {
            assert(search(x.slots(later[c]), name) == search(x.slots(later[c]), name));
        }
        lemma_search(x.slots(later[c]), name);
        if c == b {
            assert(search(x.slots(d).update(k, f), name) == search(x.slots(d), name));
        } else {
            assert(y.slots(later[c]) == x.slots(later[c]));
        }
        assert(search(y.slots(later[c]), name) == Some(j));
        assert(same_find(y.slots(later[c]), z.slots(later[c]), name));
        assert(w.slots(later[c]) == z.slots(later[c]));
    }
}

/// What a rename keeps.
proof fn lemma_rename_kept(
    v: FsView,
    tree: Tree,
    u: FsView,
    x: FsView,
    y: FsView,
    z: FsView,
    w: FsView,
    later: Tree,
    a: ClusterId,
    b: ClusterId,
    d: Seq<ClusterId>,
    s: Seq<ClusterId>,
)
    requires
        v.wf(),
        later == tree.insert(b, d),
        reshaped(v, tree[b], u, d),
        kept(u, x, d.to_set() + s.to_set()),
        kept(x, y, d.to_set()),
        kept(y, z, later[a].to_set()),
        kept(z, w, Set::empty()),
    ensures
        kept(v, w, tree[a].to_set() + tree[b].to_set() + s.to_set()),
{
    let all = tree[a].to_set() + tree[b].to_set() + s.to_set();
    assert forall|c: ClusterId| d.to_set().contains(c) implies all.contains(c) || v.is_free(c) by {
        let i = choose|i: int| 0 <= i < d.len() && d[i] == c;
        if i < tree[b].len() {
            assert(d[i] == tree[b][i]);
            assert(tree[b].contains(tree[b][i]));
            assert(tree[b].to_set().contains(c));
        } else {
            assert(v.is_free(d[i]));
        }
    }
    lemma_kept_wider(v, u, tree[b].to_set(), all);
    assert(within_or_free(v, d.to_set() + s.to_set(), all));
    lemma_kept_trans(v, u, x, all, d.to_set() + s.to_set());
    assert(within_or_free(v, d.to_set(), all));
    lemma_kept_trans(v, x, y, all, d.to_set());
    assert(within_or_free(v, later[a].to_set(), all)) by {
        assert forall|c: ClusterId| #[trigger] later[a].to_set().contains(c) implies all.contains(c)
            || v.is_free(c) by {
            if a != b {
                assert(tree[a].to_set().contains(c));
            }
        }
    }
    lemma_kept_trans(v, y, z, all, later[a].to_set());
    assert(within_or_free(v, Set::empty(), all));
    lemma_kept_trans(v, z, w, all, Set::empty());
}

/// A directory that is not empty is not replaced: the rename is refused, and
/// everything is found where it was.
///
/// Only a slot for the entry may have been made ready by then. The directory at
/// the new path has the clusters `s`, none of them those of the others.
pub proof fn law_a_directory_in_use_is_not_replaced(
    v: FsView,
    tree: Tree,
    from: PathView,
    to: PathView,
    s: Seq<ClusterId>,
) -> (later: Tree)
    requires
        v.wf(),
        v.linkable(),
        v.geo.writable,
        is_tree(v, tree),
        tree.contains_key(v.geo.root_cluster),
        from.absolute,
        to.absolute,
        from.comps.len() > 0,
        to.comps.len() > 0,
        from != to,
        leads_to_entry(v, tree, from.comps) is Some,
        !((leads_to_entry(v, tree, from.comps)->0).0.is_directory() && to.starts_with(from)),
        leads_to_entry(v, tree, to.comps) is Some,
        is_file_name(to.comps.last()),
        ({
            let (existing, _) = leads_to_entry(v, tree, to.comps)->0;
            &&& existing.is_directory()
            &&& v.is_dir(s)
            &&& existing.first_cluster == s[0]
            &&& v.directory_is_empty(s[0]) == Ok::<bool, Error>(false)
        }),
        forall|c: ClusterId| #[trigger] tree.contains_key(c) ==> avoids(tree[c], s.to_set()),
    ensures
        ({
            let (w, r) = v.rename(from, to);
            &&& r == Err::<(), Error>(Error::DirectoryNotEmpty) || (r == Err::<(), Error>(
                Error::NoSpaceLeft,
            ) && v.is_full())
            &&& is_tree(w, later)
            &&& finds_as_much(v, tree, w, later)
            &&& kept(v, w, tree[parent_dir(v, tree, to.comps)->0].to_set())
        }),
{
    let a = parent_dir(v, tree, from.comps)->0;
    let b = parent_dir(v, tree, to.comps)->0;
    lemma_dir_reached(v, tree, from);
    lemma_dir_reached(v, tree, to);
    let (e, from_location) = leads_to_entry(v, tree, from.comps)->0;
    assert(v.lookup(from) == Ok::<(EntryView, Option<EntryLocation>), Error>(
        (e, Some(from_location)),
    )) by {
        lemma_lookup(v, tree, from, a);
    }
    assert(v.split_parent(to) == Ok::<(ClusterId, Seq<u8>), Error>((b, to.comps.last()))) by {
        lemma_split_parent(v, tree, to, b);
    }
    let (d, k) = lemma_alloc_entry(v, tree[b]);
    match v.alloc_entry(b) {
        (u, Ok(to_location)) => {
            lemma_refused(v, tree, to, b, s, u, d, k);
            tree.insert(b, d)
        },
        _ => {
            lemma_kept_refl(v, tree[b].to_set());
            lemma_finds_same(v, tree);
            tree
        },
    }
}

/// A directory that is not empty cannot be taken away.
proof fn lemma_refused(
    v: FsView,
    tree: Tree,
    to: PathView,
    b: ClusterId,
    s: Seq<ClusterId>,
    u: FsView,
    d: Seq<ClusterId>,
    k: int,
)
    requires
        v.wf(),
        v.geo.writable,
        is_tree(v, tree),
        tree.contains_key(v.geo.root_cluster),
        to.absolute,
        to.comps.len() > 0,
        parent_dir(v, tree, to.comps) == Some(b),
        tree.contains_key(b),
        opened_up(v, tree[b], u, d, k),
        leads_to_entry(v, tree, to.comps) is Some,
        ({
            let (existing, _) = leads_to_entry(v, tree, to.comps)->0;
            &&& existing.is_directory()
            &&& v.is_dir(s)
            &&& existing.first_cluster == s[0]
            &&& v.directory_is_empty(s[0]) == Ok::<bool, Error>(false)
        }),
        forall|c: ClusterId| #[trigger] tree.contains_key(c) ==> avoids(tree[c], s.to_set()),
    ensures
        u.replace(to) == (u, Err::<(), Error>(Error::DirectoryNotEmpty)),
        is_tree(u, tree.insert(b, d)),
        finds_as_much(v, tree, u, tree.insert(b, d)),
{
    let later = tree.insert(b, d);
    lemma_tree_reshaped(v, tree, b, u, d);
    lemma_finds_more(v, tree, b, u, d);
    lemma_way_to(v, tree, u, later, to, b);
    assert(avoids(tree[b], s.to_set()));
    lemma_avoid_each_other(tree[b], s);
    lemma_dir_kept(v, u, s, tree[b].to_set());
    lemma_same_emptiness(v, u, s);
    assert(same_find(v.slots(tree[b]), u.slots(d), to.comps.last()));
    lemma_lookup(u, later, to, b);
}

/// Everything is found where it is.
proof fn lemma_finds_same(v: FsView, tree: Tree)
    ensures
        finds_as_much(v, tree, v, tree),
{
}

/// A directory cannot be moved inside itself: the request is refused and
/// nothing changes.
pub proof fn law_no_directory_moves_inside_itself(v: FsView, from: PathView, to: PathView)
    requires
        v.geo.writable,
        from != to,
        v.lookup(from) matches Ok((e, Some(_))) && e.is_directory(),
        to.starts_with(from),
    ensures
        v.rename(from, to) == (v, Err::<(), Error>(Error::InvalidRename)),
{
}

} // verus!
