//! What is found of a node once its entry has been written anew.

use vstd::prelude::*;

#[allow(unused_imports)]
use crate::chain::{kept, lemma_chain_distinct, same_bytes};
#[allow(unused_imports)]
use crate::contents::{
    has_clusters, law_a_resized_file_keeps_what_it_can, law_a_write_reads_back, lemma_entry_put,
    lemma_put_entry, owns_nothing, same_but_slot, truncated, wrote,
};
use crate::datetime::DateTime;
#[allow(unused_imports)]
use crate::dir::{EntryLocation, EntryView};
use crate::error::Error;
use crate::fat::ClusterId;
use crate::file::FileView;
#[allow(unused_imports)]
use crate::names::{dir_of, is_tree, leads_to_entry, lemma_dir_of, lemma_lookup, parent_dir, Tree};
use crate::path::PathView;
#[allow(unused_imports)]
use crate::slots::{lemma_replace, lemma_search, search};
#[allow(unused_imports)]
use crate::tree::{avoids, lemma_dir_kept, lemma_entry_at, lemma_slot_split};
use crate::volume::FsView;

verus! {

/// A directory one of whose slots has been written anew.
proof fn lemma_slot_rewritten(
    v: FsView,
    w: FsView,
    d: Seq<ClusterId>,
    j: int,
    e: EntryView,
    s: Set<ClusterId>,
)
    requires
        v.wf(),
        v.is_dir(d),
        0 <= j < v.slots(d).len(),
        kept(v, w, s.insert(v.place_of(d, j).cluster)),
        avoids(d, s),
        same_but_slot(v, w, v.place_of(d, j)),
        w.entry_at(v.place_of(d, j).cluster, v.place_of(d, j).index as nat) == Ok::<
            EntryView,
            Error,
        >(e),
    ensures
        w.is_chain(d),
        forall|i: int| 0 <= i < d.len() ==> w.is_loaded(#[trigger] d[i]),
        w.slots(d) == v.slots(d).update(j, e),
{
    let epc = v.epc() as int;
    lemma_slot_split(v, j, d.len() as int);
    let at = j / epc;
    let index = j % epc;
    let c = d[at];
    let location = v.place_of(d, j);
    assert(location.index == index);
    assert(v.geo.has_cluster(c));
    assert forall|i: int| #![trigger d[i]] 0 <= i < d.len() && d[i] != c implies same_bytes(
        v,
        w,
        d[i],
    ) && w.link(d[i]) == v.link(d[i]) by {
        if i < d.len() - 1 {
            assert(v.leads_to(d[i], d[i + 1]));
        }
        assert(!s.contains(d[i]));
        assert(v.geo.has_cluster(d[i]));
    }
    assert forall|i: int|
        #![trigger d[i]]
        0 <= i < d.len() - 1 implies w.leads_to(d[i], d[i + 1]) by {
        assert(v.leads_to(d[i], d[i + 1]));
        assert(w.link(d[i]) == v.link(d[i]));
    }
    assert(w.link(d.last()) == v.link(d.last()));
    assert(w.is_chain(d));
    // The slot itself is known, since it could be read.
    assert forall|x: int| index * 64 <= x < index * 64 + 64 implies #[trigger] w.has_byte(c, x) by {
        reveal(crate::device::DeviceView::read);
        v.geo.lemma_cluster_fits(c);
        let start = v.geo.start_of(c) + index * 64;
        assert(w.dev.has(start, 64));
        assert(w.dev.known.contains_key(v.geo.start_of(c) + x));
    }
    assert forall|i: int| 0 <= i < d.len() implies w.is_loaded(#[trigger] d[i]) by {
        assert(v.is_loaded(d[i]));
        assert forall|x: int| 0 <= x < w.bpc() implies #[trigger] w.has_byte(d[i], x) by {
            assert(v.has_byte(d[i], x));
            if d[i] != c {
                assert(same_bytes(v, w, d[i]));
            }
        }
    }
    lemma_entry_at(w, c, index);
    assert(w.slot(c, index) == e);
    assert forall|m: int| 0 <= m < d.len() * epc implies w.slots(d)[m] == v.slots(d).update(
        j,
        e,
    )[m] by {
        lemma_slot_split(v, m, d.len() as int);
        let mi = m / epc;
        let mj = m % epc;
        let mc = d[mi];
        assert(v.is_loaded(mc));
        if m != j {
            assert forall|x: int| 0 <= x < 64 implies w.slot_bytes(mc, mj)[x] == v.slot_bytes(
                mc,
                mj,
            )[x] by {
                assert(v.has_byte(mc, mj * 64 + x));
                if mc == c {
                    if mi < at {
                        lemma_chain_distinct(v, d, mi, at);
                    } else if at < mi {
                        lemma_chain_distinct(v, d, at, mi);
                    }
                    assert(mj != index);
                    assert(w.byte_of(c, mj * 64 + x) == v.byte_of(c, mj * 64 + x));
                } else {
                    assert(same_bytes(v, w, mc));
                    assert(w.byte_of(mc, mj * 64 + x) == v.byte_of(mc, mj * 64 + x));
                }
            }
            assert(w.slot_bytes(mc, mj) =~= v.slot_bytes(mc, mj));
        }
    }
    assert(w.slots(d) =~= v.slots(d).update(j, e));
}

/// Whether an entry can take the place of another without anything that lies
/// below being found elsewhere: it has the same name, and if either is that of
/// a directory, they are of the same one.
pub open spec fn stands_for(e: EntryView, other: EntryView, name: Seq<u8>) -> bool {
    &&& e.has_name(name)
    &&& e.is_directory() == other.is_directory()
    &&& e.is_directory() ==> e.first_cluster == other.first_cluster
}

/// Whether the entry of a path has become another, and every other path leads
/// to what it led to before.
pub open spec fn updated(
    v: FsView,
    tree: Tree,
    path: PathView,
    w: FsView,
    e: EntryView,
) -> bool {
    let (_, location) = leads_to_entry(v, tree, path.comps)->0;
    &&& is_tree(w, tree)
    &&& leads_to_entry(w, tree, path.comps) == Some((e, location))
    &&& forall|comps: Seq<Seq<u8>>| #[trigger]
        parent_dir(w, tree, comps) == parent_dir(v, tree, comps)
    &&& w.lookup(path) == Ok::<(EntryView, Option<EntryLocation>), Error>((e, Some(location)))
    &&& forall|other: PathView|
        other.absolute && other.comps.len() > 0 && parent_dir(v, tree, other.comps) is Some && (
        parent_dir(v, tree, other.comps) != parent_dir(v, tree, path.comps) || other.comps.last()
            != path.comps.last()) ==> #[trigger] w.lookup(other) == v.lookup(other)
}

/// Where directories lead once an entry has been written anew.
proof fn lemma_way_same(
    v: FsView,
    w: FsView,
    tree: Tree,
    b: ClusterId,
    name: Seq<u8>,
    c: ClusterId,
    comps: Seq<Seq<u8>>,
    k: nat,
    n: nat,
)
    requires
        tree.contains_key(c),
        tree.contains_key(b),
        search(v.slots(tree[b]), name) is Some,
        ({
            let j = search(v.slots(tree[b]), name)->0;
            &&& search(w.slots(tree[b]), name) == Some(j)
            &&& stands_for(w.slots(tree[b])[j as int], v.slots(tree[b])[j as int], name)
        }),
        forall|a: ClusterId, m: Seq<u8>|
            #![trigger search(w.slots(tree[a]), m)]
            tree.contains_key(a) && (a != b || m != name) ==> search(w.slots(tree[a]), m)
                == search(v.slots(tree[a]), m) && (search(v.slots(tree[a]), m) matches Some(i)
                ==> w.slots(tree[a])[i as int] == v.slots(tree[a])[i as int]),
    ensures
        dir_of(w, tree, c, comps, k, n) == dir_of(v, tree, c, comps, k, n),
    decreases n - k,
{
    if k < n {
        let m = comps[k as int];
        assert(search(w.slots(tree[c]), m) == search(v.slots(tree[c]), m));
        match search(v.slots(tree[c]), m) {
            Some(i) => {
                let e = v.slots(tree[c])[i as int];
                let f = w.slots(tree[c])[i as int];
                assert(e.is_directory() == f.is_directory());
                if e.is_directory() && tree.contains_key(e.first_cluster) {
                    lemma_way_same(v, w, tree, b, name, e.first_cluster, comps, k + 1, n);
                }
            },
            None => {},
        }
    }
}

/// An entry that has been written anew is found in place of the old one.
proof fn lemma_updated(
    v: FsView,
    tree: Tree,
    path: PathView,
    w: FsView,
    e: EntryView,
    s: Set<ClusterId>,
)
    requires
        v.wf(),
        is_tree(v, tree),
        tree.contains_key(v.geo.root_cluster),
        path.absolute,
        path.comps.len() > 0,
        leads_to_entry(v, tree, path.comps) is Some,
        forall|c: ClusterId| #[trigger] tree.contains_key(c) ==> avoids(tree[c], s),
        ({
            let (old_entry, location) = leads_to_entry(v, tree, path.comps)->0;
            &&& kept(v, w, s.insert(location.cluster))
            &&& same_but_slot(v, w, location)
            &&& w.entry_at(location.cluster, location.index as nat) == Ok::<EntryView, Error>(e)
            &&& stands_for(e, old_entry, path.comps.last())
        }),
    ensures
        updated(v, tree, path, w, e),
{
    let b = parent_dir(v, tree, path.comps)->0;
    let name = path.comps.last();
    let root = v.geo.root_cluster;
    lemma_dir_of(v, tree, root, path.comps, 0, (path.comps.len() - 1) as nat);
    let d = tree[b];
    let j = search(v.slots(d), name)->0 as int;
    let location = v.place_of(d, j);
    lemma_search(v.slots(d), name);
    assert(v.is_dir(d));
    lemma_slot_rewritten(v, w, d, j, e, s);
    lemma_replace(v.slots(d), j, e, name);
    assert(w.is_dir(d));
    lemma_slot_split(v, j, d.len() as int);
    assert(d[j / v.epc() as int] == location.cluster);
    assert forall|c: ClusterId| #[trigger] tree.contains_key(c) && c != b implies w.is_dir(tree[c])
        && w.slots(tree[c]) == v.slots(tree[c]) by {
        assert(avoids(tree[c], s.insert(location.cluster))) by {
            assert forall|i: int| 0 <= i < tree[c].len() implies !s.insert(
                location.cluster,
            ).contains(#[trigger] tree[c][i]) by {
                assert(avoids(tree[c], s));
                assert(!s.contains(tree[c][i]));
                assert(tree[b][j / v.epc() as int] != tree[c][i]);
            }
        }
        lemma_dir_kept(v, w, tree[c], s.insert(location.cluster));
    }
    assert(is_tree(w, tree));
    assert forall|a: ClusterId, m: Seq<u8>|
        #![trigger search(w.slots(tree[a]), m)]
        tree.contains_key(a) && (a != b || m != name) implies search(w.slots(tree[a]), m) == search(
        v.slots(tree[a]),
        m,
    ) && (search(v.slots(tree[a]), m) matches Some(i) ==> w.slots(tree[a])[i as int] == v.slots(
        tree[a],
    )[i as int]) by {
        if a == b {
            assert(search(v.slots(d).update(j, e), m) == search(v.slots(d), m));
        }
    }
    assert forall|comps: Seq<Seq<u8>>| #[trigger]
        parent_dir(w, tree, comps) == parent_dir(v, tree, comps) by {
        lemma_way_same(v, w, tree, b, name, root, comps, 0, (comps.len() - 1) as nat);
    }
    lemma_lookup(w, tree, path, b);
    assert forall|other: PathView|
        other.absolute && other.comps.len() > 0 && parent_dir(v, tree, other.comps) is Some && (
        parent_dir(v, tree, other.comps) != Some(b) || other.comps.last() != name) implies
        #[trigger] w.lookup(other) == v.lookup(other) by {
        let c = parent_dir(v, tree, other.comps)->0;
        assert(parent_dir(w, tree, other.comps) == parent_dir(v, tree, other.comps));
        lemma_lookup(v, tree, other, c);
        lemma_lookup(w, tree, other, c);
        assert(search(w.slots(tree[c]), other.comps.last()) == search(
            v.slots(tree[c]),
            other.comps.last(),
        ));
    }
}

/// Where the entry that a path leads to lies.
pub proof fn lemma_location(v: FsView, tree: Tree, path: PathView)
    requires
        v.wf(),
        is_tree(v, tree),
        tree.contains_key(v.geo.root_cluster),
        leads_to_entry(v, tree, path.comps) is Some,
    ensures
        ({
            let (e, location) = leads_to_entry(v, tree, path.comps)->0;
            &&& location.index < v.epc()
            &&& v.geo.has_cluster(location.cluster)
            &&& !v.is_free(location.cluster)
            &&& e.has_name(path.comps.last())
            &&& exists|b: ClusterId, i: int|
                #![trigger tree[b][i]]
                tree.contains_key(b) && 0 <= i < tree[b].len() && tree[b][i] == location.cluster
        }),
{
    let b = parent_dir(v, tree, path.comps)->0;
    lemma_dir_of(v, tree, v.geo.root_cluster, path.comps, 0, (path.comps.len() - 1) as nat);
    let d = tree[b];
    assert(v.is_dir(d));
    lemma_search(v.slots(d), path.comps.last());
    let j = search(v.slots(d), path.comps.last())->0 as int;
    lemma_slot_split(v, j, d.len() as int);
    let i = j / v.epc() as int;
    assert(tree[b][i] == v.place_of(d, j).cluster);
    if i < d.len() - 1 {
        assert(v.leads_to(d[i], d[i + 1]));
    }
}

/// The times of a node are what they have been set to, and nothing else of it
/// has changed. Every other path leads to what it led to before.
pub proof fn law_times_are_what_they_were_set_to(
    v: FsView,
    tree: Tree,
    path: PathView,
    accessed: Option<DateTime>,
    modified: Option<DateTime>,
)
    requires
        v.wf(),
        v.geo.writable,
        is_tree(v, tree),
        tree.contains_key(v.geo.root_cluster),
        path.absolute,
        path.comps.len() > 0,
        leads_to_entry(v, tree, path.comps) is Some,
        (leads_to_entry(v, tree, path.comps)->0).0.wf(),
    ensures
        ({
            let (e, _) = leads_to_entry(v, tree, path.comps)->0;
            let e = match accessed {
                Some(dt) => e.accessed_at(dt, v.geo.variant),
                None => e,
            };
            let e = match modified {
                Some(dt) => e.modified_at(dt, v.geo.variant),
                None => e,
            };
            let (w, r) = v.set_times(path, accessed, modified);
            r == Ok::<(), Error>(()) && updated(v, tree, path, w, e)
        }),
{
    let b = parent_dir(v, tree, path.comps)->0;
    let (e, location) = leads_to_entry(v, tree, path.comps)->0;
    let f = match accessed {
        Some(dt) => e.accessed_at(dt, v.geo.variant),
        None => e,
    };
    let f = match modified {
        Some(dt) => f.modified_at(dt, v.geo.variant),
        None => f,
    };
    lemma_lookup(v, tree, path, b);
    lemma_location(v, tree, path);
    lemma_put_entry(v, location, f);
    lemma_entry_put(v, location, f);
    assert(f.name_bytes() =~= e.name_bytes());
    let w = v.put_entry(location, f).0;
    assert(Set::<ClusterId>::empty().insert(location.cluster) =~= set![location.cluster]);
    lemma_updated(v, tree, path, w, f, Set::empty());
}

/// A file that has been given another size is found with that size. Every other
/// path leads to what it led to before.
pub proof fn law_a_resized_file_is_found(
    v: FsView,
    tree: Tree,
    path: PathView,
    s: Seq<ClusterId>,
    size: u32,
    now: DateTime,
) -> (t: Seq<ClusterId>)
    requires
        v.wf(),
        v.linkable(),
        v.geo.writable,
        is_tree(v, tree),
        tree.contains_key(v.geo.root_cluster),
        path.absolute,
        path.comps.len() > 0,
        leads_to_entry(v, tree, path.comps) is Some,
        ({
            let (e, _) = leads_to_entry(v, tree, path.comps)->0;
            &&& !e.is_directory()
            &&& (v.is_chain(s) && e.first_cluster == s[0] && e.file_size <= s.len() * v.bpc()) || (
            s.len() == 0 && e.first_cluster == 0 && e.file_size == 0)
        }),
        forall|c: ClusterId| #[trigger] tree.contains_key(c) ==> avoids(tree[c], s.to_set()),
    ensures
        ({
            let (e, location) = leads_to_entry(v, tree, path.comps)->0;
            let (w, r) = v.truncate(path, size as u64, now);
            &&& truncated(v, s, e, location, size, now, (w, r), t)
            &&& r is Ok ==> updated(
                v,
                tree,
                path,
                w,
                e.starting_at(t[0]).sized(size).modified_at(now, v.geo.variant),
            )
        }),
{
    let b = parent_dir(v, tree, path.comps)->0;
    let (e, location) = leads_to_entry(v, tree, path.comps)->0;
    lemma_lookup(v, tree, path, b);
    lemma_location(v, tree, path);
    lemma_apart(tree, location, s);
    let t = law_a_resized_file_keeps_what_it_can(v, path, s, e, location, size, now);
    let (w, r) = v.truncate(path, size as u64, now);
    if r is Ok {
        let f = e.starting_at(t[0]).sized(size).modified_at(now, v.geo.variant);
        assert(f.name_bytes() =~= e.name_bytes());
        lemma_updated(v, tree, path, w, f, s.to_set());
    }
    t
}

/// Clusters that no directory has do not hold an entry.
pub proof fn lemma_apart(tree: Tree, location: EntryLocation, s: Seq<ClusterId>)
    requires
        exists|b: ClusterId, i: int|
            #![trigger tree[b][i]]
            tree.contains_key(b) && 0 <= i < tree[b].len() && tree[b][i] == location.cluster,
        forall|c: ClusterId| #[trigger] tree.contains_key(c) ==> avoids(tree[c], s.to_set()),
    ensures
        !s.contains(location.cluster),
{
    let (b, i) = choose|b: ClusterId, i: int|
        #![trigger tree[b][i]]
        tree.contains_key(b) && 0 <= i < tree[b].len() && tree[b][i] == location.cluster;
    assert(avoids(tree[b], s.to_set()));
    assert(!s.to_set().contains(tree[b][i]));
}

/// A file that has been written to is found with the entry that the open file
/// has: looking it up, or opening it again, tells its new size. Every other
/// path leads to what it led to before.
pub proof fn law_a_written_file_is_found(
    f: FileView,
    v: FsView,
    tree: Tree,
    path: PathView,
    s: Seq<ClusterId>,
    data: Seq<u8>,
    now: DateTime,
) -> (t: Seq<ClusterId>)
    requires
        v.wf(),
        v.linkable(),
        v.geo.writable,
        is_tree(v, tree),
        tree.contains_key(v.geo.root_cluster),
        path.absolute,
        path.comps.len() > 0,
        leads_to_entry(v, tree, path.comps) == Some((f.dirent, f.location->0)),
        f.location is Some,
        f.dirent.wf(),
        !f.dirent.is_directory(),
        has_clusters(f, v, s) || (owns_nothing(f) && s.len() == 0),
        f.pos < u32::MAX,
        forall|c: ClusterId| #[trigger] tree.contains_key(c) ==> avoids(tree[c], s.to_set()),
    ensures
        wrote(f, v, s, data, now, f.write(v, data, now), t),
        f.write(v, data, now) matches (g, w, Ok(_)) ==> updated(v, tree, path, w, g.dirent),
{
    lemma_location(v, tree, path);
    lemma_apart(tree, f.location->0, s);
    let t = law_a_write_reads_back(f, v, s, data, now);
    match f.write(v, data, now) {
        (g, w, Ok(n)) => {
            assert(g.dirent.name_bytes() =~= f.dirent.name_bytes());
            lemma_updated(v, tree, path, w, g.dirent, s.to_set());
        },
        _ => {},
    }
    t
}

} // verus!
