//! What holds of the requests a mounted filesystem answers, on an image that is
//! in order.

use vstd::prelude::*;

#[allow(unused_imports)]
use crate::bytes::zeroes;
#[allow(unused_imports)]
use crate::chain::{kept, lemma_kept_refl, lemma_kept_trans, same_bytes, within_or_free};
#[allow(unused_imports)]
use crate::contents::{
    file_after_write, has_clusters, law_reading_gives_the_bytes_of_the_file, lemma_put_entry,
    lemma_same_file, owns_nothing, readable, same_file_byte, truncated, written_entry,
};
use crate::datetime::DateTime;
#[allow(unused_imports)]
use crate::dir::{EntryLocation, EntryView};
#[allow(unused_imports)]
use crate::driver::Stop;
use crate::error::Error;
#[allow(unused_imports)]
use crate::error::{Errno, ErrorKind};
use crate::fat::ClusterId;
use crate::file::FileView;
#[allow(unused_imports)]
use crate::file::SeekFrom;
#[allow(unused_imports)]
use crate::names::{is_tree, leads_to_entry, lemma_lookup, parent_dir, Tree};
#[allow(unused_imports)]
use crate::order::{clusters_of, holds, in_order, is_sound, lemma_found, lemma_one_way};
use crate::path::PathView;
#[allow(unused_imports)]
use crate::tree::avoids;
#[allow(unused_imports)]
use crate::resize::{lemma_clusters_for, lemma_resize_frees};
#[allow(unused_imports)]
use crate::updates::{
    law_a_resized_file_is_found, law_a_written_file_is_found, law_times_are_what_they_were_set_to,
    lemma_apart, lemma_location, updated,
};
#[allow(unused_imports)]
use crate::variant::Variant;
use crate::volume::FsView;
#[allow(unused_imports)]
use crate::walk::lemma_found_fits;

verus! {

/// Whether a path leads to a node other than the root.
pub open spec fn is_there(v: FsView, path: PathView) -> bool {
    v.lookup(path) matches Ok((_, Some(_)))
}

/// A request to read from a file gives the bytes of the file from the offset on,
/// as many as were asked for or as there are before its end, wherever in the file
/// the offset is. An offset at or past the end gives none.
pub proof fn law_a_read_request_gives_the_bytes_of_the_file(
    v: FsView,
    path: PathView,
    e: EntryView,
    location: Option<EntryLocation>,
    s: Seq<ClusterId>,
    offset: u64,
    want: nat,
)
    requires
        v.wf(),
        v.lookup(path) == Ok::<(EntryView, Option<EntryLocation>), Error>((e, location)),
        e.is_file(),
        e.file_size > 0 ==> v.is_chain(s) && e.first_cluster == s[0] && e.file_size <= s.len()
            * v.bpc(),
        offset <= u32::MAX,
        forall|p: int| offset <= p < offset + want && p < e.file_size ==> #[trigger]
            v.has_file_byte(s, p),
    ensures
        offset >= e.file_size ==> v.read_file(path, offset, want) == Ok::<Seq<u8>, Error>(
            Seq::empty(),
        ),
        offset < e.file_size <= offset + want ==> v.read_file(path, offset, want) == Ok::<
            Seq<u8>,
            Error,
        >(Seq::new((e.file_size - offset) as nat, |k: int| v.file_byte(s, offset + k))),
        offset + want <= e.file_size ==> v.read_file(path, offset, want) == Ok::<Seq<u8>, Error>(
            Seq::new(want, |k: int| v.file_byte(s, offset + k)),
        ),
{
    let f = FileView { pos: offset as u32, ..FileView::opened(e, location) };
    assert(v.open(path) == Ok::<FileView, Error>(FileView::opened(e, location)));
    assert(FileView::opened(e, location).seek(SeekFrom::Start(offset)) == (
        f,
        Ok::<u64, Error>(offset),
    ));
    assert(v.read_file(path, offset, want) == f.read(v, want).1);
    if offset >= e.file_size {
        assert(f.read_on(v, want, Seq::empty()) == (f, Ok::<Seq<u8>, Error>(Seq::empty())));
        if want == 0 {
            assert(Seq::new(want, |k: int| v.file_byte(s, offset + k)) =~= Seq::empty());
        }
    } else {
        assert(has_clusters(f, v, s));
        let n = readable(f, want);
        law_reading_gives_the_bytes_of_the_file(f, v, s, want);
        assert(v.file_bytes(s, offset as int, n) =~= Seq::new(
            n,
            |k: int| v.file_byte(s, offset + k),
        ));
    }
}

/// Two writes, one where the other left off, are one write of all the bytes.
proof fn lemma_after_both(
    f: FileView,
    v: FsView,
    s: Seq<ClusterId>,
    a: Seq<u8>,
    g: FileView,
    w: FsView,
    t: Seq<ClusterId>,
    b: Seq<u8>,
    h: FileView,
    x: FsView,
    u: Seq<ClusterId>,
)
    requires
        file_after_write(f, v, s, a, g, w, t),
        file_after_write(g, w, t, b, h, x, u),
    ensures
        file_after_write(f, v, s, a + b, h, x, u),
{
    let all = a + b;
    assert forall|p: int|
        #![trigger x.has_file_byte(u, p)]
        #![trigger x.file_byte(u, p)]
        f.pos <= p < f.pos + all.len() implies x.has_file_byte(u, p) && x.file_byte(u, p) == all[p
        - f.pos] by {
        if p < g.pos {
            assert(w.has_file_byte(t, p) && w.file_byte(t, p) == a[p - f.pos]);
            assert(same_file_byte(w, t, x, u, p));
        }
    }
    assert forall|p: int|
        0 <= p < f.size() && !(f.pos <= p < f.pos + all.len()) implies #[trigger] same_file_byte(
        v,
        s,
        x,
        u,
        p,
    ) by {
        assert(same_file_byte(v, s, w, t, p));
        assert(same_file_byte(w, t, x, u, p));
    }
    assert forall|p: int|
        #![trigger x.has_file_byte(u, p)]
        #![trigger x.file_byte(u, p)]
        f.size() <= p < f.pos implies x.has_file_byte(u, p) && x.file_byte(u, p) == 0 by {
        assert(w.has_file_byte(t, p) && w.file_byte(t, p) == 0);
        assert(same_file_byte(w, t, x, u, p));
    }
}

/// An entry written anew twice.
proof fn lemma_updated_again(
    v: FsView,
    tree: Tree,
    path: PathView,
    w: FsView,
    e: EntryView,
    x: FsView,
    f: EntryView,
)
    requires
        leads_to_entry(v, tree, path.comps) is Some,
        updated(v, tree, path, w, e),
        updated(w, tree, path, x, f),
    ensures
        updated(v, tree, path, x, f),
{
    assert forall|comps: Seq<Seq<u8>>| #[trigger]
        parent_dir(x, tree, comps) == parent_dir(v, tree, comps) by {
        assert(parent_dir(w, tree, comps) == parent_dir(v, tree, comps));
    }
    assert(parent_dir(w, tree, path.comps) == parent_dir(v, tree, path.comps));
    assert forall|other: PathView|
        other.absolute && other.comps.len() > 0 && parent_dir(v, tree, other.comps) is Some && (
        parent_dir(v, tree, other.comps) != parent_dir(v, tree, path.comps) || other.comps.last()
            != path.comps.last()) implies #[trigger] x.lookup(other) == v.lookup(other) by {
        assert(parent_dir(w, tree, other.comps) == parent_dir(v, tree, other.comps));
        assert(w.lookup(other) == v.lookup(other));
    }
}

/// What some bytes going down comes to.
#[verifier::opaque]
spec fn put_down(
    f: FileView,
    v: FsView,
    tree: Tree,
    path: PathView,
    s: Seq<ClusterId>,
    data: Seq<u8>,
    g: FileView,
    w: FsView,
    t: Seq<ClusterId>,
) -> bool {
    &&& file_after_write(f, v, s, data, g, w, t)
    &&& updated(v, tree, path, w, g.dirent)
    &&& kept(v, w, s.to_set().insert(f.location->0.cluster))
    &&& w.link(f.location->0.cluster) == v.link(f.location->0.cluster)
    &&& within_or_free(v, t.to_set(), s.to_set())
}

/// Whether a file can be written to, on a filesystem with some directories.
#[verifier::opaque]
spec fn is_ready(f: FileView, v: FsView, tree: Tree, path: PathView, s: Seq<ClusterId>) -> bool {
    &&& v.wf()
    &&& v.linkable()
    &&& v.geo.writable
    &&& is_tree(v, tree)
    &&& tree.contains_key(v.geo.root_cluster)
    &&& path.absolute
    &&& path.comps.len() > 0
    &&& leads_to_entry(v, tree, path.comps) == Some((f.dirent, f.location->0))
    &&& f.location is Some
    &&& f.dirent.wf()
    &&& !f.dirent.is_directory()
    &&& has_clusters(f, v, s) || (owns_nothing(f) && s.len() == 0)
    &&& forall|c: ClusterId| #[trigger] tree.contains_key(c) ==> avoids(tree[c], s.to_set())
}

/// What two writes one after the other leave as it was.
proof fn lemma_kept_both(
    v: FsView,
    s: Seq<ClusterId>,
    w: FsView,
    t: Seq<ClusterId>,
    x: FsView,
    u: Seq<ClusterId>,
    loc: ClusterId,
)
    requires
        kept(v, w, s.to_set().insert(loc)),
        w.link(loc) == v.link(loc),
        within_or_free(v, t.to_set(), s.to_set()),
        kept(w, x, t.to_set().insert(loc)),
        within_or_free(w, u.to_set(), t.to_set()),
    ensures
        kept(v, x, s.to_set().insert(loc)),
        within_or_free(v, u.to_set(), s.to_set()),
{
    let all = s.to_set().insert(loc);
    assert(within_or_free(v, t.to_set().insert(loc), all)) by {
        assert forall|c: ClusterId| #[trigger] t.to_set().insert(loc).contains(c) implies all.contains(
            c,
        ) || v.is_free(c) by {
            if c != loc {
                assert(t.to_set().contains(c));
            }
        }
    }
    lemma_kept_trans(v, w, x, all, t.to_set().insert(loc));
    assert forall|c: ClusterId| #[trigger] u.to_set().contains(c) implies s.to_set().contains(c)
        || v.is_free(c) by {
        if !t.to_set().contains(c) && !s.to_set().contains(c) && !v.is_free(c) {
            assert(w.is_free(c));
            assert(w.link(c) == v.link(c));
        }
    }
}

/// One write and all that follow it.
proof fn lemma_put_both(
    f: FileView,
    v: FsView,
    tree: Tree,
    path: PathView,
    s: Seq<ClusterId>,
    a: Seq<u8>,
    g: FileView,
    w: FsView,
    t: Seq<ClusterId>,
    b: Seq<u8>,
    h: FileView,
    x: FsView,
    u: Seq<ClusterId>,
)
    requires
        leads_to_entry(v, tree, path.comps) is Some,
        g.location == f.location,
        put_down(f, v, tree, path, s, a, g, w, t),
        put_down(g, w, tree, path, t, b, h, x, u),
    ensures
        put_down(f, v, tree, path, s, a + b, h, x, u),
{
    assert(file_after_write(f, v, s, a + b, h, x, u)) by {
        reveal(put_down);
        lemma_after_both(f, v, s, a, g, w, t, b, h, x, u);
    }
    assert(updated(v, tree, path, x, h.dirent)) by {
        reveal(put_down);
        lemma_updated_again(v, tree, path, w, g.dirent, x, h.dirent);
    }
    let loc = f.location->0.cluster;
    assert(kept(v, x, s.to_set().insert(loc)) && within_or_free(v, u.to_set(), s.to_set())
        && x.link(loc) == v.link(loc)) by {
        reveal(put_down);
        lemma_kept_both(v, s, w, t, x, u, loc);
    }
    reveal(put_down);
}

/// One write that puts something down.
proof fn lemma_write_once(
    f: FileView,
    v: FsView,
    tree: Tree,
    path: PathView,
    s: Seq<ClusterId>,
    data: Seq<u8>,
    now: DateTime,
) -> (t: Seq<ClusterId>)
    requires
        is_ready(f, v, tree, path, s),
        f.write(v, data, now).2 is Ok,
    ensures
        ({
            let (g, w, r) = f.write(v, data, now);
            let n = r->Ok_0;
            &&& n <= data.len()
            &&& put_down(f, v, tree, path, s, data.take(n as int), g, w, t)
            &&& g.dirent == written_entry(f.dirent, t[0], g.size(), now, v)
            &&& g.location == f.location
            &&& w.geo == v.geo
            &&& is_ready(g, w, tree, path, t)
        }),
{
    reveal(is_ready);
    if f.pos == u32::MAX {
        reveal(FileView::write);
        s
    } else {
        let t = law_a_written_file_is_found(f, v, tree, path, s, data, now);
        let (g, w, r) = f.write(v, data, now);
        let n = r->Ok_0;
        assert(put_down(f, v, tree, path, s, data.take(n as int), g, w, t)) by {
            reveal(put_down);
        }
        assert forall|c: ClusterId| #[trigger] tree.contains_key(c) implies avoids(
            tree[c],
            t.to_set(),
        ) by {
            lemma_still_avoids(v, w, tree, c, s, t);
        }
        t
    }
}

/// Some bytes that all go down, as often as it takes.
proof fn lemma_write_all(
    f: FileView,
    v: FsView,
    tree: Tree,
    path: PathView,
    s: Seq<ClusterId>,
    data: Seq<u8>,
    now: DateTime,
) -> (t: Seq<ClusterId>)
    requires
        is_ready(f, v, tree, path, s),
        leads_to_entry(v, tree, path.comps) is Some,
        data.len() > 0,
        f.write_all(v, data, now).2 is Ok,
    ensures
        ({
            let (g, w, _) = f.write_all(v, data, now);
            &&& put_down(f, v, tree, path, s, data, g, w, t)
            &&& g.dirent == written_entry(f.dirent, t[0], g.size(), now, v)
            &&& g.location == f.location
            &&& w.geo == v.geo
            &&& is_ready(g, w, tree, path, t)
        }),
    decreases data.len(),
{
    let (g, w, r) = f.write(v, data, now);
    assert(r is Ok);
    let t = lemma_write_once(f, v, tree, path, s, data, now);
    let n = r->Ok_0;
    let rest = data.skip(n as int);
    assert(data.take(n as int) + rest =~= data);
    if rest.len() == 0 {
        assert(data.take(n as int) =~= data);
        t
    } else {
        assert(leads_to_entry(w, tree, path.comps) is Some) by {
            reveal(is_ready);
        }
        let u = lemma_write_all(g, w, tree, path, t, rest, now);
        let (h, x, _) = g.write_all(w, rest, now);
        lemma_put_both(f, v, tree, path, s, data.take(n as int), g, w, t, rest, h, x, u);
        u
    }
}

/// Directories that avoid the clusters of a file avoid those it has been given,
/// which were free.
proof fn lemma_still_avoids(
    v: FsView,
    w: FsView,
    tree: Tree,
    c: ClusterId,
    s: Seq<ClusterId>,
    t: Seq<ClusterId>,
)
    requires
        is_tree(v, tree),
        tree.contains_key(c),
        avoids(tree[c], s.to_set()),
        within_or_free(v, t.to_set(), s.to_set()),
    ensures
        avoids(tree[c], t.to_set()),
{
    let d = tree[c];
    assert(v.is_dir(d));
    assert forall|i: int| 0 <= i < d.len() implies !t.to_set().contains(#[trigger] d[i]) by {
        if i < d.len() - 1 {
            assert(v.leads_to(d[i], d[i + 1]));
        }
        assert(!v.is_free(d[i]));
        assert(!s.to_set().contains(d[i]));
    }
}

/// Paths that lead to two different nodes do so by another directory or by another
/// name.
pub proof fn lemma_other_path(v: FsView, tree: Tree, path: PathView, other: PathView)
    requires
        v.wf(),
        in_order(v, tree),
        v.lookup(path) matches Ok((_, Some(_))),
        v.lookup(other) matches Ok((_, Some(_))),
        other != path,
    ensures
        other.absolute,
        other.comps.len() > 0,
        parent_dir(v, tree, other.comps) is Some,
        parent_dir(v, tree, other.comps) != parent_dir(v, tree, path.comps) || other.comps.last()
            != path.comps.last(),
{
    lemma_found(v, tree, path);
    lemma_found(v, tree, other);
    let n = (path.comps.len() - 1) as nat;
    let m = (other.comps.len() - 1) as nat;
    if parent_dir(v, tree, other.comps) == parent_dir(v, tree, path.comps) {
        let b = parent_dir(v, tree, path.comps)->0;
        lemma_one_way(v, tree, path.comps, n, other.comps, m, b);
        if other.comps.last() == path.comps.last() {
            assert(path.comps =~= other.comps);
        }
    }
}

/// A file found on an image that is in order, opened and moved to an offset.
proof fn lemma_file_ready(v: FsView, tree: Tree, path: PathView, offset: u32)
    requires
        v.wf(),
        v.linkable(),
        v.geo.writable,
        in_order(v, tree),
        v.lookup(path) matches Ok((e, Some(_))) && e.is_file(),
    ensures
        leads_to_entry(v, tree, path.comps) is Some,
        ({
            let (e, location) = v.lookup(path)->Ok_0;
            let s = clusters_of(v, tree, e);
            let f = FileView { pos: offset, ..FileView::opened(e, location) };
            is_ready(f, v, tree, path, s)
        }),
{
    reveal(is_ready);
    lemma_found(v, tree, path);
    lemma_found_fits(v, path);
    let (e, location) = v.lookup(path)->Ok_0;
    let s = clusters_of(v, tree, e);
    assert(holds(v, tree, e, s));
    assert(is_tree(v, tree) && tree.contains_key(v.geo.root_cluster)) by {
        reveal(in_order);
    }
    let f = FileView { pos: offset, ..FileView::opened(e, location) };
    if s.len() > 0 {
        assert(has_clusters(f, v, s)) by {
            v.geo.lemma_cluster_fits(s[0]);
        }
    }
}

/// What is found of a file whose bytes have gone down.
proof fn lemma_put_found(
    f: FileView,
    v: FsView,
    tree: Tree,
    path: PathView,
    s: Seq<ClusterId>,
    data: Seq<u8>,
    g: FileView,
    w: FsView,
    t: Seq<ClusterId>,
)
    requires
        leads_to_entry(v, tree, path.comps) == Some((f.dirent, f.location->0)),
        f.location is Some,
        put_down(f, v, tree, path, s, data, g, w, t),
    ensures
        w.wf(),
        kept(v, w, s.to_set().insert((f.location->0).cluster)),
        w.lookup(path) == Ok::<(EntryView, Option<EntryLocation>), Error>((g.dirent, f.location)),
        w.is_chain(t),
        g.dirent.first_cluster == t[0],
        g.size() <= t.len() * w.bpc(),
        g.size() == (if f.pos + data.len() > f.size() {
            f.pos + data.len()
        } else {
            f.size() as int
        }),
{
    reveal(put_down);
}

/// The bytes of a file once some have gone down.
proof fn lemma_put_bytes(
    f: FileView,
    v: FsView,
    tree: Tree,
    path: PathView,
    s: Seq<ClusterId>,
    data: Seq<u8>,
    g: FileView,
    w: FsView,
    t: Seq<ClusterId>,
)
    requires
        put_down(f, v, tree, path, s, data, g, w, t),
    ensures
        forall|p: int|
            #![trigger w.has_file_byte(t, p)]
            #![trigger w.file_byte(t, p)]
            f.pos <= p < f.pos + data.len() ==> w.has_file_byte(t, p) && w.file_byte(t, p) == data[p
                - f.pos],
        forall|p: int|
            0 <= p < f.size() && !(f.pos <= p < f.pos + data.len()) ==> #[trigger] same_file_byte(
                v,
                s,
                w,
                t,
                p,
            ),
        forall|p: int|
            #![trigger w.has_file_byte(t, p)]
            #![trigger w.file_byte(t, p)]
            f.size() <= p < f.pos ==> w.has_file_byte(t, p) && w.file_byte(t, p) == 0,
{
    assert(file_after_write(f, v, s, data, g, w, t)) by {
        reveal(put_down);
    }
}

/// Bytes that have gone down are read back.
proof fn lemma_put_reads(
    f: FileView,
    v: FsView,
    tree: Tree,
    path: PathView,
    s: Seq<ClusterId>,
    data: Seq<u8>,
    g: FileView,
    w: FsView,
    t: Seq<ClusterId>,
)
    requires
        leads_to_entry(v, tree, path.comps) == Some((f.dirent, f.location->0)),
        f.location is Some,
        g.dirent.is_file(),
        put_down(f, v, tree, path, s, data, g, w, t),
        data.len() > 0,
    ensures
        w.read_file(path, f.pos as u64, data.len()) == Ok::<Seq<u8>, Error>(data),
{
    lemma_put_found(f, v, tree, path, s, data, g, w, t);
    lemma_put_bytes(f, v, tree, path, s, data, g, w, t);
    assert forall|p: int|
        f.pos <= p < f.pos + data.len() && p < g.size() implies #[trigger] w.has_file_byte(
        t,
        p,
    ) by {
        assert(w.file_byte(t, p) == data[p - f.pos]);
    }
    law_a_read_request_gives_the_bytes_of_the_file(
        w,
        path,
        g.dirent,
        f.location,
        t,
        f.pos as u64,
        data.len(),
    );
    assert(Seq::new(data.len(), |k: int| w.file_byte(t, f.pos as u64 + k)) =~= data);
}

/// Every other path leads to what it led to before.
proof fn lemma_put_others(
    f: FileView,
    v: FsView,
    tree: Tree,
    path: PathView,
    s: Seq<ClusterId>,
    data: Seq<u8>,
    g: FileView,
    w: FsView,
    t: Seq<ClusterId>,
)
    requires
        v.wf(),
        in_order(v, tree),
        is_there(v, path),
        put_down(f, v, tree, path, s, data, g, w, t),
    ensures
        forall|other: PathView|
            other != path && is_there(v, other) ==> #[trigger] w.lookup(other) == v.lookup(other),
{
    assert(updated(v, tree, path, w, g.dirent)) by {
        reveal(put_down);
    }
    lemma_others_found(v, tree, path, w, g.dirent);
}

/// The steps of a request to write that works out.
proof fn lemma_write_request(v: FsView, path: PathView, offset: u64, data: Seq<u8>, now: DateTime)
    requires
        v.lookup(path) is Ok,
        v.write_file(path, offset, data, now).1 is Ok,
        data.len() > 0,
    ensures
        v.geo.writable,
        offset <= u32::MAX,
        ({
            let (e, location) = v.lookup(path)->Ok_0;
            let f = FileView { pos: offset as u32, ..FileView::opened(e, location) };
            let (_, w, r) = f.write_all(v, data, now);
            &&& e.is_file()
            &&& r is Ok
            &&& v.write_file(path, offset, data, now).0 == w
        }),
{
    let (e, location) = v.lookup(path)->Ok_0;
    let f = FileView { pos: offset as u32, ..FileView::opened(e, location) };
    assert(v.open(path) == Ok::<FileView, Error>(FileView::opened(e, location)));
    assert(FileView::opened(e, location).seek(SeekFrom::Start(offset)) == (
        f,
        Ok::<u64, Error>(offset),
    ));
    if !v.geo.writable {
        assert(f.write(v, data, now).2 is Err) by {
            reveal(FileView::write);
        }
    }
}

/// A request to write to a file that works out puts its bytes down at the offset,
/// wherever that is: a request to read them at the same offset gives them back, and
/// every other byte of the file is what it was, or zero if it lies between the old
/// end of the file and the offset. The file is then as long as it was, or as long as
/// it takes to hold the bytes if that is more, its times are those of the request,
/// and every other path leads to what it led to before.
///
/// The clusters of the file are then `t`.
pub proof fn law_a_write_request_puts_its_bytes_down(
    v: FsView,
    tree: Tree,
    path: PathView,
    offset: u64,
    data: Seq<u8>,
    now: DateTime,
) -> (t: Seq<ClusterId>)
    requires
        v.wf(),
        v.linkable(),
        in_order(v, tree),
        v.lookup(path) matches Ok((e, Some(_))) && e.is_file(),
        v.write_file(path, offset, data, now).1 is Ok,
        data.len() > 0,
    ensures
        ({
            let (e, location) = v.lookup(path)->Ok_0;
            let s = clusters_of(v, tree, e);
            let w = v.write_file(path, offset, data, now).0;
            let end = offset + data.len();
            &&& w.lookup(path) matches Ok((f, there)) && {
                &&& there == location
                &&& f.file_size == (if end > e.file_size {
                    end
                } else {
                    e.file_size as int
                })
                &&& f.name_bytes() == e.name_bytes()
                &&& f.attributes == e.attributes
                &&& f.first_cluster == t[0]
                &&& (f.created_date, f.created_time) == (e.created_date, e.created_time)
                &&& (f.modified_date, f.modified_time) == now.packed(v.geo.variant)
                &&& (f.accessed_date, f.accessed_time) == now.packed(v.geo.variant)
            }
            &&& w.is_chain(t)
            &&& kept(v, w, s.to_set().insert((location->0).cluster))
            &&& w.read_file(path, offset, data.len()) == Ok::<Seq<u8>, Error>(data)
            &&& forall|p: int|
                #![trigger w.has_file_byte(t, p)]
                #![trigger w.file_byte(t, p)]
                offset <= p < end ==> w.has_file_byte(t, p) && w.file_byte(t, p) == data[p
                    - offset]
            &&& forall|p: int|
                0 <= p < e.file_size && !(offset <= p < end) ==> #[trigger] same_file_byte(
                    v,
                    s,
                    w,
                    t,
                    p,
                )
            &&& forall|p: int|
                #![trigger w.has_file_byte(t, p)]
                #![trigger w.file_byte(t, p)]
                e.file_size <= p < offset ==> w.has_file_byte(t, p) && w.file_byte(t, p) == 0
            &&& forall|other: PathView|
                other != path && is_there(v, other) ==> #[trigger] w.lookup(
                    other,
                ) == v.lookup(other)
        }),
{
    let (e, location) = v.lookup(path)->Ok_0;
    let s = clusters_of(v, tree, e);
    let f = FileView { pos: offset as u32, ..FileView::opened(e, location) };
    lemma_write_request(v, path, offset, data, now);
    lemma_file_ready(v, tree, path, offset as u32);
    let t = lemma_write_all(f, v, tree, path, s, data, now);
    let (g, w, _) = f.write_all(v, data, now);
    lemma_found(v, tree, path);
    assert(g.dirent.is_file());
    lemma_put_found(f, v, tree, path, s, data, g, w, t);
    lemma_put_bytes(f, v, tree, path, s, data, g, w, t);
    lemma_put_reads(f, v, tree, path, s, data, g, w, t);
    lemma_put_others(f, v, tree, path, s, data, g, w, t);
    assert(g.dirent.name_bytes() =~= e.name_bytes());
    t
}

/// An image is what it was if nothing has been done to it.
proof fn lemma_updated_not(v: FsView, tree: Tree, path: PathView)
    requires
        v.wf(),
        is_tree(v, tree),
        tree.contains_key(v.geo.root_cluster),
        path.absolute,
        path.comps.len() > 0,
        leads_to_entry(v, tree, path.comps) is Some,
    ensures
        updated(v, tree, path, v, (leads_to_entry(v, tree, path.comps)->0).0),
{
    lemma_lookup(v, tree, path, parent_dir(v, tree, path.comps)->0);
}

/// What setting the times of a file that has some clusters comes to.
#[verifier::opaque]
spec fn touched(
    v: FsView,
    tree: Tree,
    path: PathView,
    location: EntryLocation,
    w: FsView,
    f: EntryView,
    t: Seq<ClusterId>,
) -> bool {
    &&& w.wf()
    &&& w.geo == v.geo
    &&& w.is_chain(t)
    &&& w.lookup(path) == Ok::<(EntryView, Option<EntryLocation>), Error>((f, Some(location)))
    &&& updated(v, tree, path, w, f)
    &&& kept(v, w, set![location.cluster])
    &&& forall|p: int| 0 <= p < t.len() * v.bpc() ==> #[trigger] same_file_byte(v, t, w, t, p)
}

/// An entry with other times, as far as some are given.
spec fn timed(
    e: EntryView,
    accessed: Option<DateTime>,
    modified: Option<DateTime>,
    variant: Variant,
) -> EntryView {
    let (accessed_date, accessed_time) = match accessed {
        Some(dt) => dt.packed(variant),
        None => (e.accessed_date, e.accessed_time),
    };
    let (modified_date, modified_time) = match modified {
        Some(dt) => dt.packed(variant),
        None => (e.modified_date, e.modified_time),
    };
    EntryView { accessed_date, accessed_time, modified_date, modified_time, ..e }
}

/// Setting the times of a file leaves what it holds as it was.
proof fn lemma_touched(
    v: FsView,
    tree: Tree,
    path: PathView,
    e: EntryView,
    location: EntryLocation,
    t: Seq<ClusterId>,
    accessed: Option<DateTime>,
    modified: Option<DateTime>,
)
    requires
        v.wf(),
        v.geo.writable,
        is_tree(v, tree),
        tree.contains_key(v.geo.root_cluster),
        path.absolute,
        path.comps.len() > 0,
        leads_to_entry(v, tree, path.comps) == Some((e, location)),
        e.wf(),
        v.is_chain(t),
        !t.contains(location.cluster),
    ensures
        v.touch_entry(path, accessed, modified).1 == Ok::<(), Error>(()),
        touched(
            v,
            tree,
            path,
            location,
            v.touch_entry(path, accessed, modified).0,
            timed(e, accessed, modified, v.geo.variant),
            t,
        ),
{
    reveal(touched);
    let f = timed(e, accessed, modified, v.geo.variant);
    lemma_lookup(v, tree, path, parent_dir(v, tree, path.comps)->0);
    if accessed is None && modified is None {
        lemma_updated_not(v, tree, path);
        lemma_kept_refl(v, set![location.cluster]);
        assert(f == e);
    } else {
        law_times_are_what_they_were_set_to(v, tree, path, accessed, modified);
        lemma_found_fits(v, path);
        lemma_put_entry(v, location, f);
        let w = v.touch_entry(path, accessed, modified).0;
        assert(w == v.put_entry(location, f).0);
        assert forall|i: int| #![trigger t[i]] 0 <= i < t.len() implies same_bytes(v, w, t[i]) by {
            assert(t.contains(t[i]));
            assert(v.geo.has_cluster(t[i]));
        }
        lemma_same_file(v, w, t);
        assert(w.is_chain(t)) by {
            assert forall|i: int|
                #![trigger t[i]]
                0 <= i < t.len() - 1 implies w.leads_to(t[i], t[i + 1]) by {
                assert(v.leads_to(t[i], t[i + 1]));
            }
        }
    }
}

/// What a change of the size of a file and of its times comes to.
#[verifier::opaque]
spec fn resized_and_timed(
    v: FsView,
    tree: Tree,
    path: PathView,
    s: Seq<ClusterId>,
    e: EntryView,
    location: EntryLocation,
    w: FsView,
    f: EntryView,
    t: Seq<ClusterId>,
) -> bool {
    &&& w.wf()
    &&& w.geo == v.geo
    &&& w.is_chain(t)
    &&& t.len() == v.clusters_for(f.file_size as nat)
    &&& f.first_cluster == t[0]
    &&& w.lookup(path) == Ok::<(EntryView, Option<EntryLocation>), Error>((f, Some(location)))
    &&& updated(v, tree, path, w, f)
    &&& kept(v, w, s.to_set().insert(location.cluster))
    &&& forall|p: int|
        0 <= p < f.file_size && p < e.file_size ==> #[trigger] same_file_byte(v, s, w, t, p)
    &&& forall|p: int|
        #![trigger w.has_file_byte(t, p)]
        #![trigger w.file_byte(t, p)]
        e.file_size <= p < f.file_size ==> w.has_file_byte(t, p) && w.file_byte(t, p) == 0
}

proof fn lemma_resized_then_timed(
    v: FsView,
    tree: Tree,
    path: PathView,
    s: Seq<ClusterId>,
    e: EntryView,
    location: EntryLocation,
    w: FsView,
    f: EntryView,
    t: Seq<ClusterId>,
    x: FsView,
    g: EntryView,
)
    requires
        leads_to_entry(v, tree, path.comps) == Some((e, location)),
        resized_and_timed(v, tree, path, s, e, location, w, f, t),
        touched(w, tree, path, location, x, g, t),
        g.file_size == f.file_size,
        g.first_cluster == f.first_cluster,
        f.file_size <= t.len() * v.bpc(),
    ensures
        resized_and_timed(v, tree, path, s, e, location, x, g, t),
{
    assert(updated(v, tree, path, x, g)) by {
        reveal(touched);
        reveal(resized_and_timed);
        lemma_updated_again(v, tree, path, w, f, x, g);
    }
    assert(w.geo == v.geo) by {
        reveal(resized_and_timed);
    }
    let all = s.to_set().insert(location.cluster);
    assert(kept(v, x, all)) by {
        reveal(touched);
        reveal(resized_and_timed);
        assert(within_or_free(v, set![location.cluster], all));
        lemma_kept_trans(v, w, x, all, set![location.cluster]);
    }
    assert forall|p: int|
        0 <= p < g.file_size && p < e.file_size implies #[trigger] same_file_byte(
        v,
        s,
        x,
        t,
        p,
    ) by {
        reveal(touched);
        reveal(resized_and_timed);
        assert(same_file_byte(v, s, w, t, p));
        assert(same_file_byte(w, t, x, t, p));
    }
    assert forall|p: int|
        #![trigger x.has_file_byte(t, p)]
        #![trigger x.file_byte(t, p)]
        e.file_size <= p < g.file_size implies x.has_file_byte(t, p) && x.file_byte(t, p) == 0 by {
        reveal(touched);
        reveal(resized_and_timed);
        assert(w.has_file_byte(t, p) && w.file_byte(t, p) == 0);
        assert(same_file_byte(w, t, x, t, p));
    }
    assert(x.wf() && x.is_chain(t) && x.lookup(path) == Ok::<
        (EntryView, Option<EntryLocation>),
        Error,
    >((g, Some(location))) && t.len() == v.clusters_for(g.file_size as nat) && x.geo == v.geo
        && g.first_cluster == t[0]) by {
        reveal(touched);
        reveal(resized_and_timed);
    }
    reveal(resized_and_timed);
}

/// A change of the size of a file that works out, and then of its times.
proof fn lemma_change_entry(
    v: FsView,
    tree: Tree,
    path: PathView,
    size: u64,
    accessed: Option<DateTime>,
    modified: Option<DateTime>,
    now: DateTime,
) -> (t: Seq<ClusterId>)
    requires
        v.wf(),
        v.linkable(),
        in_order(v, tree),
        v.lookup(path) matches Ok((e, Some(_))) && e.is_file(),
        v.truncate(path, size, now).1 is Ok,
    ensures
        size <= u32::MAX,
        ({
            let (e, location) = v.lookup(path)->Ok_0;
            let f = EntryView {
                file_size: size as u32,
                first_cluster: t[0],
                ..timed(
                    e,
                    accessed,
                    Some(
                        match modified {
                            Some(dt) => dt,
                            None => now,
                        },
                    ),
                    v.geo.variant,
                )
            };
            let (w, r) = v.change_entry(path, Some(size), accessed, modified, now);
            &&& r == Ok::<EntryView, Error>(f)
            &&& resized_and_timed(
                v,
                tree,
                path,
                clusters_of(v, tree, e),
                e,
                location->0,
                w,
                f,
                t,
            )
        }),
{
    lemma_found(v, tree, path);
    lemma_found_fits(v, path);
    let (e, there) = v.lookup(path)->Ok_0;
    let location = there->0;
    let s = clusters_of(v, tree, e);
    assert(holds(v, tree, e, s));
    assert(is_tree(v, tree) && tree.contains_key(v.geo.root_cluster)) by {
        reveal(in_order);
    }
    let t = law_a_resized_file_is_found(v, tree, path, s, size as u32, now);
    let w = v.truncate(path, size, now).0;
    let f = e.starting_at(t[0]).sized(size as u32).modified_at(now, v.geo.variant);
    assert(resized_and_timed(v, tree, path, s, e, location, w, f, t)) by {
        reveal(resized_and_timed);
    }
    assert(!t.contains(location.cluster)) by {
        if t.contains(location.cluster) {
            assert(t.to_set().contains(location.cluster));
            lemma_location_in_use(v, tree, path);
        }
    }
    lemma_clusters_for(v, size as nat);
    lemma_touched(w, tree, path, f, location, t, accessed, modified);
    let (x, _) = w.touch_entry(path, accessed, modified);
    let g = timed(f, accessed, modified, v.geo.variant);
    lemma_resized_then_timed(v, tree, path, s, e, location, w, f, t, x, g);
    assert(x.lookup(path) == Ok::<(EntryView, Option<EntryLocation>), Error>((g, there))) by {
        reveal(touched);
    }
    t
}

/// The entry of a file lies in a cluster that is in use but not by the file.
proof fn lemma_location_in_use(v: FsView, tree: Tree, path: PathView)
    requires
        v.wf(),
        in_order(v, tree),
        v.lookup(path) matches Ok((e, Some(_))) && !e.is_directory(),
    ensures
        ({
            let (e, location) = v.lookup(path)->Ok_0;
            let c = (location->0).cluster;
            !v.is_free(c) && !clusters_of(v, tree, e).to_set().contains(c)
        }),
{
    lemma_found(v, tree, path);
    assert(is_tree(v, tree) && tree.contains_key(v.geo.root_cluster)) by {
        reveal(in_order);
    }
    let (e, _) = v.lookup(path)->Ok_0;
    let s = clusters_of(v, tree, e);
    assert(holds(v, tree, e, s));
    lemma_location(v, tree, path);
    lemma_apart(tree, (leads_to_entry(v, tree, path.comps)->0).1, s);
}

/// A request to change the size of a file that works out gives it just that size,
/// whichever it is. A request to read all of the file then gives what one gave of
/// the old file, as far as the new size goes, and zeroes from there on. The file has
/// no more clusters than it takes, its times are those asked for, or that of the
/// request for the time of its last change, and every other path leads to what it
/// led to before.
///
/// The clusters of the file are then `t`.
pub proof fn law_a_file_has_the_size_it_was_given(
    v: FsView,
    tree: Tree,
    path: PathView,
    size: u64,
    accessed: Option<DateTime>,
    modified: Option<DateTime>,
    now: DateTime,
) -> (t: Seq<ClusterId>)
    requires
        v.wf(),
        v.linkable(),
        in_order(v, tree),
        v.lookup(path) matches Ok((e, Some(_))) && e.is_file(),
        v.change_entry(path, Some(size), accessed, modified, now).1 is Ok,
    ensures
        ({
            let (e, location) = v.lookup(path)->Ok_0;
            let s = clusters_of(v, tree, e);
            let (w, r) = v.change_entry(path, Some(size), accessed, modified, now);
            let f = r->Ok_0;
            let m: int = if size < e.file_size {
                size as int
            } else {
                e.file_size as int
            };
            &&& w.lookup(path) == Ok::<(EntryView, Option<EntryLocation>), Error>((f, location))
            &&& f.file_size == size
            &&& f.name_bytes() == e.name_bytes()
            &&& f.attributes == e.attributes
            &&& (f.created_date, f.created_time) == (e.created_date, e.created_time)
            &&& (f.modified_date, f.modified_time) == (match modified {
                Some(dt) => dt.packed(v.geo.variant),
                None => now.packed(v.geo.variant),
            })
            &&& (f.accessed_date, f.accessed_time) == (match accessed {
                Some(dt) => dt.packed(v.geo.variant),
                None => (e.accessed_date, e.accessed_time),
            })
            &&& w.is_chain(t)
            &&& kept(v, w, s.to_set().insert((location->0).cluster))
            &&& f.first_cluster == t[0]
            &&& size <= t.len() * v.geo.num_bytes_per_cluster
            &&& t.len() > 1 ==> (t.len() - 1) * v.geo.num_bytes_per_cluster < size
            &&& v.has_file_bytes(s, 0, m as nat) ==> {
                &&& v.read_file(path, 0, m as nat) matches Ok(before) && before.len() == m
                    && w.read_file(path, 0, size as nat) == Ok::<Seq<u8>, Error>(
                    before + Seq::new((size - m) as nat, |k: int| 0u8),
                )
            }
            &&& forall|other: PathView|
                other != path && is_there(v, other) ==> #[trigger] w.lookup(other) == v.lookup(
                    other,
                )
        }),
{
    lemma_truncates(v, path, size, accessed, modified, now);
    let t = lemma_change_entry(v, tree, path, size, accessed, modified, now);
    let (e, location) = v.lookup(path)->Ok_0;
    let s = clusters_of(v, tree, e);
    let (w, r) = v.change_entry(path, Some(size), accessed, modified, now);
    let f = r->Ok_0;
    assert(holds(v, tree, e, s)) by {
        lemma_found(v, tree, path);
    }
    assert(f.name_bytes() =~= e.name_bytes());
    assert(w.lookup(path) == Ok::<(EntryView, Option<EntryLocation>), Error>((f, location))
        && w.is_chain(t) && t.len() == v.clusters_for(f.file_size as nat) && kept(
        v,
        w,
        s.to_set().insert((location->0).cluster),
    )) by {
        reveal(resized_and_timed);
    }
    lemma_clusters_for(v, size as nat);
    lemma_resized_reads(v, tree, path, s, e, location->0, w, f, t);
    assert(updated(v, tree, path, w, f)) by {
        reveal(resized_and_timed);
    }
    lemma_others_found(v, tree, path, w, f);
    t
}

proof fn lemma_truncates(
    v: FsView,
    path: PathView,
    size: u64,
    accessed: Option<DateTime>,
    modified: Option<DateTime>,
    now: DateTime,
)
    requires
        v.change_entry(path, Some(size), accessed, modified, now).1 is Ok,
    ensures
        v.truncate(path, size, now).1 is Ok,
{
}

/// Every other path leads to what it led to before an entry was written anew.
proof fn lemma_others_found(v: FsView, tree: Tree, path: PathView, w: FsView, f: EntryView)
    requires
        v.wf(),
        in_order(v, tree),
        is_there(v, path),
        updated(v, tree, path, w, f),
    ensures
        forall|other: PathView|
            other != path && is_there(v, other) ==> #[trigger] w.lookup(other) == v.lookup(other),
{
    assert forall|other: PathView| other != path && is_there(v, other) implies #[trigger] w.lookup(
        other,
    ) == v.lookup(other) by {
        lemma_other_path(v, tree, path, other);
    }
}

/// Reading a file whose size has changed.
proof fn lemma_resized_reads(
    v: FsView,
    tree: Tree,
    path: PathView,
    s: Seq<ClusterId>,
    e: EntryView,
    location: EntryLocation,
    w: FsView,
    f: EntryView,
    t: Seq<ClusterId>,
)
    requires
        v.wf(),
        v.lookup(path) == Ok::<(EntryView, Option<EntryLocation>), Error>((e, Some(location))),
        e.is_file(),
        f.is_file(),
        holds(v, tree, e, s),
        resized_and_timed(v, tree, path, s, e, location, w, f, t),
    ensures
        ({
            let m: int = if f.file_size < e.file_size {
                f.file_size as int
            } else {
                e.file_size as int
            };
            v.has_file_bytes(s, 0, m as nat) ==> {
                &&& v.read_file(path, 0, m as nat) matches Ok(before) && before.len() == m
                    && w.read_file(path, 0, f.file_size as nat) == Ok::<Seq<u8>, Error>(
                    before + Seq::new((f.file_size - m) as nat, |k: int| 0u8),
                )
            }
        }),
{
    let m: int = if f.file_size < e.file_size {
        f.file_size as int
    } else {
        e.file_size as int
    };
    let n = f.file_size as nat;
    if v.has_file_bytes(s, 0, m as nat) {
        let before = Seq::new(m as nat, |k: int| v.file_byte(s, 0u64 + k));
        law_a_read_request_gives_the_bytes_of_the_file(
            v,
            path,
            e,
            Some(location),
            s,
            0,
            m as nat,
        );
        if m == 0 {
            assert(before =~= Seq::empty());
        }
        assert(v.read_file(path, 0, m as nat) == Ok::<Seq<u8>, Error>(before));
        reveal(resized_and_timed);
        lemma_clusters_for(v, n);
        assert forall|p: int| 0 <= p < n implies #[trigger] w.has_file_byte(t, p) && w.file_byte(
            t,
            p,
        ) == (if p < m {
            v.file_byte(s, p)
        } else {
            0
        }) by {
            if p < m {
                assert(v.has_file_byte(s, p));
                assert(same_file_byte(v, s, w, t, p));
            }
        }
        law_a_read_request_gives_the_bytes_of_the_file(w, path, f, Some(location), t, 0, n);
        let after = before + Seq::new((n - m) as nat, |k: int| 0u8);
        if n == 0 {
            assert(after =~= Seq::empty());
        } else {
            let got = Seq::new(n, |k: int| w.file_byte(t, 0u64 + k));
            assert forall|k: int| 0 <= k < n implies got[k] == after[k] by {
                assert(w.has_file_byte(t, k));
            }
            assert(got =~= after);
        }
    }
}

/// What stops a write that has room before the largest size a file can have.
proof fn lemma_write_stops(
    f: FileView,
    v: FsView,
    tree: Tree,
    path: PathView,
    s: Seq<ClusterId>,
    data: Seq<u8>,
    now: DateTime,
)
    requires
        is_ready(f, v, tree, path, s),
        data.len() > 0,
        f.pos + data.len() <= u32::MAX,
    ensures
        match f.write(v, data, now) {
            (_, w, Ok(n)) => 0 < n <= data.len(),
            (_, w, Err(e)) => e == Error::NoSpaceLeft && w.is_full(),
        },
{
    reveal(is_ready);
    let _ = law_a_written_file_is_found(f, v, tree, path, s, data, now);
    assert(f.fitting(data) == data);
}

proof fn lemma_write_all_stops(
    f: FileView,
    v: FsView,
    tree: Tree,
    path: PathView,
    s: Seq<ClusterId>,
    data: Seq<u8>,
    now: DateTime,
)
    requires
        is_ready(f, v, tree, path, s),
        f.pos + data.len() <= u32::MAX,
    ensures
        f.write_all(v, data, now) matches (_, w, Err(kind)) ==> kind == ErrorKind::StorageFull
            && w.is_full(),
    decreases data.len(),
{
    if data.len() > 0 {
        lemma_write_stops(f, v, tree, path, s, data, now);
        let (g, w, r) = f.write(v, data, now);
        if r is Ok {
            let n = r->Ok_0;
            let t = lemma_write_once(f, v, tree, path, s, data, now);
            assert(g.pos == f.pos + n) by {
                reveal(put_down);
            }
            lemma_write_all_stops(g, w, tree, path, t, data.skip(n as int), now);
        }
    }
}

/// A request to write to a file works out unless there is no cluster left to hand
/// out, or the bytes do not fit before the largest size a file can have.
pub proof fn law_a_write_request_fails_only_for_want_of_room(
    v: FsView,
    tree: Tree,
    path: PathView,
    offset: u64,
    data: Seq<u8>,
    now: DateTime,
)
    requires
        v.wf(),
        v.linkable(),
        v.geo.writable,
        in_order(v, tree),
        v.lookup(path) matches Ok((e, Some(_))) && e.is_file(),
        offset + data.len() <= u32::MAX,
    ensures
        match v.write_file(path, offset, data, now) {
            (_, Ok(())) => true,
            (w, Err(stop)) => stop == Stop::Answer(Errno::Enospc) && w.is_full(),
        },
{
    let (e, location) = v.lookup(path)->Ok_0;
    let f = FileView { pos: offset as u32, ..FileView::opened(e, location) };
    assert(v.open(path) == Ok::<FileView, Error>(FileView::opened(e, location)));
    assert(FileView::opened(e, location).seek(SeekFrom::Start(offset)) == (
        f,
        Ok::<u64, Error>(offset),
    ));
    lemma_file_ready(v, tree, path, offset as u32);
    lemma_write_all_stops(f, v, tree, path, clusters_of(v, tree, e), data, now);
}

/// A request to change the size of a file works out unless there is no cluster left
/// to hand out, or the size is larger than any file can have. Only a file that grows
/// can be in want of one.
pub proof fn law_a_change_of_size_fails_only_for_want_of_room(
    v: FsView,
    tree: Tree,
    path: PathView,
    size: u64,
    accessed: Option<DateTime>,
    modified: Option<DateTime>,
    now: DateTime,
)
    requires
        v.wf(),
        v.linkable(),
        v.geo.writable,
        in_order(v, tree),
        v.lookup(path) matches Ok((e, Some(_))) && e.is_file(),
    ensures
        match v.change_entry(path, Some(size), accessed, modified, now) {
            (_, Ok(_)) => size <= u32::MAX,
            (w, Err(e)) => if size > u32::MAX {
                e == Error::FileTooLarge && w == v
            } else {
                e == Error::NoSpaceLeft && w.is_full()
            },
        },
{
    if size <= u32::MAX {
        lemma_found(v, tree, path);
        let (e, there) = v.lookup(path)->Ok_0;
        let s = clusters_of(v, tree, e);
        assert(holds(v, tree, e, s));
        assert(is_tree(v, tree) && tree.contains_key(v.geo.root_cluster)) by {
            reveal(in_order);
        }
        if v.truncate(path, size, now).1 is Ok {
            let _ = lemma_change_entry(v, tree, path, size, accessed, modified, now);
        } else {
            let _ = law_a_resized_file_is_found(v, tree, path, s, size as u32, now);
        }
    }
}

/// A request to change the times of a node changes just those that are asked for, and
/// finds the node with them. All else of it is what it was, as are every other node
/// and what any file holds. The root has no times to change.
pub proof fn law_a_touched_node_has_the_times_it_was_given(
    v: FsView,
    tree: Tree,
    path: PathView,
    accessed: Option<DateTime>,
    modified: Option<DateTime>,
    now: DateTime,
)
    requires
        v.wf(),
        v.geo.writable,
        in_order(v, tree),
        v.lookup(path) is Ok,
    ensures
        ({
            let (e, location) = v.lookup(path)->Ok_0;
            let (w, r) = v.change_entry(path, None, accessed, modified, now);
            &&& w.lookup(path) matches Ok((f, there)) && there == location && r == Ok::<
                EntryView,
                Error,
            >(f) && f.name_bytes() == e.name_bytes() && f.attributes == e.attributes
                && f.first_cluster == e.first_cluster && f.file_size == e.file_size && (
            f.created_date,
            f.created_time,
            ) == (e.created_date, e.created_time) && if location is None {
                f == e
            } else {
                &&& (f.modified_date, f.modified_time) == (match modified {
                    Some(dt) => dt.packed(v.geo.variant),
                    None => (e.modified_date, e.modified_time),
                })
                &&& (f.accessed_date, f.accessed_time) == (match accessed {
                    Some(dt) => dt.packed(v.geo.variant),
                    None => (e.accessed_date, e.accessed_time),
                })
            }
            &&& location is None || (accessed is None && modified is None) ==> w == v
            &&& location matches Some(l) ==> kept(v, w, set![l.cluster])
            &&& w.fat == v.fat
            &&& location is Some ==> forall|other: PathView|
                other != path && is_there(v, other) ==> #[trigger] w.lookup(other) == v.lookup(
                    other,
                )
        }),
{
    let (e, there) = v.lookup(path)->Ok_0;
    let (w, r) = v.change_entry(path, None, accessed, modified, now);
    if there is Some {
        let location = there->0;
        lemma_found(v, tree, path);
        lemma_found_fits(v, path);
        assert(is_tree(v, tree) && tree.contains_key(v.geo.root_cluster)) by {
            reveal(in_order);
        }
        let f = timed(e, accessed, modified, v.geo.variant);
        assert(f.name_bytes() =~= e.name_bytes());
        if accessed is None && modified is None {
            lemma_kept_refl(v, set![location.cluster]);
        } else {
            law_times_are_what_they_were_set_to(v, tree, path, accessed, modified);
            lemma_put_entry(v, location, f);
            assert(w == v.put_entry(location, f).0);
            lemma_others_found(v, tree, path, w, f);
        }
    }
}

/// A file that is made shorter gives back the clusters it no longer needs: each but the
/// first that starts at or past its new end is free.
pub proof fn law_a_shorter_file_gives_back_its_clusters(
    v: FsView,
    tree: Tree,
    path: PathView,
    size: u64,
    accessed: Option<DateTime>,
    modified: Option<DateTime>,
    now: DateTime,
    i: int,
)
    requires
        v.wf(),
        v.linkable(),
        in_order(v, tree),
        v.lookup(path) matches Ok((e, Some(_))) && e.is_file(),
        v.change_entry(path, Some(size), accessed, modified, now).1 is Ok,
        1 <= i < clusters_of(v, tree, (v.lookup(path)->Ok_0).0).len(),
        size <= i * v.geo.num_bytes_per_cluster,
    ensures
        v.change_entry(path, Some(size), accessed, modified, now).0.is_free(
            clusters_of(v, tree, (v.lookup(path)->Ok_0).0)[i],
        ),
{
    lemma_found(v, tree, path);
    let (e, there) = v.lookup(path)->Ok_0;
    let s = clusters_of(v, tree, e);
    assert(holds(v, tree, e, s));
    assert(v.geo.has_cluster(s[0]));
    lemma_truncates(v, path, size, accessed, modified, now);
    lemma_resize_frees(v, s, e.file_size as nat, size as nat);
    let x = v.resize_chain(s[0], e.file_size as nat, size as nat).0;
    lemma_clusters_for(v, size as nat);
    let n = v.clusters_for(size as nat) as int;
    assert(n <= i) by {
        if size > 0 {
            assert(n - 1 < i) by (nonlinear_arith)
                requires
                    (n - 1) * v.geo.num_bytes_per_cluster < size,
                    size <= i * v.geo.num_bytes_per_cluster,
            ;
        }
    }
    assert(x.is_free(s[i]));
    let w = v.truncate(path, size, now).0;
    assert(w.link(s[i]) == x.link(s[i]));
    assert(w.touch_entry(path, accessed, modified).0.link(s[i]) == w.link(s[i]));
}

} // verus!
