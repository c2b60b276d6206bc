//! What loading more of a device can change, and what it cannot.
//!
//! An operation that meets a part of the device which has not been loaded yet
//! is run again once it has been. These laws are why that is sound: an answer
//! that needed nothing more stays the answer.

use vstd::prelude::*;

#[allow(unused_imports)]
use crate::device::DeviceView;
#[allow(unused_imports)]
use crate::dir::EntryView;
#[allow(unused_imports)]
use crate::disk::{backed, disk_after, knows};
use crate::error::{wants_more, Error};
use crate::fat::ClusterId;
#[allow(unused_imports)]
use crate::fat::FatEntry;
use crate::file::FileView;
#[allow(unused_imports)]
use crate::fs::fresh;
use crate::path::PathView;
use crate::volume::FsView;
#[allow(unused_imports)]
use crate::walk::{IterView, WalkEnd};

verus! {

/// Whether one state of a filesystem differs from another only in that more of
/// its device is known.
pub open spec fn knows_more(v: FsView, w: FsView) -> bool {
    &&& w.geo == v.geo
    &&& w.fat.entries == v.fat.entries
    &&& w.fat.data == v.fat.data
    &&& w.dev.len == v.dev.len
    &&& forall|i: int| #[trigger]
        v.dev.known.contains_key(i) ==> w.dev.known.contains_key(i) && w.dev.known[i]
            == v.dev.known[i]
}

proof fn lemma_link_same(v: FsView, w: FsView, c: ClusterId)
    requires
        knows_more(v, w),
    ensures
        w.link(c) == v.link(c),
{
}

proof fn lemma_read_same(v: FsView, w: FsView, offset: nat, len: nat)
    requires
        knows_more(v, w),
    ensures
        !wants_more(v.dev.read(offset, len)) ==> w.dev.read(offset, len) == v.dev.read(offset, len),
        !wants_more(v.dev.read_exact(offset, len)) ==> w.dev.read_exact(offset, len)
            == v.dev.read_exact(offset, len),
{
    reveal(DeviceView::read);
    let n = v.dev.available(offset, len);
    if v.dev.has(offset as int, n as int) {
        assert forall|i: int| offset <= i < offset + n implies
            #[trigger] w.dev.known.contains_key(i) by {
            assert(v.dev.known.contains_key(i));
        }
        assert forall|k: int| 0 <= k < n implies #[trigger] w.dev.bytes(offset as int, n)[k]
            == v.dev.bytes(offset as int, n)[k] by {
            assert(v.dev.known.contains_key(offset + k));
        }
        assert(w.dev.bytes(offset as int, n) =~= v.dev.bytes(offset as int, n));
    }
}

proof fn lemma_entry_at_same(v: FsView, w: FsView, c: ClusterId, index: nat)
    requires
        knows_more(v, w),
        !wants_more(v.entry_at(c, index)),
    ensures
        w.entry_at(c, index) == v.entry_at(c, index),
{
    match v.geo.byte_offset(c) {
        Ok(start) => lemma_read_same(v, w, (start + index * 64) as nat, 64),
        Err(_) => {},
    }
}

/// Whether a walk through a directory ended for want of something that has yet
/// to be loaded.
pub open spec fn is_cut_off(end: WalkEnd) -> bool {
    end matches WalkEnd::Failed(e) && wants_more(Err::<(), Error>(e))
}

proof fn lemma_walk_same(
    v: FsView,
    w: FsView,
    c: ClusterId,
    index: nat,
    left: nat,
    stop: spec_fn(EntryView) -> bool,
)
    requires
        knows_more(v, w),
        !is_cut_off(v.walk(c, index, left, stop)),
    ensures
        w.walk(c, index, left, stop) == v.walk(c, index, left, stop),
    decreases left, v.epc() - index,
{
    lemma_link_same(v, w, c);
    if index >= v.epc() {
        match v.link(c) {
            Ok(FatEntry::Data(next)) => if left > 0 && v.epc() > 0 {
                lemma_walk_same(v, w, next, 0, (left - 1) as nat, stop);
            },
            _ => {},
        }
    } else {
        lemma_entry_at_same(v, w, c, index);
        match v.entry_at(c, index) {
            Ok(e) => if !(stop(e) || e.kind() is EndOfDirectory) {
                lemma_walk_same(v, w, c, index + 1, left, stop);
            },
            Err(_) => {},
        }
    }
}

proof fn lemma_find_in_same(v: FsView, w: FsView, dir: ClusterId, name: Seq<u8>)
    requires
        knows_more(v, w),
        !wants_more(v.find_in(dir, name)),
    ensures
        w.find_in(dir, name) == v.find_in(dir, name),
{
    let stop = |e: EntryView| e.has_name(name);
    lemma_walk_same(v, w, dir, 0, v.fat.entries, stop);
}

proof fn lemma_descend_same(v: FsView, w: FsView, dir: ClusterId, comps: Seq<Seq<u8>>, k: nat)
    requires
        knows_more(v, w),
        !wants_more(v.descend(dir, comps, k)),
    ensures
        w.descend(dir, comps, k) == v.descend(dir, comps, k),
    decreases comps.len() - k,
{
    lemma_find_in_same(v, w, dir, comps[k as int]);
    match v.find_in(dir, comps[k as int]) {
        Ok((e, _)) => if k + 1 < comps.len() && e.is_directory() {
            lemma_descend_same(v, w, e.first_cluster, comps, k + 1);
        },
        Err(_) => {},
    }
}

proof fn lemma_lookup_same(v: FsView, w: FsView, path: PathView)
    requires
        knows_more(v, w),
        !wants_more(v.lookup(path)),
    ensures
        w.lookup(path) == v.lookup(path),
{
    if path.absolute && path.comps.len() > 0 {
        lemma_descend_same(v, w, v.geo.root_cluster, path.comps, 0);
    }
}

/// Looking up a path that needed nothing more gives the same once more has been
/// loaded, and so do opening a file, listing a directory and asking whether one
/// is empty.
pub proof fn law_loading_more_changes_no_lookup(
    v: FsView,
    w: FsView,
    path: PathView,
    dir: ClusterId,
)
    requires
        knows_more(v, w),
    ensures
        !wants_more(v.lookup(path)) ==> w.lookup(path) == v.lookup(path),
        !wants_more(v.open(path)) ==> w.open(path) == v.open(path),
        !wants_more(v.read_dir(path)) ==> w.read_dir(path) == v.read_dir(path),
        !wants_more(v.directory_is_empty(dir)) ==> w.directory_is_empty(dir)
            == v.directory_is_empty(dir),
{
    if !wants_more(v.lookup(path)) {
        lemma_lookup_same(v, w, path);
    }
    let stop = |e: EntryView| !(e.kind() is Deleted);
    if !is_cut_off(v.walk_dir(dir, stop)) {
        lemma_walk_same(v, w, dir, 0, v.fat.entries, stop);
    }
}

/// Whether an iteration over a directory went no further for want of something
/// that has yet to be loaded.
pub open spec fn is_held_up(r: Option<Result<EntryView, Error>>) -> bool {
    r matches Some(entry) && wants_more(entry)
}

proof fn lemma_next_same(it: IterView, v: FsView, w: FsView)
    requires
        knows_more(v, w),
        !is_held_up(it.next(v).1),
    ensures
        it.next(w) == it.next(v),
{
    lemma_link_same(v, w, it.cluster);
    if !it.finished {
        if it.entry + 1 < v.epc() {
            lemma_entry_at_same(v, w, it.cluster, (it.entry + 1) as nat);
        } else {
            match v.link(it.cluster) {
                Ok(FatEntry::Data(next)) => if it.left > 0 {
                    lemma_entry_at_same(v, w, next, 0);
                },
                _ => {},
            }
        }
    }
}

/// The next entry of a directory is the same once more has been loaded, if
/// nothing more was needed to tell.
pub proof fn law_loading_more_changes_no_listing(it: IterView, v: FsView, w: FsView)
    requires
        v.wf(),
        it.wf(v),
        knows_more(v, w),
        !is_held_up(it.next_valid(v).1),
    ensures
        it.next_valid(w) == it.next_valid(v),
    decreases
            (if it.finished {
                0int
            } else {
                1
            }),
            it.left,
            v.epc() - it.entry,
{
    lemma_next_same(it, v, w);
    match it.next(v) {
        (then, Some(Ok(e))) => if !(e.kind() is Valid || it.finished) {
            law_loading_more_changes_no_listing(then, v, w);
        },
        _ => {},
    }
}

proof fn lemma_cluster_same(f: FileView, v: FsView, w: FsView, c: ClusterId, steps: nat)
    requires
        knows_more(v, w),
    ensures
        w.advance(c, steps, false).1 == v.advance(c, steps, false).1,
    decreases steps,
{
    lemma_link_same(v, w, c);
    if steps > 0 {
        match v.next_cluster(c) {
            Ok(Some(next)) => lemma_cluster_same(f, v, w, next, (steps - 1) as nat),
            _ => {},
        }
    }
}

proof fn lemma_read_on_same(f: FileView, v: FsView, w: FsView, want: nat, got: Seq<u8>)
    requires
        knows_more(v, w),
        !wants_more(f.read_on(v, want, got).1),
    ensures
        f.read_on(w, want, got) == f.read_on(v, want, got),
    decreases want,
{
    if want > 0 && f.pos < f.size() {
        let target = f.target(v);
        if target < f.rel {
            lemma_cluster_same(f, v, w, f.dirent.first_cluster, target);
        } else {
            lemma_cluster_same(f, v, w, f.abs, (target - f.rel) as nat);
        }
        match f.cluster_at(v, false).1 {
            Ok(cluster) => {
                let g = f.at_cluster(v, cluster);
                let n = if f.span(v, want) < f.left_in_file() {
                    f.span(v, want)
                } else {
                    f.left_in_file()
                };
                match v.geo.byte_offset(cluster) {
                    Ok(start) => {
                        let at = (start + f.pos as nat % v.bpc()) as nat;
                        lemma_read_same(v, w, at, n);
                        match v.dev.read(at, n) {
                            Ok(data) => if data.len() > 0 && data.len() <= want {
                                lemma_read_on_same(
                                    FileView { pos: (g.pos + data.len()) as u32, ..g },
                                    v,
                                    w,
                                    (want - data.len()) as nat,
                                    got + data,
                                );
                            },
                            Err(_) => {},
                        }
                    },
                    Err(_) => {},
                }
            },
            Err(_) => {},
        }
    }
}

/// A read from a file gives the same once more has been loaded, if it needed
/// nothing more.
pub proof fn law_loading_more_changes_no_read(f: FileView, v: FsView, w: FsView, want: nat)
    requires
        knows_more(v, w),
        !wants_more(f.read(v, want).1),
    ensures
        f.read(w, want) == f.read(v, want),
{
    lemma_read_on_same(f, v, w, want, Seq::empty());
}

/// What is found in a filesystem is found in it again once its writes have been
/// carried out and it has been opened anew.
///
/// All of the device `again` has been loaded, as the writes that were waiting
/// have left it. That the table is the same then is
/// `law_opening_again_finds_what_was_held`.
pub proof fn law_what_was_found_is_found_again(
    v: FsView,
    disk: Map<int, u8>,
    again: DeviceView,
    path: PathView,
    f: FileView,
    want: nat,
)
    requires
        v.wf(),
        backed(v, disk),
        again.len == v.dev.len,
        again.known == disk_after(disk, v.dev.outbox),
    ensures
        ({
            let opened = fresh(v.geo, v.fat.entries as u32, v.fat.data, again.len);
            let w = FsView { dev: again, ..opened };
            &&& !wants_more(v.lookup(path)) ==> w.lookup(path) == v.lookup(path)
            &&& !wants_more(f.read(v, want).1) ==> f.read(w, want) == f.read(v, want)
        }),
{
    let opened = fresh(v.geo, v.fat.entries as u32, v.fat.data, again.len);
    let w = FsView { dev: again, ..opened };
    assert(knows_more(v, w)) by {
        assert(knows(v, disk_after(disk, v.dev.outbox)));
    }
    if !wants_more(v.lookup(path)) {
        lemma_lookup_same(v, w, path);
    }
    if !wants_more(f.read(v, want).1) {
        law_loading_more_changes_no_read(f, v, w, want);
    }
}

} // verus!
