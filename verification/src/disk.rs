//! What becomes of the disk once the writes that are waiting have been carried
//! out on it.

use vstd::prelude::*;

use crate::datetime::DateTime;
#[allow(unused_imports)]
use crate::device::DeviceView;
#[allow(unused_imports)]
use crate::dir::{
    EntryLocation, EntryView, FATX_ATTR_DIRECTORY, FATX_DELETED_FILE_MARKER, FATX_END_OF_DIR_MARKER,
};
use crate::error::Error;
use crate::fat::{ClusterId, FatEntry};
#[allow(unused_imports)]
use crate::fat::lemma_entry_fits;
#[allow(unused_imports)]
use crate::file::{FileView, SeekFrom};
#[allow(unused_imports)]
use crate::fs::{fresh, ConfigView};
use crate::path::PathView;
use crate::volume::FsView;
#[allow(unused_imports)]
use crate::walk::WalkEnd;

verus! {

/// The bytes of a disk once some writes have been carried out on it in order.
pub open spec fn disk_after(disk: Map<int, u8>, writes: Seq<(nat, Seq<u8>)>) -> Map<int, u8>
    decreases writes.len(),
{
    if writes.len() == 0 {
        disk
    } else {
        let before = disk_after(disk, writes.drop_last());
        let (offset, data) = writes.last();
        Map::new(
            |i: int| before.contains_key(i) || offset <= i < offset + data.len(),
            |i: int|
                if offset <= i < offset + data.len() {
                    data[i - offset]
                } else {
                    before[i]
                },
        )
    }
}

/// Whether every byte a filesystem knows is what a disk has.
pub open spec fn knows(v: FsView, disk: Map<int, u8>) -> bool {
    forall|i: int| #[trigger]
        v.dev.known.contains_key(i) ==> disk.contains_key(i) && disk[i] == v.dev.known[i]
}

/// Whether a byte of the table a filesystem holds is the one on a disk.
pub open spec fn has_table_byte(v: FsView, disk: Map<int, u8>, j: int) -> bool {
    let i = v.geo.fat_offset_bytes + j;
    disk.contains_key(i) && disk[i] == v.fat.data[j]
}

/// Whether the table a filesystem holds is the one on a disk, but for the part
/// that has yet to be written out.
pub open spec fn has_table(v: FsView, disk: Map<int, u8>) -> bool {
    forall|j: int|
        0 <= j < v.fat.data.len() && !v.fat.is_dirty(j) ==> #[trigger] has_table_byte(v, disk, j)
}

/// Whether a disk is the same as another up to some place.
pub open spec fn same_up_to(disk: Map<int, u8>, other: Map<int, u8>, end: int) -> bool {
    forall|i: int|
        #![trigger other.contains_key(i)]
        #![trigger other[i]]
        i < end ==> other.contains_key(i) == disk.contains_key(i) && (disk.contains_key(i)
            ==> other[i] == disk[i])
}

/// Whether a filesystem holds what is on a disk, or will be once the writes
/// that are waiting have been carried out: every byte it knows, and the whole
/// of the table but for the part that has yet to be written out. What comes
/// before the table is left alone.
pub open spec fn backed(v: FsView, disk: Map<int, u8>) -> bool {
    &&& knows(v, disk_after(disk, v.dev.outbox))
    &&& has_table(v, disk_after(disk, v.dev.outbox))
    &&& same_up_to(disk, disk_after(disk, v.dev.outbox), v.geo.fat_offset_bytes as int)
}

/// Whether one state of a filesystem can come after another: it is laid out
/// the same, and holds what is on the disk if the other did.
#[verifier::opaque]
pub open spec fn follows(v: FsView, w: FsView) -> bool {
    &&& w.wf()
    &&& w.geo == v.geo
    &&& w.fat.entries == v.fat.entries
    &&& v.dev.len <= w.dev.len
    &&& forall|disk: Map<int, u8>| backed(v, disk) ==> #[trigger] backed(w, disk)
}

proof fn lemma_follows_refl(v: FsView)
    requires
        v.wf(),
    ensures
        follows(v, v),
{
    reveal(follows);
}

proof fn lemma_follows_trans(v: FsView, w: FsView, x: FsView)
    requires
        follows(v, w),
        follows(w, x),
    ensures
        follows(v, x),
{
    reveal(follows);
    assert forall|disk: Map<int, u8>| backed(v, disk) implies #[trigger] backed(x, disk) by {
        assert(backed(w, disk));
    }
}

/// What does not depend on the disk.
pub proof fn lemma_follows(v: FsView, w: FsView)
    requires
        follows(v, w),
    ensures
        w.wf(),
        w.geo == v.geo,
        w.fat.entries == v.fat.entries,
        v.dev.len <= w.dev.len,
{
    reveal(follows);
}

/// A change of the table that is still to be written out, and of where the
/// search for a free cluster starts.
proof fn lemma_table(v: FsView, i: ClusterId, e: FatEntry, hint: u32)
    requires
        v.wf(),
    ensures
        follows(v, FsView { fat: v.fat.set(i, e, v.geo.variant).0, hint, ..v }),
{
    reveal(follows);
    let w = FsView { fat: v.fat.set(i, e, v.geo.variant).0, hint, ..v };
    if i < v.fat.entries {
        lemma_entry_fits(v.fat, i);
    }
    assert(w.fat.data.len() == v.fat.data.len());
    assert forall|disk: Map<int, u8>| backed(v, disk) implies #[trigger] backed(w, disk) by {
        let after = disk_after(disk, v.dev.outbox);
        assert forall|j: int|
            0 <= j < w.fat.data.len() && !w.fat.is_dirty(j) implies #[trigger] has_table_byte(
            w,
            after,
            j,
        ) by {
            assert(!v.fat.is_dirty(j));
            assert(w.fat.data[j] == v.fat.data[j]);
            assert(has_table_byte(v, after, j));
        }
        assert(knows(w, after));
    }
}

proof fn lemma_set_link_follows(v: FsView, i: ClusterId, e: FatEntry)
    requires
        v.wf(),
    ensures
        follows(v, v.set_link(i, e).0),
{
    lemma_table(v, i, e, v.hint);
    assert(v.set_link(i, e).0 == (FsView {
        fat: v.fat.set(i, e, v.geo.variant).0,
        hint: v.hint,
        ..v
    }));
}

/// A write past the table.
proof fn lemma_put_follows(v: FsView, at: int, data: Seq<u8>)
    requires
        v.wf(),
        at >= v.geo.cluster_offset_bytes,
    ensures
        follows(v, v.put(at, data)),
{
    reveal(follows);
    let w = v.put(at, data);
    assert forall|disk: Map<int, u8>| backed(v, disk) implies #[trigger] backed(w, disk) by {
        assert(w.dev.outbox.drop_last() =~= v.dev.outbox);
        assert(w.dev.outbox.last() == (at as nat, data));
        let before = disk_after(disk, v.dev.outbox);
        let after = disk_after(disk, w.dev.outbox);
        assert forall|i: int| #[trigger] w.dev.known.contains_key(i) implies after.contains_key(i)
            && after[i] == w.dev.known[i] by {
            if !(at <= i < at + data.len()) {
                assert(v.dev.known.contains_key(i));
            }
        }
        assert forall|j: int|
            0 <= j < w.fat.data.len() && !w.fat.is_dirty(j) implies #[trigger] has_table_byte(
            w,
            after,
            j,
        ) by {
            assert(has_table_byte(v, before, j));
        }
        assert forall|i: int|
            #![trigger after.contains_key(i)]
            #![trigger after[i]]
            i < v.geo.fat_offset_bytes implies after.contains_key(i) == disk.contains_key(i) && (
        disk.contains_key(i) ==> after[i] == disk[i]) by {
            assert(before.contains_key(i) == disk.contains_key(i));
        }
    }
}

proof fn lemma_put_in_cluster_follows(v: FsView, c: ClusterId, at: int, data: Seq<u8>)
    requires
        v.wf(),
        at >= 0,
    ensures
        follows(v, v.put_in_cluster(c, at, data).0),
{
    if v.geo.has_cluster(c) {
        v.geo.lemma_cluster_fits(c);
        lemma_put_follows(v, v.geo.start_of(c) + at, data);
    } else {
        lemma_follows_refl(v);
    }
}

/// Writing out the table.
proof fn lemma_flush_follows(v: FsView)
    requires
        v.wf(),
    ensures
        follows(v, v.flush_fat()),
        v.flush_fat().fat.dirty is None,
        v.flush_fat().fat.data == v.fat.data,
{
    reveal(follows);
    let w = v.flush_fat();
    match v.fat.dirty {
        None => {},
        Some((start, end)) => {
            let at = v.geo.fat_offset_bytes + start;
            let data = v.fat.data.subrange(start as int, end as int);
            assert forall|disk: Map<int, u8>| backed(v, disk) implies #[trigger] backed(w, disk) by {
                assert(w.dev.outbox.drop_last() =~= v.dev.outbox);
                assert(w.dev.outbox.last() == (at as nat, data));
                let before = disk_after(disk, v.dev.outbox);
                let after = disk_after(disk, w.dev.outbox);
                assert forall|i: int| #[trigger] w.dev.known.contains_key(i) implies
                    after.contains_key(i) && after[i] == w.dev.known[i] by {
                    if !(at <= i < at + data.len()) {
                        assert(v.dev.known.contains_key(i));
                    }
                }
                assert forall|j: int| 0 <= j < w.fat.data.len() implies #[trigger] has_table_byte(
                    w,
                    after,
                    j,
                ) by {
                    if start <= j < end {
                        assert(data[j - start] == v.fat.data[j]);
                    } else {
                        assert(!v.fat.is_dirty(j));
                        assert(has_table_byte(v, before, j));
                    }
                }
                assert forall|i: int|
                    #![trigger after.contains_key(i)]
                    #![trigger after[i]]
                    i < v.geo.fat_offset_bytes implies after.contains_key(i)
                    == disk.contains_key(i) && (disk.contains_key(i) ==> after[i] == disk[i]) by {
                    assert(before.contains_key(i) == disk.contains_key(i));
                }
            }
        },
    }
}

proof fn lemma_alloc_follows(v: FsView, zero: bool)
    requires
        v.wf(),
    ensures
        follows(v, v.alloc_cluster(zero).0),
{
    lemma_follows_refl(v);
    match v.find_free() {
        None => {},
        Some(c) => {
            lemma_table(v, c, FatEntry::End, (c + 1) as u32);
            let u = v.claimed(c);
            lemma_follows(v, u);
            lemma_put_in_cluster_follows(u, c, 0, crate::bytes::zeroes(v.bpc()));
            lemma_follows_trans(v, u, u.put_in_cluster(c, 0, crate::bytes::zeroes(v.bpc())).0);
        },
    }
}

proof fn lemma_grow_follows(v: FsView, tail: ClusterId)
    requires
        v.wf(),
    ensures
        follows(v, v.grow_chain(tail).0),
{
    reveal(FsView::grow_chain);
    lemma_alloc_follows(v, true);
    match v.alloc_cluster(true) {
        (u, Ok(c)) => {
            lemma_follows(v, u);
            lemma_follows_refl(u);
            lemma_set_link_follows(u, tail, FatEntry::Data(c));
            let x = u.set_link(tail, FatEntry::Data(c)).0;
            lemma_follows(u, x);
            lemma_set_link_follows(x, c, FatEntry::End);
            lemma_follows_trans(u, x, x.set_link(c, FatEntry::End).0);
            lemma_follows_trans(v, u, u.attach_cluster(tail, c).0);
        },
        _ => {},
    }
}

proof fn lemma_free_links_follows(v: FsView, c: ClusterId, left: nat)
    requires
        v.wf(),
    ensures
        follows(v, v.free_links(c, left).0),
    decreases left,
{
    lemma_follows_refl(v);
    if left > 0 && v.next_cluster(c) is Ok {
        let hint = if c < v.hint {
            c
        } else {
            v.hint
        };
        lemma_table(v, c, FatEntry::Available, hint);
        let u = FsView { fat: v.fat.set(c, FatEntry::Available, v.geo.variant).0, hint, ..v };
        lemma_follows(v, u);
        match v.next_cluster(c)->Ok_0 {
            None => {},
            Some(n) => {
                lemma_free_links_follows(u, n, (left - 1) as nat);
                lemma_follows_trans(v, u, u.free_links(n, (left - 1) as nat).0);
            },
        }
    }
}

proof fn lemma_free_follows(v: FsView, first: ClusterId)
    requires
        v.wf(),
    ensures
        follows(v, v.free_cluster_chain(first).0),
{
    reveal(FsView::free_cluster_chain);
    lemma_follows_refl(v);
    lemma_free_links_follows(v, first, v.fat.entries + 1);
}

proof fn lemma_advance_follows(v: FsView, c: ClusterId, steps: nat, alloc: bool)
    requires
        v.wf(),
    ensures
        follows(v, v.advance(c, steps, alloc).0),
    decreases steps,
{
    lemma_follows_refl(v);
    if steps > 0 {
        match v.next_cluster(c) {
            Ok(Some(next)) => lemma_advance_follows(v, next, (steps - 1) as nat, alloc),
            Ok(None) => {
                lemma_grow_follows(v, c);
                match v.grow_chain(c) {
                    (u, Ok(next)) => {
                        lemma_follows(v, u);
                        lemma_advance_follows(u, next, (steps - 1) as nat, alloc);
                        lemma_follows_trans(v, u, u.advance(next, (steps - 1) as nat, alloc).0);
                    },
                    _ => {},
                }
            },
            Err(_) => {},
        }
    }
}

proof fn lemma_wipe_follows(v: FsView, c: ClusterId, k: nat, old_size: nat, size: nat)
    requires
        v.wf(),
    ensures
        follows(v, v.wipe(c, k, old_size, size).0),
{
    lemma_follows_refl(v);
    let start = k * v.bpc();
    let lo = if old_size > start {
        old_size
    } else {
        start
    };
    let hi = if size < start + v.bpc() {
        size
    } else {
        start + v.bpc()
    };
    if lo < hi {
        lemma_put_in_cluster_follows(v, c, lo - start, crate::bytes::zeroes((hi - lo) as nat));
    }
}

proof fn lemma_wipe_on_follows(
    v: FsView,
    c: ClusterId,
    k: nat,
    n: nat,
    old_size: nat,
    size: nat,
)
    requires
        v.wf(),
    ensures
        follows(v, v.wipe_on(c, k, n, old_size, size).0),
    decreases n - k,
{
    lemma_follows_refl(v);
    if k < n {
        lemma_wipe_follows(v, c, k, old_size, size);
        match v.wipe(c, k, old_size, size) {
            (u, Ok(())) => match u.next_cluster(c) {
                Ok(Some(next)) => {
                    lemma_follows(v, u);
                    lemma_wipe_on_follows(u, next, k + 1, n, old_size, size);
                    lemma_follows_trans(v, u, u.wipe_on(next, k + 1, n, old_size, size).0);
                },
                _ => {},
            },
            _ => {},
        }
    }
}

proof fn lemma_resize_follows(v: FsView, first: ClusterId, old_size: nat, size: nat)
    requires
        v.wf(),
    ensures
        follows(v, v.resize_chain(first, old_size, size).0),
{
    reveal(FsView::resize_chain);
    let wanted = v.clusters_for(size);
    lemma_advance_follows(v, first, (wanted - 1) as nat, true);
    match v.advance(first, (wanted - 1) as nat, true) {
        (u, Ok(last)) => {
            lemma_follows(v, u);
            lemma_cut_follows(u, last);
            let x = u.cut_chain(last).0;
            lemma_follows_trans(v, u, x);
            lemma_follows(v, x);
            let had = v.held(first, wanted);
            lemma_wipe_on_follows(x, first, 0, had, old_size, size);
            lemma_follows_trans(v, x, x.wipe_on(first, 0, had, old_size, size).0);
        },
        _ => {},
    }
}

proof fn lemma_cut_follows(v: FsView, last: ClusterId)
    requires
        v.wf(),
    ensures
        follows(v, v.cut_chain(last).0),
{
    lemma_follows_refl(v);
    match v.next_cluster(last) {
        Ok(Some(next)) => {
            lemma_free_follows(v, next);
            let u = v.free_cluster_chain(next).0;
            lemma_follows(v, u);
            lemma_set_link_follows(u, last, FatEntry::End);
            lemma_follows_trans(v, u, u.set_link(last, FatEntry::End).0);
        },
        _ => {},
    }
}

proof fn lemma_marker_follows(v: FsView, location: EntryLocation, marker: u8)
    requires
        v.wf(),
    ensures
        follows(v, v.put_marker(location, marker).0),
{
    lemma_put_in_cluster_follows(v, location.cluster, location.index * 64, seq![marker]);
}

proof fn lemma_entry_follows(v: FsView, location: EntryLocation, e: EntryView)
    requires
        v.wf(),
    ensures
        follows(v, v.put_entry(location, e).0),
{
    lemma_put_in_cluster_follows(
        v,
        location.cluster,
        location.index * 64,
        e.encode(v.geo.variant),
    );
}

/// A marker in the first or second slot of a cluster a directory has been given.
proof fn lemma_grown_marker(v: FsView, u: FsView, location: EntryLocation)
    requires
        follows(v, u),
    ensures
        follows(v, u.put_marker(location, FATX_END_OF_DIR_MARKER).0),
{
    lemma_follows(v, u);
    lemma_marker_follows(u, location, FATX_END_OF_DIR_MARKER);
    lemma_follows_trans(v, u, u.put_marker(location, FATX_END_OF_DIR_MARKER).0);
}

proof fn lemma_alloc_entry_follows(v: FsView, dir: ClusterId)
    requires
        v.wf(),
    ensures
        follows(v, v.alloc_entry(dir).0),
{
    lemma_follows_refl(v);
    match v.walk_dir(dir, |e: EntryView| !(e.kind() is Valid)) {
        WalkEnd::Failed(_) => {},
        WalkEnd::Stopped(location, _) => {
            lemma_marker_follows(
                v,
                EntryLocation { cluster: location.cluster, index: (location.index + 1) as u64 },
                FATX_END_OF_DIR_MARKER,
            );
            lemma_grow_follows(v, location.cluster);
            match v.next_directory_cluster(location.cluster) {
                (u, Ok(next)) => lemma_grown_marker(
                    v,
                    u,
                    EntryLocation { cluster: next, index: 0 },
                ),
                _ => {},
            }
        },
        WalkEnd::Exhausted(last) => {
            lemma_grow_follows(v, last);
            match v.grow_chain(last) {
                (u, Ok(cluster)) => lemma_grown_marker(v, u, EntryLocation { cluster, index: 1 }),
                _ => {},
            }
        },
    }
}

/// Whether a change that has been made in full has left no part of the table
/// that is still to be written out.
pub open spec fn is_flushed<T>(v: FsView, w: FsView, r: Result<T, Error>) -> bool {
    r is Ok && v.fat.dirty is None ==> w.fat.dirty is None
}

pub proof fn lemma_create_follows(v: FsView, path: PathView, attributes: u8, now: DateTime)
    requires
        v.wf(),
    ensures
        follows(v, v.create_node(path, attributes, now).0),
        v.create_node(path, attributes, now).1 is Ok ==> v.create_node(
            path,
            attributes,
            now,
        ).0.fat.dirty is None,
{
    reveal(FsView::create_node);
    lemma_follows_refl(v);
    lemma_alloc_follows(v, true);
    match (v.split_parent(path), v.alloc_cluster(true)) {
        (Ok((parent, name)), (u, Ok(cluster))) => {
            lemma_follows(v, u);
            lemma_link_follows(u, parent, name, attributes, cluster, now);
            let w = u.link_node(parent, name, attributes, cluster, now).0;
            lemma_follows_trans(v, u, w);
            lemma_follows(v, w);
            lemma_flush_follows(w);
            lemma_follows_trans(v, w, w.flush_fat());
            lemma_free_follows(w, cluster);
            let x = w.free_cluster_chain(cluster).0;
            lemma_follows_trans(v, w, x);
            lemma_follows(v, x);
            lemma_flush_follows(x);
            lemma_follows_trans(v, x, x.flush_fat());
        },
        _ => {},
    }
}

proof fn lemma_link_follows(
    v: FsView,
    parent: ClusterId,
    name: Seq<u8>,
    attributes: u8,
    cluster: ClusterId,
    now: DateTime,
)
    requires
        v.wf(),
    ensures
        follows(v, v.link_node(parent, name, attributes, cluster, now).0),
{
    lemma_alloc_entry_follows(v, parent);
    match v.alloc_entry(parent) {
        (u, Ok(location)) => {
            lemma_follows(v, u);
            let e = EntryView::new_node(name, attributes, cluster, now, v.geo.variant);
            lemma_entry_follows(u, location, e);
            lemma_follows_trans(v, u, u.put_entry(location, e).0);
        },
        _ => {},
    }
}

pub proof fn lemma_mkdir_follows(v: FsView, path: PathView, now: DateTime)
    requires
        v.wf(),
    ensures
        follows(v, v.mkdir(path, now).0),
        v.mkdir(path, now).1 is Ok ==> v.mkdir(path, now).0.fat.dirty is None,
{
    lemma_create_follows(v, path, FATX_ATTR_DIRECTORY, now);
    match v.create_node(path, FATX_ATTR_DIRECTORY, now) {
        (u, Ok((e, _))) => lemma_grown_marker(
            v,
            u,
            EntryLocation { cluster: e.first_cluster, index: 0 },
        ),
        _ => {},
    }
}

proof fn lemma_remove_follows(v: FsView, e: EntryView, location: EntryLocation)
    requires
        v.wf(),
    ensures
        follows(v, v.remove(e, location).0),
        v.remove(e, location).1 is Ok ==> v.remove(e, location).0.fat.dirty is None,
{
    lemma_follows_refl(v);
    lemma_free_follows(v, e.first_cluster);
    let u = if e.first_cluster != 0 {
        v.free_cluster_chain(e.first_cluster).0
    } else {
        v
    };
    lemma_follows(v, u);
    lemma_marker_follows(u, location, FATX_DELETED_FILE_MARKER);
    let w = u.put_marker(location, FATX_DELETED_FILE_MARKER).0;
    lemma_follows_trans(v, u, w);
    lemma_follows(v, w);
    lemma_flush_follows(w);
    lemma_follows_trans(v, w, w.flush_fat());
}

proof fn lemma_unlink_follows(v: FsView, path: PathView)
    requires
        v.wf(),
    ensures
        follows(v, v.unlink(path).0),
        v.unlink(path).1 is Ok ==> v.unlink(path).0.fat.dirty is None,
{
    lemma_follows_refl(v);
    match v.lookup(path) {
        Ok((e, Some(location))) => lemma_remove_follows(v, e, location),
        _ => {},
    }
}

proof fn lemma_rmdir_follows(v: FsView, path: PathView)
    requires
        v.wf(),
    ensures
        follows(v, v.rmdir(path).0),
        v.rmdir(path).1 is Ok ==> v.rmdir(path).0.fat.dirty is None,
{
    lemma_follows_refl(v);
    match v.lookup(path) {
        Ok((e, Some(location))) => lemma_remove_follows(v, e, location),
        _ => {},
    }
}

proof fn lemma_owner_follows(v: FsView, e: EntryView)
    requires
        v.wf(),
    ensures
        follows(v, v.ensure_first_cluster(e).0),
{
    lemma_follows_refl(v);
    lemma_alloc_follows(v, true);
}

pub proof fn lemma_truncate_follows(v: FsView, path: PathView, size: u64, now: DateTime)
    requires
        v.wf(),
    ensures
        follows(v, v.truncate(path, size, now).0),
        v.truncate(path, size, now).1 is Ok ==> v.truncate(path, size, now).0.fat.dirty is None,
{
    lemma_follows_refl(v);
    match v.lookup(path) {
        Ok((e, Some(location))) => if size <= u32::MAX {
            lemma_truncate_entry_follows(v, e, location, size as u32, now);
        },
        _ => {},
    }
}

proof fn lemma_truncate_entry_follows(
    v: FsView,
    e: EntryView,
    location: EntryLocation,
    size: u32,
    now: DateTime,
)
    requires
        v.wf(),
    ensures
        follows(v, v.truncate_entry(e, location, size, now).0),
        v.truncate_entry(e, location, size, now).1 is Ok ==> v.truncate_entry(
            e,
            location,
            size,
            now,
        ).0.fat.dirty is None,
{
    lemma_owner_follows(v, e);
    match v.ensure_first_cluster(e) {
        (u, Ok(owner)) => {
            lemma_follows(v, u);
            lemma_resize_follows(u, owner.first_cluster, owner.file_size as nat, size as nat);
            let w = u.resize_chain(owner.first_cluster, owner.file_size as nat, size as nat).0;
            lemma_follows_trans(v, u, w);
            lemma_follows(v, w);
            let f = owner.sized(size).modified_at(now, v.geo.variant);
            lemma_entry_follows(w, location, f);
            let x = w.put_entry(location, f).0;
            lemma_follows_trans(v, w, x);
            lemma_follows(v, x);
            lemma_flush_follows(x);
            lemma_follows_trans(v, x, x.flush_fat());
        },
        _ => {},
    }
}

proof fn lemma_rename_follows(v: FsView, from: PathView, to: PathView)
    requires
        v.wf(),
    ensures
        follows(v, v.rename(from, to).0),
        from != to && v.rename(from, to).1 is Ok ==> v.rename(from, to).0.fat.dirty is None,
        from == to ==> v.rename(from, to).0 == v,
{
    lemma_follows_refl(v);
    match (v.lookup(from), v.split_parent(to)) {
        (Ok((e, Some(location))), Ok((parent, name))) => lemma_move_follows(
            v,
            e.renamed(name),
            location,
            to,
            parent,
        ),
        _ => {},
    }
}

proof fn lemma_move_follows(
    v: FsView,
    e: EntryView,
    from: EntryLocation,
    to: PathView,
    parent: ClusterId,
)
    requires
        v.wf(),
    ensures
        follows(v, v.move_entry(e, from, to, parent).0),
        v.move_entry(e, from, to, parent).1 is Ok ==> v.move_entry(
            e,
            from,
            to,
            parent,
        ).0.fat.dirty is None,
{
    lemma_alloc_entry_follows(v, parent);
    match v.alloc_entry(parent) {
        (u, Ok(location)) => {
            lemma_follows(v, u);
            lemma_follows_refl(u);
            lemma_rmdir_follows(u, to);
            lemma_unlink_follows(u, to);
            let w = u.replace(to).0;
            lemma_follows_trans(v, u, w);
            lemma_follows(v, w);
            lemma_entry_follows(w, location, e);
            let x = w.put_entry(location, e).0;
            lemma_follows_trans(v, w, x);
            lemma_follows(v, x);
            lemma_marker_follows(x, from, FATX_DELETED_FILE_MARKER);
            let y = x.put_marker(from, FATX_DELETED_FILE_MARKER).0;
            lemma_follows_trans(v, x, y);
            lemma_follows(v, y);
            lemma_flush_follows(y);
            lemma_follows_trans(v, y, y.flush_fat());
        },
        _ => {},
    }
}

pub proof fn lemma_set_times_follows(
    v: FsView,
    path: PathView,
    accessed: Option<DateTime>,
    modified: Option<DateTime>,
)
    requires
        v.wf(),
    ensures
        follows(v, v.set_times(path, accessed, modified).0),
        v.set_times(path, accessed, modified).0.fat == v.fat,
{
    lemma_follows_refl(v);
    match v.lookup(path) {
        Ok((entry, Some(location))) => {
            let entry = match accessed {
                Some(dt) => entry.accessed_at(dt, v.geo.variant),
                None => entry,
            };
            let entry = match modified {
                Some(dt) => entry.modified_at(dt, v.geo.variant),
                None => entry,
            };
            lemma_entry_follows(v, location, entry);
        },
        _ => {},
    }
}

/// Whatever is changed, and whether or not that works out, a filesystem goes on
/// holding what is on the disk once the writes that are waiting have been
/// carried out. A change that has been made in full leaves no part of the table
/// that is still to be written out.
pub proof fn law_a_change_reaches_the_disk(
    v: FsView,
    path: PathView,
    to: PathView,
    attributes: u8,
    size: u64,
    now: DateTime,
    accessed: Option<DateTime>,
    modified: Option<DateTime>,
)
    requires
        v.wf(),
    ensures
        ({
            let (w, r) = v.create_node(path, attributes, now);
            follows(v, w) && is_flushed(v, w, r)
        }),
        ({
            let (w, r) = v.mkdir(path, now);
            follows(v, w) && is_flushed(v, w, r)
        }),
        ({
            let (w, r) = v.unlink(path);
            follows(v, w) && is_flushed(v, w, r)
        }),
        ({
            let (w, r) = v.rmdir(path);
            follows(v, w) && is_flushed(v, w, r)
        }),
        ({
            let (w, r) = v.truncate(path, size, now);
            follows(v, w) && is_flushed(v, w, r)
        }),
        ({
            let (w, r) = v.rename(path, to);
            follows(v, w) && is_flushed(v, w, r)
        }),
        ({
            let (w, r) = v.set_times(path, accessed, modified);
            follows(v, w) && is_flushed(v, w, r)
        }),
        follows(v, v.flush_fat()) && v.flush_fat().fat.dirty is None,
{
    lemma_create_follows(v, path, attributes, now);
    lemma_mkdir_follows(v, path, now);
    lemma_unlink_follows(v, path);
    lemma_rmdir_follows(v, path);
    lemma_truncate_follows(v, path, size, now);
    lemma_rename_follows(v, path, to);
    lemma_set_times_follows(v, path, accessed, modified);
    lemma_flush_follows(v);
}

proof fn lemma_commit_follows(f: FileView, v: FsView, now: DateTime)
    requires
        v.wf(),
    ensures
        follows(v, f.commit(v, now).1),
        f.commit(v, now).2 is Ok ==> f.commit(v, now).1.fat.dirty is None,
{
    lemma_follows_refl(v);
    match f.location {
        Some(location) => {
            let e = f.dirent.modified_at(now, v.geo.variant).accessed_at(now, v.geo.variant);
            lemma_entry_follows(v, location, e);
            let w = v.put_entry(location, e).0;
            lemma_follows(v, w);
            lemma_flush_follows(w);
            lemma_follows_trans(v, w, w.flush_fat());
        },
        None => {},
    }
}

proof fn lemma_write_on_follows(f: FileView, v: FsView, data: Seq<u8>, done: nat)
    requires
        v.wf(),
    ensures
        follows(v, f.write_on(v, data, done).1),
    decreases data.len() - done,
{
    lemma_follows_refl(v);
    if done < data.len() {
        let target = f.target(v);
        if target < f.rel {
            lemma_advance_follows(v, f.dirent.first_cluster, target, true);
        } else {
            lemma_advance_follows(v, f.abs, (target - f.rel) as nat, true);
        }
        match f.cluster_at(v, true) {
            (w, Ok(cluster)) => {
                lemma_follows(v, w);
                let g = f.at_cluster(v, cluster);
                let n = f.span(v, (data.len() - done) as nat);
                let at = f.pos as int % v.bpc() as int;
                let piece = data.subrange(done as int, (done + n) as int);
                lemma_put_in_cluster_follows(w, cluster, at, piece);
                let (x, r) = w.put_in_cluster(cluster, at, piece);
                lemma_follows_trans(v, w, x);
                lemma_follows(v, x);
                if n > 0 && r is Ok {
                    lemma_write_on_follows(g.wrote(n), x, data, done + n);
                    lemma_follows_trans(v, x, g.wrote(n).write_on(x, data, done + n).1);
                }
            },
            _ => {},
        }
    }
}

proof fn lemma_place_follows(f: FileView, v: FsView, data: Seq<u8>, now: DateTime)
    requires
        v.wf(),
    ensures
        follows(v, f.place(v, data, now).1),
        f.place(v, data, now).2 is Ok ==> f.place(v, data, now).1.fat.dirty is None,
{
    lemma_write_on_follows(f, v, data, 0);
    let (g, w, _, _) = f.write_on(v, data, 0);
    lemma_follows(v, w);
    lemma_commit_follows(g, w, now);
    lemma_follows_trans(v, w, g.commit(w, now).1);
}

/// A write to a file, too, leaves the filesystem holding what is on the disk
/// once the writes that are waiting have been carried out.
pub proof fn law_a_write_reaches_the_disk(f: FileView, v: FsView, data: Seq<u8>, now: DateTime)
    requires
        v.wf(),
    ensures
        follows(v, f.write(v, data, now).1),
        is_flushed(v, f.write(v, data, now).1, f.write(v, data, now).2),
{
    reveal(FileView::write);
    lemma_follows_refl(v);
    lemma_owner_follows(v, f.dirent);
    match v.ensure_first_cluster(f.dirent) {
        (w, Ok(owner)) => {
            lemma_follows(v, w);
            let g = f.owning(owner);
            lemma_follows_refl(w);
            lemma_resize_follows(
                w,
                g.dirent.first_cluster,
                g.size() as nat,
                g.pos as nat,
            );
            let (h, x, _) = g.extend_to(w, g.pos as nat);
            lemma_follows_trans(v, w, x);
            lemma_follows(v, x);
            lemma_place_follows(h, x, g.fitting(data), now);
            lemma_follows_trans(v, x, h.place(x, g.fitting(data), now).1);
        },
        _ => {},
    }
}

proof fn lemma_write_all_follows(f: FileView, v: FsView, data: Seq<u8>, now: DateTime)
    requires
        v.wf(),
    ensures
        follows(v, f.write_all(v, data, now).1),
        f.write_all(v, data, now).2 is Ok && v.fat.dirty is None ==> f.write_all(
            v,
            data,
            now,
        ).1.fat.dirty is None,
    decreases data.len(),
{
    lemma_follows_refl(v);
    if data.len() > 0 {
        law_a_write_reaches_the_disk(f, v, data, now);
        let (g, w, r) = f.write(v, data, now);
        lemma_follows(v, w);
        if let Ok(n) = r {
            if 0 < n <= data.len() {
                lemma_write_all_follows(g, w, data.skip(n as int), now);
                lemma_follows_trans(v, w, g.write_all(w, data.skip(n as int), now).1);
            }
        }
    }
}

/// Every request that changes something leaves the filesystem holding what is on the disk
/// once the writes that are waiting have been carried out, and one that works out leaves
/// no part of the table that is still to be written out.
pub proof fn law_a_request_reaches_the_disk(
    v: FsView,
    path: PathView,
    offset: u64,
    data: Seq<u8>,
    size: Option<u64>,
    accessed: Option<DateTime>,
    modified: Option<DateTime>,
    now: DateTime,
)
    requires
        v.wf(),
    ensures
        ({
            let (w, r) = v.write_file(path, offset, data, now);
            follows(v, w) && (r is Ok && v.fat.dirty is None ==> w.fat.dirty is None)
        }),
        ({
            let (w, r) = v.change_entry(path, size, accessed, modified, now);
            follows(v, w) && is_flushed(v, w, r)
        }),
        ({
            let (w, r) = v.create_entry(path, now);
            follows(v, w) && is_flushed(v, w, r)
        }),
        ({
            let (w, r) = v.mkdir_entry(path, now);
            follows(v, w) && is_flushed(v, w, r)
        }),
{
    lemma_follows_refl(v);
    lemma_create_follows(v, path, 0, now);
    lemma_mkdir_follows(v, path, now);
    if let Ok(f) = v.open(path) {
        let g = f.seek(SeekFrom::Start(offset)).0;
        lemma_write_all_follows(g, v, data, now);
    }
    let (w, _) = v.resize_entry(path, size, now);
    if let Some(size) = size {
        lemma_truncate_follows(v, path, size, now);
    }
    lemma_follows(v, w);
    lemma_follows_refl(w);
    lemma_set_times_follows(w, path, accessed, modified);
    lemma_follows_trans(v, w, w.touch_entry(path, accessed, modified).0);
}

/// The state of a filesystem whose waiting writes have been handed over.
pub open spec fn drained(v: FsView) -> FsView {
    FsView {
        dev: DeviceView { len: v.dev.len, known: Map::empty(), outbox: Seq::empty() },
        ..v
    }
}

/// Once the writes that were waiting have been carried out, a filesystem holds
/// what is on the disk as it is then.
pub proof fn law_handing_over_writes_keeps_what_is_held(v: FsView, disk: Map<int, u8>)
    requires
        backed(v, disk),
    ensures
        backed(drained(v), disk_after(disk, v.dev.outbox)),
{
    let w = drained(v);
    let after = disk_after(disk, v.dev.outbox);
    assert(disk_after(after, w.dev.outbox) == after);
    assert forall|j: int|
        0 <= j < w.fat.data.len() && !w.fat.is_dirty(j) implies #[trigger] has_table_byte(
        w,
        after,
        j,
    ) by {
        assert(has_table_byte(v, after, j));
    }
}

/// A table that has been written out is on the disk in full.
pub proof fn law_a_flushed_table_is_on_the_disk(v: FsView, disk: Map<int, u8>)
    requires
        backed(v, disk),
        v.fat.dirty is None,
    ensures
        forall|j: int|
            0 <= j < v.fat.data.len() ==> #[trigger] has_table_byte(
                v,
                disk_after(disk, v.dev.outbox),
                j,
            ),
{
}

/// Whether one of some bytes is known to be at its place.
spec fn shows(known: Map<int, u8>, offset: int, data: Seq<u8>, k: int) -> bool {
    known.contains_key(offset + k) && known[offset + k] == data[k]
}

/// Reading a range of a disk, all of which is known.
proof fn lemma_read_disk(dev: DeviceView, offset: nat, len: nat, data: Seq<u8>)
    requires
        offset + len <= dev.len,
        data.len() == len,
        forall|k: int| 0 <= k < len ==> #[trigger] shows(dev.known, offset as int, data, k),
    ensures
        dev.read_exact(offset, len) == Ok::<Seq<u8>, Error>(data),
{
    reveal(DeviceView::read);
    if len == 0 {
        assert(dev.has(offset as int, 0));
    } else {
        assert(dev.has(offset as int, len as int)) by {
            assert forall|i: int| offset <= i < offset + len implies
                #[trigger] dev.known.contains_key(i) by {
                assert(shows(dev.known, offset as int, data, i - offset));
            }
        }
    }
    assert forall|k: int| 0 <= k < len implies #[trigger] dev.bytes(offset as int, len)[k]
        == data[k] by {
        assert(shows(dev.known, offset as int, data, k));
    }
    assert(dev.bytes(offset as int, dev.available(offset, len)) =~= data);
}

/// What a read from a device gives is what the device knows.
proof fn lemma_read_known(dev: DeviceView, offset: nat, len: nat, data: Seq<u8>)
    requires
        dev.read_exact(offset, len) == Ok::<Seq<u8>, Error>(data),
    ensures
        offset + len <= dev.len,
        data.len() == len,
        forall|k: int| 0 <= k < len ==> #[trigger] shows(dev.known, offset as int, data, k),
{
    reveal(DeviceView::read);
    assert(data =~= dev.bytes(offset as int, dev.available(offset, len)));
    assert forall|k: int| 0 <= k < len implies #[trigger] shows(
        dev.known,
        offset as int,
        data,
        k,
    ) by {
        assert(dev.known.contains_key(offset + k));
    }
}

/// A filesystem that has just been opened holds what is on the disk.
pub proof fn law_an_opened_filesystem_holds_what_is_on_the_disk(
    config: ConfigView,
    dev: DeviceView,
    disk: Map<int, u8>,
)
    requires
        config.mounted(dev) is Ok,
        forall|i: int| #[trigger]
            dev.known.contains_key(i) ==> disk.contains_key(i) && disk[i] == dev.known[i],
    ensures
        ({
            let (geo, entries, data) = config.mounted(dev)->Ok_0;
            backed(fresh(geo, entries, data, dev.len), disk)
        }),
{
    let (geo, entries, data) = config.mounted(dev)->Ok_0;
    let v = fresh(geo, entries, data, dev.len);
    let n = crate::fat::fat_size(entries as nat);
    lemma_read_known(dev, geo.fat_offset_bytes as nat, n, data);
    assert forall|j: int|
        0 <= j < v.fat.data.len() && !v.fat.is_dirty(j) implies #[trigger] has_table_byte(
        v,
        disk,
        j,
    ) by {
        assert(shows(dev.known, geo.fat_offset_bytes as int, data, j));
    }
}

/// Taking in more of the disk leaves a filesystem holding what is on it.
pub proof fn law_loading_keeps_what_is_held(v: FsView, w: FsView, disk: Map<int, u8>)
    requires
        backed(v, disk),
        v.dev.outbox.len() == 0,
        w == (FsView { dev: DeviceView { known: w.dev.known, ..v.dev }, ..v }),
        forall|i: int| #[trigger]
            w.dev.known.contains_key(i) ==> (v.dev.known.contains_key(i) && w.dev.known[i]
                == v.dev.known[i]) || (disk.contains_key(i) && w.dev.known[i] == disk[i]),
    ensures
        backed(w, disk),
{
    let after = disk_after(disk, v.dev.outbox);
    assert forall|j: int|
        0 <= j < w.fat.data.len() && !w.fat.is_dirty(j) implies #[trigger] has_table_byte(
        w,
        after,
        j,
    ) by {
        assert(has_table_byte(v, after, j));
    }
    assert(knows(w, after));
}

/// A filesystem that is opened again has the table it had when its writes had
/// been carried out.
///
/// The device `dev` is the one it was opened on the first time, of which `first`
/// has the bytes; `disk` is what it had been turned into when the last writes
/// were handed over, and `again` is what the writes that were still waiting then
/// have made of it.
pub proof fn law_opening_again_finds_what_was_held(
    config: ConfigView,
    dev: DeviceView,
    first: Map<int, u8>,
    v: FsView,
    disk: Map<int, u8>,
    again: DeviceView,
)
    requires
        config.mounted(dev) is Ok,
        ({
            let (geo, entries, _) = config.mounted(dev)->Ok_0;
            &&& v.geo == geo
            &&& v.fat.entries == entries
            &&& same_up_to(first, disk, geo.fat_offset_bytes as int)
        }),
        forall|i: int| #[trigger]
            dev.known.contains_key(i) ==> first.contains_key(i) && first[i] == dev.known[i],
        v.wf(),
        backed(v, disk),
        v.fat.dirty is None,
        again.len == dev.len,
        again.known == disk_after(disk, v.dev.outbox),
    ensures
        config.mounted(again) == Ok::<_, Error>((v.geo, v.fat.entries as u32, v.fat.data)),
{
    let (geo, entries, data) = config.mounted(dev)->Ok_0;
    let size = config.partition_size(dev.len)->Ok_0;
    let (variant, superblock) = config.superblock(dev)->Ok_0;
    let after = disk_after(disk, v.dev.outbox);
    assert(geo.fat_offset_bytes == config.partition_offset_bytes + 4096) by {
        reveal(ConfigView::layout);
        reveal(ConfigView::superblock);
        let b = dev.read_exact(config.partition_offset_bytes as nat, 4096)->Ok_0;
        lemma_read_known(dev, config.partition_offset_bytes as nat, 4096, b);
        assert(config.layout(size, variant, superblock) == Ok::<_, Error>((geo, entries)));
    }
    assert(config.superblock(again) == config.superblock(dev)) by {
        reveal(ConfigView::superblock);
        let at = config.partition_offset_bytes as nat;
        let b = dev.read_exact(at, 4096)->Ok_0;
        lemma_read_known(dev, at, 4096, b);
        assert forall|k: int| 0 <= k < 4096 implies #[trigger] shows(
            again.known,
            at as int,
            b,
            k,
        ) by {
            assert(shows(dev.known, at as int, b, k));
            assert(first.contains_key(at + k));
            assert(disk.contains_key(at + k) && disk[at + k] == first[at + k]);
            assert(after.contains_key(at + k));
        }
        lemma_read_disk(again, at, 4096, b);
    }
    let n = crate::fat::fat_size(entries as nat);
    lemma_read_known(dev, geo.fat_offset_bytes as nat, n, data);
    assert forall|k: int| 0 <= k < n implies #[trigger] shows(
        again.known,
        geo.fat_offset_bytes as int,
        v.fat.data,
        k,
    ) by {
        assert(has_table_byte(v, after, k));
    }
    lemma_read_disk(again, geo.fat_offset_bytes as nat, n, v.fat.data);
}

} // verus!
