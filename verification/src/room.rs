//! How much room there is, and what takes it and gives it back.

use vstd::prelude::*;

#[allow(unused_imports)]
use crate::attr::StatFs;
#[allow(unused_imports)]
use crate::chain::{
    law_a_cluster_handed_out_was_free, law_a_freed_chain_is_available_again, lemma_chain_distinct,
};
#[allow(unused_imports)]
use crate::contents::lemma_flush;
#[allow(unused_imports)]
use crate::dir::{EntryLocation, EntryView, FATX_DELETED_FILE_MARKER};
use crate::error::Error;
use crate::fat::ClusterId;
#[allow(unused_imports)]
use crate::names::owns;
#[allow(unused_imports)]
use crate::ops::lemma_count_free;
use crate::ops::Space;
use crate::volume::FsView;

verus! {

/// How many clusters of a range are among some others.
spec fn members(s: Seq<ClusterId>, from: u32, to: u32) -> nat
    decreases to - from,
{
    if from >= to {
        0
    } else {
        (if s.contains(from) {
            1nat
        } else {
            0
        }) + members(s, (from + 1) as u32, to)
    }
}

proof fn lemma_members_none(s: Seq<ClusterId>, from: u32, to: u32)
    requires
        s.len() == 0,
    ensures
        members(s, from, to) == 0,
    decreases to - from,
{
    if from < to {
        lemma_members_none(s, (from + 1) as u32, to);
    }
}

proof fn lemma_members_push(s: Seq<ClusterId>, c: ClusterId, from: u32, to: u32)
    requires
        !s.contains(c),
    ensures
        members(s.push(c), from, to) == members(s, from, to) + (if from <= c < to {
            1int
        } else {
            0
        }),
    decreases to - from,
{
    if from < to {
        lemma_members_push(s, c, (from + 1) as u32, to);
        let t = s.push(c);
        if s.contains(from) {
            let i = choose|i: int| 0 <= i < s.len() && s[i] == from;
            assert(t[i] == from);
        }
        if from == c {
            assert(t[s.len() as int] == c);
        } else if t.contains(from) {
            let i = choose|i: int| 0 <= i < t.len() && t[i] == from;
            assert(s[i] == from);
        }
    }
}

/// Clusters that are all in a range, none of them twice, are as many as the
/// range has of them.
proof fn lemma_members_all(s: Seq<ClusterId>, from: u32, to: u32)
    requires
        forall|i: int| 0 <= i < s.len() ==> from <= #[trigger] s[i] < to,
        forall|i: int, j: int| 0 <= i < j < s.len() ==> #[trigger] s[i] != #[trigger] s[j],
    ensures
        members(s, from, to) == s.len(),
    decreases s.len(),
{
    if s.len() == 0 {
        lemma_members_none(s, from, to);
    } else {
        let t = s.drop_last();
        let c = s.last();
        assert(s =~= t.push(c));
        assert(!t.contains(c));
        lemma_members_all(t, from, to);
        assert(from <= s[s.len() - 1] < to);
        lemma_members_push(t, c, from, to);
    }
}

/// Clusters that become free are counted as free from then on.
proof fn lemma_count_more(v: FsView, w: FsView, s: Seq<ClusterId>, from: u32, to: u32)
    requires
        forall|c: ClusterId| s.contains(c) ==> !#[trigger] v.is_free(c) && w.is_free(c),
        forall|c: ClusterId| !s.contains(c) ==> #[trigger] w.link(c) == v.link(c),
    ensures
        w.count_free(from, to) == v.count_free(from, to) + members(s, from, to),
    decreases to - from,
{
    if from < to {
        lemma_count_more(v, w, s, (from + 1) as u32, to);
        if s.contains(from) {
            assert(!v.is_free(from) && w.is_free(from));
        } else {
            assert(w.link(from) == v.link(from));
        }
    }
}

/// A node that is removed gives back the room that its clusters took.
pub proof fn law_removing_gives_room_back(
    v: FsView,
    e: EntryView,
    location: EntryLocation,
    s: Seq<ClusterId>,
)
    requires
        v.wf(),
        v.geo.writable,
        owns(v, e, s),
        forall|i: int| 0 <= i < s.len() ==> 2 <= #[trigger] s[i] < v.alloc_end(),
        v.remove(e, location).1 is Ok,
    ensures
        ({
            let w = v.remove(e, location).0;
            &&& w.alloc_end() == v.alloc_end()
            &&& w.count_free(2, w.alloc_end()) == v.count_free(2, v.alloc_end()) + s.len()
        }),
{
    let u = if s.len() > 0 {
        law_a_freed_chain_is_available_again(v, s);
        v.free_cluster_chain(s[0]).0
    } else {
        v
    };
    let x = u.put_marker(location, FATX_DELETED_FILE_MARKER).0;
    assert(v.remove(e, location) == (x.flush_fat(), Ok::<(), Error>(())));
    assert(x.wf());
    lemma_flush(x);
    let w = x.flush_fat();
    assert forall|c: ClusterId| s.contains(c) implies !#[trigger] v.is_free(c) && w.is_free(c) by {
        let i = choose|i: int| 0 <= i < s.len() && s[i] == c;
        if i < s.len() - 1 {
            assert(v.leads_to(s[i], s[i + 1]));
        } else {
            assert(v.ends_at(s.last()));
        }
        assert(u.is_free(s[i]));
        assert(x.link(c) == u.link(c));
        assert(w.link(c) == x.link(c));
    }
    assert forall|c: ClusterId| !s.contains(c) implies #[trigger] w.link(c) == v.link(c) by {
        assert(u.link(c) == v.link(c));
        assert(x.link(c) == u.link(c));
        assert(w.link(c) == x.link(c));
    }
    lemma_count_more(v, w, s, 2, v.alloc_end());
    assert forall|i: int, j: int| 0 <= i < j < s.len() implies #[trigger] s[i] != #[trigger] s[j] by {
        lemma_chain_distinct(v, s, i, j);
    }
    lemma_members_all(s, 2, v.alloc_end());
}

/// A cluster that is handed out takes the room of one cluster, and no more.
pub proof fn law_a_cluster_takes_the_room_of_one(v: FsView)
    requires
        v.wf(),
        v.alloc_cluster(true).1 is Ok,
    ensures
        ({
            let w = v.alloc_cluster(true).0;
            &&& w.alloc_end() == v.alloc_end()
            &&& v.count_free(2, v.alloc_end()) == w.count_free(2, w.alloc_end()) + 1
        }),
{
    law_a_cluster_handed_out_was_free(v);
    let (w, r) = v.alloc_cluster(true);
    let c = r->Ok_0;
    let s = seq![c];
    assert forall|d: ClusterId| s.contains(d) implies !#[trigger] w.is_free(d) && v.is_free(d) by {
        assert(d == c);
    }
    assert forall|d: ClusterId| !s.contains(d) implies #[trigger] v.link(d) == w.link(d) by {
        assert(s[0] == c);
        assert(w.link(d) == v.link(d));
    }
    lemma_count_more(w, v, s, 2, v.alloc_end());
    lemma_members_all(s, 2, v.alloc_end());
}

/// No room is free just when a filesystem is full.
pub proof fn law_full_means_no_room(v: FsView)
    ensures
        v.is_full() == (v.count_free(2, v.alloc_end()) == 0),
{
    lemma_none_free(v, 2, v.alloc_end());
}

proof fn lemma_none_free(v: FsView, from: u32, to: u32)
    ensures
        (v.count_free(from, to) == 0) == (forall|c: ClusterId|
            from <= c < to ==> !#[trigger] v.is_free(c)),
    decreases to - from,
{
    if from < to {
        lemma_none_free(v, (from + 1) as u32, to);
        if v.is_free(from) {
            assert(v.count_free(from, to) > 0);
        } else {
            assert(v.count_free(from, to) == v.count_free((from + 1) as u32, to));
        }
    }
}

/// The free clusters of a range.
pub open spec fn free_clusters(v: FsView, from: u32, to: u32) -> Set<ClusterId> {
    Set::new(|c: ClusterId| from <= c < to && v.is_free(c))
}

proof fn lemma_free_clusters(v: FsView, from: u32, to: u32)
    ensures
        free_clusters(v, from, to).finite(),
        free_clusters(v, from, to).len() == v.count_free(from, to),
    decreases to - from,
{
    if from < to {
        let rest = free_clusters(v, (from + 1) as u32, to);
        lemma_free_clusters(v, (from + 1) as u32, to);
        if v.is_free(from) {
            assert(free_clusters(v, from, to) =~= rest.insert(from));
        } else {
            assert(free_clusters(v, from, to) =~= rest);
        }
    } else {
        assert(free_clusters(v, from, to) =~= Set::empty());
    }
}

/// The figures of a filesystem count its clusters: those that can be handed out, which
/// are all but the first two that both the partition and the table have, and those of
/// them that are free. In bytes they are that many times the size of a cluster.
pub proof fn law_figures_count_clusters(v: FsView, space: Space)
    requires
        v.wf(),
        v.is_space(space),
    ensures
        ({
            let last: int = if v.geo.num_clusters <= v.fat.entries {
                v.geo.num_clusters as int
            } else {
                v.fat.entries as int
            };
            let total = if last < 2 {
                0
            } else {
                last - 2
            };
            let free = Set::new(|c: ClusterId| 2 <= c < last && v.is_free(c));
            let bpc = v.geo.num_bytes_per_cluster;
            let figures = StatFs::of(space);
            &&& free.finite()
            &&& space.bytes_per_cluster == bpc
            &&& space.total_bytes == total * bpc
            &&& space.free_bytes == free.len() * bpc
            &&& figures.blocks == total
            &&& figures.bfree == free.len()
            &&& figures.bavail == free.len()
            &&& figures.bsize == bpc
            &&& figures.frsize == bpc
            &&& figures.namelen == 42
            &&& figures.files == 0
            &&& figures.ffree == 0
            &&& free.len() <= total
        }),
{
    let end = v.alloc_end();
    lemma_free_clusters(v, 2, end);
    lemma_count_free(v, 2, end);
    let free = Set::new(|c: ClusterId| 2 <= c < end && v.is_free(c));
    assert(free =~= free_clusters(v, 2, end));
    let bpc = v.geo.num_bytes_per_cluster as int;
    vstd::arithmetic::div_mod::lemma_div_multiples_vanish(v.allocatable() as int, bpc);
    vstd::arithmetic::div_mod::lemma_div_multiples_vanish(free.len() as int, bpc);
    vstd::arithmetic::mul::lemma_mul_is_commutative(bpc, v.allocatable() as int);
    vstd::arithmetic::mul::lemma_mul_is_commutative(bpc, free.len() as int);
}

} // verus!
