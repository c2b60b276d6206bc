//! Directories on the device: what their slots hold, and what the operations on
//! entries make of them.

use vstd::prelude::*;

#[allow(unused_imports)]
use crate::chain::{
    kept, lemma_chain_distinct, lemma_chain_len, lemma_grow, lemma_kept_refl, lemma_kept_trans,
    lemma_put_in_cluster, same_bytes, within_or_free,
};
#[allow(unused_imports)]
use crate::dir::{law_entry_reads_back, EntryLocation, EntryView, FATX_END_OF_DIR_MARKER};
use crate::error::Error;
use crate::fat::ClusterId;
#[allow(unused_imports)]
use crate::resize::lemma_other_cluster;
#[allow(unused_imports)]
use crate::slots::{
    first_stop, is_open, lemma_append, lemma_first_stop, lemma_move_end, lemma_search, names_differ,
    search,
};
#[allow(unused_imports)]
use crate::volume::FsView;
#[allow(unused_imports)]
use crate::walk::WalkEnd;

verus! {

impl FsView {
    /// The bytes of a slot of a cluster.
    pub open spec fn slot_bytes(self, c: ClusterId, j: int) -> Seq<u8> {
        Seq::new(64, |x: int| self.byte_of(c, j * 64 + x))
    }

    /// The entry in a slot of a cluster.
    pub open spec fn slot(self, c: ClusterId, j: int) -> EntryView {
        EntryView::decode(self.slot_bytes(c, j), self.geo.variant)
    }

    /// Whether the whole of a cluster lies on the device and is known.
    pub open spec fn is_loaded(self, c: ClusterId) -> bool {
        &&& self.on_device(c)
        &&& forall|at: int| 0 <= at < self.bpc() ==> #[trigger] self.has_byte(c, at)
    }

    /// The slots of a directory with some clusters.
    pub open spec fn slots(self, d: Seq<ClusterId>) -> Seq<EntryView> {
        Seq::new(
            (d.len() * self.epc()) as nat,
            |k: int| self.slot(d[k / self.epc() as int], k % self.epc() as int),
        )
    }

    /// Where a slot of a directory is.
    pub open spec fn place_of(self, d: Seq<ClusterId>, k: int) -> EntryLocation {
        EntryLocation {
            cluster: d[k / self.epc() as int],
            index: (k % self.epc() as int) as u64,
        }
    }

    /// Whether some clusters are a directory that is loaded, in which no name
    /// occurs twice.
    pub open spec fn is_dir(self, d: Seq<ClusterId>) -> bool {
        &&& self.is_chain(d)
        &&& forall|i: int| 0 <= i < d.len() ==> self.is_loaded(#[trigger] d[i])
        &&& names_differ(self.slots(d))
    }
}

/// A slot's number splits into a cluster and a place within it.
pub proof fn lemma_slot(v: FsView, i: int, j: int)
    requires
        v.wf(),
        0 <= j < v.epc(),
    ensures
        (i * v.epc() + j) / v.epc() as int == i,
        (i * v.epc() + j) % v.epc() as int == j,
{
    let e = v.epc() as int;
    vstd::arithmetic::div_mod::lemma_fundamental_div_mod_converse(i * e + j, e, i, j);
}

pub proof fn lemma_slot_split(v: FsView, k: int, n: int)
    requires
        v.wf(),
        0 <= k < n * v.epc(),
    ensures
        0 <= k / v.epc() as int,
        k / (v.epc() as int) < n,
        0 <= k % v.epc() as int,
        k % (v.epc() as int) < v.epc(),
        (k / v.epc() as int) * v.epc() + k % v.epc() as int == k,
{
    let e = v.epc() as int;
    vstd::arithmetic::div_mod::lemma_fundamental_div_mod(k, e);
    vstd::arithmetic::div_mod::lemma_mod_bound(k, e);
    vstd::arithmetic::div_mod::lemma_div_pos_is_pos(k, e);
    vstd::arithmetic::mul::lemma_mul_is_commutative(e, k / e);
    let q = k / e;
    if q >= n {
        assert(q * e >= n * e) by (nonlinear_arith)
            requires
                q >= n,
                e > 0,
        ;
    }
}

/// A slot of a cluster that is loaded can be read.
pub proof fn lemma_entry_at(v: FsView, c: ClusterId, j: int)
    requires
        v.wf(),
        v.geo.has_cluster(c),
        v.is_loaded(c),
        0 <= j < v.epc(),
    ensures
        v.entry_at(c, j as nat) == Ok::<EntryView, Error>(v.slot(c, j)),
{
    reveal(crate::device::DeviceView::read);
    v.geo.lemma_cluster_fits(c);
    let start = v.geo.start_of(c) + j * 64;
    assert(v.dev.has(start, 64)) by {
        assert forall|i: int| start <= i < start + 64 implies #[trigger] v.dev.known.contains_key(
            i,
        ) by {
            assert(v.has_byte(c, j * 64 + (i - start)));
        }
    }
    assert(v.dev.bytes(start, 64) =~= v.slot_bytes(c, j));
}

/// Walking through a directory ends at the first slot that is looked for or
/// ends it.
pub proof fn lemma_walk(
    v: FsView,
    d: Seq<ClusterId>,
    i: int,
    j: int,
    left: nat,
    stop: spec_fn(EntryView) -> bool,
)
    requires
        v.wf(),
        v.is_dir(d),
        0 <= i < d.len(),
        0 <= j <= v.epc(),
        left >= d.len() - 1 - i,
    ensures
        ({
            let at = first_stop(v.slots(d), (i * v.epc() + j) as nat, stop);
            v.walk(d[i], j as nat, left, stop) == (if at < v.slots(d).len() {
                WalkEnd::Stopped(v.place_of(d, at as int), v.slots(d)[at as int])
            } else {
                WalkEnd::Exhausted(d.last())
            })
        }),
    decreases d.len() - i, v.epc() - j,
{
    let e = v.epc() as int;
    let k = i * e + j;
    let slots = v.slots(d);
    assert((i + 1) * e == i * e + e) by (nonlinear_arith);
    assert(i * e >= 0) by (nonlinear_arith)
        requires
            i >= 0,
            e >= 0,
    ;
    if j < e {
        assert((i + 1) * e <= d.len() * e) by (nonlinear_arith)
            requires
                i + 1 <= d.len(),
                e >= 0,
        ;
        lemma_slot(v, i, j);
        assert(v.geo.has_cluster(d[i]));
        assert(v.is_loaded(d[i]));
        lemma_entry_at(v, d[i], j);
        assert(slots[k] == v.slot(d[i], j));
        if !(stop(slots[k]) || slots[k].kind() is EndOfDirectory) {
            lemma_walk(v, d, i, j + 1, left, stop);
        } else {
            assert(first_stop(slots, k as nat, stop) == k);
        }
    } else if i < d.len() - 1 {
        assert(v.leads_to(d[i], d[i + 1]));
        lemma_walk(v, d, i + 1, 0, (left - 1) as nat, stop);
    } else {
        assert(v.ends_at(d[i]));
        assert(k == d.len() * e);
        assert(first_stop(slots, k as nat, stop) == slots.len());
    }
}

/// What is found under a name in a directory.
pub proof fn lemma_find(v: FsView, d: Seq<ClusterId>, name: Seq<u8>)
    requires
        v.wf(),
        v.is_dir(d),
    ensures
        v.find_in(d[0], name) == (match search(v.slots(d), name) {
            Some(k) => Ok((v.slots(d)[k as int], v.place_of(d, k as int))),
            None => Err(Error::NotFound),
        }),
{
    let stop = |e: EntryView| e.has_name(name);
    lemma_chain_len(v, d);
    lemma_walk(v, d, 0, 0, v.fat.entries, stop);
    lemma_first_stop(v.slots(d), 0, stop);
}

/// A directory whose clusters are the same in a later state is the same
/// directory.
pub proof fn lemma_dir_same(v: FsView, w: FsView, d: Seq<ClusterId>)
    requires
        v.wf(),
        w.wf(),
        v.is_dir(d),
        w.geo == v.geo,
        v.dev.len <= w.dev.len,
        forall|i: int|
            #![trigger d[i]]
            0 <= i < d.len() ==> same_bytes(v, w, d[i]) && w.link(d[i]) == v.link(d[i]),
    ensures
        w.is_dir(d),
        w.slots(d) == v.slots(d),
{
    assert forall|k: int| 0 <= k < d.len() * v.epc() implies w.slots(d)[k] == v.slots(d)[k] by {
        lemma_slot_split(v, k, d.len() as int);
        let c = d[k / v.epc() as int];
        let j = k % v.epc() as int;
        assert(same_bytes(v, w, c));
        assert(v.is_loaded(c));
        assert forall|x: int| 0 <= x < 64 implies w.slot_bytes(c, j)[x] == v.slot_bytes(c, j)[x] by {
            assert(v.has_byte(c, j * 64 + x));
            assert(w.has_byte(c, j * 64 + x));
            assert(w.byte_of(c, j * 64 + x) == v.byte_of(c, j * 64 + x));
        }
        assert(w.slot_bytes(c, j) =~= v.slot_bytes(c, j));
    }
    assert(w.slots(d) =~= v.slots(d));
    assert forall|i: int| 0 <= i < d.len() implies w.is_loaded(#[trigger] d[i]) by {
        assert(same_bytes(v, w, d[i]));
        assert(v.is_loaded(d[i]));
        assert forall|at: int| 0 <= at < w.bpc() implies #[trigger] w.has_byte(d[i], at) by {
            assert(v.has_byte(d[i], at));
        }
    }
    assert forall|i: int|
        #![trigger d[i]]
        0 <= i < d.len() - 1 implies w.leads_to(d[i], d[i + 1]) by {
        assert(v.leads_to(d[i], d[i + 1]));
        assert(w.link(d[i]) == v.link(d[i]));
    }
    assert(w.link(d.last()) == v.link(d.last()));
}

/// Whether a directory has none of some clusters.
pub open spec fn avoids(d: Seq<ClusterId>, s: Set<ClusterId>) -> bool {
    forall|i: int| 0 <= i < d.len() ==> !s.contains(#[trigger] d[i])
}

/// A directory that has none of the clusters something changes is the same
/// afterwards.
pub proof fn lemma_dir_kept(v: FsView, w: FsView, d: Seq<ClusterId>, s: Set<ClusterId>)
    requires
        v.wf(),
        v.is_dir(d),
        kept(v, w, s),
        avoids(d, s),
    ensures
        w.is_dir(d),
        w.slots(d) == v.slots(d),
{
    assert forall|i: int|
        #![trigger d[i]]
        0 <= i < d.len() implies same_bytes(v, w, d[i]) && w.link(d[i]) == v.link(d[i]) by {
        if i < d.len() - 1 {
            assert(v.leads_to(d[i], d[i + 1]));
        }
        assert(!s.contains(d[i]));
        assert(v.geo.has_cluster(d[i]));
    }
    lemma_dir_same(v, w, d);
}

/// An entry with another length byte.
pub open spec fn marked(e: EntryView, marker: u8) -> EntryView {
    EntryView { filename_len: marker, ..e }
}

proof fn lemma_marked_bytes(b: Seq<u8>, marker: u8, variant: crate::variant::Variant)
    requires
        b.len() == 64,
    ensures
        EntryView::decode(b.update(0, marker), variant) == marked(
            EntryView::decode(b, variant),
            marker,
        ),
{
    let c = b.update(0, marker);
    assert(c.subrange(2, 44) =~= b.subrange(2, 44));
    assert(c.subrange(44, 48) =~= b.subrange(44, 48));
    assert(c.subrange(48, 52) =~= b.subrange(48, 52));
    assert(c.subrange(52, 54) =~= b.subrange(52, 54));
    assert(c.subrange(54, 56) =~= b.subrange(54, 56));
    assert(c.subrange(56, 58) =~= b.subrange(56, 58));
    assert(c.subrange(58, 60) =~= b.subrange(58, 60));
    assert(c.subrange(60, 62) =~= b.subrange(60, 62));
    assert(c.subrange(62, 64) =~= b.subrange(62, 64));
}

/// A write of part of a slot changes that slot and no other.
proof fn lemma_put_in_slot(
    v: FsView,
    d: Seq<ClusterId>,
    k: int,
    data: Seq<u8>,
    bytes: Seq<u8>,
    e: EntryView,
)
    requires
        v.wf(),
        v.is_dir(d),
        0 <= k < v.slots(d).len(),
        0 < data.len() <= 64,
        ({
            let old = v.slot_bytes(d[k / v.epc() as int], k % v.epc() as int);
            bytes == Seq::new(
                64,
                |x: int|
                    if x < data.len() {
                        data[x]
                    } else {
                        old[x]
                    },
            )
        }),
        EntryView::decode(bytes, v.geo.variant) == e,
    ensures
        ({
            let p = v.place_of(d, k);
            let (w, r) = v.put_in_cluster(p.cluster, p.index * 64, data);
            &&& r == Ok::<(), Error>(())
            &&& w.is_chain(d)
            &&& forall|i: int| 0 <= i < d.len() ==> w.is_loaded(#[trigger] d[i])
            &&& w.slots(d) == v.slots(d).update(k, e)
            &&& kept(v, w, d.to_set())
            &&& w.fat == v.fat
            &&& forall|c: ClusterId|
                c != p.cluster && v.geo.has_cluster(c) ==> #[trigger] same_bytes(v, w, c)
        }),
{
    let epc = v.epc() as int;
    lemma_slot_split(v, k, d.len() as int);
    let i = k / epc;
    let j = k % epc;
    let c = d[i];
    let p = v.place_of(d, k);
    assert(p.index == j);
    assert(v.geo.has_cluster(c));
    lemma_put_in_cluster(v, c, j * 64, data);
    let w = v.put_in_cluster(c, j * 64, data).0;
    assert forall|x: ClusterId|
        x != c && v.geo.has_cluster(x) implies #[trigger] same_bytes(v, w, x) by {
        lemma_other_cluster(v, c, j * 64, data, x);
    }
    assert(v.is_loaded(c));
    assert forall|m: int| 0 <= m < d.len() * epc implies w.slots(d)[m] == v.slots(d).update(
        k,
        e,
    )[m] by {
        lemma_slot_split(v, m, d.len() as int);
        let mi = m / epc;
        let mj = m % epc;
        let mc = d[mi];
        assert(v.is_loaded(mc));
        if m == k {
            assert(w.slot_bytes(c, j) =~= bytes) by {
                assert forall|x: int| 0 <= x < 64 implies w.slot_bytes(c, j)[x] == bytes[x] by {
                    assert(v.has_byte(c, j * 64 + x));
                    assert(w.has_byte(c, j * 64 + x));
                }
            }
        } else {
            assert(w.slot_bytes(mc, mj) =~= v.slot_bytes(mc, mj)) by {
                assert forall|x: int| 0 <= x < 64 implies w.slot_bytes(mc, mj)[x] == v.slot_bytes(
                    mc,
                    mj,
                )[x] by {
                    assert(v.has_byte(mc, mj * 64 + x));
                    assert(w.has_byte(mc, mj * 64 + x) == w.has_byte(mc, mj * 64 + x));
                    if mc == c {
                        if mi != i {
                            if mi < i {
                                lemma_chain_distinct(v, d, mi, i);
                            } else {
                                lemma_chain_distinct(v, d, i, mi);
                            }
                        }
                        assert(mj != j);
                        assert(w.has_byte(c, mj * 64 + x));
                    } else {
                        assert(v.geo.has_cluster(mc));
                        assert(same_bytes(v, w, mc));
                        assert(w.has_byte(mc, mj * 64 + x));
                    }
                }
            }
        }
    }
    assert(w.slots(d) =~= v.slots(d).update(k, e));
    assert forall|n: int| 0 <= n < d.len() implies w.is_loaded(#[trigger] d[n]) by {
        assert(v.is_loaded(d[n]));
        assert forall|at: int| 0 <= at < w.bpc() implies #[trigger] w.has_byte(d[n], at) by {
            assert(v.has_byte(d[n], at));
            if d[n] != c {
                assert(v.geo.has_cluster(d[n]));
                assert(same_bytes(v, w, d[n]));
            }
        }
    }
    assert forall|n: int|
        #![trigger d[n]]
        0 <= n < d.len() - 1 implies w.leads_to(d[n], d[n + 1]) by {
        assert(v.leads_to(d[n], d[n + 1]));
    }
    assert(v.ends_at(d.last()));
    assert(w.is_chain(d));
    assert(within_or_free(v, set![c], d.to_set())) by {
        assert(d.contains(d[i]));
    }
    lemma_kept_refl(v, d.to_set());
    lemma_kept_trans(v, v, w, d.to_set(), set![c]);
}

/// An entry that is put into a slot of a directory is what that slot holds.
pub proof fn lemma_put_slot(v: FsView, d: Seq<ClusterId>, k: int, e: EntryView)
    requires
        v.wf(),
        v.is_dir(d),
        0 <= k < v.slots(d).len(),
        e.wf(),
    ensures
        ({
            let (w, r) = v.put_entry(v.place_of(d, k), e);
            &&& r == Ok::<(), Error>(())
            &&& w.is_chain(d)
            &&& forall|i: int| 0 <= i < d.len() ==> w.is_loaded(#[trigger] d[i])
            &&& w.slots(d) == v.slots(d).update(k, e)
            &&& kept(v, w, d.to_set())
            &&& w.fat == v.fat
            &&& forall|c: ClusterId|
                c != v.place_of(d, k).cluster && v.geo.has_cluster(c) ==> #[trigger] same_bytes(
                    v,
                    w,
                    c,
                )
        }),
{
    law_entry_reads_back(e, v.geo.variant);
    let data = e.encode(v.geo.variant);
    let old = v.slot_bytes(d[k / v.epc() as int], k % v.epc() as int);
    let bytes = Seq::new(
        64,
        |x: int|
            if x < data.len() {
                data[x]
            } else {
                old[x]
            },
    );
    assert(bytes =~= data);
    lemma_put_in_slot(v, d, k, data, bytes, e);
}

/// A marker that is put into a slot of a directory changes the length byte of
/// its entry.
pub proof fn lemma_put_mark(v: FsView, d: Seq<ClusterId>, k: int, marker: u8)
    requires
        v.wf(),
        v.is_dir(d),
        0 <= k < v.slots(d).len(),
    ensures
        ({
            let (w, r) = v.put_marker(v.place_of(d, k), marker);
            &&& r == Ok::<(), Error>(())
            &&& w.is_chain(d)
            &&& forall|i: int| 0 <= i < d.len() ==> w.is_loaded(#[trigger] d[i])
            &&& w.slots(d) == v.slots(d).update(k, marked(v.slots(d)[k], marker))
            &&& kept(v, w, d.to_set())
            &&& w.fat == v.fat
            &&& forall|c: ClusterId|
                c != v.place_of(d, k).cluster && v.geo.has_cluster(c) ==> #[trigger] same_bytes(
                    v,
                    w,
                    c,
                )
        }),
{
    let data = seq![marker];
    let old = v.slot_bytes(d[k / v.epc() as int], k % v.epc() as int);
    let bytes = Seq::new(
        64,
        |x: int|
            if x < data.len() {
                data[x]
            } else {
                old[x]
            },
    );
    assert(bytes =~= old.update(0, marker));
    lemma_marked_bytes(old, marker, v.geo.variant);
    lemma_put_in_slot(v, d, k, data, bytes, marked(v.slots(d)[k], marker));
}

/// Whether a directory has become another row of clusters, those it had and
/// ones that were free, with all else that is in use kept.
pub open spec fn reshaped(v: FsView, d: Seq<ClusterId>, w: FsView, e: Seq<ClusterId>) -> bool {
    &&& w.is_dir(e)
    &&& d.len() <= e.len()
    &&& kept(v, w, d.to_set())
    &&& forall|i: int|
        #![trigger e[i]]
        0 <= i < e.len() ==> if i < d.len() {
            e[i] == d[i]
        } else {
            v.is_free(e[i])
        }
    &&& forall|c: ClusterId| v.is_free(c) && !e.contains(c) ==> #[trigger] w.is_free(c)
}

/// Whether the same is found under a name in a directory and in another.
pub open spec fn same_find(a: Seq<EntryView>, b: Seq<EntryView>, name: Seq<u8>) -> bool {
    search(b, name) == search(a, name) && (search(a, name) matches Some(k) ==> k < b.len() && b[k as int]
        == a[k as int])
}

pub proof fn lemma_reshaped_refl(v: FsView, d: Seq<ClusterId>)
    requires
        v.wf(),
        v.is_dir(d),
    ensures
        reshaped(v, d, v, d),
{
    lemma_kept_refl(v, d.to_set());
}

pub proof fn lemma_reshaped_trans(
    v: FsView,
    d: Seq<ClusterId>,
    w: FsView,
    e: Seq<ClusterId>,
    x: FsView,
    f: Seq<ClusterId>,
)
    requires
        v.wf(),
        v.is_chain(d),
        reshaped(v, d, w, e),
        reshaped(w, e, x, f),
    ensures
        reshaped(v, d, x, f),
{
    assert(within_or_free(v, e.to_set(), d.to_set())) by {
        assert forall|c: ClusterId| #[trigger] e.to_set().contains(c) implies d.to_set().contains(c)
            || v.is_free(c) by {
            let i = choose|i: int| 0 <= i < e.len() && e[i] == c;
            if i < d.len() {
                assert(e[i] == d[i]);
                assert(d.contains(d[i]));
            } else {
                assert(v.is_free(e[i]));
            }
        }
    }
    lemma_kept_trans(v, w, x, d.to_set(), e.to_set());
    assert forall|i: int|
        #![trigger f[i]]
        0 <= i < f.len() implies if i < d.len() {
        f[i] == d[i]
    } else {
        v.is_free(f[i])
    } by {
        if i < e.len() {
            assert(f[i] == e[i]);
        } else {
            let c = f[i];
            assert(w.is_free(c));
            if !v.is_free(c) {
                if d.to_set().contains(c) {
                    let j = choose|j: int| 0 <= j < d.len() && d[j] == c;
                    assert(e[j] == d[j]);
                    if j < e.len() - 1 {
                        assert(w.leads_to(e[j], e[j + 1]));
                    }
                } else {
                    assert(w.link(c) == v.link(c));
                }
            }
        }
    }
    assert forall|c: ClusterId| v.is_free(c) && !f.contains(c) implies #[trigger] x.is_free(c) by {
        if e.contains(c) {
            let i = choose|i: int| 0 <= i < e.len() && e[i] == c;
            assert(f[i] == e[i]);
        }
        assert(w.is_free(c));
    }
}

/// The slots of a directory that has been given another cluster.
proof fn lemma_slots_grown(v: FsView, d: Seq<ClusterId>, w: FsView, c: ClusterId) -> (more: Seq<
    EntryView,
>)
    requires
        v.wf(),
        v.linkable(),
        v.is_dir(d),
        v.grow_chain(d.last()) == (w, Ok::<ClusterId, Error>(c)),
    ensures
        w.slots(d.push(c)) == v.slots(d) + more,
        more.len() == v.epc(),
        forall|j: int| 0 <= j < more.len() ==> (#[trigger] more[j]).kind() is EndOfDirectory,
        reshaped(v, d, w, d.push(c)),
        forall|name: Seq<u8>| #[trigger] same_find(v.slots(d), w.slots(d.push(c)), name),
        forall|x: ClusterId|
            x != c && v.geo.has_cluster(x) ==> #[trigger] same_bytes(v, w, x),
{
    lemma_grow(v, d);
    let epc = v.epc() as int;
    let d2 = d.push(c);
    let total = d.len() * epc;
    assert(d2.len() * epc == total + epc) by (nonlinear_arith)
        requires
            d2.len() == d.len() + 1,
            total == d.len() * epc,
    ;
    let more = Seq::new(v.epc(), |j: int| w.slot(c, j));
    assert forall|x: ClusterId|
        x != c && v.geo.has_cluster(x) implies #[trigger] same_bytes(v, w, x) by {}
    assert forall|k: int| 0 <= k < total + epc implies w.slots(d2)[k] == (v.slots(d) + more)[k] by {
        lemma_slot_split(w, k, d2.len() as int);
        let i = k / epc;
        let j = k % epc;
        if k < total {
            lemma_slot_split(v, k, d.len() as int);
            let x = d[i];
            assert(d2[i] == x);
            assert(v.is_loaded(x));
            assert(d.contains(d[i]));
            assert(v.geo.has_cluster(x));
            assert(same_bytes(v, w, x));
            assert(w.slot_bytes(x, j) =~= v.slot_bytes(x, j)) by {
                assert forall|y: int| 0 <= y < 64 implies w.slot_bytes(x, j)[y] == v.slot_bytes(
                    x,
                    j,
                )[y] by {
                    assert(v.has_byte(x, j * 64 + y));
                    assert(w.has_byte(x, j * 64 + y));
                }
            }
        } else {
            lemma_slot(v, d.len() as int, k - total);
            assert(i == d.len());
            assert(d2[i] == c);
        }
    }
    assert(w.slots(d2) =~= v.slots(d) + more);
    assert forall|j: int| 0 <= j < more.len() implies (
    #[trigger] more[j]).kind() is EndOfDirectory by {
        assert(w.has_byte(c, j * 64) && w.byte_of(c, j * 64) == 0);
        assert(w.slot_bytes(c, j)[0] == 0);
    }
    assert forall|i: int| 0 <= i < d2.len() implies w.is_loaded(#[trigger] d2[i]) by {
        if i < d.len() {
            let x = d[i];
            assert(d2[i] == x);
            assert(v.is_loaded(x));
            assert(d.contains(d[i]));
            assert(v.geo.has_cluster(x));
            assert(same_bytes(v, w, x));
            assert forall|at: int| 0 <= at < w.bpc() implies #[trigger] w.has_byte(x, at) by {
                assert(v.has_byte(x, at));
            }
        } else {
            assert forall|at: int| 0 <= at < w.bpc() implies #[trigger] w.has_byte(c, at) by {}
        }
    }
    assert forall|name: Seq<u8>| #[trigger] same_find(v.slots(d), w.slots(d2), name) by {
        lemma_append(v.slots(d), more, name);
        lemma_search(v.slots(d), name);
    }
    lemma_append(v.slots(d), more, Seq::empty());
    assert(w.is_dir(d2));
    more
}

/// The clusters of a directory in which an entry can be put, and the slot for
/// it.
pub open spec fn opened_up(
    v: FsView,
    d: Seq<ClusterId>,
    w: FsView,
    e: Seq<ClusterId>,
    k: int,
) -> bool {
    &&& reshaped(v, d, w, e)
    &&& is_open(w.slots(e), k)
    &&& forall|name: Seq<u8>| #[trigger] same_find(v.slots(d), w.slots(e), name)
}

/// A marker that ends a directory, in a slot after one that already does.
proof fn lemma_mark_end(v: FsView, d: Seq<ClusterId>, k: int)
    requires
        v.wf(),
        v.is_dir(d),
        0 <= k < v.slots(d).len() - 1,
        v.slots(d)[k].kind() is EndOfDirectory,
        forall|j: int|
            #![trigger v.slots(d)[j]]
            0 <= j < k ==> !(v.slots(d)[j].kind() is EndOfDirectory),
    ensures
        ({
            let (w, r) = v.put_marker(v.place_of(d, k + 1), FATX_END_OF_DIR_MARKER);
            &&& r == Ok::<(), Error>(())
            &&& opened_up(v, d, w, d, k)
        }),
{
    lemma_put_mark(v, d, k + 1, FATX_END_OF_DIR_MARKER);
    let w = v.put_marker(v.place_of(d, k + 1), FATX_END_OF_DIR_MARKER).0;
    let end = marked(v.slots(d)[k + 1], FATX_END_OF_DIR_MARKER);
    assert forall|name: Seq<u8>| #[trigger] same_find(v.slots(d), w.slots(d), name) by {
        lemma_move_end(v.slots(d), k, end, name);
        lemma_search(v.slots(d), name);
    }
    lemma_move_end(v.slots(d), k, end, Seq::empty());
    assert(w.slots(d)[k] == v.slots(d)[k]);
    assert(w.slots(d)[k + 1] == end);
    assert forall|j: int| 0 <= j < k implies !((
    #[trigger] w.slots(d)[j]).kind() is EndOfDirectory) by {
        assert(w.slots(d)[j] == v.slots(d)[j]);
    }
}

/// A directory whose last slot is its end can take an entry there once the end
/// has moved on into another cluster.
proof fn lemma_end_pushed_on(v: FsView, d: Seq<ClusterId>, u: FsView, c: ClusterId)
    requires
        v.wf(),
        v.linkable(),
        v.is_dir(d),
        v.grow_chain(d.last()) == (u, Ok::<ClusterId, Error>(c)),
        v.slots(d).len() > 0,
        v.slots(d).last().kind() is EndOfDirectory,
        forall|j: int|
            #![trigger v.slots(d)[j]]
            0 <= j < v.slots(d).len() - 1 ==> v.slots(d)[j].kind() is Valid,
    ensures
        ({
            let k = v.slots(d).len() - 1;
            let (w, r) = u.put_marker(
                EntryLocation { cluster: c, index: 0 },
                FATX_END_OF_DIR_MARKER,
            );
            &&& r == Ok::<(), Error>(())
            &&& opened_up(v, d, w, d.push(c), k)
            &&& w.place_of(d.push(c), k) == v.place_of(d, k)
        }),
{
    let slots = v.slots(d);
    let k = slots.len() - 1;
    let d2 = d.push(c);
    let more = lemma_slots_grown(v, d, u, c);
    lemma_slot(v, d.len() as int, 0);
    assert(u.place_of(d2, k + 1) == EntryLocation { cluster: c, index: 0 });
    assert(u.slots(d2)[k] == slots[k]);
    assert forall|m: int|
        #![trigger u.slots(d2)[m]]
        0 <= m < k implies !(u.slots(d2)[m].kind() is EndOfDirectory) by {
        assert(u.slots(d2)[m] == slots[m]);
    }
    lemma_mark_end(u, d2, k);
    let w = u.put_marker(EntryLocation { cluster: c, index: 0 }, FATX_END_OF_DIR_MARKER).0;
    lemma_opened_trans(v, d, u, d2, w, d2, k);
    lemma_place_kept(v, d, w, d2, k);
}

/// A directory that has no end can take an entry in the first slot of another
/// cluster, and ends after that.
proof fn lemma_end_made(v: FsView, d: Seq<ClusterId>, u: FsView, c: ClusterId)
    requires
        v.wf(),
        v.linkable(),
        v.is_dir(d),
        v.grow_chain(d.last()) == (u, Ok::<ClusterId, Error>(c)),
        forall|j: int|
            #![trigger v.slots(d)[j]]
            0 <= j < v.slots(d).len() ==> v.slots(d)[j].kind() is Valid,
    ensures
        ({
            let k = v.slots(d).len() as int;
            let (w, r) = u.put_marker(
                EntryLocation { cluster: c, index: 1 },
                FATX_END_OF_DIR_MARKER,
            );
            &&& r == Ok::<(), Error>(())
            &&& opened_up(v, d, w, d.push(c), k)
            &&& w.place_of(d.push(c), k) == EntryLocation { cluster: c, index: 0 }
        }),
{
    let slots = v.slots(d);
    let k = slots.len() as int;
    let d2 = d.push(c);
    let more = lemma_slots_grown(v, d, u, c);
    let n = d.len() as int;
    lemma_slot(v, n, 0);
    lemma_slot(v, n, 1);
    assert(u.place_of(d2, k) == EntryLocation { cluster: c, index: 0 });
    assert(u.place_of(d2, k + 1) == EntryLocation { cluster: c, index: 1 });
    assert(u.slots(d2)[k] == more[0]);
    assert forall|m: int|
        #![trigger u.slots(d2)[m]]
        0 <= m < k implies !(u.slots(d2)[m].kind() is EndOfDirectory) by {
        assert(u.slots(d2)[m] == slots[m]);
    }
    lemma_mark_end(u, d2, k);
    let w = u.put_marker(EntryLocation { cluster: c, index: 1 }, FATX_END_OF_DIR_MARKER).0;
    lemma_opened_trans(v, d, u, d2, w, d2, k);
}

/// A directory can only not be made longer for want of room, and then nothing
/// has changed.
proof fn lemma_grow_fails(v: FsView, d: Seq<ClusterId>)
    requires
        v.wf(),
        v.linkable(),
        v.is_chain(d),
    ensures
        v.grow_chain(d.last()) matches (w, Err(e)) ==> w == v && e == v.no_room() && (
        v.geo.writable ==> w.is_full()),
{
    lemma_grow(v, d);
}

/// Finding room for an entry gives a slot in which one can be put, and changes
/// nothing that is found. It only fails for want of room.
#[verifier::rlimit(40)]
pub proof fn lemma_alloc_entry(v: FsView, d: Seq<ClusterId>) -> (r: (Seq<ClusterId>, int))
    requires
        v.wf(),
        v.linkable(),
        v.is_dir(d),
    ensures
        match v.alloc_entry(d[0]) {
            (w, Ok(location)) => opened_up(v, d, w, r.0, r.1) && location == w.place_of(r.0, r.1),
            (w, Err(e)) => w == v && e == v.no_room() && (v.geo.writable ==> w.is_full()),
        },
{
    let stop = |e: EntryView| !(e.kind() is Valid);
    let slots = v.slots(d);
    let epc = v.epc() as int;
    lemma_chain_len(v, d);
    lemma_walk(v, d, 0, 0, v.fat.entries, stop);
    lemma_first_stop(slots, 0, stop);
    let k = first_stop(slots, 0, stop) as int;
    assert forall|j: int|
        #![trigger slots[j]]
        0 <= j < k implies slots[j].kind() is Valid by {
        assert(!stop(slots[j]));
    }
    if k < slots.len() {
        lemma_slot_split(v, k, d.len() as int);
        let i = k / epc;
        let j = k % epc;
        let location = v.place_of(d, k);
        assert(location.index == j);
        if slots[k].kind() is Deleted {
            lemma_reshaped_refl(v, d);
            lemma_search_within(slots);
            (d, k)
        } else {
            assert(slots[k].kind() is EndOfDirectory);
            if j + 1 < epc {
                assert((i + 1) * epc <= d.len() * epc) by (nonlinear_arith)
                    requires
                        i + 1 <= d.len(),
                        epc >= 0,
                ;
                assert((i + 1) * epc == i * epc + epc) by (nonlinear_arith);
                lemma_slot(v, i, j + 1);
                assert(v.place_of(d, k + 1) == EntryLocation {
                    cluster: location.cluster,
                    index: (location.index + 1) as u64,
                });
                lemma_mark_end(v, d, k);
                (d, k)
            } else if i + 1 < d.len() {
                assert(v.leads_to(d[i], d[i + 1]));
                assert((i + 1) * epc == i * epc + epc) by (nonlinear_arith);
                assert((i + 2) * epc <= d.len() * epc) by (nonlinear_arith)
                    requires
                        i + 2 <= d.len(),
                        epc >= 0,
                ;
                assert((i + 2) * epc == (i + 1) * epc + epc) by (nonlinear_arith);
                lemma_slot(v, i + 1, 0);
                assert(v.place_of(d, k + 1) == EntryLocation { cluster: d[i + 1], index: 0 });
                lemma_mark_end(v, d, k);
                (d, k)
            } else {
                assert(v.ends_at(d[i]));
                assert(d[i] == d.last());
                lemma_grow_fails(v, d);
                match v.grow_chain(d.last()) {
                    (u, Ok(c)) => {
                        assert((i + 1) * epc == i * epc + epc) by (nonlinear_arith);
                        assert(k + 1 == slots.len());
                        lemma_end_pushed_on(v, d, u, c);
                        (d.push(c), k)
                    },
                    _ => (d, k),
                }
            }
        }
    } else {
        lemma_grow_fails(v, d);
        match v.grow_chain(d.last()) {
            (u, Ok(c)) => {
                lemma_end_made(v, d, u, c);
                (d.push(c), k)
            },
            _ => (d, k),
        }
    }
}

proof fn lemma_search_within(slots: Seq<EntryView>)
    ensures
        forall|name: Seq<u8>| #[trigger] same_find(slots, slots, name),
{
    assert forall|name: Seq<u8>| #[trigger] same_find(slots, slots, name) by {
        lemma_search(slots, name);
    }
}

proof fn lemma_opened_trans(
    v: FsView,
    d: Seq<ClusterId>,
    u: FsView,
    d2: Seq<ClusterId>,
    w: FsView,
    d3: Seq<ClusterId>,
    k: int,
)
    requires
        v.wf(),
        v.is_chain(d),
        reshaped(v, d, u, d2),
        forall|name: Seq<u8>| #[trigger] same_find(v.slots(d), u.slots(d2), name),
        opened_up(u, d2, w, d3, k),
    ensures
        opened_up(v, d, w, d3, k),
{
    lemma_reshaped_trans(v, d, u, d2, w, d3);
    assert forall|name: Seq<u8>| #[trigger] same_find(v.slots(d), w.slots(d3), name) by {
        assert(same_find(v.slots(d), u.slots(d2), name));
        assert(same_find(u.slots(d2), w.slots(d3), name));
    }
}

/// A slot a directory had is still in the same place.
pub proof fn lemma_place_kept(v: FsView, d: Seq<ClusterId>, w: FsView, e: Seq<ClusterId>, k: int)
    requires
        v.wf(),
        reshaped(v, d, w, e),
        0 <= k < v.slots(d).len(),
    ensures
        w.place_of(e, k) == v.place_of(d, k),
{
    lemma_slot_split(v, k, d.len() as int);
    assert(e[k / v.epc() as int] == d[k / v.epc() as int]);
}

} // verus!
