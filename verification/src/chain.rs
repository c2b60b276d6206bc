//! What the operations on clusters do to chains, and what they leave alone.

use vstd::prelude::*;

#[allow(unused_imports)]
use crate::bytes::zeroes;
use crate::error::Error;
use crate::fat::{ClusterId, FatEntry};
#[allow(unused_imports)]
use crate::fat::law_fat_entry_reads_back;
#[allow(unused_imports)]
use crate::volume::{lemma_first_free, FsView};

verus! {

impl FsView {
    pub open spec fn is_free(self, c: ClusterId) -> bool {
        self.link(c) == Ok::<FatEntry, Error>(FatEntry::Available)
    }

    pub open spec fn ends_at(self, c: ClusterId) -> bool {
        self.link(c) == Ok::<FatEntry, Error>(FatEntry::End)
    }

    pub open spec fn leads_to(self, c: ClusterId, next: ClusterId) -> bool {
        self.link(c) == Ok::<FatEntry, Error>(FatEntry::Data(next))
    }

    /// What stands in the way of handing out a cluster.
    pub open spec fn no_room(self) -> Error {
        if self.geo.writable {
            Error::NoSpaceLeft
        } else {
            Error::ReadOnlyFilesystem
        }
    }

    /// Whether there is no cluster left to hand out.
    pub open spec fn is_full(self) -> bool {
        forall|c: ClusterId| 2 <= c < self.alloc_end() ==> !#[trigger] self.is_free(c)
    }

    /// Whether every cluster the table has an entry for can be linked to, as
    /// its number is none that marks something else.
    pub open spec fn linkable(self) -> bool {
        self.fat.entries <= 0xffff_fff0
    }

    /// Whether some clusters are a chain, from its first cluster to its last.
    pub open spec fn is_chain(self, s: Seq<ClusterId>) -> bool {
        &&& s.len() > 0
        &&& forall|i: int| 0 <= i < s.len() ==> self.geo.has_cluster(#[trigger] s[i])
        &&& forall|i: int|
            #![trigger s[i]]
            0 <= i < s.len() - 1 ==> self.leads_to(s[i], s[i + 1])
        &&& self.ends_at(s.last())
    }

    /// The byte at a place of a cluster.
    pub open spec fn byte_of(self, c: ClusterId, at: int) -> u8 {
        self.dev.known[self.geo.start_of(c) + at]
    }

    /// Whether a byte of a cluster has been loaded or written.
    pub open spec fn has_byte(self, c: ClusterId, at: int) -> bool {
        self.dev.known.contains_key(self.geo.start_of(c) + at)
    }

    /// Whether a cluster lies on the device to its last byte.
    pub open spec fn on_device(self, c: ClusterId) -> bool {
        self.geo.start_of(c) + self.bpc() <= self.dev.len
    }
}

/// Whether a cluster holds the same in two states.
pub open spec fn same_bytes(v: FsView, w: FsView, c: ClusterId) -> bool {
    forall|at: int|
        #![trigger w.has_byte(c, at)]
        #![trigger w.byte_of(c, at)]
        0 <= at < v.bpc() ==> w.has_byte(c, at) == v.has_byte(c, at) && (v.has_byte(c, at)
            ==> w.byte_of(c, at) == v.byte_of(c, at))
}

/// Whether everything that is in use but for some clusters is the same in a
/// later state.
pub open spec fn kept(v: FsView, w: FsView, s: Set<ClusterId>) -> bool {
    &&& w.wf()
    &&& w.geo == v.geo
    &&& w.fat.entries == v.fat.entries
    &&& v.dev.len <= w.dev.len
    &&& forall|c: ClusterId|
        !s.contains(c) && !v.is_free(c) ==> #[trigger] w.link(c) == v.link(c)
    &&& forall|c: ClusterId|
        #![trigger same_bytes(v, w, c)]
        !s.contains(c) && !v.is_free(c) && v.geo.has_cluster(c) ==> same_bytes(v, w, c)
}

/// Whether some clusters are either among others or free.
pub open spec fn within_or_free(v: FsView, t: Set<ClusterId>, s: Set<ClusterId>) -> bool {
    forall|c: ClusterId| #[trigger] t.contains(c) ==> s.contains(c) || v.is_free(c)
}

pub proof fn lemma_kept_refl(v: FsView, s: Set<ClusterId>)
    requires
        v.wf(),
    ensures
        kept(v, v, s),
{
}

/// What is kept by one step and then by another is kept by both.
pub proof fn lemma_kept_trans(
    v: FsView,
    w: FsView,
    x: FsView,
    s: Set<ClusterId>,
    t: Set<ClusterId>,
)
    requires
        kept(v, w, s),
        kept(w, x, t),
        within_or_free(v, t, s),
    ensures
        kept(v, x, s),
{
    assert forall|c: ClusterId| !s.contains(c) && !v.is_free(c) implies #[trigger] x.link(c)
        == v.link(c) by {
        assert(!t.contains(c));
        assert(w.link(c) == v.link(c));
    }
    assert forall|c: ClusterId|
        #![trigger same_bytes(v, x, c)]
        !s.contains(c) && !v.is_free(c) && v.geo.has_cluster(c) implies same_bytes(v, x, c) by {
        assert(!t.contains(c));
        assert(w.link(c) == v.link(c));
        assert(same_bytes(v, w, c));
        assert(same_bytes(w, x, c));
        assert forall|at: int|
            #![trigger x.has_byte(c, at)]
            #![trigger x.byte_of(c, at)]
            0 <= at < v.bpc() implies x.has_byte(c, at) == v.has_byte(c, at) && (v.has_byte(c, at)
            ==> x.byte_of(c, at) == v.byte_of(c, at)) by {
            assert(w.has_byte(c, at) == v.has_byte(c, at));
        }
    }
}

/// No cluster occurs twice in a chain.
pub proof fn lemma_chain_distinct(v: FsView, s: Seq<ClusterId>, i: int, j: int)
    requires
        v.is_chain(s),
        0 <= i < j < s.len(),
    ensures
        s[i] != s[j],
    decreases s.len() - j,
{
    if s[i] == s[j] {
        assert(v.leads_to(s[i], s[i + 1]));
        if j < s.len() - 1 {
            assert(v.leads_to(s[j], s[j + 1]));
            lemma_chain_distinct(v, s, i + 1, j + 1);
        }
    }
}

/// A link that can be stored is what the table says from then on, and it says
/// the same of every other cluster.
pub proof fn lemma_set_link(v: FsView, c: ClusterId, e: FatEntry)
    requires
        v.wf(),
        c < v.fat.entries,
        e.raw() is Ok,
        e matches FatEntry::Data(d) ==> d < v.fat.entries,
    ensures
        v.set_link(c, e).1 == Ok::<(), Error>(()),
        v.set_link(c, e).0.wf(),
        v.set_link(c, e).0.geo == v.geo,
        v.set_link(c, e).0.dev == v.dev,
        v.set_link(c, e).0.hint == v.hint,
        v.set_link(c, e).0.fat.entries == v.fat.entries,
        v.set_link(c, e).0.link(c) == Ok::<FatEntry, Error>(e),
        forall|d: ClusterId| d != c ==> #[trigger] v.set_link(c, e).0.link(d) == v.link(d),
{
    law_fat_entry_reads_back(v.fat, c, e, v.geo.variant, c);
    assert forall|d: ClusterId| d != c implies #[trigger] v.set_link(c, e).0.link(d) == v.link(
        d,
    ) by {
        law_fat_entry_reads_back(v.fat, c, e, v.geo.variant, d);
    }
}

/// A write to the device at some place changes no byte anywhere else.
pub proof fn lemma_put(v: FsView, at: int, data: Seq<u8>)
    requires
        v.wf(),
        at >= 0,
    ensures
        v.put(at, data).wf(),
        forall|i: int|
            #![trigger v.put(at, data).dev.known.contains_key(i)]
            #![trigger v.put(at, data).dev.known[i]]
            !(at <= i < at + data.len()) ==> v.put(at, data).dev.known.contains_key(i)
                == v.dev.known.contains_key(i) && (v.dev.known.contains_key(i) ==> v.put(
                at,
                data,
            ).dev.known[i] == v.dev.known[i]),
        forall|i: int|
            #![trigger v.put(at, data).dev.known.contains_key(i)]
            #![trigger v.put(at, data).dev.known[i]]
            at <= i < at + data.len() ==> v.put(at, data).dev.known.contains_key(i) && v.put(
                at,
                data,
            ).dev.known[i] == data[i - at],
{
}

/// A write within a cluster puts down its bytes, and keeps the rest of the
/// cluster and all the others.
pub proof fn lemma_put_in_cluster(v: FsView, c: ClusterId, at: int, data: Seq<u8>)
    requires
        v.wf(),
        v.geo.has_cluster(c),
        0 <= at,
        at + data.len() <= v.bpc(),
    ensures
        v.put_in_cluster(c, at, data).1 == Ok::<(), Error>(()),
        ({
            let w = v.put_in_cluster(c, at, data).0;
            &&& kept(v, w, set![c])
            &&& w.fat == v.fat
            &&& w.hint == v.hint
            &&& w.dev.len >= v.geo.start_of(c) + at + data.len()
            &&& forall|k: int|
                #![trigger w.has_byte(c, k)]
                #![trigger w.byte_of(c, k)]
                0 <= k < v.bpc() ==> if at <= k < at + data.len() {
                    w.has_byte(c, k) && w.byte_of(c, k) == data[k - at]
                } else {
                    w.has_byte(c, k) == v.has_byte(c, k) && (v.has_byte(c, k) ==> w.byte_of(c, k)
                        == v.byte_of(c, k))
                }
        }),
{
    v.geo.lemma_cluster_fits(c);
    let start = v.geo.start_of(c) + at;
    lemma_put(v, start, data);
    let w = v.put(start, data);
    assert forall|d: ClusterId|
        #![trigger same_bytes(v, w, d)]
        d != c && v.geo.has_cluster(d) implies same_bytes(v, w, d) by {
        if d < c {
            v.geo.lemma_clusters_apart(d, c);
        } else {
            v.geo.lemma_clusters_apart(c, d);
        }
    }
}

/// A cluster that is handed out was free, is neither 0 nor 1, reads as zeroes
/// and ends a chain; all that was in use is kept.
pub proof fn law_a_cluster_handed_out_was_free(v: FsView)
    requires
        v.wf(),
    ensures
        match v.alloc_cluster(true) {
            (w, Ok(c)) => {
                &&& 2 <= c < v.geo.num_clusters
                &&& c < v.fat.entries
                &&& v.geo.has_cluster(c)
                &&& v.is_free(c)
                &&& w.ends_at(c)
                &&& forall|d: ClusterId| d != c ==> #[trigger] w.link(d) == v.link(d)
                &&& kept(v, w, Set::empty())
                &&& w.on_device(c)
                &&& forall|k: int|
                    #![trigger w.has_byte(c, k)]
                    #![trigger w.byte_of(c, k)]
                    0 <= k < v.bpc() ==> w.has_byte(c, k) && w.byte_of(c, k) == 0
                &&& forall|d: ClusterId|
                    #![trigger same_bytes(v, w, d)]
                    d != c && v.geo.has_cluster(d) ==> same_bytes(v, w, d)
            },
            (w, Err(e)) => w == v && e == v.no_room() && (v.geo.writable ==> w.is_full()),
        },
{
    lemma_first_free(v, v.search_start(), v.alloc_end());
    lemma_first_free(v, 2, v.search_start());
    if v.geo.writable && v.find_free() is Some {
        let c = v.find_free()->0;
        v.geo.lemma_has_cluster(c);
        lemma_set_link(v, c, FatEntry::End);
        let u = v.claimed(c);
        assert(u.geo == v.geo && u.dev == v.dev && u.fat == v.set_link(c, FatEntry::End).0.fat);
        assert forall|d: ClusterId| d != c implies #[trigger] u.link(d) == v.link(d) by {
            assert(v.set_link(c, FatEntry::End).0.link(d) == v.link(d));
        }
        assert(u.link(c) == v.set_link(c, FatEntry::End).0.link(c));
        lemma_put_in_cluster(u, c, 0, zeroes(v.bpc()));
        let w = u.zero_range(c, 0, v.bpc()).0;
        assert forall|d: ClusterId| d != c implies #[trigger] w.link(d) == v.link(d) by {
            assert(u.link(d) == v.link(d));
        }
        assert forall|d: ClusterId|
            #![trigger same_bytes(v, w, d)]
            d != c && v.geo.has_cluster(d) implies same_bytes(v, w, d) by {
            v.geo.lemma_cluster_fits(c);
            lemma_put(u, v.geo.start_of(c), zeroes(v.bpc()));
            if d < c {
                v.geo.lemma_clusters_apart(d, c);
            } else {
                v.geo.lemma_clusters_apart(c, d);
            }
        }
    }
}

/// Making a chain longer appends a cluster that was free and reads as zeroes.
pub proof fn lemma_grow(v: FsView, s: Seq<ClusterId>)
    requires
        v.wf(),
        v.linkable(),
        v.is_chain(s),
    ensures
        match v.grow_chain(s.last()) {
            (w, Ok(c)) => {
                &&& w.is_chain(s.push(c))
                &&& c >= 2
                &&& !s.contains(c)
                &&& v.is_free(c)
                &&& kept(v, w, s.to_set())
                &&& forall|d: ClusterId| d != c && v.is_free(d) ==> #[trigger] w.is_free(d)
                &&& w.on_device(c)
                &&& forall|k: int|
                    #![trigger w.has_byte(c, k)]
                    #![trigger w.byte_of(c, k)]
                    0 <= k < v.bpc() ==> w.has_byte(c, k) && w.byte_of(c, k) == 0
                &&& forall|d: ClusterId|
                    #![trigger same_bytes(v, w, d)]
                    d != c && v.geo.has_cluster(d) ==> same_bytes(v, w, d)
            },
            (w, Err(e)) => w == v && e == v.no_room() && (v.geo.writable ==> w.is_full()),
        },
{
    reveal(FsView::grow_chain);
    law_a_cluster_handed_out_was_free(v);
    let tail = s.last();
    match v.alloc_cluster(true) {
        (u, Ok(c)) => {
            assert(!s.contains(c)) by {
                if s.contains(c) {
                    let i = choose|i: int| 0 <= i < s.len() && s[i] == c;
                    if i < s.len() - 1 {
                        assert(v.leads_to(s[i], s[i + 1]));
                    }
                }
            }
            assert(tail != c);
            assert(u.link(tail) == v.link(tail));
            lemma_set_link(u, tail, FatEntry::Data(c));
            let x = u.set_link(tail, FatEntry::Data(c)).0;
            lemma_set_link(x, c, FatEntry::End);
            let w = x.set_link(c, FatEntry::End).0;
            assert(v.grow_chain(tail) == (w, Ok::<ClusterId, Error>(c)));
            let t = s.push(c);
            assert forall|i: int|
                #![trigger t[i]]
                0 <= i < t.len() - 1 implies w.leads_to(t[i], t[i + 1]) by {
                if i < s.len() - 1 {
                    lemma_chain_distinct(v, s, i, s.len() - 1);
                    assert(v.leads_to(s[i], s[i + 1]));
                    assert(t[i] == s[i] && t[i + 1] == s[i + 1]);
                    assert(s[i] != c) by {
                        assert(s.contains(s[i]));
                    }
                    assert(u.link(s[i]) == v.link(s[i]));
                    assert(x.link(s[i]) == u.link(s[i]));
                    assert(w.link(s[i]) == x.link(s[i]));
                } else {
                    assert(t[i] == tail && t[i + 1] == c);
                    assert(w.link(tail) == x.link(tail));
                }
            }
            assert(w.is_chain(t));
            assert forall|d: ClusterId| !s.to_set().contains(d) && !v.is_free(d) implies
                #[trigger] w.link(d) == v.link(d) by {
                assert(s.contains(tail));
                assert(s.to_set().contains(tail));
                assert(u.link(d) == v.link(d));
                assert(x.link(d) == u.link(d));
            }
            assert forall|d: ClusterId| d != c && v.is_free(d) implies #[trigger] w.is_free(d) by {
                assert(d != tail);
                assert(u.link(d) == v.link(d));
                assert(x.link(d) == u.link(d));
                assert(w.link(d) == x.link(d));
            }
            assert forall|d: ClusterId|
                #![trigger same_bytes(v, w, d)]
                d != c && v.geo.has_cluster(d) implies same_bytes(v, w, d) by {
                assert(same_bytes(v, u, d));
                assert forall|at: int|
                    #![trigger w.has_byte(d, at)]
                    #![trigger w.byte_of(d, at)]
                    0 <= at < v.bpc() implies w.has_byte(d, at) == v.has_byte(d, at) && (
                v.has_byte(d, at) ==> w.byte_of(d, at) == v.byte_of(d, at)) by {
                    assert(u.has_byte(d, at) == w.has_byte(d, at));
                    assert(u.byte_of(d, at) == w.byte_of(d, at));
                }
            }
            assert forall|k: int|
                #![trigger w.has_byte(c, k)]
                #![trigger w.byte_of(c, k)]
                0 <= k < v.bpc() implies w.has_byte(c, k) && w.byte_of(c, k) == 0 by {
                assert(u.has_byte(c, k) && u.byte_of(c, k) == 0);
            }
        },
        _ => {},
    }
}

/// Following a chain leads to its clusters in turn.
pub proof fn lemma_advance(v: FsView, s: Seq<ClusterId>, a: int, steps: nat, alloc: bool)
    requires
        v.is_chain(s),
        0 <= a,
        a + steps < s.len(),
    ensures
        v.advance(s[a], steps, alloc) == (v, Ok::<ClusterId, Error>(s[a + steps])),
    decreases steps,
{
    if steps > 0 {
        assert(v.leads_to(s[a], s[a + 1]));
        lemma_advance(v, s, a + 1, (steps - 1) as nat, alloc);
    }
}

/// The state and the chain once a chain has been made as long as is wanted, or
/// as long as there is room for, and what stopped it then.
pub open spec fn extended(v: FsView, s: Seq<ClusterId>, wanted: nat) -> (
    FsView,
    Seq<ClusterId>,
    Option<Error>,
)
    decreases wanted - s.len(),
{
    if s.len() >= wanted {
        (v, s, None)
    } else {
        match v.grow_chain(s.last()) {
            (w, Err(e)) => (w, s, Some(e)),
            (w, Ok(c)) => extended(w, s.push(c), wanted),
        }
    }
}

/// Whether a cluster holds nothing but zeroes.
pub open spec fn is_zero(v: FsView, c: ClusterId) -> bool {
    forall|k: int|
        #![trigger v.has_byte(c, k)]
        #![trigger v.byte_of(c, k)]
        0 <= k < v.bpc() ==> v.has_byte(c, k) && v.byte_of(c, k) == 0
}

/// Whether a chain has been made longer, by clusters that were free and now
/// hold zeroes, and all else that was in use is kept.
pub open spec fn grew(v: FsView, s: Seq<ClusterId>, w: FsView, t: Seq<ClusterId>) -> bool {
    &&& w.is_chain(t)
    &&& s.len() <= t.len()
    &&& forall|i: int| 0 <= i < s.len() ==> #[trigger] t[i] == s[i]
    &&& kept(v, w, s.to_set())
    &&& forall|i: int|
        #![trigger t[i]]
        s.len() <= i < t.len() ==> v.is_free(t[i]) && is_zero(w, t[i]) && w.on_device(t[i])
    &&& forall|i: int|
        #![trigger s[i]]
        0 <= i < s.len() ==> same_bytes(v, w, s[i])
}

pub proof fn lemma_grew_trans(
    v: FsView,
    s: Seq<ClusterId>,
    w: FsView,
    t: Seq<ClusterId>,
    x: FsView,
    u: Seq<ClusterId>,
)
    requires
        v.is_chain(s),
        grew(v, s, w, t),
        grew(w, t, x, u),
    ensures
        grew(v, s, x, u),
{
    assert(within_or_free(v, t.to_set(), s.to_set())) by {
        assert forall|c: ClusterId| #[trigger] t.to_set().contains(c) implies s.to_set().contains(c)
            || v.is_free(c) by {
            let i = choose|i: int| 0 <= i < t.len() && t[i] == c;
            if i < s.len() {
                assert(t[i] == s[i]);
                assert(s.contains(s[i]));
            }
        }
    }
    lemma_kept_trans(v, w, x, s.to_set(), t.to_set());
    assert forall|i: int| 0 <= i < s.len() implies #[trigger] u[i] == s[i] by {
        assert(t[i] == s[i]);
        assert(u[i] == t[i]);
    }
    assert forall|i: int|
        #![trigger u[i]]
        s.len() <= i < u.len() implies v.is_free(u[i]) && is_zero(x, u[i]) && x.on_device(u[i]) by {
        if i < t.len() {
            assert(u[i] == t[i]);
            assert(same_bytes(w, x, t[i]));
            let c = t[i];
            assert(is_zero(w, c));
            assert forall|k: int|
                #![trigger x.has_byte(c, k)]
                #![trigger x.byte_of(c, k)]
                0 <= k < x.bpc() implies x.has_byte(c, k) && x.byte_of(c, k) == 0 by {
                assert(w.has_byte(c, k) && w.byte_of(c, k) == 0);
            }
        } else {
            let c = u[i];
            assert(w.is_free(c));
            if !v.is_free(c) {
                if s.to_set().contains(c) {
                    let j = choose|j: int| 0 <= j < s.len() && s[j] == c;
                    assert(t[j] == s[j]);
                    if j < t.len() - 1 {
                        assert(w.leads_to(t[j], t[j + 1]));
                    }
                } else {
                    assert(w.link(c) == v.link(c));
                }
            }
        }
    }
    assert forall|i: int|
        #![trigger s[i]]
        0 <= i < s.len() implies same_bytes(v, x, s[i]) by {
        let c = s[i];
        assert(t[i] == s[i]);
        assert(same_bytes(v, w, c));
        assert(same_bytes(w, x, t[i]));
        lemma_same_bytes_trans(v, w, x, c);
    }
}

pub proof fn lemma_same_bytes_trans(v: FsView, w: FsView, x: FsView, c: ClusterId)
    requires
        same_bytes(v, w, c),
        same_bytes(w, x, c),
        v.geo == w.geo,
        w.geo == x.geo,
    ensures
        same_bytes(v, x, c),
{
    assert forall|at: int|
        #![trigger x.has_byte(c, at)]
        #![trigger x.byte_of(c, at)]
        0 <= at < v.bpc() implies x.has_byte(c, at) == v.has_byte(c, at) && (v.has_byte(c, at)
        ==> x.byte_of(c, at) == v.byte_of(c, at)) by {
        assert(w.has_byte(c, at) == v.has_byte(c, at));
    }
}

proof fn lemma_grow_grew(v: FsView, s: Seq<ClusterId>)
    requires
        v.wf(),
        v.linkable(),
        v.is_chain(s),
    ensures
        v.grow_chain(s.last()) matches (w, Ok(c)) ==> grew(v, s, w, s.push(c)),
{
    lemma_grow(v, s);
    match v.grow_chain(s.last()) {
        (w, Ok(c)) => {
            let t = s.push(c);
            assert forall|i: int|
                #![trigger s[i]]
                0 <= i < s.len() implies same_bytes(v, w, s[i]) by {
                assert(s.contains(s[i]));
            }
            assert(t[s.len() as int] == c);
        },
        _ => {},
    }
}

/// Making a chain longer gives it clusters that were free, until there are none
/// left.
pub proof fn lemma_extended(v: FsView, s: Seq<ClusterId>, wanted: nat)
    requires
        v.wf(),
        v.linkable(),
        v.is_chain(s),
    ensures
        match extended(v, s, wanted) {
            (w, t, None) => grew(v, s, w, t) && t.len() == (if s.len() >= wanted {
                s.len()
            } else {
                wanted
            }),
            (w, t, Some(e)) => grew(v, s, w, t) && t.len() < wanted && e == v.no_room() && (
            v.geo.writable ==> w.is_full()),
        },
    decreases wanted - s.len(),
{
    lemma_kept_refl(v, s.to_set());
    if s.len() < wanted {
        lemma_grow(v, s);
        lemma_grow_grew(v, s);
        match v.grow_chain(s.last()) {
            (w, Ok(c)) => {
                lemma_extended(w, s.push(c), wanted);
                let (x, u, _) = extended(w, s.push(c), wanted);
                lemma_grew_trans(v, s, w, s.push(c), x, u);
            },
            _ => {},
        }
    }
}

/// Following a chain past its end makes it longer as far as that.
pub proof fn lemma_advance_extends(v: FsView, s: Seq<ClusterId>, a: int, steps: nat)
    requires
        v.wf(),
        v.linkable(),
        v.is_chain(s),
        0 <= a < s.len(),
    ensures
        v.advance(s[a], steps, true) == (match extended(v, s, (a + steps + 1) as nat) {
            (w, t, None) => (w, Ok(t[a + steps])),
            (w, t, Some(e)) => (w, Err(e)),
        }),
    decreases steps,
{
    if a + steps < s.len() {
        lemma_advance(v, s, a, steps, true);
    } else if a < s.len() - 1 {
        assert(v.leads_to(s[a], s[a + 1]));
        lemma_advance_extends(v, s, a + 1, (steps - 1) as nat);
    } else {
        lemma_grow(v, s);
        match v.grow_chain(s.last()) {
            (w, Ok(c)) => {
                lemma_grow_grew(v, s);
                lemma_advance_extends(w, s.push(c), a + 1, (steps - 1) as nat);
            },
            _ => {},
        }
    }
}

/// As many different numbers below a bound as there are take up all of them.
proof fn lemma_pigeonhole(s: Seq<ClusterId>, n: nat)
    requires
        forall|i: int, j: int| 0 <= i < j < s.len() ==> s[i] != s[j],
        forall|i: int| 0 <= i < s.len() ==> (#[trigger] s[i]) < n,
    ensures
        s.len() <= n,
    decreases n,
{
    if n == 0 {
        if s.len() > 0 {
            assert(s[0] < 0);
        }
    } else if exists|i: int| 0 <= i < s.len() && s[i] == n - 1 {
        let i = choose|i: int| 0 <= i < s.len() && s[i] == n - 1;
        lemma_pigeonhole(s.remove(i), (n - 1) as nat);
    } else {
        lemma_pigeonhole(s, (n - 1) as nat);
    }
}

/// A chain is no longer than the table.
pub proof fn lemma_chain_len(v: FsView, s: Seq<ClusterId>)
    requires
        v.is_chain(s),
    ensures
        s.len() <= v.fat.entries,
{
    assert forall|i: int, j: int| 0 <= i < j < s.len() implies s[i] != s[j] by {
        lemma_chain_distinct(v, s, i, j);
    }
    assert forall|i: int| 0 <= i < s.len() implies (#[trigger] s[i]) < v.fat.entries by {
        if i < s.len() - 1 {
            assert(v.leads_to(s[i], s[i + 1]));
        }
    }
    lemma_pigeonhole(s, v.fat.entries);
}

/// Whether a chain has been given back: its clusters are free, and the table
/// says the same of all others.
pub open spec fn freed(v: FsView, w: FsView, s: Seq<ClusterId>) -> bool {
    &&& w.wf()
    &&& w.geo == v.geo
    &&& w.dev == v.dev
    &&& w.fat.entries == v.fat.entries
    &&& forall|i: int| 0 <= i < s.len() ==> w.is_free(#[trigger] s[i])
    &&& forall|c: ClusterId| !s.contains(c) ==> #[trigger] w.link(c) == v.link(c)
}

proof fn lemma_free_links(v: FsView, s: Seq<ClusterId>, left: nat)
    requires
        v.wf(),
        v.is_chain(s),
        left >= s.len(),
    ensures
        v.free_links(s[0], left).1 == Ok::<(), Error>(()),
        freed(v, v.free_links(s[0], left).0, s),
    decreases s.len(),
{
    let c = s[0];
    if s.len() > 1 {
        assert(v.leads_to(s[0], s[1]));
    }
    lemma_set_link(v, c, FatEntry::Available);
    let w = FsView {
        fat: v.fat.set(c, FatEntry::Available, v.geo.variant).0,
        hint: if c < v.hint {
            c
        } else {
            v.hint
        },
        ..v
    };
    let u = v.set_link(c, FatEntry::Available).0;
    assert(w.fat == u.fat);
    assert forall|d: ClusterId| d != c implies #[trigger] w.link(d) == v.link(d) by {
        assert(u.link(d) == v.link(d));
    }
    assert(w.link(c) == u.link(c));
    if s.len() > 1 {
        let t = s.drop_first();
        assert forall|i: int| 0 <= i < t.len() implies w.geo.has_cluster(#[trigger] t[i]) by {
            assert(t[i] == s[i + 1]);
        }
        assert forall|i: int|
            #![trigger t[i]]
            0 <= i < t.len() - 1 implies w.leads_to(t[i], t[i + 1]) by {
            lemma_chain_distinct(v, s, 0, i + 1);
            assert(v.leads_to(s[i + 1], s[i + 2]));
            assert(w.link(t[i]) == v.link(t[i]));
        }
        lemma_chain_distinct(v, s, 0, s.len() - 1);
        assert(w.link(t.last()) == v.link(t.last()));
        assert(w.is_chain(t));
        lemma_free_links(w, t, (left - 1) as nat);
        let x = w.free_links(s[1], (left - 1) as nat).0;
        assert(t[0] == s[1]);
        assert(v.free_links(s[0], left) == (x, Ok::<(), Error>(())));
        assert forall|i: int| 0 <= i < s.len() implies x.is_free(#[trigger] s[i]) by {
            if i > 0 {
                assert(x.is_free(t[i - 1]));
            } else {
                assert(!t.contains(c)) by {
                    if t.contains(c) {
                        let j = choose|j: int| 0 <= j < t.len() && t[j] == c;
                        lemma_chain_distinct(v, s, 0, j + 1);
                    }
                }
                assert(x.link(c) == w.link(c));
            }
        }
        assert forall|d: ClusterId| !s.contains(d) implies #[trigger] x.link(d) == v.link(d) by {
            assert(d != c) by {
                assert(s.contains(s[0]));
            }
            assert(!t.contains(d)) by {
                if t.contains(d) {
                    let j = choose|j: int| 0 <= j < t.len() && t[j] == d;
                    assert(s[j + 1] == d);
                    assert(s.contains(s[j + 1]));
                }
            }
            assert(x.link(d) == w.link(d));
        }
    } else {
        assert forall|d: ClusterId| !s.contains(d) implies #[trigger] w.link(d) == v.link(d) by {
            assert(s.contains(s[0]));
        }
    }
}

/// Freeing a chain makes its clusters available again and keeps all others.
pub proof fn law_a_freed_chain_is_available_again(v: FsView, s: Seq<ClusterId>)
    requires
        v.wf(),
        v.geo.writable,
        v.is_chain(s),
    ensures
        v.free_cluster_chain(s[0]).1 == Ok::<(), Error>(()),
        freed(v, v.free_cluster_chain(s[0]).0, s),
        kept(v, v.free_cluster_chain(s[0]).0, s.to_set()),
{
    reveal(FsView::free_cluster_chain);
    lemma_chain_len(v, s);
    lemma_free_links(v, s, v.fat.entries + 1);
    let w = v.free_cluster_chain(s[0]).0;
    assert forall|c: ClusterId| !s.to_set().contains(c) implies #[trigger] w.link(c) == v.link(
        c,
    ) by {
        assert(!s.contains(c));
    }
}

/// A chain leads on where the table has the number of another cluster, and ends where the
/// table says so. Anything else the table may hold for a cluster of a chain means that the
/// chain is broken, and a step on from there is refused and changes nothing, as is one past
/// the end of a chain that is not to be made longer.
pub proof fn law_a_chain_leads_on_or_ends_or_is_broken(v: FsView, c: ClusterId, alloc: bool)
    ensures
        match v.link(c) {
            Ok(FatEntry::Data(next)) => v.next_cluster(c) == Ok::<Option<ClusterId>, Error>(
                Some(next),
            ) && v.advance(c, 1, alloc) == (v, Ok::<ClusterId, Error>(next)),
            Ok(FatEntry::End) => v.next_cluster(c) == Ok::<Option<ClusterId>, Error>(None) && (
            !alloc ==> v.advance(c, 1, alloc) == (
                v,
                Err::<ClusterId, Error>(Error::InvalidClusterChain),
            )),
            Ok(_) => v.next_cluster(c) == Err::<Option<ClusterId>, Error>(
                Error::InvalidClusterChain,
            ) && v.advance(c, 1, alloc) == (
                v,
                Err::<ClusterId, Error>(Error::InvalidClusterChain),
            ),
            Err(e) => v.next_cluster(c) == Err::<Option<ClusterId>, Error>(e) && v.advance(
                c,
                1,
                alloc,
            ) == (v, Err::<ClusterId, Error>(e)),
        },
        v.advance(c, 0, alloc) == (v, Ok::<ClusterId, Error>(c)),
{
    if let Ok(FatEntry::Data(next)) = v.link(c) {
        assert(v.advance(next, 0, alloc) == (v, Ok::<ClusterId, Error>(next)));
    }
}

} // verus!
