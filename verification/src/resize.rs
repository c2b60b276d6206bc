//! What changing the length of a file does to its contents.

use vstd::prelude::*;

#[allow(unused_imports)]
use crate::bytes::zeroes;
#[allow(unused_imports)]
use crate::chain::{
    extended, grew, is_zero, kept, law_a_freed_chain_is_available_again, lemma_advance_extends,
    lemma_chain_distinct, lemma_extended, lemma_kept_refl, lemma_kept_trans, lemma_put_in_cluster,
    lemma_set_link, same_bytes, within_or_free,
};
use crate::error::Error;
use crate::fat::{ClusterId, FatEntry};
#[allow(unused_imports)]
use crate::volume::FsView;

verus! {

/// Which byte of a file is at a place of its `i`th cluster.
pub open spec fn file_pos(v: FsView, i: int, at: int) -> int {
    i * v.bpc() + at
}

/// Whether the byte at a place of a cluster of a file is the same in a later
/// state.
pub open spec fn same_byte(v: FsView, w: FsView, c: ClusterId, at: int) -> bool {
    w.has_byte(c, at) == v.has_byte(c, at) && (v.has_byte(c, at) ==> w.byte_of(c, at) == v.byte_of(
        c,
        at,
    ))
}

/// Whether a place of a cluster lies before the end of the device.
pub open spec fn lies_on(w: FsView, c: ClusterId, at: int) -> bool {
    w.geo.start_of(c) + at < w.dev.len
}

pub open spec fn zero_byte(w: FsView, c: ClusterId, at: int) -> bool {
    w.has_byte(c, at) && w.byte_of(c, at) == 0
}

/// Whether the clusters of a chain from `from` up to `to` have zeroes between
/// two positions of their file and are the same everywhere else.
pub open spec fn wiped(
    v: FsView,
    w: FsView,
    s: Seq<ClusterId>,
    from: int,
    to: int,
    old_size: int,
    size: int,
) -> bool {
    forall|i: int, at: int|
        #![trigger w.has_byte(s[i], at)]
        #![trigger w.byte_of(s[i], at)]
        0 <= i < s.len() && 0 <= at < v.bpc() ==> if from <= i < to && old_size <= file_pos(
            v,
            i,
            at,
        ) < size {
            zero_byte(w, s[i], at)
        } else {
            same_byte(v, w, s[i], at)
        }
}

/// Whether the clusters of a chain that are wiped lie on the device as far as
/// they are wiped.
pub open spec fn reaches(
    w: FsView,
    s: Seq<ClusterId>,
    from: int,
    to: int,
    old_size: int,
    size: int,
) -> bool {
    forall|i: int, at: int|
        #![trigger lies_on(w, s[i], at)]
        0 <= i < s.len() && from <= i < to && 0 <= at < w.bpc() && old_size <= file_pos(w, i, at)
            < size ==> lies_on(w, s[i], at)
}

/// Wiping a cluster of a chain puts zeroes where it is to, and changes nothing
/// else.
proof fn lemma_wipe(v: FsView, s: Seq<ClusterId>, k: int, old_size: nat, size: nat)
    requires
        v.wf(),
        v.is_chain(s),
        0 <= k < s.len(),
    ensures
        v.wipe(s[k], k as nat, old_size, size).1 == Ok::<(), Error>(()),
        ({
            let w = v.wipe(s[k], k as nat, old_size, size).0;
            &&& kept(v, w, s.to_set())
            &&& w.fat == v.fat
            &&& w.is_chain(s)
            &&& wiped(v, w, s, k, k + 1, old_size as int, size as int)
            &&& reaches(w, s, k, k + 1, old_size as int, size as int)
        }),
{
    let c = s[k];
    let w = v.wipe(c, k as nat, old_size, size).0;
    let start = k as nat * v.bpc();
    let lo = if old_size > start {
        old_size
    } else {
        start
    };
    let hi = if size < start + v.bpc() {
        size
    } else {
        start + v.bpc()
    };
    assert(s.contains(s[k]));
    if lo < hi {
        lemma_put_in_cluster(v, c, lo - start, zeroes((hi - lo) as nat));
        lemma_kept_refl(v, s.to_set());
        assert(within_or_free(v, set![c], s.to_set()));
        lemma_kept_trans(v, v, w, s.to_set(), set![c]);
        assert forall|i: int, at: int|
            #![trigger w.has_byte(s[i], at)]
            #![trigger w.byte_of(s[i], at)]
            0 <= i < s.len() && 0 <= at < v.bpc() implies if k <= i < k + 1 && old_size
            <= file_pos(v, i, at) < size {
            zero_byte(w, s[i], at)
        } else {
            same_byte(v, w, s[i], at)
        } by {
            if i == k {
                assert(file_pos(v, i, at) == start + at);
            } else {
                if i < k {
                    lemma_chain_distinct(v, s, i, k);
                } else {
                    lemma_chain_distinct(v, s, k, i);
                }
                assert(same_bytes(v, w, s[i])) by {
                    lemma_other_cluster(v, c, lo - start, zeroes((hi - lo) as nat), s[i]);
                }
            }
        }
    } else {
        lemma_kept_refl(v, s.to_set());
        assert forall|i: int, at: int|
            #![trigger w.has_byte(s[i], at)]
            #![trigger w.byte_of(s[i], at)]
            0 <= i < s.len() && 0 <= at < v.bpc() implies if k <= i < k + 1 && old_size
            <= file_pos(v, i, at) < size {
            zero_byte(w, s[i], at)
        } else {
            same_byte(v, w, s[i], at)
        } by {
            if i == k {
                assert(file_pos(v, i, at) == start + at);
            }
        }
    }
    assert forall|i: int, at: int|
        #![trigger lies_on(w, s[i], at)]
        0 <= i < s.len() && k <= i < k + 1 && 0 <= at < w.bpc() && old_size <= file_pos(w, i, at)
            < size implies lies_on(w, s[i], at) by {
        assert(file_pos(w, i, at) == start + at);
    }
    assert forall|i: int|
        #![trigger s[i]]
        0 <= i < s.len() - 1 implies w.leads_to(s[i], s[i + 1]) by {
        assert(v.leads_to(s[i], s[i + 1]));
    }
    assert(w.ends_at(s.last())) by {
        assert(v.ends_at(s.last()));
    }
    assert(w.is_chain(s));
}

/// A write within one cluster leaves every other cluster as it is, in use or
/// not.
pub proof fn lemma_other_cluster(v: FsView, c: ClusterId, at: int, data: Seq<u8>, d: ClusterId)
    requires
        v.wf(),
        v.geo.has_cluster(c),
        0 <= at,
        at + data.len() <= v.bpc(),
        v.geo.has_cluster(d),
        d != c,
    ensures
        same_bytes(v, v.put_in_cluster(c, at, data).0, d),
{
    v.geo.lemma_cluster_fits(c);
    let start = v.geo.start_of(c) + at;
    crate::chain::lemma_put(v, start, data);
    if d < c {
        v.geo.lemma_clusters_apart(d, c);
    } else {
        v.geo.lemma_clusters_apart(c, d);
    }
}

/// A chain has as many clusters as it has, or as are wanted if those are fewer.
proof fn lemma_held(v: FsView, s: Seq<ClusterId>, a: int, wanted: nat)
    requires
        v.is_chain(s),
        0 <= a < s.len(),
    ensures
        v.held(s[a], wanted) == (if s.len() - a <= wanted {
            s.len() - a
        } else {
            wanted as int
        }),
    decreases wanted,
{
    if wanted > 0 {
        if a + 1 < s.len() {
            assert(v.leads_to(s[a], s[a + 1]));
            lemma_held(v, s, a + 1, (wanted - 1) as nat);
        } else {
            assert(v.ends_at(s.last()));
        }
    }
}

/// Wiping some clusters of a chain in turn.
proof fn lemma_wipe_on(v: FsView, s: Seq<ClusterId>, k: int, n: int, old_size: nat, size: nat)
    requires
        v.wf(),
        v.is_chain(s),
        0 <= k < n <= s.len(),
    ensures
        v.wipe_on(s[k], k as nat, n as nat, old_size, size).1 == Ok::<(), Error>(()),
        ({
            let w = v.wipe_on(s[k], k as nat, n as nat, old_size, size).0;
            &&& kept(v, w, s.to_set())
            &&& w.is_chain(s)
            &&& wiped(v, w, s, k, n, old_size as int, size as int)
            &&& reaches(w, s, k, n, old_size as int, size as int)
        }),
    decreases n - k,
{
    lemma_wipe(v, s, k, old_size, size);
    let u = v.wipe(s[k], k as nat, old_size, size).0;
    if k + 1 < n {
        assert(u.leads_to(s[k], s[k + 1]));
        lemma_wipe_on(u, s, k + 1, n, old_size, size);
        let w = u.wipe_on(s[k + 1], (k + 1) as nat, n as nat, old_size, size).0;
        assert(v.wipe_on(s[k], k as nat, n as nat, old_size, size).0 == w);
        lemma_compose_wiped(v, u, w, s, k, n, old_size as int, size as int);
        assert(within_or_free(v, s.to_set(), s.to_set()));
        lemma_kept_trans(v, u, w, s.to_set(), s.to_set());
    }
}

proof fn lemma_compose_wiped(
    v: FsView,
    u: FsView,
    w: FsView,
    s: Seq<ClusterId>,
    k: int,
    wanted: int,
    old_size: int,
    size: int,
)
    requires
        v.geo == u.geo,
        u.geo == w.geo,
        u.dev.len <= w.dev.len,
        k + 1 <= wanted,
        wiped(v, u, s, k, k + 1, old_size, size),
        wiped(u, w, s, k + 1, wanted, old_size, size),
        reaches(u, s, k, k + 1, old_size, size),
        reaches(w, s, k + 1, wanted, old_size, size),
    ensures
        wiped(v, w, s, k, wanted, old_size, size),
        reaches(w, s, k, wanted, old_size, size),
{
    assert forall|i: int, at: int|
        #![trigger w.has_byte(s[i], at)]
        #![trigger w.byte_of(s[i], at)]
        0 <= i < s.len() && 0 <= at < v.bpc() implies if k <= i < wanted && old_size <= file_pos(
        v,
        i,
        at,
    ) < size {
        zero_byte(w, s[i], at)
    } else {
        same_byte(v, w, s[i], at)
    } by {
        assert(file_pos(v, i, at) == file_pos(u, i, at));
        if i == k && old_size <= file_pos(v, i, at) < size {
            assert(zero_byte(u, s[i], at));
        } else {
            assert(same_byte(v, u, s[i], at));
        }
    }
    assert forall|i: int, at: int|
        #![trigger lies_on(w, s[i], at)]
        0 <= i < s.len() && k <= i < wanted && 0 <= at < w.bpc() && old_size <= file_pos(w, i, at)
            < size implies lies_on(w, s[i], at) by {
        assert(file_pos(w, i, at) == file_pos(u, i, at));
        if i == k {
            assert(lies_on(u, s[i], at));
        }
    }
}

/// Ending a chain early frees the clusters that came after and keeps the rest.
#[verifier::rlimit(40)]
#[verifier::spinoff_prover]
proof fn lemma_cut(v: FsView, s: Seq<ClusterId>, m: int)
    requires
        v.wf(),
        v.geo.writable,
        v.is_chain(s),
        1 <= m <= s.len(),
    ensures
        v.cut_chain(s[m - 1]).1 == Ok::<(), Error>(()),
        ({
            let w = v.cut_chain(s[m - 1]).0;
            &&& w.is_chain(s.take(m))
            &&& kept(v, w, s.to_set())
            &&& w.dev == v.dev
            &&& forall|i: int| m <= i < s.len() ==> w.is_free(#[trigger] s[i])
        }),
{
    let last = s[m - 1];
    let t = s.take(m);
    if m == s.len() {
        assert(t =~= s);
        lemma_kept_refl(v, s.to_set());
    } else {
        assert(v.leads_to(s[m - 1], s[m]));
        let rest = s.skip(m);
        assert forall|i: int|
            #![trigger rest[i]]
            0 <= i < rest.len() - 1 implies v.leads_to(rest[i], rest[i + 1]) by {
            assert(v.leads_to(s[m + i], s[m + i + 1]));
        }
        assert(v.is_chain(rest));
        law_a_freed_chain_is_available_again(v, rest);
        let u = v.free_cluster_chain(rest[0]).0;
        assert(rest[0] == s[m]);
        lemma_set_link(u, last, FatEntry::End);
        let w = u.set_link(last, FatEntry::End).0;
        assert(v.cut_chain(last) == (w, Ok::<(), Error>(())));
        assert forall|i: int| 0 <= i < m implies !rest.contains(#[trigger] s[i]) by {
            if rest.contains(s[i]) {
                let j = choose|j: int| 0 <= j < rest.len() && rest[j] == s[i];
                lemma_chain_distinct(v, s, i, m + j);
            }
        }
        assert forall|i: int|
            #![trigger t[i]]
            0 <= i < t.len() - 1 implies w.leads_to(t[i], t[i + 1]) by {
            assert(v.leads_to(s[i], s[i + 1]));
            lemma_chain_distinct(v, s, i, m - 1);
            assert(!rest.contains(s[i]));
            assert(u.link(s[i]) == v.link(s[i]));
            assert(w.link(s[i]) == u.link(s[i]));
        }
        assert forall|i: int| 0 <= i < t.len() implies w.geo.has_cluster(#[trigger] t[i]) by {
            assert(t[i] == s[i]);
        }
        assert(t.last() == last);
        assert(w.is_chain(t));
        assert forall|i: int| m <= i < s.len() implies w.is_free(#[trigger] s[i]) by {
            assert(u.is_free(rest[i - m]));
            lemma_chain_distinct(v, s, m - 1, i);
            assert(w.link(s[i]) == u.link(s[i]));
        }
        assert forall|c: ClusterId| !s.to_set().contains(c) implies #[trigger] w.link(c) == v.link(
            c,
        ) by {
            assert(!s.contains(c));
            assert(c != last) by {
                assert(s.contains(s[m - 1]));
            }
            assert(!rest.contains(c)) by {
                if rest.contains(c) {
                    let j = choose|j: int| 0 <= j < rest.len() && rest[j] == c;
                    assert(s.contains(s[m + j]));
                }
            }
            assert(u.link(c) == v.link(c));
        }
    }
}

/// A file takes up just as many clusters as its bytes need.
pub proof fn lemma_clusters_for(v: FsView, size: nat)
    requires
        v.wf(),
    ensures
        v.clusters_for(size) >= 1,
        size <= v.clusters_for(size) * v.bpc(),
        size > 0 ==> (v.clusters_for(size) - 1) * v.bpc() < size,
{
    let b = v.bpc() as int;
    let s = size as int;
    if size > 0 {
        let q = (s + b - 1) / b;
        vstd::arithmetic::div_mod::lemma_fundamental_div_mod(s + b - 1, b);
        vstd::arithmetic::div_mod::lemma_mod_bound(s + b - 1, b);
        assert(q >= 1) by (nonlinear_arith)
            requires
                b * q + (s + b - 1) % b == s + b - 1,
                (s + b - 1) % b < b,
                s >= 1,
                b >= 1,
        ;
        assert(b * q == q * b) by (nonlinear_arith);
        assert((q - 1) * b == q * b - b) by (nonlinear_arith);
    }
}

/// A position below a number of clusters is in one of them.
pub proof fn lemma_pos_cluster(v: FsView, i: int, at: int, n: int)
    requires
        v.wf(),
        0 <= i,
        0 <= at < v.bpc(),
        file_pos(v, i, at) < n * v.bpc(),
    ensures
        i < n,
{
    let b = v.bpc() as int;
    if i >= n {
        assert(i * b >= n * b) by (nonlinear_arith)
            requires
                i >= n,
                b > 0,
        ;
    }
}

/// Whether a chain has been made as long as a new size of its file needs: the
/// part of the file that both sizes have is the same, and what has been added
/// to it is zero.
pub open spec fn resized(
    v: FsView,
    s: Seq<ClusterId>,
    w: FsView,
    t: Seq<ClusterId>,
    old_size: int,
    size: int,
) -> bool {
    &&& w.is_chain(t)
    &&& t.len() == v.clusters_for(size as nat)
    &&& t[0] == s[0]
    &&& kept(v, w, s.to_set())
    &&& forall|i: int|
        #![trigger t[i]]
        0 <= i < t.len() ==> if i < s.len() {
            t[i] == s[i]
        } else {
            v.is_free(t[i])
        }
    &&& forall|i: int, at: int|
        #![trigger w.has_byte(t[i], at)]
        #![trigger w.byte_of(t[i], at)]
        0 <= i < t.len() && 0 <= at < v.bpc() && file_pos(v, i, at) < size ==> if file_pos(v, i, at)
            < old_size {
            same_byte(v, w, t[i], at)
        } else {
            zero_byte(w, t[i], at)
        }
    &&& forall|i: int, at: int|
        #![trigger lies_on(w, t[i], at)]
        0 <= i < t.len() && 0 <= at < v.bpc() && old_size <= file_pos(v, i, at) < size ==> lies_on(
            w,
            t[i],
            at,
        )
}

/// Resizing a chain keeps what both sizes have and adds zeroes. It only fails
/// for want of room, and then the chain has but become longer.
pub proof fn lemma_resize(v: FsView, s: Seq<ClusterId>, old_size: nat, size: nat) -> (t: Seq<
    ClusterId,
>)
    requires
        v.wf(),
        v.linkable(),
        v.geo.writable,
        v.is_chain(s),
        old_size <= s.len() * v.bpc(),
    ensures
        match v.resize_chain(s[0], old_size, size) {
            (w, Ok(())) => resized(v, s, w, t, old_size as int, size as int),
            (w, Err(e)) => e == Error::NoSpaceLeft && v.clusters_for(size) > s.len() && w.is_full()
                && grew(v, s, w, t),
        },
{
    reveal(FsView::resize_chain);
    lemma_clusters_for(v, size);
    let wanted = v.clusters_for(size);
    lemma_advance_extends(v, s, 0, (wanted - 1) as nat);
    lemma_extended(v, s, wanted);
    let (x, t1, stopped) = extended(v, s, wanted);
    if stopped is None {
        let last = t1[wanted - 1];
        lemma_cut(x, t1, wanted as int);
        let y = x.cut_chain(last).0;
        let t = t1.take(wanted as int);
        lemma_held(v, s, 0, wanted);
        let had = v.held(s[0], wanted);
        assert(t[0] == s[0]) by {
            assert(t1[0] == s[0]);
        }
        lemma_wipe_on(y, t, 0, had as int, old_size, size);
        let w = y.wipe_on(s[0], 0, had, old_size, size).0;
        assert(v.resize_chain(s[0], old_size, size) == (w, Ok::<(), Error>(())));
        lemma_resize_kept(v, s, x, t1, y, w, wanted as int);
        lemma_resize_bytes(v, s, x, t1, y, w, wanted as int, old_size as int, size as int);
        t
    } else {
        t1
    }
}

/// Filling with zeroes leaves the table as it is.
proof fn lemma_wipe_on_table(
    v: FsView,
    c: ClusterId,
    k: nat,
    n: nat,
    old_size: nat,
    size: nat,
)
    ensures
        v.wipe_on(c, k, n, old_size, size).0.fat == v.fat,
        v.wipe_on(c, k, n, old_size, size).0.geo == v.geo,
    decreases n - k,
{
    if k < n {
        let (w, r) = v.wipe(c, k, old_size, size);
        assert(w.fat == v.fat && w.geo == v.geo);
        if r is Ok && k + 1 < n {
            if let Ok(Some(next)) = w.next_cluster(c) {
                lemma_wipe_on_table(w, next, k + 1, n, old_size, size);
            }
        }
    }
}

/// A chain that is made shorter gives back the clusters it no longer needs.
pub proof fn lemma_resize_frees(v: FsView, s: Seq<ClusterId>, old_size: nat, size: nat)
    requires
        v.wf(),
        v.linkable(),
        v.geo.writable,
        v.is_chain(s),
    ensures
        ({
            let w = v.resize_chain(s[0], old_size, size).0;
            forall|i: int| v.clusters_for(size) <= i < s.len() ==> w.is_free(#[trigger] s[i])
        }),
{
    let wanted = v.clusters_for(size);
    if wanted < s.len() {
        reveal(FsView::resize_chain);
        lemma_clusters_for(v, size);
        lemma_advance_extends(v, s, 0, (wanted - 1) as nat);
        let last = s[wanted - 1];
        assert(v.advance(s[0], (wanted - 1) as nat, true) == (v, Ok::<ClusterId, Error>(last)));
        lemma_cut(v, s, wanted as int);
        let y = v.cut_chain(last).0;
        lemma_wipe_on_table(y, s[0], 0, v.held(s[0], wanted), old_size, size);
        let w = v.resize_chain(s[0], old_size, size).0;
        assert(w.fat == y.fat && w.geo == y.geo);
        assert forall|i: int| wanted <= i < s.len() implies w.is_free(#[trigger] s[i]) by {
            assert(y.is_free(s[i]));
        }
    }
}

proof fn lemma_resize_bytes(
    v: FsView,
    s: Seq<ClusterId>,
    x: FsView,
    t1: Seq<ClusterId>,
    y: FsView,
    w: FsView,
    wanted: int,
    old_size: int,
    size: int,
)
    requires
        v.wf(),
        v.is_chain(s),
        grew(v, s, x, t1),
        wanted == v.clusters_for(size as nat),
        0 <= size,
        0 <= old_size <= s.len() * v.bpc(),
        1 <= wanted <= t1.len(),
        y.dev == x.dev,
        y.geo == x.geo,
        y.dev.len <= w.dev.len,
        w.geo == y.geo,
        w.is_chain(t1.take(wanted)),
        kept(v, w, s.to_set()),
        ({
            let had = if s.len() <= wanted {
                s.len() as int
            } else {
                wanted
            };
            &&& wiped(y, w, t1.take(wanted), 0, had, old_size, size)
            &&& reaches(w, t1.take(wanted), 0, had, old_size, size)
        }),
    ensures
        resized(v, s, w, t1.take(wanted), old_size, size),
{
    let t = t1.take(wanted);
    let had = if s.len() <= wanted {
        s.len() as int
    } else {
        wanted
    };
    assert forall|i: int|
        #![trigger t[i]]
        0 <= i < t.len() implies t[i] == t1[i] && if i < s.len() {
        t[i] == s[i]
    } else {
        v.is_free(t[i])
    } by {
        assert(t[i] == t1[i]);
    }
    assert(t[0] == s[0]);
    assert forall|i: int, at: int|
        #![trigger w.has_byte(t[i], at)]
        #![trigger w.byte_of(t[i], at)]
        0 <= i < t.len() && 0 <= at < v.bpc() && file_pos(v, i, at) < size implies if file_pos(
        v,
        i,
        at,
    ) < old_size {
        same_byte(v, w, t[i], at)
    } else {
        zero_byte(w, t[i], at)
    } by {
        assert(t[i] == t1[i]);
        assert(file_pos(y, i, at) == file_pos(v, i, at));
        if file_pos(v, i, at) < old_size {
            lemma_pos_cluster(v, i, at, s.len() as int);
            assert(same_byte(y, w, t[i], at));
            assert(same_bytes(v, x, s[i]));
            assert(x.has_byte(s[i], at) == v.has_byte(s[i], at));
            assert(y.has_byte(s[i], at) == x.has_byte(s[i], at));
        } else if i < had {
            assert(zero_byte(w, t[i], at));
        } else {
            assert(same_byte(y, w, t[i], at));
            assert(is_zero(x, t1[i]));
            assert(x.has_byte(t1[i], at) && x.byte_of(t1[i], at) == 0);
            assert(y.has_byte(t[i], at) == x.has_byte(t[i], at));
        }
    }
    assert forall|i: int, at: int|
        #![trigger lies_on(w, t[i], at)]
        0 <= i < t.len() && 0 <= at < v.bpc() && old_size <= file_pos(v, i, at)
            < size implies lies_on(w, t[i], at) by {
        assert(t[i] == t1[i]);
        assert(file_pos(w, i, at) == file_pos(v, i, at));
        if i >= had {
            assert(x.on_device(t1[i]));
        }
    }
}

proof fn lemma_resize_kept(
    v: FsView,
    s: Seq<ClusterId>,
    x: FsView,
    t1: Seq<ClusterId>,
    y: FsView,
    w: FsView,
    wanted: int,
)
    requires
        v.wf(),
        v.is_chain(s),
        0 <= wanted <= t1.len(),
        grew(v, s, x, t1),
        kept(x, y, t1.to_set()),
        kept(y, w, t1.take(wanted).to_set()),
    ensures
        kept(v, w, s.to_set()),
{
    assert forall|c: ClusterId| #[trigger] t1.to_set().contains(c) implies s.to_set().contains(c)
        || v.is_free(c) by {
        let i = choose|i: int| 0 <= i < t1.len() && t1[i] == c;
        if i < s.len() {
            assert(t1[i] == s[i]);
            assert(s.contains(s[i]));
        }
    }
    assert(within_or_free(v, t1.to_set(), s.to_set()));
    lemma_kept_trans(v, x, y, s.to_set(), t1.to_set());
    let t = t1.take(wanted);
    assert(within_or_free(v, t.to_set(), s.to_set())) by {
        assert forall|c: ClusterId| #[trigger] t.to_set().contains(c) implies s.to_set().contains(c)
            || v.is_free(c) by {
            let i = choose|i: int| 0 <= i < t.len() && t[i] == c;
            assert(t1[i] == c);
            assert(t1.to_set().contains(c));
        }
    }
    lemma_kept_trans(v, y, w, s.to_set(), t.to_set());
}

} // verus!
