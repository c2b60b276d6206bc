//! What files hold, and what reading and writing make of it.

use vstd::prelude::*;

#[allow(unused_imports)]
use crate::bytes::zeroes;
#[allow(unused_imports)]
use crate::chain::{
    extended, grew, is_zero, kept, lemma_advance, lemma_advance_extends, lemma_chain_distinct,
    lemma_extended, lemma_kept_refl, lemma_kept_trans, lemma_put, lemma_put_in_cluster, same_bytes,
    within_or_free,
};
use crate::datetime::DateTime;
#[allow(unused_imports)]
use crate::dir::{law_entry_reads_back, EntryLocation, EntryView};
use crate::error::Error;
use crate::fat::ClusterId;
use crate::file::FileView;
use crate::path::PathView;
#[allow(unused_imports)]
use crate::resize::{
    file_pos, lemma_clusters_for, lemma_other_cluster, lemma_pos_cluster, lemma_resize, lies_on,
    resized, same_byte, zero_byte,
};
#[allow(unused_imports)]
use crate::volume::FsView;
#[allow(unused_imports)]
use crate::walk::lemma_found_fits;

verus! {

impl FsView {
    /// The byte at a position of the file with some clusters.
    pub open spec fn file_byte(self, s: Seq<ClusterId>, p: int) -> u8 {
        self.byte_of(s[p / self.bpc() as int], p % self.bpc() as int)
    }

    /// Whether the byte at a position of a file has been loaded or written, and
    /// lies on the device.
    pub open spec fn has_file_byte(self, s: Seq<ClusterId>, p: int) -> bool {
        let c = s[p / self.bpc() as int];
        let at = p % self.bpc() as int;
        self.has_byte(c, at) && lies_on(self, c, at)
    }

    /// Some bytes of a file.
    pub open spec fn file_bytes(self, s: Seq<ClusterId>, from: int, n: nat) -> Seq<u8> {
        Seq::new(n, |k: int| self.file_byte(s, from + k))
    }

    /// Whether some bytes of a file have been loaded or written.
    pub open spec fn has_file_bytes(self, s: Seq<ClusterId>, from: int, n: nat) -> bool {
        forall|p: int| from <= p < from + n ==> #[trigger] self.has_file_byte(s, p)
    }
}

/// Whether an open file has some clusters, and knows where among them it was
/// last.
pub open spec fn has_clusters(f: FileView, v: FsView, s: Seq<ClusterId>) -> bool {
    &&& v.is_chain(s)
    &&& f.dirent.first_cluster == s[0]
    &&& f.size() <= s.len() * v.bpc()
    &&& f.rel < s.len()
    &&& f.abs == s[f.rel as int]
}

/// A position splits into a cluster and a place within it in just one way.
pub proof fn lemma_pos(v: FsView, i: int, at: int)
    requires
        v.wf(),
        0 <= at < v.bpc(),
    ensures
        file_pos(v, i, at) / v.bpc() as int == i,
        file_pos(v, i, at) % v.bpc() as int == at,
{
    let b = v.bpc() as int;
    vstd::arithmetic::div_mod::lemma_fundamental_div_mod_converse(i * b + at, b, i, at);
}

pub proof fn lemma_pos_split(v: FsView, p: int)
    requires
        v.wf(),
        p >= 0,
    ensures
        0 <= p / v.bpc() as int,
        0 <= p % (v.bpc() as int) < v.bpc(),
        file_pos(v, p / v.bpc() as int, p % v.bpc() as int) == p,
{
    let b = v.bpc() as int;
    vstd::arithmetic::div_mod::lemma_fundamental_div_mod(p, b);
    vstd::arithmetic::div_mod::lemma_mod_bound(p, b);
    vstd::arithmetic::div_mod::lemma_div_pos_is_pos(p, b);
    vstd::arithmetic::mul::lemma_mul_is_commutative(b, p / b);
}

/// Positions that follow on one another within a cluster.
proof fn lemma_pos_run(v: FsView, p: int, k: int)
    requires
        v.wf(),
        p >= 0,
        k >= 0,
        p % v.bpc() as int + k < v.bpc(),
    ensures
        (p + k) / v.bpc() as int == p / v.bpc() as int,
        (p + k) % v.bpc() as int == p % v.bpc() as int + k,
{
    lemma_pos_split(v, p);
    lemma_pos(v, p / v.bpc() as int, p % v.bpc() as int + k);
}

/// Which cluster of a file an access to its present position is in.
proof fn lemma_cluster_at(f: FileView, v: FsView, s: Seq<ClusterId>, alloc: bool)
    requires
        v.wf(),
        has_clusters(f, v, s),
        f.pos < s.len() * v.bpc(),
    ensures
        f.cluster_at(v, alloc) == (v, Ok::<ClusterId, Error>(s[f.target(v) as int])),
        f.target(v) < s.len(),
        has_clusters(f.at_cluster(v, s[f.target(v) as int]), v, s),
{
    let target = f.target(v);
    lemma_pos_split(v, f.pos as int);
    assert(f.pos as nat / v.bpc() == f.pos as int / v.bpc() as int);
    lemma_pos_cluster(v, target as int, f.pos as int % v.bpc() as int, s.len() as int);
    if target < f.rel {
        lemma_advance(v, s, 0, target, alloc);
    } else {
        lemma_advance(v, s, f.rel as int, (target - f.rel) as nat, alloc);
    }
}

/// How much of a read there is before the end of a file.
pub open spec fn readable(f: FileView, want: nat) -> nat {
    if want < f.left_in_file() {
        want
    } else {
        f.left_in_file()
    }
}

/// Reading on gives the bytes of the file.
proof fn lemma_read_on(f: FileView, v: FsView, s: Seq<ClusterId>, want: nat, got: Seq<u8>)
    requires
        v.wf(),
        has_clusters(f, v, s),
        v.has_file_bytes(s, f.pos as int, readable(f, want)),
    ensures
        f.read_on(v, want, got).1 == Ok::<Seq<u8>, Error>(
            got + v.file_bytes(s, f.pos as int, readable(f, want)),
        ),
        ({
            let g = f.read_on(v, want, got).0;
            &&& g.pos == f.pos + readable(f, want)
            &&& g.dirent == f.dirent
            &&& g.location == f.location
            &&& has_clusters(g, v, s)
        }),
    decreases want,
{
    let total = readable(f, want);
    if want == 0 || f.pos >= f.size() {
        assert(got + v.file_bytes(s, f.pos as int, total) =~= got);
    } else {
        lemma_cluster_at(f, v, s, false);
        let c = s[f.target(v) as int];
        let g = f.at_cluster(v, c);
        let b = v.bpc() as int;
        let p = f.pos as int;
        let off = p % b;
        lemma_pos_split(v, p);
        let n = if f.span(v, want) < f.left_in_file() {
            f.span(v, want)
        } else {
            f.left_in_file()
        };
        assert(0 < n <= total);
        assert(off + n <= b);
        v.geo.lemma_cluster_fits(c);
        let start = v.geo.start_of(c);
        assert(f.pos as nat % v.bpc() == off);
        let data = v.dev.bytes(start + off, n);
        assert forall|k: int| 0 <= k < n implies v.dev.known.contains_key(start + off + k) && start
            + off + k < v.dev.len && data[k] == v.file_byte(s, p + k) by {
            lemma_pos_run(v, p, k);
            assert(v.has_file_byte(s, p + k));
        }
        assert(v.dev.read((start + off) as nat, n) == Ok::<Seq<u8>, Error>(data)) by {
            reveal(crate::device::DeviceView::read);
            assert(data[n - 1] == v.file_byte(s, p + (n - 1)));
            assert(v.dev.available((start + off) as nat, n) == n);
            assert(v.dev.has(start + off, n as int)) by {
                assert forall|i: int| start + off <= i < start + off + n implies
                    #[trigger] v.dev.known.contains_key(i) by {
                    let k = i - (start + off);
                    assert(data[k] == v.file_byte(s, p + k));
                }
            }
        }
        let h = FileView { pos: (g.pos + n) as u32, ..g };
        assert(h.pos == p + n);
        assert(readable(h, (want - n) as nat) == total - n);
        lemma_read_on(h, v, s, (want - n) as nat, got + data);
        assert(got + data + v.file_bytes(s, p + n, (total - n) as nat) =~= got + v.file_bytes(
            s,
            p,
            total,
        ));
        assert(f.read_on(v, want, got) == h.read_on(v, (want - n) as nat, got + data));
    }
}

/// Reading gives the bytes of the file from the present position on, as many
/// as were asked for or as there are before its end, and moves on past them.
pub proof fn law_reading_gives_the_bytes_of_the_file(
    f: FileView,
    v: FsView,
    s: Seq<ClusterId>,
    want: nat,
)
    requires
        v.wf(),
        has_clusters(f, v, s),
        v.has_file_bytes(s, f.pos as int, readable(f, want)),
    ensures
        f.read(v, want).1 == Ok::<Seq<u8>, Error>(
            v.file_bytes(s, f.pos as int, readable(f, want)),
        ),
        f.read(v, want).0.pos == f.pos + readable(f, want),
        f.read(v, want).0.dirent == f.dirent,
        has_clusters(f.read(v, want).0, v, s),
{
    lemma_read_on(f, v, s, want, Seq::empty());
    assert(Seq::<u8>::empty() + v.file_bytes(s, f.pos as int, readable(f, want)) =~= v.file_bytes(
        s,
        f.pos as int,
        readable(f, want),
    ));
}

/// Whether some bytes have been put down in a file: they are at their place,
/// what the file had elsewhere is the same, and the clusters it was given for
/// them, which were free, hold zeroes where nothing was put.
pub open spec fn written(
    v: FsView,
    s: Seq<ClusterId>,
    w: FsView,
    t: Seq<ClusterId>,
    pos: int,
    data: Seq<u8>,
) -> bool {
    &&& w.is_chain(t)
    &&& s.len() <= t.len()
    &&& kept(v, w, s.to_set())
    &&& forall|i: int|
        #![trigger t[i]]
        0 <= i < t.len() ==> if i < s.len() {
            t[i] == s[i]
        } else {
            v.is_free(t[i])
        }
    &&& forall|i: int, at: int|
        #![trigger w.has_byte(t[i], at)]
        #![trigger w.byte_of(t[i], at)]
        0 <= i < t.len() && 0 <= at < v.bpc() ==> {
            let p = file_pos(v, i, at);
            if pos <= p < pos + data.len() {
                w.has_byte(t[i], at) && w.byte_of(t[i], at) == data[p - pos]
            } else if i < s.len() {
                same_byte(v, w, t[i], at)
            } else {
                zero_byte(w, t[i], at)
            }
        }
    &&& forall|i: int, at: int|
        #![trigger lies_on(w, t[i], at)]
        0 <= i < t.len() && 0 <= at < v.bpc() && (pos <= file_pos(v, i, at) < pos + data.len() || i
            >= s.len()) ==> lies_on(w, t[i], at)
}

proof fn lemma_written_nothing(v: FsView, s: Seq<ClusterId>, w: FsView, t: Seq<ClusterId>, pos: int)
    requires
        v.wf(),
        v.is_chain(s),
        grew(v, s, w, t),
    ensures
        written(v, s, w, t, pos, Seq::empty()),
{
    assert forall|i: int, at: int|
        #![trigger w.has_byte(t[i], at)]
        #![trigger w.byte_of(t[i], at)]
        0 <= i < t.len() && 0 <= at < v.bpc() implies if i < s.len() {
        same_byte(v, w, t[i], at)
    } else {
        zero_byte(w, t[i], at)
    } by {
        if i < s.len() {
            assert(t[i] == s[i]);
            assert(same_bytes(v, w, s[i]));
        } else {
            assert(is_zero(w, t[i]));
        }
    }
    assert forall|i: int, at: int|
        #![trigger lies_on(w, t[i], at)]
        0 <= i < t.len() && 0 <= at < v.bpc() && i >= s.len() implies lies_on(w, t[i], at) by {
        assert(w.on_device(t[i]));
    }
}

/// A write within one cluster of a chain.
proof fn lemma_written_once(
    v: FsView,
    s: Seq<ClusterId>,
    x: FsView,
    u: Seq<ClusterId>,
    target: int,
    off: int,
    data: Seq<u8>,
)
    requires
        v.wf(),
        v.is_chain(s),
        grew(v, s, x, u),
        0 <= target < u.len(),
        0 <= off,
        off + data.len() <= v.bpc(),
    ensures
        x.put_in_cluster(u[target], off, data).1 == Ok::<(), Error>(()),
        written(
            v,
            s,
            x.put_in_cluster(u[target], off, data).0,
            u,
            file_pos(v, target, off),
            data,
        ),
{
    let c = u[target];
    let y = x.put_in_cluster(c, off, data).0;
    let pos = file_pos(v, target, off);
    lemma_put_in_cluster(x, c, off, data);
    lemma_written_nothing(v, s, x, u, pos);
    assert(within_or_free(v, set![c], s.to_set())) by {
        if target < s.len() {
            assert(u[target] == s[target]);
            assert(s.contains(s[target]));
        } else {
            assert(v.is_free(u[target]));
        }
    }
    lemma_kept_trans(v, x, y, s.to_set(), set![c]);
    assert forall|i: int|
        #![trigger u[i]]
        0 <= i < u.len() - 1 implies y.leads_to(u[i], u[i + 1]) by {
        assert(x.leads_to(u[i], u[i + 1]));
    }
    assert(x.ends_at(u.last()));
    assert(y.is_chain(u));
    assert forall|i: int, at: int|
        #![trigger y.has_byte(u[i], at)]
        #![trigger y.byte_of(u[i], at)]
        0 <= i < u.len() && 0 <= at < v.bpc() implies ({
        let p = file_pos(v, i, at);
        if pos <= p < pos + data.len() {
            y.has_byte(u[i], at) && y.byte_of(u[i], at) == data[p - pos]
        } else if i < s.len() {
            same_byte(v, y, u[i], at)
        } else {
            zero_byte(y, u[i], at)
        }
    }) by {
        lemma_same_place(v, i, at, target, off, data.len());
        assert(x.has_byte(u[i], at) == x.has_byte(u[i], at));
        if i == target {
            assert(y.has_byte(c, at) == y.has_byte(u[i], at));
            if i < s.len() {
                assert(same_byte(v, x, u[i], at));
            } else {
                assert(zero_byte(x, u[i], at));
            }
        } else {
            if i < target {
                lemma_chain_distinct(x, u, i, target);
            } else {
                lemma_chain_distinct(x, u, target, i);
            }
            lemma_other_cluster(x, c, off, data, u[i]);
            assert(same_bytes(x, y, u[i]));
            assert(y.has_byte(u[i], at) == x.has_byte(u[i], at));
            if i < s.len() {
                assert(same_byte(v, x, u[i], at));
            } else {
                assert(zero_byte(x, u[i], at));
            }
        }
    }
    assert forall|i: int, at: int|
        #![trigger lies_on(y, u[i], at)]
        0 <= i < u.len() && 0 <= at < v.bpc() && (pos <= file_pos(v, i, at) < pos + data.len() || i
            >= s.len()) implies lies_on(y, u[i], at) by {
        lemma_same_place(v, i, at, target, off, data.len());
        if i >= s.len() {
            assert(lies_on(x, u[i], at));
        }
    }
}

/// Positions within a run that stays inside one cluster are in that cluster.
proof fn lemma_same_place(v: FsView, i: int, at: int, target: int, off: int, n: nat)
    requires
        v.wf(),
        0 <= at < v.bpc(),
        0 <= off,
        off + n <= v.bpc(),
    ensures
        ({
            let pos = file_pos(v, target, off);
            let p = file_pos(v, i, at);
            (pos <= p < pos + n) == (i == target && off <= at < off + n)
        }),
        i == target ==> file_pos(v, i, at) - file_pos(v, target, off) == at - off,
{
    let b = v.bpc() as int;
    if i < target {
        assert(i * b + b <= target * b) by (nonlinear_arith)
            requires
                i < target,
                b > 0,
        ;
    } else if i > target {
        assert(target * b + b <= i * b) by (nonlinear_arith)
            requires
                target < i,
                b > 0,
        ;
    }
}

/// One piece put down after another.
proof fn lemma_written_trans(
    v: FsView,
    s: Seq<ClusterId>,
    y: FsView,
    u: Seq<ClusterId>,
    w: FsView,
    t: Seq<ClusterId>,
    pos: int,
    first: Seq<u8>,
    rest: Seq<u8>,
)
    requires
        v.wf(),
        v.is_chain(s),
        0 <= pos,
        pos + first.len() <= u.len() * v.bpc(),
        written(v, s, y, u, pos, first),
        written(y, u, w, t, pos + first.len(), rest),
    ensures
        written(v, s, w, t, pos, first + rest),
{
    let all = first + rest;
    assert(within_or_free(v, u.to_set(), s.to_set())) by {
        assert forall|c: ClusterId| #[trigger] u.to_set().contains(c) implies s.to_set().contains(c)
            || v.is_free(c) by {
            let i = choose|i: int| 0 <= i < u.len() && u[i] == c;
            if i < s.len() {
                assert(u[i] == s[i]);
                assert(s.contains(s[i]));
            } else {
                assert(v.is_free(u[i]));
            }
        }
    }
    lemma_kept_trans(v, y, w, s.to_set(), u.to_set());
    assert forall|i: int|
        #![trigger t[i]]
        0 <= i < t.len() implies if i < s.len() {
        t[i] == s[i]
    } else {
        v.is_free(t[i])
    } by {
        if i < u.len() {
            assert(t[i] == u[i]);
        } else {
            let c = t[i];
            assert(y.is_free(c));
            if !v.is_free(c) {
                if s.to_set().contains(c) {
                    let j = choose|j: int| 0 <= j < s.len() && s[j] == c;
                    assert(u[j] == s[j]);
                    if j < u.len() - 1 {
                        assert(y.leads_to(u[j], u[j + 1]));
                    }
                } else {
                    assert(y.link(c) == v.link(c));
                }
            }
        }
    }
    assert forall|i: int, at: int|
        #![trigger w.has_byte(t[i], at)]
        #![trigger w.byte_of(t[i], at)]
        0 <= i < t.len() && 0 <= at < v.bpc() implies ({
        let p = file_pos(v, i, at);
        if pos <= p < pos + all.len() {
            w.has_byte(t[i], at) && w.byte_of(t[i], at) == all[p - pos]
        } else if i < s.len() {
            same_byte(v, w, t[i], at)
        } else {
            zero_byte(w, t[i], at)
        }
    }) by {
        let p = file_pos(v, i, at);
        assert(file_pos(y, i, at) == p);
        if i < u.len() {
            assert(t[i] == u[i]);
            assert(y.has_byte(u[i], at) == y.has_byte(t[i], at));
            if pos <= p < pos + first.len() {
                assert(y.has_byte(u[i], at) && y.byte_of(u[i], at) == first[p - pos]);
                assert(same_byte(y, w, t[i], at));
            } else if i < s.len() {
                assert(same_byte(v, y, u[i], at));
            } else {
                assert(zero_byte(y, u[i], at));
            }
        } else if p < pos + first.len() {
            lemma_pos_cluster(v, i, at, u.len() as int);
        }
    }
    assert forall|i: int, at: int|
        #![trigger lies_on(w, t[i], at)]
        0 <= i < t.len() && 0 <= at < v.bpc() && (pos <= file_pos(v, i, at) < pos + all.len() || i
            >= s.len()) implies lies_on(w, t[i], at) by {
        let p = file_pos(v, i, at);
        assert(file_pos(y, i, at) == p);
        if i < u.len() {
            assert(t[i] == u[i]);
            if p < pos + first.len() || i >= s.len() {
                assert(lies_on(y, u[i], at));
            }
        }
    }
}

/// Which cluster a write at the present position goes to, which the file is
/// given if it does not have it yet.
proof fn lemma_cluster_at_alloc(f: FileView, v: FsView, s: Seq<ClusterId>)
    requires
        v.wf(),
        v.linkable(),
        has_clusters(f, v, s),
        f.pos <= s.len() * v.bpc(),
    ensures
        f.target(v) <= s.len(),
        f.cluster_at(v, true) == (match extended(v, s, f.target(v) + 1) {
            (x, u, None) => (x, Ok(u[f.target(v) as int])),
            (x, u, Some(e)) => (x, Err(e)),
        }),
        match extended(v, s, f.target(v) + 1) {
            (x, u, None) => grew(v, s, x, u) && f.target(v) < u.len(),
            (x, u, Some(e)) => grew(v, s, x, u) && e == v.no_room() && (v.geo.writable
                ==> x.is_full()),
        },
{
    let target = f.target(v);
    let b = v.bpc() as int;
    lemma_pos_split(v, f.pos as int);
    assert(f.pos as nat / v.bpc() == f.pos as int / b);
    assert(target <= s.len()) by {
        if target > s.len() {
            assert(target * b >= s.len() * b + b) by (nonlinear_arith)
                requires
                    target >= s.len() + 1,
                    b > 0,
            ;
        }
    }
    if target < f.rel {
        lemma_advance_extends(v, s, 0, target);
    } else {
        lemma_advance_extends(v, s, f.rel as int, (target - f.rel) as nat);
    }
    lemma_extended(v, s, target + 1);
}

/// What writing on comes to.
pub open spec fn wrote_on(
    f: FileView,
    v: FsView,
    s: Seq<ClusterId>,
    data: Seq<u8>,
    g: FileView,
    w: FsView,
    t: Seq<ClusterId>,
) -> bool {
    &&& written(v, s, w, t, f.pos as int, data)
    &&& has_clusters(g, w, t)
    &&& g.location == f.location
    &&& g.pos == f.pos + data.len()
    &&& g.dirent == f.dirent.sized(
        if f.pos + data.len() > f.size() && data.len() > 0 {
            (f.pos + data.len()) as u32
        } else {
            f.size()
        },
    )
}

/// Writing on puts down the bytes one after another, all of them unless there
/// is no room left.
proof fn lemma_write_on(f: FileView, v: FsView, s: Seq<ClusterId>, data: Seq<u8>, done: nat) -> (t:
    Seq<ClusterId>)
    requires
        v.wf(),
        v.linkable(),
        has_clusters(f, v, s),
        f.pos <= s.len() * v.bpc(),
        done <= data.len(),
        f.pos + (data.len() - done) <= u32::MAX,
    ensures
        ({
            let (g, w, n, error) = f.write_on(v, data, done);
            &&& done <= n <= data.len()
            &&& wrote_on(f, v, s, data.subrange(done as int, n as int), g, w, t)
            &&& match error {
                None => n == data.len(),
                Some(e) => n < data.len() && e == v.no_room() && (v.geo.writable ==> w.is_full()),
            }
        }),
    decreases data.len() - done,
{
    if done >= data.len() {
        lemma_kept_refl(v, s.to_set());
        lemma_written_nothing(v, s, v, s, f.pos as int);
        assert(data.subrange(done as int, done as int) =~= Seq::empty());
        s
    } else {
        let target = f.target(v);
        let off = f.pos as int % v.bpc() as int;
        lemma_cluster_at_alloc(f, v, s);
        lemma_pos_split(v, f.pos as int);
        assert(f.pos as nat / v.bpc() == f.pos as int / v.bpc() as int);
        assert(f.pos as nat % v.bpc() == off);
        let (x, u, error) = extended(v, s, target + 1);
        if error is Some {
            lemma_written_nothing(v, s, x, u, f.pos as int);
            assert(data.subrange(done as int, done as int) =~= Seq::empty());
            lemma_longer(v, s, u);
            u
        } else {
            let c = u[target as int];
            let k = f.span(v, (data.len() - done) as nat);
            let piece = data.subrange(done as int, (done + k) as int);
            lemma_written_once(v, s, x, u, target as int, off, piece);
            let y = x.put_in_cluster(c, off, piece).0;
            let g = f.at_cluster(v, c).wrote(k);
            assert(file_pos(v, target as int, off) == f.pos);
            lemma_longer(v, s, u);
            assert(f.pos + k <= u.len() * v.bpc()) by {
                let b = v.bpc() as int;
                assert(target * b + b <= u.len() * b) by (nonlinear_arith)
                    requires
                        target + 1 <= u.len(),
                        b > 0,
                ;
            }
            assert(has_clusters(g, y, u));
            let t = lemma_write_on(g, y, u, data, done + k);
            let (h, w, n, e) = g.write_on(y, data, done + k);
            let rest = data.subrange((done + k) as int, n as int);
            lemma_written_trans(v, s, y, u, w, t, f.pos as int, piece, rest);
            assert(piece + rest =~= data.subrange(done as int, n as int));
            assert(f.write_on(v, data, done) == (h, w, n, e));
            t
        }
    }
}

proof fn lemma_longer(v: FsView, s: Seq<ClusterId>, u: Seq<ClusterId>)
    requires
        s.len() <= u.len(),
    ensures
        s.len() * v.bpc() <= u.len() * v.bpc(),
{
    let b = v.bpc() as int;
    assert(s.len() * b <= u.len() * b) by (nonlinear_arith)
        requires
            s.len() <= u.len(),
            b >= 0,
    ;
}

/// Writing out the table touches no cluster and changes no link.
pub proof fn lemma_flush(v: FsView)
    requires
        v.wf(),
    ensures
        v.flush_fat().wf(),
        v.flush_fat().geo == v.geo,
        v.flush_fat().fat.entries == v.fat.entries,
        v.dev.len <= v.flush_fat().dev.len,
        v.flush_fat().fat.dirty is None,
        forall|c: ClusterId| #[trigger] v.flush_fat().link(c) == v.link(c),
        forall|c: ClusterId| v.geo.has_cluster(c) ==> #[trigger] same_bytes(v, v.flush_fat(), c),
        kept(v, v.flush_fat(), Set::empty()),
{
    let w = v.flush_fat();
    match v.fat.dirty {
        None => {},
        Some((start, end)) => {
            let at = v.geo.fat_offset_bytes + start;
            let data = v.fat.data.subrange(start as int, end as int);
            lemma_put(v, at, data);
            assert(w.dev == v.put(at, data).dev);
            assert forall|c: ClusterId| #[trigger] w.link(c) == v.link(c) by {}
            assert forall|c: ClusterId| v.geo.has_cluster(c) implies #[trigger] same_bytes(v, w, c) by {
                v.geo.lemma_cluster_fits(c);
            }
        },
    }
}

/// Whether the entry of a file lies in a cluster that is in use but not by the
/// file itself.
pub open spec fn entry_apart(f: FileView, v: FsView, s: Seq<ClusterId>) -> bool {
    &&& f.location is Some
    &&& f.location->0.index < v.epc()
    &&& v.geo.has_cluster(f.location->0.cluster)
    &&& !v.is_free(f.location->0.cluster)
    &&& !s.contains(f.location->0.cluster)
}

/// The entry of a file that has been written to.
pub open spec fn written_entry(
    e: EntryView,
    first: ClusterId,
    size: u32,
    now: DateTime,
    v: FsView,
) -> EntryView {
    e.starting_at(first).sized(size).modified_at(now, v.geo.variant).accessed_at(
        now,
        v.geo.variant,
    )
}

/// Whether the entry of a file on the device is the one the open file has.
pub open spec fn entry_is(f: FileView, v: FsView) -> bool {
    v.entry_at(f.location->0.cluster, f.location->0.index as nat) == Ok::<EntryView, Error>(
        f.dirent,
    )
}

/// Whether the cluster an entry lies in is the same in a later state but for the
/// slot of that entry.
pub open spec fn same_but_slot(v: FsView, w: FsView, location: EntryLocation) -> bool {
    let c = location.cluster;
    &&& w.link(c) == v.link(c)
    &&& forall|k: int|
        #![trigger w.has_byte(c, k)]
        #![trigger w.byte_of(c, k)]
        0 <= k < v.bpc() && !(location.index * 64 <= k < location.index * 64 + 64) ==> w.has_byte(
            c,
            k,
        ) == v.has_byte(c, k) && (v.has_byte(c, k) ==> w.byte_of(c, k) == v.byte_of(c, k))
}

/// A slot that is changed before or after everything else in its cluster stays
/// the same.
proof fn lemma_but_slot(v: FsView, x: FsView, y: FsView, w: FsView, location: EntryLocation)
    requires
        x.geo == v.geo,
        y.geo == v.geo,
        w.geo == v.geo,
        same_bytes(v, x, location.cluster),
        same_but_slot(x, y, location),
        same_bytes(y, w, location.cluster),
        x.link(location.cluster) == v.link(location.cluster),
        w.link(location.cluster) == y.link(location.cluster),
    ensures
        same_but_slot(v, w, location),
{
    let c = location.cluster;
    assert forall|k: int|
        #![trigger w.has_byte(c, k)]
        #![trigger w.byte_of(c, k)]
        0 <= k < v.bpc() && !(location.index * 64 <= k < location.index * 64 + 64) implies
        w.has_byte(c, k) == v.has_byte(c, k) && (v.has_byte(c, k) ==> w.byte_of(c, k)
        == v.byte_of(c, k)) by {
        assert(x.has_byte(c, k) == v.has_byte(c, k));
        assert(y.has_byte(c, k) == x.has_byte(c, k));
    }
}

proof fn lemma_same_bytes_refl(v: FsView, c: ClusterId)
    ensures
        same_bytes(v, v, c),
{
}

/// An entry takes up one slot of its cluster and no more.
pub proof fn lemma_put_entry(v: FsView, location: EntryLocation, e: EntryView)
    requires
        v.wf(),
        e.wf(),
        location.index < v.epc(),
        v.geo.has_cluster(location.cluster),
    ensures
        v.put_entry(location, e).1 == Ok::<(), Error>(()),
        kept(v, v.put_entry(location, e).0, set![location.cluster]),
        v.put_entry(location, e).0.fat == v.fat,
        same_but_slot(v, v.put_entry(location, e).0, location),
        forall|c: ClusterId|
            c != location.cluster && v.geo.has_cluster(c) ==> #[trigger] same_bytes(
                v,
                v.put_entry(location, e).0,
                c,
            ),
{
    law_entry_reads_back(e, v.geo.variant);
    lemma_put_in_cluster(v, location.cluster, location.index * 64, e.encode(v.geo.variant));
    assert forall|c: ClusterId|
        c != location.cluster && v.geo.has_cluster(c) implies #[trigger] same_bytes(
        v,
        v.put_entry(location, e).0,
        c,
    ) by {
        lemma_other_cluster(v, location.cluster, location.index * 64, e.encode(v.geo.variant), c);
    }
}

/// An entry that has been put down is the one that is read from its place.
pub proof fn lemma_entry_put(v: FsView, location: EntryLocation, e: EntryView)
    requires
        v.wf(),
        e.wf(),
        location.index < v.epc(),
        v.geo.has_cluster(location.cluster),
    ensures
        v.put_entry(location, e).0.entry_at(location.cluster, location.index as nat) == Ok::<
            EntryView,
            Error,
        >(e),
{
    law_entry_reads_back(e, v.geo.variant);
    let data = e.encode(v.geo.variant);
    let c = location.cluster;
    let at = location.index * 64;
    lemma_put_in_cluster(v, c, at, data);
    let w = v.put_entry(location, e).0;
    v.geo.lemma_cluster_fits(c);
    let start = v.geo.start_of(c) + at;
    assert(w.dev.read(start as nat, 64) == Ok::<Seq<u8>, Error>(data)) by {
        reveal(crate::device::DeviceView::read);
        assert forall|i: int| start <= i < start + 64 implies #[trigger] w.dev.known.contains_key(
            i,
        ) by {
            assert(w.has_byte(c, i - v.geo.start_of(c)));
        }
        assert(w.dev.available(start as nat, 64) == 64);
        assert forall|k: int| 0 <= k < 64 implies #[trigger] w.dev.bytes(start, 64)[k] == data[k] by {
            assert(w.byte_of(c, at + k) == data[k]);
        }
        assert(w.dev.bytes(start, 64) =~= data);
    }
}

/// An entry is still read from its place where the bytes around it are still
/// the same.
proof fn lemma_entry_same(v: FsView, w: FsView, c: ClusterId, index: nat)
    requires
        v.wf(),
        w.geo == v.geo,
        v.dev.len <= w.dev.len,
        index < v.epc(),
        v.geo.has_cluster(c),
        same_bytes(v, w, c),
        v.entry_at(c, index) is Ok,
    ensures
        w.entry_at(c, index) == v.entry_at(c, index),
{
    v.geo.lemma_cluster_fits(c);
    let at = index * 64;
    let start = v.geo.start_of(c) + at;
    assert(w.dev.read(start as nat, 64) == v.dev.read(start as nat, 64)) by {
        reveal(crate::device::DeviceView::read);
        assert(v.dev.available(start as nat, 64) == 64);
        assert(w.dev.available(start as nat, 64) == 64);
        assert(v.dev.has(start, 64));
        assert forall|i: int| start <= i < start + 64 implies #[trigger] w.dev.known.contains_key(
            i,
        ) by {
            assert(v.dev.known.contains_key(i));
            assert(v.has_byte(c, i - v.geo.start_of(c)));
            assert(w.has_byte(c, i - v.geo.start_of(c)));
        }
        assert forall|k: int| 0 <= k < 64 implies #[trigger] w.dev.bytes(start, 64)[k]
            == v.dev.bytes(start, 64)[k] by {
            assert(v.dev.known.contains_key(start + k));
            assert(v.has_byte(c, at + k));
            assert(w.byte_of(c, at + k) == v.byte_of(c, at + k));
        }
        assert(w.dev.bytes(start, 64) =~= v.dev.bytes(start, 64));
    }
}

/// Writing the entry of a file back succeeds, and keeps everything but the slot
/// of that entry.
proof fn lemma_commit(f: FileView, v: FsView, s: Seq<ClusterId>, now: DateTime)
    requires
        v.wf(),
        f.dirent.wf(),
        has_clusters(f, v, s),
        entry_apart(f, v, s),
    ensures
        f.commit(v, now).2 == Ok::<(), Error>(()),
        ({
            let (g, w, _) = f.commit(v, now);
            &&& kept(v, w, set![f.location->0.cluster])
            &&& forall|c: ClusterId|
                c != f.location->0.cluster && v.geo.has_cluster(c) ==> #[trigger] same_bytes(v, w, c)
            &&& forall|c: ClusterId| #[trigger] w.link(c) == v.link(c)
            &&& has_clusters(g, w, s)
            &&& entry_apart(g, w, s)
            &&& g.pos == f.pos
            &&& g.size() == f.size()
            &&& g.dirent.first_cluster == f.dirent.first_cluster
            &&& g.location == f.location
            &&& entry_is(g, w)
            &&& same_but_slot(v, w, f.location->0)
            &&& g.dirent == written_entry(f.dirent, s[0], f.size(), now, v)
        }),
{
    let location = f.location->0;
    let e = f.dirent.modified_at(now, v.geo.variant).accessed_at(now, v.geo.variant);
    lemma_put_entry(v, location, e);
    lemma_entry_put(v, location, e);
    let u = v.put_entry(location, e).0;
    lemma_flush(u);
    let w = u.flush_fat();
    assert(same_bytes(u, w, location.cluster));
    lemma_entry_same(u, w, location.cluster, location.index as nat);
    lemma_same_bytes_refl(v, location.cluster);
    lemma_but_slot(v, v, u, w, location);
    let empty = Set::<ClusterId>::empty();
    assert(within_or_free(v, empty, set![location.cluster]));
    lemma_kept_trans(v, u, w, set![location.cluster], empty);
    assert forall|c: ClusterId| #[trigger] w.link(c) == v.link(c) by {
        assert(u.link(c) == v.link(c));
    }
    assert forall|c: ClusterId|
        c != location.cluster && v.geo.has_cluster(c) implies #[trigger] same_bytes(v, w, c) by {
        assert(same_bytes(v, u, c));
        assert(same_bytes(u, w, c));
        crate::chain::lemma_same_bytes_trans(v, u, w, c);
    }
    assert forall|i: int|
        #![trigger s[i]]
        0 <= i < s.len() - 1 implies w.leads_to(s[i], s[i + 1]) by {
        assert(v.leads_to(s[i], s[i + 1]));
        assert(w.link(s[i]) == v.link(s[i]));
    }
    assert(w.link(s.last()) == v.link(s.last()));
    assert(w.is_chain(s));
    assert(w.link(location.cluster) == v.link(location.cluster));
}

/// Whether the byte at a position of a file is the same in a later state, as
/// far as it was known before.
pub open spec fn same_file_byte(
    v: FsView,
    s: Seq<ClusterId>,
    w: FsView,
    t: Seq<ClusterId>,
    p: int,
) -> bool {
    v.has_file_byte(s, p) ==> w.has_file_byte(t, p) && w.file_byte(t, p) == v.file_byte(s, p)
}

/// A file after a change of its size, position by position.
pub proof fn lemma_resized_bytes(
    v: FsView,
    s: Seq<ClusterId>,
    w: FsView,
    t: Seq<ClusterId>,
    old_size: int,
    size: int,
)
    requires
        v.wf(),
        v.is_chain(s),
        0 <= old_size <= s.len() * v.bpc(),
        resized(v, s, w, t, old_size, size),
        0 <= size,
    ensures
        forall|p: int| 0 <= p < size && p < old_size ==> #[trigger] same_file_byte(v, s, w, t, p),
        forall|p: int|
            #![trigger w.has_file_byte(t, p)]
            #![trigger w.file_byte(t, p)]
            old_size <= p < size ==> w.has_file_byte(t, p) && w.file_byte(t, p) == 0,
        size <= t.len() * v.bpc(),
{
    lemma_clusters_for(v, size as nat);
    assert forall|p: int| 0 <= p < size implies (if p < old_size {
        same_file_byte(v, s, w, t, p)
    } else {
        w.has_file_byte(t, p) && w.file_byte(t, p) == 0
    }) by {
        lemma_pos_split(v, p);
        let i = p / v.bpc() as int;
        let at = p % v.bpc() as int;
        lemma_pos_cluster(v, i, at, t.len() as int);
        if p < old_size {
            lemma_pos_cluster(v, i, at, s.len() as int);
            assert(t[i] == s[i]);
            assert(same_byte(v, w, t[i], at));
        } else {
            assert(zero_byte(w, t[i], at));
            assert(lies_on(w, t[i], at));
        }
    }
}

/// A file after a write, position by position.
pub proof fn lemma_written_bytes(
    v: FsView,
    s: Seq<ClusterId>,
    w: FsView,
    t: Seq<ClusterId>,
    pos: int,
    data: Seq<u8>,
)
    requires
        v.wf(),
        v.is_chain(s),
        0 <= pos,
        pos + data.len() <= t.len() * v.bpc(),
        written(v, s, w, t, pos, data),
    ensures
        forall|p: int|
            #![trigger w.has_file_byte(t, p)]
            #![trigger w.file_byte(t, p)]
            pos <= p < pos + data.len() ==> w.has_file_byte(t, p) && w.file_byte(t, p) == data[p
                - pos],
        forall|p: int|
            0 <= p < s.len() * v.bpc() && !(pos <= p < pos + data.len())
                ==> #[trigger] same_file_byte(v, s, w, t, p),
{
    lemma_longer(v, s, t);
    assert forall|p: int| 0 <= p < t.len() * v.bpc() implies (if pos <= p < pos + data.len() {
        w.has_file_byte(t, p) && w.file_byte(t, p) == data[p - pos]
    } else {
        p < s.len() * v.bpc() ==> same_file_byte(v, s, w, t, p)
    }) by {
        lemma_pos_split(v, p);
        let i = p / v.bpc() as int;
        let at = p % v.bpc() as int;
        lemma_pos_cluster(v, i, at, t.len() as int);
        assert(w.has_byte(t[i], at) == w.has_byte(t[i], at));
        if pos <= p < pos + data.len() {
            assert(w.has_byte(t[i], at) && w.byte_of(t[i], at) == data[p - pos]);
            assert(lies_on(w, t[i], at));
        } else if p < s.len() * v.bpc() {
            lemma_pos_cluster(v, i, at, s.len() as int);
            assert(t[i] == s[i]);
            assert(same_byte(v, w, t[i], at));
        }
    }
}

/// A file whose clusters all hold the same in a later state is the same file.
pub proof fn lemma_same_file(v: FsView, w: FsView, s: Seq<ClusterId>)
    requires
        v.wf(),
        w.geo == v.geo,
        v.dev.len <= w.dev.len,
        forall|i: int|
            #![trigger s[i]]
            0 <= i < s.len() ==> same_bytes(v, w, s[i]),
    ensures
        forall|p: int| 0 <= p < s.len() * v.bpc() ==> #[trigger] same_file_byte(v, s, w, s, p),
{
    assert forall|p: int| 0 <= p < s.len() * v.bpc() implies #[trigger] same_file_byte(
        v,
        s,
        w,
        s,
        p,
    ) by {
        lemma_pos_split(v, p);
        let i = p / v.bpc() as int;
        let at = p % v.bpc() as int;
        lemma_pos_cluster(v, i, at, s.len() as int);
        assert(same_bytes(v, w, s[i]));
        assert(w.has_byte(s[i], at) == v.has_byte(s[i], at));
    }
}

/// What a write makes of a file: some bytes at a position, zeroes between the
/// old end of the file and that position, and everything else as it was.
pub open spec fn file_after_write(
    f: FileView,
    v: FsView,
    s: Seq<ClusterId>,
    data: Seq<u8>,
    g: FileView,
    w: FsView,
    t: Seq<ClusterId>,
) -> bool {
    &&& has_clusters(g, w, t)
    &&& g.pos == f.pos + data.len()
    &&& g.size() == (if f.pos + data.len() > f.size() {
        f.pos + data.len()
    } else {
        f.size() as int
    })
    &&& forall|p: int|
        #![trigger w.has_file_byte(t, p)]
        #![trigger w.file_byte(t, p)]
        f.pos <= p < f.pos + data.len() ==> w.has_file_byte(t, p) && w.file_byte(t, p) == data[p
            - f.pos]
    &&& forall|p: int|
        0 <= p < f.size() && !(f.pos <= p < f.pos + data.len()) ==> #[trigger] same_file_byte(
            v,
            s,
            w,
            t,
            p,
        )
    &&& forall|p: int|
        #![trigger w.has_file_byte(t, p)]
        #![trigger w.file_byte(t, p)]
        f.size() <= p < f.pos ==> w.has_file_byte(t, p) && w.file_byte(t, p) == 0
}

/// What a write that puts nothing down leaves of a file: all that it had, at the
/// same position. Only a gap between its old end and that position may have been
/// filled with zeroes by then, which the entry on the disk does not know of.
pub open spec fn file_after_failure(
    f: FileView,
    v: FsView,
    s: Seq<ClusterId>,
    g: FileView,
    w: FsView,
    t: Seq<ClusterId>,
) -> bool {
    &&& kept(v, w, s.to_set())
    &&& g.pos == f.pos
    &&& g.location == f.location
    &&& g.size() == f.size() || f.size() < g.size() == f.pos
    &&& g.dirent == f.dirent.starting_at(g.dirent.first_cluster).sized(g.size())
    &&& if t.len() == 0 {
        s.len() == 0 && g == f && w == v
    } else {
        has_clusters(g, w, t)
    }
    &&& forall|p: int| 0 <= p < f.size() ==> #[trigger] same_file_byte(v, s, w, t, p)
    &&& forall|p: int|
        #![trigger w.has_file_byte(t, p)]
        #![trigger w.file_byte(t, p)]
        f.size() <= p < g.size() ==> w.has_file_byte(t, p) && w.file_byte(t, p) == 0
}

/// Putting bytes down at a position no further than the end of the file, and
/// writing the entry back.
proof fn lemma_place(f: FileView, v: FsView, s: Seq<ClusterId>, data: Seq<u8>, now: DateTime) -> (t:
    Seq<ClusterId>)
    requires
        v.wf(),
        v.linkable(),
        v.geo.writable,
        f.dirent.wf(),
        has_clusters(f, v, s),
        entry_apart(f, v, s),
        f.pos <= f.size(),
        f.pos + data.len() <= u32::MAX,
    ensures
        match f.place(v, data, now) {
            (g, w, Ok(n)) => {
                &&& n <= data.len()
                &&& n < data.len() ==> w.is_full() && n > 0
                &&& file_after_write(f, v, s, data.take(n as int), g, w, t)
                &&& kept(v, w, s.to_set().insert(f.location->0.cluster))
                &&& entry_apart(g, w, t)
                &&& g.location == f.location
                &&& entry_is(g, w)
                &&& same_but_slot(v, w, f.location->0)
                &&& g.dirent == written_entry(f.dirent, t[0], g.size(), now, v)
                &&& forall|i: int|
                    #![trigger t[i]]
                    0 <= i < t.len() ==> s.contains(t[i]) || v.is_free(t[i])
            },
            (g, w, Err(e)) => e == Error::NoSpaceLeft && w.is_full() && data.len() > 0
                && file_after_failure(f, v, s, g, w, t),
        },
{
    let t = lemma_write_on(f, v, s, data, 0);
    let (g, w, n, _) = f.write_on(v, data, 0);
    let put = data.take(n as int);
    assert(data.subrange(0, n as int) =~= put);
    let loc = f.location->0.cluster;
    assert forall|i: int|
        #![trigger t[i]]
        0 <= i < t.len() implies s.contains(t[i]) || v.is_free(t[i]) by {
        if i < s.len() {
            assert(t[i] == s[i]);
            assert(s.contains(s[i]));
        }
    }
    assert(!t.contains(loc)) by {
        if t.contains(loc) {
            let i = choose|i: int| 0 <= i < t.len() && t[i] == loc;
            assert(s.contains(t[i]) || v.is_free(t[i]));
        }
    }
    assert(!s.to_set().contains(loc));
    assert(w.link(loc) == v.link(loc));
    assert(entry_apart(g, w, t));
    lemma_written_fits(f, v, s, put, g, w, t);
    lemma_written_bytes(v, s, w, t, f.pos as int, put);
    lemma_commit(g, w, t, now);
    let (h, x, _) = g.commit(w, now);
    assert(same_bytes(v, w, loc));
    lemma_same_bytes_refl(x, loc);
    lemma_but_slot(v, w, x, x, f.location->0);
    assert forall|i: int| #![trigger t[i]] 0 <= i < t.len() implies same_bytes(w, x, t[i]) by {
        assert(t.contains(t[i]));
        assert(t[i] != loc);
        assert(w.geo.has_cluster(t[i]));
    }
    lemma_same_file(w, x, t);
    let all = s.to_set().insert(loc);
    assert(kept(v, w, all)) by {
        lemma_kept_refl(v, all);
        assert(within_or_free(v, s.to_set(), all));
        lemma_kept_trans(v, v, w, all, s.to_set());
    }
    assert(within_or_free(v, set![loc], all));
    lemma_kept_trans(v, w, x, all, set![loc]);
    if w.is_full() {
        assert(x.is_full()) by {
            assert forall|c: ClusterId| 2 <= c < x.alloc_end() implies !#[trigger] x.is_free(c) by {
                assert(x.link(c) == w.link(c));
                assert(!w.is_free(c));
            }
        }
    }
    lemma_after_write(f, v, s, put, w, t, h, x);
    if f.place(v, data, now).2 is Err {
        assert(put =~= Seq::empty());
        assert(f.place(v, data, now).0 == g && f.place(v, data, now).1 == w);
        assert(g.dirent == f.dirent.starting_at(g.dirent.first_cluster).sized(g.size())) by {
            assert(t[0] == s[0]);
        }
    }
    t
}

proof fn lemma_written_fits(
    f: FileView,
    v: FsView,
    s: Seq<ClusterId>,
    put: Seq<u8>,
    g: FileView,
    w: FsView,
    t: Seq<ClusterId>,
)
    requires
        v.wf(),
        has_clusters(f, v, s),
        f.pos <= f.size(),
        wrote_on(f, v, s, put, g, w, t),
    ensures
        f.pos + put.len() <= t.len() * v.bpc(),
        f.size() <= s.len() * v.bpc(),
{
    if put.len() == 0 {
        lemma_longer(v, s, t);
    }
}

proof fn lemma_after_write(
    f: FileView,
    v: FsView,
    s: Seq<ClusterId>,
    put: Seq<u8>,
    w: FsView,
    t: Seq<ClusterId>,
    h: FileView,
    x: FsView,
)
    requires
        v.wf(),
        has_clusters(f, v, s),
        f.pos <= f.size(),
        f.pos + put.len() <= t.len() * v.bpc(),
        s.len() <= t.len(),
        w.geo == v.geo,
        has_clusters(h, x, t),
        h.pos == f.pos + put.len(),
        h.size() == (if f.pos + put.len() > f.size() {
            f.pos + put.len()
        } else {
            f.size() as int
        }),
        forall|p: int|
            #![trigger w.has_file_byte(t, p)]
            #![trigger w.file_byte(t, p)]
            f.pos <= p < f.pos + put.len() ==> w.has_file_byte(t, p) && w.file_byte(t, p) == put[p
                - f.pos],
        forall|p: int|
            0 <= p < s.len() * v.bpc() && !(f.pos <= p < f.pos + put.len())
                ==> #[trigger] same_file_byte(v, s, w, t, p),
        forall|p: int| 0 <= p < t.len() * w.bpc() ==> #[trigger] same_file_byte(w, t, x, t, p),
    ensures
        file_after_write(f, v, s, put, h, x, t),
{
    lemma_longer(v, s, t);
    assert forall|p: int|
        #![trigger x.has_file_byte(t, p)]
        #![trigger x.file_byte(t, p)]
        f.pos <= p < f.pos + put.len() implies x.has_file_byte(t, p) && x.file_byte(t, p) == put[p
        - f.pos] by {
        assert(w.has_file_byte(t, p));
        assert(same_file_byte(w, t, x, t, p));
    }
    assert forall|p: int|
        0 <= p < f.size() && !(f.pos <= p < f.pos + put.len()) implies #[trigger] same_file_byte(
        v,
        s,
        x,
        t,
        p,
    ) by {
        assert(same_file_byte(v, s, w, t, p));
        assert(same_file_byte(w, t, x, t, p));
    }
}

/// Whether a file is empty and owns no cluster, as one written by another tool
/// may.
pub open spec fn owns_nothing(f: FileView) -> bool {
    &&& f.dirent.first_cluster == 0
    &&& f.abs == 0
    &&& f.size() == 0
}

/// A write to a file, once that owns a cluster: the gap before it, if there is
/// one, and then the bytes.
spec fn write_owned(f: FileView, v: FsView, data: Seq<u8>, now: DateTime) -> (
    FileView,
    FsView,
    Result<nat, Error>,
) {
    match f.extend_to(v, f.pos as nat) {
        (g, x, Err(e)) => (g, x, Err(e)),
        (g, x, Ok(())) => g.place(x, f.fitting(data), now),
    }
}

/// What a write comes to.
pub open spec fn wrote(
    f: FileView,
    v: FsView,
    s: Seq<ClusterId>,
    data: Seq<u8>,
    now: DateTime,
    outcome: (FileView, FsView, Result<nat, Error>),
    t: Seq<ClusterId>,
) -> bool {
    match outcome {
        (g, w, Ok(n)) => {
            &&& n <= f.fitting(data).len()
            &&& n < f.fitting(data).len() ==> w.is_full() && n > 0
            &&& file_after_write(f, v, s, data.take(n as int), g, w, t)
            &&& g.location == f.location
            &&& entry_is(g, w)
            &&& g.dirent == written_entry(f.dirent, t[0], g.size(), now, v)
            &&& kept(v, w, s.to_set().insert(f.location->0.cluster))
            &&& within_or_free(v, t.to_set(), s.to_set())
            &&& same_but_slot(v, w, f.location->0)
        },
        (g, w, Err(e)) => {
            &&& e == Error::NoSpaceLeft
            &&& w.is_full()
            &&& file_after_failure(f, v, s, g, w, t)
        },
    }
}

/// A file whose chain has but become longer is the same file.
proof fn lemma_grown_file(v: FsView, s: Seq<ClusterId>, w: FsView, t: Seq<ClusterId>)
    requires
        v.wf(),
        v.is_chain(s),
        grew(v, s, w, t),
    ensures
        s.len() * v.bpc() <= t.len() * v.bpc(),
        forall|p: int| 0 <= p < s.len() * v.bpc() ==> #[trigger] same_file_byte(v, s, w, t, p),
{
    lemma_longer(v, s, t);
    lemma_written_nothing(v, s, w, t, 0);
    lemma_written_bytes(v, s, w, t, 0, Seq::empty());
}

/// A write that fails after a gap has been filled.
proof fn lemma_gap_failure(
    f: FileView,
    v: FsView,
    s: Seq<ClusterId>,
    g: FileView,
    x: FsView,
    u: Seq<ClusterId>,
    h: FileView,
    w: FsView,
    t: Seq<ClusterId>,
)
    requires
        f.size() < f.pos,
        g == (FileView { dirent: f.dirent.sized(f.pos), rel: g.rel, abs: g.abs, ..f }),
        v.wf(),
        kept(v, x, s.to_set()),
        within_or_free(v, u.to_set(), s.to_set()),
        u.len() > 0,
        forall|p: int| 0 <= p < f.size() ==> #[trigger] same_file_byte(v, s, x, u, p),
        forall|p: int|
            #![trigger x.has_file_byte(u, p)]
            #![trigger x.file_byte(u, p)]
            f.size() <= p < f.pos ==> x.has_file_byte(u, p) && x.file_byte(u, p) == 0,
        file_after_failure(g, x, u, h, w, t),
    ensures
        file_after_failure(f, v, s, h, w, t),
{
    lemma_kept_trans(v, x, w, s.to_set(), u.to_set());
    assert forall|p: int| 0 <= p < f.size() implies #[trigger] same_file_byte(v, s, w, t, p) by {
        assert(same_file_byte(v, s, x, u, p));
        assert(same_file_byte(x, u, w, t, p));
    }
    assert forall|p: int|
        #![trigger w.has_file_byte(t, p)]
        #![trigger w.file_byte(t, p)]
        f.size() <= p < h.size() implies w.has_file_byte(t, p) && w.file_byte(t, p) == 0 by {
        assert(x.has_file_byte(u, p) && x.file_byte(u, p) == 0);
        assert(same_file_byte(x, u, w, t, p));
    }
}

proof fn lemma_among(v: FsView, t: Seq<ClusterId>, s: Seq<ClusterId>)
    requires
        forall|i: int|
            #![trigger t[i]]
            0 <= i < t.len() ==> s.contains(t[i]) || v.is_free(t[i]),
    ensures
        within_or_free(v, t.to_set(), s.to_set()),
{
    assert forall|c: ClusterId| #[trigger] t.to_set().contains(c) implies s.to_set().contains(c)
        || v.is_free(c) by {
        let i = choose|i: int| 0 <= i < t.len() && t[i] == c;
        assert(s.contains(t[i]) || v.is_free(t[i]));
    }
}

/// Clusters that were either among some or free after a first step were so
/// before it too.
pub proof fn lemma_among_before(
    v: FsView,
    x: FsView,
    t: Set<ClusterId>,
    u: Set<ClusterId>,
    s: Set<ClusterId>,
)
    requires
        kept(v, x, s),
        within_or_free(x, t, u),
        within_or_free(v, u, s),
    ensures
        within_or_free(v, t, s),
{
    assert forall|c: ClusterId| #[trigger] t.contains(c) implies s.contains(c) || v.is_free(c) by {
        if !u.contains(c) && !s.contains(c) && !v.is_free(c) {
            assert(x.link(c) == v.link(c));
        }
    }
}

#[verifier::rlimit(40)]
proof fn lemma_write_owned(f: FileView, v: FsView, s: Seq<ClusterId>, data: Seq<u8>, now: DateTime) -> (t:
    Seq<ClusterId>)
    requires
        v.wf(),
        v.linkable(),
        v.geo.writable,
        f.dirent.wf(),
        has_clusters(f, v, s),
        entry_apart(f, v, s),
    ensures
        wrote(f, v, s, data, now, write_owned(f, v, data, now), t),
{
    let put = f.fitting(data);
    assert(put == data.take(put.len() as int)) by {
        assert(data.take(data.len() as int) =~= data);
    }
    if f.pos <= f.size() {
        let t = lemma_place(f, v, s, put, now);
        match f.place(v, put, now) {
            (g, w, Ok(n)) => {
                assert(put.take(n as int) =~= data.take(n as int));
                lemma_among(v, t, s);
            },
            _ => {},
        }
        t
    } else {
        let u = lemma_resize(v, s, f.size() as nat, f.pos as nat);
        match v.resize_chain(s[0], f.size() as nat, f.pos as nat) {
            (x, Ok(())) => {
                let g = FileView {
                    dirent: f.dirent.sized(f.pos),
                    rel: 0,
                    abs: f.dirent.first_cluster,
                    ..f
                };
                lemma_resized_bytes(v, s, x, u, f.size() as int, f.pos as int);
                let loc = f.location->0.cluster;
                assert(!u.contains(loc)) by {
                    if u.contains(loc) {
                        let i = choose|i: int| 0 <= i < u.len() && u[i] == loc;
                        if i < s.len() {
                            assert(u[i] == s[i]);
                            assert(s.contains(s[i]));
                        } else {
                            assert(v.is_free(u[i]));
                        }
                    }
                }
                assert(!s.to_set().contains(loc));
                assert(x.link(loc) == v.link(loc));
                let t = lemma_place(g, x, u, put, now);
                match g.place(x, put, now) {
                    (h, w, Ok(n)) => {
                        assert(put.take(n as int) =~= data.take(n as int));
                        let all = s.to_set().insert(loc);
                        lemma_kept_wider(v, x, s.to_set(), all);
                        assert(within_or_free(v, u.to_set().insert(loc), all)) by {
                            assert forall|c: ClusterId| #[trigger]
                                u.to_set().insert(loc).contains(c) implies all.contains(c)
                                || v.is_free(c) by {
                                if c != loc {
                                    let i = choose|i: int| 0 <= i < u.len() && u[i] == c;
                                    if i < s.len() {
                                        assert(u[i] == s[i]);
                                        assert(s.contains(s[i]));
                                    } else {
                                        assert(v.is_free(u[i]));
                                    }
                                }
                            }
                        }
                        lemma_kept_trans(v, x, w, all, u.to_set().insert(loc));
                        lemma_among(x, t, u);
                        lemma_among(v, u, s);
                        lemma_among_before(v, x, t.to_set(), u.to_set(), s.to_set());
                        assert(same_bytes(v, x, loc));
                        lemma_same_bytes_refl(w, loc);
                        lemma_but_slot(v, x, w, w, f.location->0);
                        lemma_gap(f, v, s, g, x, u, data.take(n as int), h, w, t);
                    },
                    (h, w, Err(_)) => {
                        assert(within_or_free(v, u.to_set(), s.to_set())) by {
                            assert forall|c: ClusterId| #[trigger]
                                u.to_set().contains(c) implies s.to_set().contains(c)
                                || v.is_free(c) by {
                                let i = choose|i: int| 0 <= i < u.len() && u[i] == c;
                                if i < s.len() {
                                    assert(u[i] == s[i]);
                                    assert(s.contains(s[i]));
                                } else {
                                    assert(v.is_free(u[i]));
                                }
                            }
                        }
                        lemma_gap_failure(f, v, s, g, x, u, h, w, t);
                    },
                }
                t
            },
            (x, Err(e)) => {
                lemma_grown_file(v, s, x, u);
                assert(u[0] == s[0]);
                assert(u[f.rel as int] == s[f.rel as int]);
                u
            },
        }
    }
}

/// What is kept but for some clusters is kept but for more of them.
pub proof fn lemma_kept_wider(v: FsView, w: FsView, s: Set<ClusterId>, t: Set<ClusterId>)
    requires
        kept(v, w, s),
        v.wf(),
        s.subset_of(t),
    ensures
        kept(v, w, t),
{
    lemma_kept_refl(v, t);
    assert(within_or_free(v, s, t));
    lemma_kept_trans(v, v, w, t, s);
}

/// A write after a gap has been filled.
proof fn lemma_gap(
    f: FileView,
    v: FsView,
    s: Seq<ClusterId>,
    g: FileView,
    x: FsView,
    u: Seq<ClusterId>,
    data: Seq<u8>,
    h: FileView,
    w: FsView,
    t: Seq<ClusterId>,
)
    requires
        f.size() < f.pos,
        g.pos == f.pos,
        g.size() == f.pos,
        forall|p: int| 0 <= p < f.size() ==> #[trigger] same_file_byte(v, s, x, u, p),
        forall|p: int|
            #![trigger x.has_file_byte(u, p)]
            #![trigger x.file_byte(u, p)]
            f.size() <= p < f.pos ==> x.has_file_byte(u, p) && x.file_byte(u, p) == 0,
        file_after_write(g, x, u, data, h, w, t),
    ensures
        file_after_write(f, v, s, data, h, w, t),
{
    assert forall|p: int| 0 <= p < f.size() implies #[trigger] same_file_byte(v, s, w, t, p) by {
        assert(same_file_byte(v, s, x, u, p));
        assert(same_file_byte(x, u, w, t, p));
    }
    assert forall|p: int|
        #![trigger w.has_file_byte(t, p)]
        #![trigger w.file_byte(t, p)]
        f.size() <= p < f.pos implies w.has_file_byte(t, p) && w.file_byte(t, p) == 0 by {
        assert(x.has_file_byte(u, p) && x.file_byte(u, p) == 0);
        assert(same_file_byte(x, u, w, t, p));
    }
}

/// What is written to a file can be read back from it.
///
/// Bytes that have been put down at a position are what a read from that
/// position gives. The rest of the file is as it was, a gap between its old end
/// and the position reads as zeroes, and nothing else that is in use is touched
/// but the slot of the file's entry, which says where the file is and how long
/// it has become. A write is only cut short, or fails, once
/// there is no cluster left to hand out, or at the largest size a file can
/// have. One that fails leaves the position and the bytes of the file as they
/// were.
///
/// The clusters of the file are `s`, none if it owns none yet, and its entry
/// has to lie outside of them.
pub proof fn law_a_write_reads_back(
    f: FileView,
    v: FsView,
    s: Seq<ClusterId>,
    data: Seq<u8>,
    now: DateTime,
) -> (t: Seq<ClusterId>)
    requires
        v.wf(),
        v.linkable(),
        v.geo.writable,
        f.dirent.wf(),
        entry_apart(f, v, s),
        has_clusters(f, v, s) || (owns_nothing(f) && s.len() == 0),
        f.pos < u32::MAX,
    ensures
        wrote(f, v, s, data, now, f.write(v, data, now), t),
        f.write(v, data, now) matches (g, w, Ok(n)) ==> (FileView { pos: f.pos, ..g }).read(w, n).1
            == Ok::<Seq<u8>, Error>(data.take(n as int)),
{
    reveal(FileView::write);
    let t = if s.len() > 0 {
        v.geo.lemma_cluster_fits(s[0]);
        assert(v.geo.has_cluster(s[f.rel as int]));
        assert(f.owning(f.dirent) == f);
        assert(f.write(v, data, now) == write_owned(f, v, data, now)) by {
            assert(v.geo.has_cluster(s[0]));
        }
        lemma_write_owned(f, v, s, data, now)
    } else {
        crate::chain::law_a_cluster_handed_out_was_free(v);
        match v.alloc_cluster(true) {
            (x, Ok(c)) => {
                let owner = f.dirent.starting_at(c);
                let g = f.owning(owner);
                let u = seq![c];
                assert(x.is_chain(u));
                let loc = f.location->0.cluster;
                assert(loc != c);
                assert(x.link(loc) == v.link(loc));
                let t = lemma_write_owned(g, x, u, data, now);
                assert(f.write(v, data, now) == write_owned(g, x, data, now));
                assert(g.fitting(data) == f.fitting(data));
                match f.write(v, data, now) {
                    (h, w, Ok(n)) => {
                        assert(same_bytes(v, x, loc));
                        lemma_same_bytes_refl(w, loc);
                        lemma_but_slot(v, x, w, w, f.location->0);
                        let all = s.to_set().insert(loc);
                        lemma_kept_wider(v, x, Set::empty(), all);
                        assert(within_or_free(v, u.to_set().insert(loc), all)) by {
                            assert forall|d: ClusterId| #[trigger]
                                u.to_set().insert(loc).contains(d) implies all.contains(d)
                                || v.is_free(d) by {
                                if d != loc {
                                    let i = choose|i: int| 0 <= i < u.len() && u[i] == d;
                                    assert(u[i] == c);
                                }
                            }
                        }
                        lemma_kept_trans(v, x, w, all, u.to_set().insert(loc));
                        lemma_among(v, u, s);
                        lemma_kept_wider(v, x, Set::empty(), s.to_set());
                        lemma_among_before(v, x, t.to_set(), u.to_set(), s.to_set());
                    },
                    (h, w, Err(_)) => {
                        assert(within_or_free(v, u.to_set(), s.to_set())) by {
                            assert forall|d: ClusterId| #[trigger]
                                u.to_set().contains(d) implies v.is_free(d) by {
                                let i = choose|i: int| 0 <= i < u.len() && u[i] == d;
                                assert(u[i] == c);
                            }
                        }
                        lemma_kept_wider(v, x, Set::empty(), s.to_set());
                        lemma_kept_trans(v, x, w, s.to_set(), u.to_set());
                    },
                }
                t
            },
            _ => {
                lemma_kept_refl(v, s.to_set());
                s
            },
        }
    };
    match f.write(v, data, now) {
        (g, w, Ok(n)) => {
            let h = FileView { pos: f.pos, ..g };
            let put = data.take(n as int);
            assert(w.has_file_bytes(t, f.pos as int, n));
            assert(readable(h, n) == n);
            law_reading_gives_the_bytes_of_the_file(h, w, t, n);
            assert(w.file_bytes(t, f.pos as int, n) =~= put);
        },
        _ => {},
    }
    t
}

/// Whether reading all of a file gives the bytes another had, as many of them as
/// it is long, and then zeroes.
pub open spec fn reads_on_as_zeroes(
    v: FsView,
    s: Seq<ClusterId>,
    old_size: u32,
    f: FileView,
    w: FsView,
) -> bool {
    let n = if old_size < f.size() {
        old_size as nat
    } else {
        f.size() as nat
    };
    v.has_file_bytes(s, 0, n) ==> f.read(w, f.size() as nat).1 == Ok::<Seq<u8>, Error>(
        v.file_bytes(s, 0, n) + zeroes((f.size() - n) as nat),
    )
}

proof fn lemma_reads_on(
    v: FsView,
    s: Seq<ClusterId>,
    old_size: u32,
    f: FileView,
    w: FsView,
    t: Seq<ClusterId>,
)
    requires
        w.wf(),
        has_clusters(f, w, t),
        f.pos == 0,
        forall|p: int|
            0 <= p < f.size() && p < old_size ==> #[trigger] same_file_byte(v, s, w, t, p),
        forall|p: int|
            #![trigger w.has_file_byte(t, p)]
            #![trigger w.file_byte(t, p)]
            old_size <= p < f.size() ==> w.has_file_byte(t, p) && w.file_byte(t, p) == 0,
    ensures
        reads_on_as_zeroes(v, s, old_size, f, w),
{
    let size = f.size() as nat;
    let n = if old_size < f.size() {
        old_size as nat
    } else {
        size
    };
    if v.has_file_bytes(s, 0, n) {
        assert forall|p: int| 0 <= p < size implies #[trigger] w.has_file_byte(t, p) by {
            if p < n {
                assert(v.has_file_byte(s, p));
                assert(same_file_byte(v, s, w, t, p));
            }
        }
        assert(readable(f, size) == size);
        law_reading_gives_the_bytes_of_the_file(f, w, t, size);
        assert forall|p: int| 0 <= p < size implies w.file_bytes(t, 0, size)[p] == (v.file_bytes(
            s,
            0,
            n,
        ) + zeroes((size - n) as nat))[p] by {
            if p < n {
                assert(v.has_file_byte(s, p));
                assert(same_file_byte(v, s, w, t, p));
            } else {
                assert(w.has_file_byte(t, p));
            }
        }
        assert(w.file_bytes(t, 0, size) =~= v.file_bytes(s, 0, n) + zeroes((size - n) as nat));
    }
}

/// What a change of the size of a file comes to.
pub open spec fn truncated(
    v: FsView,
    s: Seq<ClusterId>,
    e: EntryView,
    location: EntryLocation,
    size: u32,
    now: DateTime,
    outcome: (FsView, Result<(), Error>),
    t: Seq<ClusterId>,
) -> bool {
    match outcome {
        (w, Ok(())) => {
            &&& w.is_chain(t)
            &&& t.len() == v.clusters_for(size as nat)
            &&& w.entry_at(location.cluster, location.index as nat) == Ok::<EntryView, Error>(
                e.starting_at(t[0]).sized(size).modified_at(now, v.geo.variant),
            )
            &&& forall|p: int|
                0 <= p < size && p < e.file_size ==> #[trigger] same_file_byte(v, s, w, t, p)
            &&& forall|p: int|
                #![trigger w.has_file_byte(t, p)]
                #![trigger w.file_byte(t, p)]
                e.file_size <= p < size ==> w.has_file_byte(t, p) && w.file_byte(t, p) == 0
            &&& kept(v, w, s.to_set().insert(location.cluster))
            &&& within_or_free(v, t.to_set(), s.to_set())
            &&& same_but_slot(v, w, location)
            &&& reads_on_as_zeroes(
                v,
                s,
                e.file_size,
                FileView::opened(
                    e.starting_at(t[0]).sized(size).modified_at(now, v.geo.variant),
                    Some(location),
                ),
                w,
            )
        },
        (w, Err(er)) => {
            &&& er == Error::NoSpaceLeft
            &&& w.is_full()
            &&& kept(v, w, s.to_set())
            &&& s.len() > 0 ==> grew(v, s, w, t)
            &&& forall|p: int| 0 <= p < e.file_size ==> #[trigger] same_file_byte(v, s, w, t, p)
        },
    }
}

/// The steps that follow once a file owns a cluster.
proof fn lemma_truncate_owned(
    v: FsView,
    s: Seq<ClusterId>,
    e: EntryView,
    location: EntryLocation,
    size: u32,
    now: DateTime,
) -> (t: Seq<ClusterId>)
    requires
        v.wf(),
        v.linkable(),
        v.geo.writable,
        e.wf(),
        v.is_chain(s),
        e.first_cluster == s[0],
        e.file_size <= s.len() * v.bpc(),
        location.index < v.epc(),
        v.geo.has_cluster(location.cluster),
        !v.is_free(location.cluster),
        !s.contains(location.cluster),
    ensures
        truncated(v, s, e, location, size, now, v.truncate_entry(e, location, size, now), t),
{
    assert(v.geo.has_cluster(s[0]));
    v.geo.lemma_cluster_fits(s[0]);
    assert(v.ensure_first_cluster(e) == (v, Ok::<EntryView, Error>(e)));
    let t = lemma_resize(v, s, e.file_size as nat, size as nat);
    match v.resize_chain(s[0], e.file_size as nat, size as nat) {
        (x, Ok(())) => {
            lemma_resized_bytes(v, s, x, t, e.file_size as int, size as int);
            let loc = location.cluster;
            let f = e.sized(size).modified_at(now, v.geo.variant);
            assert(e.starting_at(t[0]) == e);
            lemma_put_entry(x, location, f);
            lemma_entry_put(x, location, f);
            let y = x.put_entry(location, f).0;
            lemma_flush(y);
            let w = y.flush_fat();
            assert(v.truncate_entry(e, location, size, now) == (w, Ok::<(), Error>(())));
            assert(same_bytes(y, w, loc));
            lemma_entry_same(y, w, loc, location.index as nat);
            assert(same_bytes(v, x, loc));
            lemma_but_slot(v, x, y, w, location);
            assert forall|i: int|
                #![trigger t[i]]
                0 <= i < t.len() implies same_bytes(x, w, t[i]) && w.link(t[i]) == x.link(t[i]) by {
                if i < s.len() {
                    assert(t[i] == s[i]);
                    assert(s.contains(s[i]));
                } else {
                    assert(v.is_free(t[i]));
                }
                assert(x.geo.has_cluster(t[i]));
                assert(same_bytes(x, y, t[i]));
                assert(same_bytes(y, w, t[i]));
                crate::chain::lemma_same_bytes_trans(x, y, w, t[i]);
                assert(y.link(t[i]) == x.link(t[i]));
                assert(w.link(t[i]) == y.link(t[i]));
            }
            lemma_same_file(x, w, t);
            assert forall|i: int|
                #![trigger t[i]]
                0 <= i < t.len() - 1 implies w.leads_to(t[i], t[i + 1]) by {
                assert(x.leads_to(t[i], t[i + 1]));
                assert(w.link(t[i]) == x.link(t[i]));
            }
            assert(w.link(t.last()) == x.link(t.last()));
            assert(w.is_chain(t));
            lemma_truncate_bytes(v, s, x, w, t, e.file_size as int, size as int);
            lemma_reads_on(v, s, e.file_size, FileView::opened(f, Some(location)), w, t);
            assert forall|i: int|
                #![trigger t[i]]
                0 <= i < t.len() implies s.contains(t[i]) || v.is_free(t[i]) by {
                if i < s.len() {
                    assert(t[i] == s[i]);
                    assert(s.contains(s[i]));
                }
            }
            lemma_among(v, t, s);
            let all = s.to_set().insert(loc);
            lemma_kept_wider(v, x, s.to_set(), all);
            assert(within_or_free(v, set![loc], all));
            lemma_kept_trans(v, x, y, all, set![loc]);
            assert(within_or_free(v, Set::empty(), all));
            lemma_kept_trans(v, y, w, all, Set::empty());
        },
        (x, Err(_)) => {
            lemma_grown_file(v, s, x, t);
        },
    }
    t
}

/// The bytes of a file are the same once its entry has been written back.
proof fn lemma_truncate_bytes(
    v: FsView,
    s: Seq<ClusterId>,
    x: FsView,
    w: FsView,
    t: Seq<ClusterId>,
    old_size: int,
    size: int,
)
    requires
        x.geo == v.geo,
        0 <= old_size,
        size <= t.len() * v.bpc(),
        forall|p: int| 0 <= p < size && p < old_size ==> #[trigger] same_file_byte(v, s, x, t, p),
        forall|p: int|
            #![trigger x.has_file_byte(t, p)]
            #![trigger x.file_byte(t, p)]
            old_size <= p < size ==> x.has_file_byte(t, p) && x.file_byte(t, p) == 0,
        forall|p: int| 0 <= p < t.len() * x.bpc() ==> #[trigger] same_file_byte(x, t, w, t, p),
    ensures
        forall|p: int| 0 <= p < size && p < old_size ==> #[trigger] same_file_byte(v, s, w, t, p),
        forall|p: int|
            #![trigger w.has_file_byte(t, p)]
            #![trigger w.file_byte(t, p)]
            old_size <= p < size ==> w.has_file_byte(t, p) && w.file_byte(t, p) == 0,
{
    assert forall|p: int| 0 <= p < size && p < old_size implies #[trigger] same_file_byte(
        v,
        s,
        w,
        t,
        p,
    ) by {
        assert(same_file_byte(v, s, x, t, p));
        assert(same_file_byte(x, t, w, t, p));
    }
    assert forall|p: int|
        #![trigger w.has_file_byte(t, p)]
        #![trigger w.file_byte(t, p)]
        old_size <= p < size implies w.has_file_byte(t, p) && w.file_byte(t, p) == 0 by {
        assert(x.has_file_byte(t, p) && x.file_byte(t, p) == 0);
        assert(same_file_byte(x, t, w, t, p));
    }
}

/// A file that is cut short keeps what comes before its new end, and one that
/// grows keeps all it had and reads as zeroes from there on, whether or not it
/// had clusters to spare.
///
/// It ends up with just the clusters that its new size takes, its entry says
/// so, and nothing else that is in use is touched but the slot of that entry.
/// Only a file that grows can fail to, and only once there is no cluster left
/// to hand out. Its bytes are then as they were.
///
/// The clusters of the file are `s`, none if it owns none yet, and its entry
/// has to lie outside of them.
pub proof fn law_a_resized_file_keeps_what_it_can(
    v: FsView,
    path: PathView,
    s: Seq<ClusterId>,
    e: EntryView,
    location: EntryLocation,
    size: u32,
    now: DateTime,
) -> (t: Seq<ClusterId>)
    requires
        v.wf(),
        v.linkable(),
        v.geo.writable,
        v.lookup(path) == Ok::<(EntryView, Option<EntryLocation>), Error>((e, Some(location))),
        !e.is_directory(),
        (v.is_chain(s) && e.first_cluster == s[0] && e.file_size <= s.len() * v.bpc()) || (s.len()
            == 0 && e.first_cluster == 0 && e.file_size == 0),
        !v.is_free(location.cluster),
        !s.contains(location.cluster),
    ensures
        truncated(v, s, e, location, size, now, v.truncate(path, size as u64, now), t),
{
    let loc = location.cluster;
    lemma_found_fits(v, path);
    assert(v.truncate(path, size as u64, now) == v.truncate_entry(e, location, size, now));
    if s.len() > 0 {
        lemma_truncate_owned(v, s, e, location, size, now)
    } else {
        crate::chain::law_a_cluster_handed_out_was_free(v);
        match v.alloc_cluster(true) {
            (x, Ok(c)) => {
                let owner = e.starting_at(c);
                let u = seq![c];
                assert(x.is_chain(u));
                assert(loc != c);
                assert(x.link(loc) == v.link(loc));
                v.geo.lemma_cluster_fits(c);
                let t = lemma_truncate_owned(x, u, owner, location, size, now);
                assert(x.ensure_first_cluster(owner) == (x, Ok::<EntryView, Error>(owner)));
                assert(v.truncate_entry(e, location, size, now) == x.truncate_entry(
                    owner,
                    location,
                    size,
                    now,
                ));
                match v.truncate_entry(e, location, size, now) {
                    (w, Ok(())) => {
                        assert(same_bytes(v, x, loc));
                        lemma_same_bytes_refl(w, loc);
                        lemma_but_slot(v, x, w, w, location);
                        let all = s.to_set().insert(loc);
                        lemma_kept_wider(v, x, Set::empty(), all);
                        assert(within_or_free(v, u.to_set().insert(loc), all)) by {
                            assert forall|d: ClusterId| #[trigger]
                                u.to_set().insert(loc).contains(d) implies all.contains(d)
                                || v.is_free(d) by {
                                if d != loc {
                                    let i = choose|i: int| 0 <= i < u.len() && u[i] == d;
                                    assert(u[i] == c);
                                }
                            }
                        }
                        lemma_kept_trans(v, x, w, all, u.to_set().insert(loc));
                        assert(owner.starting_at(t[0]) == e.starting_at(t[0]));
                        lemma_among(v, u, s);
                        lemma_kept_wider(v, x, Set::empty(), s.to_set());
                        lemma_among_before(v, x, t.to_set(), u.to_set(), s.to_set());
                        assert(x.file_bytes(u, 0, 0) =~= v.file_bytes(s, 0, 0));
                    },
                    (w, Err(_)) => {
                        assert(within_or_free(v, u.to_set(), s.to_set())) by {
                            assert forall|d: ClusterId| #[trigger]
                                u.to_set().contains(d) implies v.is_free(d) by {
                                let i = choose|i: int| 0 <= i < u.len() && u[i] == d;
                                assert(u[i] == c);
                            }
                        }
                        lemma_kept_wider(v, x, Set::empty(), s.to_set());
                        lemma_kept_trans(v, x, w, s.to_set(), u.to_set());
                    },
                }
                t
            },
            _ => {
                lemma_kept_refl(v, s.to_set());
                s
            },
        }
    }
}

} // verus!
