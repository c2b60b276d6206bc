//! What a directory is found to hold, by looking names up and by listing it.

use vstd::prelude::*;

#[allow(unused_imports)]
use crate::chain::lemma_chain_len;
#[allow(unused_imports)]
use crate::dir::{EntryLocation, EntryView};
use crate::error::Error;
use crate::fat::ClusterId;
#[allow(unused_imports)]
use crate::fat::FatEntry;
use crate::path::PathView;
#[allow(unused_imports)]
use crate::tree::{lemma_entry_at, lemma_find, lemma_slot_split, lemma_walk};
use crate::volume::FsView;
#[allow(unused_imports)]
use crate::slots::{first_stop, is_before_end, lemma_first_stop, lemma_search, search};
#[allow(unused_imports)]
use crate::walk::{lemma_found_fits, lemma_moves_on, IterView, WalkEnd};

verus! {

/// Whether an entry is live, by its first byte: neither deleted nor the end of its
/// directory.
pub open spec fn is_live(e: EntryView) -> bool {
    e.filename_len != 0xe5 && e.filename_len != 0xff && e.filename_len != 0
}

/// Whether an entry ends its directory.
pub open spec fn is_end(e: EntryView) -> bool {
    e.filename_len == 0xff || e.filename_len == 0
}

/// Whether an entry is live and has just this name.
pub open spec fn is_called(e: EntryView, name: Seq<u8>) -> bool {
    &&& is_live(e)
    &&& e.filename_len == name.len()
    &&& name.len() <= 42
    &&& forall|i: int| 0 <= i < name.len() ==> #[trigger] e.filename_bytes[i] == name[i]
}

proof fn lemma_called(e: EntryView, name: Seq<u8>)
    requires
        e.wf(),
    ensures
        e.has_name(name) == is_called(e, name),
{
    let own = e.name_bytes();
    if e.filename_len <= 42 {
        if e.has_name(name) {
            assert forall|i: int| 0 <= i < name.len() implies #[trigger] e.filename_bytes[i]
                == name[i] by {
                assert(own[i] == e.filename_bytes[i]);
            }
        }
        if is_called(e, name) {
            assert(own =~= name);
        }
    }
}

/// The live entries from some slot on.
spec fn live_from(slots: Seq<EntryView>, k: nat) -> Seq<EntryView>
    decreases slots.len() - k,
{
    if k >= slots.len() || slots[k as int].kind() is EndOfDirectory {
        Seq::empty()
    } else if slots[k as int].kind() is Valid {
        seq![slots[k as int]] + live_from(slots, k + 1)
    } else {
        live_from(slots, k + 1)
    }
}

/// An iteration that has come to just before a slot.
spec fn before_slot(v: FsView, d: Seq<ClusterId>, k: int) -> IterView {
    let epc = v.epc() as int;
    if k == 0 {
        IterView::start(d[0], v.fat.entries)
    } else {
        IterView {
            cluster: d[(k - 1) / epc],
            entry: (k - 1) % epc,
            finished: false,
            left: (v.fat.entries - (k - 1) / epc) as nat,
        }
    }
}

/// One step of an iteration.
proof fn lemma_step(v: FsView, d: Seq<ClusterId>, k: int)
    requires
        v.wf(),
        v.is_dir(d),
        0 <= k <= d.len() * v.epc(),
    ensures
        before_slot(v, d, k).wf(v),
        k < d.len() * v.epc() ==> before_slot(v, d, k).next(v) == (
            IterView {
                finished: v.slots(d)[k].kind() is EndOfDirectory,
                ..before_slot(v, d, k + 1)
            },
            Some(Ok::<EntryView, Error>(v.slots(d)[k])),
        ),
        k == d.len() * v.epc() ==> before_slot(v, d, k).next(v).1 is None,
{
    let epc = v.epc() as int;
    lemma_chain_len(v, d);
    assert(v.is_chain(d));
    assert(d.len() * epc >= epc) by (nonlinear_arith)
        requires
            d.len() >= 1,
            epc >= 0,
    ;
    if k > 0 {
        lemma_slot_split(v, k - 1, d.len() as int);
    }
    if k < d.len() * epc {
        lemma_slot_split(v, k, d.len() as int);
        let i = k / epc;
        let j = k % epc;
        assert(v.is_loaded(d[i]));
        lemma_entry_at(v, d[i], j);
        if k == 0 {
            assert(i == 0 && j == 0) by {
                vstd::arithmetic::div_mod::lemma_fundamental_div_mod_converse(0, epc, 0, 0);
            }
        } else {
            let pi = (k - 1) / epc;
            let pj = (k - 1) % epc;
            if pj + 1 < epc {
                vstd::arithmetic::div_mod::lemma_fundamental_div_mod_converse(k, epc, pi, pj + 1);
            } else {
                assert((pi + 1) * epc == pi * epc + epc) by (nonlinear_arith);
                vstd::arithmetic::div_mod::lemma_fundamental_div_mod_converse(k, epc, pi + 1, 0);
                assert(v.leads_to(d[pi], d[pi + 1]));
            }
        }
    } else {
        let pi = (k - 1) / epc;
        let pj = (k - 1) % epc;
        assert(pi == d.len() - 1 && pj == epc - 1) by {
            assert((d.len() - 1) * epc + (epc - 1) == k - 1) by (nonlinear_arith)
                requires
                    k == d.len() * epc,
            ;
            vstd::arithmetic::div_mod::lemma_fundamental_div_mod_converse(
                k - 1,
                epc,
                d.len() - 1,
                epc - 1,
            );
        }
        assert(v.ends_at(d.last()));
    }
}

/// All that an iteration comes to.
proof fn lemma_collects(v: FsView, d: Seq<ClusterId>, k: nat)
    requires
        v.wf(),
        v.is_dir(d),
        k <= d.len() * v.epc(),
    ensures
        before_slot(v, d, k as int).collect(v) == Ok::<Seq<EntryView>, Error>(
            live_from(v.slots(d), k),
        ),
    decreases d.len() * v.epc() - k,
{
    let it = before_slot(v, d, k as int);
    let slots = v.slots(d);
    lemma_step(v, d, k as int);
    lemma_moves_on(it, v);
    if k < d.len() * v.epc() {
        let e = slots[k as int];
        let next = before_slot(v, d, (k + 1) as int);
        lemma_step(v, d, (k + 1) as int);
        lemma_moves_on(next, v);
        if e.kind() is EndOfDirectory {
            let last = IterView { finished: true, ..next };
            assert(last.next(v) == (last, None::<Result<EntryView, Error>>));
            assert(it.next_valid(v) == last.next_valid(v));
        } else {
            lemma_collects(v, d, k + 1);
            if e.kind() is Valid {
                assert(it.next_valid(v) == (next, Some(Ok::<EntryView, Error>(e))));
            } else {
                assert(it.next_valid(v) == next.next_valid(v));
            }
        }
    }
}

proof fn lemma_live(slots: Seq<EntryView>, k: nat, end: nat)
    requires
        k <= end <= slots.len(),
        forall|j: int| k <= j < end ==> !is_end(#[trigger] slots[j]),
        end < slots.len() ==> is_end(slots[end as int]),
    ensures
        live_from(slots, k) == slots.subrange(k as int, end as int).filter(
            |e: EntryView| is_live(e),
        ),
    decreases end - k,
{
    let live = |e: EntryView| is_live(e);
    reveal_with_fuel(Seq::filter, 2);
    if k < end {
        let e = slots[k as int];
        assert(!is_end(slots[k as int]));
        lemma_live(slots, k + 1, end);
        let rest = slots.subrange((k + 1) as int, end as int);
        assert(slots.subrange(k as int, end as int) =~= seq![e] + rest);
        Seq::filter_distributes_over_add(seq![e], rest, live);
        assert(seq![e].drop_last() =~= Seq::empty());
        assert(seq![e].last() == e);
        assert(Seq::<EntryView>::empty().filter(live) =~= Seq::empty());
        assert(seq![e].filter(live) =~= if live(e) {
            seq![e]
        } else {
            Seq::empty()
        });
        assert(Seq::<EntryView>::empty() + rest.filter(live) =~= rest.filter(live));
    }
}

spec fn end_from(slots: Seq<EntryView>, k: nat) -> nat
    decreases slots.len() - k,
{
    if k >= slots.len() || is_end(slots[k as int]) {
        k
    } else {
        end_from(slots, k + 1)
    }
}

proof fn lemma_end(slots: Seq<EntryView>, k: nat)
    requires
        k <= slots.len(),
    ensures
        k <= end_from(slots, k) <= slots.len(),
        forall|j: int| k <= j < end_from(slots, k) ==> !is_end(#[trigger] slots[j]),
        end_from(slots, k) < slots.len() ==> is_end(slots[end_from(slots, k) as int]),
    decreases slots.len() - k,
{
    if k < slots.len() && !is_end(slots[k as int]) {
        lemma_end(slots, k + 1);
    }
}

/// Listing a directory gives its live entries, in the order of their slots, up to
/// the first that ends it or to the last there is, and leaves none of them out.
///
/// The entries go up to slot `end`.
pub proof fn law_a_directory_lists_its_live_entries(
    v: FsView,
    path: PathView,
    e: EntryView,
    location: Option<EntryLocation>,
    d: Seq<ClusterId>,
) -> (end: nat)
    requires
        v.wf(),
        v.lookup(path) == Ok::<(EntryView, Option<EntryLocation>), Error>((e, location)),
        e.is_directory(),
        v.is_dir(d),
        e.first_cluster == d[0],
    ensures
        ({
            let slots = v.slots(d);
            &&& end <= slots.len()
            &&& forall|j: int| 0 <= j < end ==> !is_end(#[trigger] slots[j])
            &&& end < slots.len() ==> is_end(slots[end as int])
            &&& v.entries_of(path) == Ok::<Seq<EntryView>, Error>(
                slots.take(end as int).filter(|e: EntryView| is_live(e)),
            )
        }),
{
    let slots = v.slots(d);
    let end = end_from(slots, 0);
    lemma_end(slots, 0);
    lemma_collects(v, d, 0);
    lemma_live(slots, 0, end);
    assert(slots.subrange(0, end as int) =~= slots.take(end as int));
    end
}

/// What comes before the first slot that is not deleted is no live entry.
proof fn lemma_live_after(slots: Seq<EntryView>, k: nat)
    requires
        k <= slots.len(),
    ensures
        ({
            let at = first_stop(slots, k, |e: EntryView| !(e.kind() is Deleted)) as int;
            (live_from(slots, k).len() == 0) == !(at < slots.len() && slots[at].kind() is Valid)
        }),
    decreases slots.len() - k,
{
    if k < slots.len() && slots[k as int].kind() is Deleted {
        lemma_live_after(slots, k + 1);
    }
}

/// A directory is empty just if listing it gives nothing.
pub proof fn law_an_empty_directory_lists_nothing(
    v: FsView,
    path: PathView,
    e: EntryView,
    location: Option<EntryLocation>,
    d: Seq<ClusterId>,
)
    requires
        v.wf(),
        v.lookup(path) == Ok::<(EntryView, Option<EntryLocation>), Error>((e, location)),
        e.is_directory(),
        v.is_dir(d),
        e.first_cluster == d[0],
    ensures
        v.directory_is_empty(d[0]) is Ok,
        v.entries_of(path) is Ok,
        v.directory_is_empty(d[0]) == Ok::<bool, Error>(true) <==> v.entries_of(path) == Ok::<
            Seq<EntryView>,
            Error,
        >(Seq::empty()),
{
    let stop = |e: EntryView| !(e.kind() is Deleted);
    let slots = v.slots(d);
    lemma_chain_len(v, d);
    lemma_walk(v, d, 0, 0, v.fat.entries, stop);
    lemma_first_stop(slots, 0, stop);
    lemma_collects(v, d, 0);
    lemma_live_after(slots, 0);
    if live_from(slots, 0).len() == 0 {
        assert(live_from(slots, 0) =~= Seq::empty());
    }
}

proof fn lemma_descends_to_name(v: FsView, dir: ClusterId, comps: Seq<Seq<u8>>, k: nat)
    requires
        k < comps.len(),
        v.descend(dir, comps, k) is Ok,
    ensures
        (v.descend(dir, comps, k)->Ok_0).0.has_name(comps.last()),
    decreases comps.len() - k,
{
    if k + 1 < comps.len() {
        let (e, _) = v.find_in(dir, comps[k as int])->Ok_0;
        lemma_descends_to_name(v, e.first_cluster, comps, k + 1);
    }
}

/// What a path is found to lead to is the entry at the place that comes with it, it
/// is live, and it has just the name the path ends in. Only the root has no place.
pub proof fn law_what_is_found_has_the_name_looked_for(v: FsView, path: PathView)
    requires
        v.wf(),
        v.lookup(path) is Ok,
    ensures
        path.absolute,
        match v.lookup(path)->Ok_0 {
            (e, None) => path.comps.len() == 0 && e.is_directory() && e.first_cluster
                == v.geo.root_cluster,
            (e, Some(location)) => {
                &&& path.comps.len() > 0
                &&& is_called(e, path.comps.last())
                &&& v.entry_at(location.cluster, location.index as nat) == Ok::<EntryView, Error>(e)
            },
        },
{
    if path.comps.len() > 0 {
        lemma_descends_to_name(v, v.geo.root_cluster, path.comps, 0);
        lemma_found_fits(v, path);
        lemma_called((v.lookup(path)->Ok_0).0, path.comps.last());
    } else {
        assert(0x10u8 & 0x08u8 != 0x08u8) by (bit_vector);
        assert(0x10u8 & 0x10u8 == 0x10u8) by (bit_vector);
    }
}

/// A name is found in a directory just if a live entry before its end has it, and
/// then that entry is what is found.
pub proof fn law_a_name_is_found_if_it_is_there(
    v: FsView,
    d: Seq<ClusterId>,
    name: Seq<u8>,
    k: int,
)
    requires
        v.wf(),
        v.is_dir(d),
        0 <= k < v.slots(d).len(),
        forall|j: int| 0 <= j <= k ==> !is_end(#[trigger] v.slots(d)[j]),
    ensures
        is_called(v.slots(d)[k], name) ==> v.find_in(d[0], name) == Ok::<
            (EntryView, EntryLocation),
            Error,
        >((v.slots(d)[k], v.place_of(d, k))),
        v.find_in(d[0], name) == Err::<(EntryView, EntryLocation), Error>(Error::NotFound)
            ==> !is_called(v.slots(d)[k], name),
{
    let slots = v.slots(d);
    lemma_find(v, d, name);
    lemma_search(slots, name);
    lemma_called(slots[k], name);
    assert(is_before_end(slots, k)) by {
        assert forall|j: int| 0 <= j <= k implies !((
        #[trigger] slots[j]).kind() is EndOfDirectory) by {
            assert(!is_end(slots[j]));
        }
    }
    if slots[k].has_name(name) {
        let m = search(slots, name)->0 as int;
        if m < k {
            assert(!slots[k].has_name(name));
        }
    }
}

proof fn lemma_descends_one_more(v: FsView, dir: ClusterId, comps: Seq<Seq<u8>>, k: nat)
    requires
        k + 1 < comps.len(),
    ensures
        v.descend(dir, comps, k) == (match v.descend(dir, comps.drop_last(), k) {
            Err(e) => Err(e),
            Ok((e, _)) => if e.is_directory() {
                v.find_in(e.first_cluster, comps.last())
            } else {
                Err(Error::NotADirectory)
            },
        }),
    decreases comps.len() - k,
{
    assert(comps.drop_last()[k as int] == comps[k as int]);
    if let Ok((e, _)) = v.find_in(dir, comps[k as int]) {
        if k + 2 < comps.len() {
            lemma_descends_one_more(v, e.first_cluster, comps, k + 1);
        }
    }
}

/// Looking a path up is looking up the directory it lies in, and then finding its last
/// name there. Where the first fails, so does the second, and nothing lies in a file.
/// The root is there without looking, and only what starts at the root is found.
pub proof fn law_a_lookup_goes_step_by_step(v: FsView, path: PathView)
    ensures
        !path.absolute ==> v.lookup(path) is Err,
        path.absolute && path.comps.len() == 0 ==> (v.lookup(path) matches Ok((e, None))
            && e.first_cluster == v.geo.root_cluster && e.is_directory() && e.file_size == 0
            && e.created_date == 0 && e.created_time == 0 && e.modified_date == 0
            && e.modified_time == 0 && e.accessed_date == 0 && e.accessed_time == 0),
        path.absolute && path.comps.len() > 0 ==> v.lookup(path) == (match v.lookup(
            (PathView { absolute: true, comps: path.comps.drop_last() }),
        ) {
            Err(e) => Err(e),
            Ok((e, _)) => if e.is_directory() {
                match v.find_in(e.first_cluster, path.comps.last()) {
                    Ok((f, location)) => Ok((f, Some(location))),
                    Err(e) => Err(e),
                }
            } else {
                Err(Error::NotADirectory)
            },
        }),
{
    let root = EntryView::root(v.geo.root_cluster);
    assert(root.is_directory()) by {
        assert(0x10u8 & 0x08u8 != 0x08u8) by (bit_vector);
        assert(0x10u8 & 0x10u8 == 0x10u8) by (bit_vector);
    }
    if path.absolute && path.comps.len() > 1 {
        lemma_descends_one_more(v, v.geo.root_cluster, path.comps, 0);
    }
}

/// A new entry goes into the first slot of a directory that holds no live one. If an
/// entry has been deleted there, that is all that happens: the directory stays as it is.
pub proof fn law_a_new_entry_goes_into_the_first_free_slot(
    v: FsView,
    d: Seq<ClusterId>,
    k: int,
)
    requires
        v.wf(),
        v.is_dir(d),
        0 <= k < v.slots(d).len(),
        forall|j: int| 0 <= j < k ==> is_live(#[trigger] v.slots(d)[j]),
        !is_live(v.slots(d)[k]),
    ensures
        v.slots(d)[k].filename_len == 0xe5 ==> v.alloc_entry(d[0]) == (
            v,
            Ok::<EntryLocation, Error>(v.place_of(d, k)),
        ),
        v.alloc_entry(d[0]).1 matches Ok(location) ==> location == v.place_of(d, k),
{
    let stop = |e: EntryView| !(e.kind() is Valid);
    let slots = v.slots(d);
    lemma_chain_len(v, d);
    lemma_walk(v, d, 0, 0, v.fat.entries, stop);
    lemma_first_stop(slots, 0, stop);
    let at = first_stop(slots, 0, stop) as int;
    assert(at == k) by {
        if at < k {
            assert(is_live(slots[at]));
        }
        if k < at {
            assert(!stop(slots[k]));
        }
    }
}

/// A directory whose chain is broken is not walked on past the break: looking for
/// something there fails, and a listing has just what came before. The same goes for one
/// that would take more clusters than there are.
pub proof fn law_a_broken_directory_ends_where_it_breaks(
    v: FsView,
    c: ClusterId,
    left: nat,
    stop: spec_fn(EntryView) -> bool,
)
    requires
        v.wf(),
        match v.link(c) {
            Ok(FatEntry::End) => false,
            Ok(FatEntry::Data(_)) => left == 0,
            _ => true,
        },
    ensures
        v.walk(c, v.epc(), left, stop) == WalkEnd::Failed(
            match v.link(c) {
                Err(e) => e,
                Ok(_) => Error::InvalidClusterChain,
            },
        ),
        (IterView { cluster: c, entry: v.epc() - 1, finished: false, left }).collect(v) == Ok::<
            Seq<EntryView>,
            Error,
        >(Seq::empty()),
{
    let it = IterView { cluster: c, entry: v.epc() - 1, finished: false, left };
    let done = IterView { finished: true, ..it };
    assert(it.next(v).0 == done && it.next(v).1 matches Some(Err(_)));
    assert(it.next_valid(v) == it.next(v));
    assert(done.next(v) == (done, None::<Result<EntryView, Error>>));
    assert(done.next_valid(v) == done.next(v));
    assert(done.collect(v) == Ok::<Seq<EntryView>, Error>(Seq::empty()));
    assert(it.moves_on_to(done, v));
}

} // verus!
