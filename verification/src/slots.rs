//! Directories as rows of slots: what can be found in them, and what changes
//! when an entry comes or goes.

use vstd::prelude::*;

#[allow(unused_imports)]
use crate::dir::EntryView;

verus! {

/// The first slot from `k` on that is looked for or ends the directory, or the
/// number of slots if there is none.
pub open spec fn first_stop(
    slots: Seq<EntryView>,
    k: nat,
    stop: spec_fn(EntryView) -> bool,
) -> nat
    decreases slots.len() - k,
{
    if k >= slots.len() {
        slots.len()
    } else if stop(slots[k as int]) || slots[k as int].kind() is EndOfDirectory {
        k
    } else {
        first_stop(slots, k + 1, stop)
    }
}

/// The slot of the entry with a given name.
pub open spec fn search(slots: Seq<EntryView>, name: Seq<u8>) -> Option<nat> {
    let k = first_stop(slots, 0, |e: EntryView| e.has_name(name));
    if k < slots.len() && slots[k as int].has_name(name) {
        Some(k)
    } else {
        None
    }
}

/// Whether a slot comes before the end of a directory.
pub open spec fn is_before_end(slots: Seq<EntryView>, k: int) -> bool {
    forall|j: int| 0 <= j <= k ==> !((#[trigger] slots[j]).kind() is EndOfDirectory)
}

/// Whether no two entries of a directory have the same name.
pub open spec fn names_differ(slots: Seq<EntryView>) -> bool {
    forall|j: int, k: int, name: Seq<u8>|
        #![trigger slots[j].has_name(name), slots[k].has_name(name)]
        0 <= j < k < slots.len() && is_before_end(slots, k) && slots[j].has_name(name)
            ==> !slots[k].has_name(name)
}

/// Whether an entry can be put into a slot: it comes no later than the end of
/// the directory, holds no live entry, and if it ends the directory, so does
/// the slot after it.
pub open spec fn is_open(slots: Seq<EntryView>, k: int) -> bool {
    &&& 0 <= k < slots.len()
    &&& forall|j: int| 0 <= j < k ==> !((#[trigger] slots[j]).kind() is EndOfDirectory)
    &&& !(slots[k].kind() is Valid)
    &&& slots[k].kind() is EndOfDirectory && k + 1 < slots.len() ==> slots[k
        + 1].kind() is EndOfDirectory
}

/// What the search for the first stop finds.
pub proof fn lemma_first_stop(slots: Seq<EntryView>, k: nat, stop: spec_fn(EntryView) -> bool)
    requires
        k <= slots.len(),
    ensures
        k <= first_stop(slots, k, stop) <= slots.len(),
        forall|j: int|
            #![trigger slots[j]]
            k <= j < first_stop(slots, k, stop) ==> !stop(slots[j])
                && !(slots[j].kind() is EndOfDirectory),
        first_stop(slots, k, stop) < slots.len() ==> stop(slots[first_stop(slots, k, stop) as int])
            || slots[first_stop(slots, k, stop) as int].kind() is EndOfDirectory,
    decreases slots.len() - k,
{
    if k < slots.len() && !(stop(slots[k as int]) || slots[k as int].kind() is EndOfDirectory) {
        lemma_first_stop(slots, k + 1, stop);
    }
}

/// There is only one place the search can end at.
proof fn lemma_stop_at(slots: Seq<EntryView>, k: nat, stop: spec_fn(EntryView) -> bool, at: nat)
    requires
        k <= at <= slots.len(),
        forall|j: int|
            #![trigger slots[j]]
            k <= j < at ==> !stop(slots[j]) && !(slots[j].kind() is EndOfDirectory),
        at < slots.len() ==> stop(slots[at as int]) || slots[at as int].kind() is EndOfDirectory,
    ensures
        first_stop(slots, k, stop) == at,
    decreases at - k,
{
    if k < at {
        assert(!stop(slots[k as int]));
        lemma_stop_at(slots, k + 1, stop, at);
    }
}

/// What a search finds, in both directions.
pub proof fn lemma_search(slots: Seq<EntryView>, name: Seq<u8>)
    ensures
        search(slots, name) matches Some(k) ==> {
            &&& k < slots.len()
            &&& slots[k as int].has_name(name)
            &&& is_before_end(slots, k as int)
            &&& forall|j: int| 0 <= j < k ==> !(#[trigger] slots[j]).has_name(name)
        },
        search(slots, name) is None ==> forall|k: int|
            #![trigger slots[k].has_name(name)]
            0 <= k < slots.len() && is_before_end(slots, k) ==> !slots[k].has_name(name),
{
    let stop = |e: EntryView| e.has_name(name);
    lemma_first_stop(slots, 0, stop);
    let at = first_stop(slots, 0, stop);
    if search(slots, name) is None {
        assert forall|k: int|
            #![trigger slots[k].has_name(name)]
            0 <= k < slots.len() && is_before_end(slots, k) implies !slots[k].has_name(name) by {
            if k >= at {
                assert(!(slots[at as int].kind() is EndOfDirectory));
            } else {
                assert(!stop(slots[k]));
            }
        }
    } else {
        assert forall|j: int| 0 <= j < at implies !(#[trigger] slots[j]).has_name(name) by {
            assert(!stop(slots[j]));
        }
    }
}

/// A slot that has a name, comes before the end and is the first such is what
/// the search finds.
proof fn lemma_search_finds(slots: Seq<EntryView>, name: Seq<u8>, k: int)
    requires
        0 <= k < slots.len(),
        slots[k].has_name(name),
        forall|j: int|
            #![trigger slots[j]]
            0 <= j < k ==> !slots[j].has_name(name) && !(slots[j].kind() is EndOfDirectory),
    ensures
        search(slots, name) == Some(k as nat),
{
    lemma_stop_at(slots, 0, |e: EntryView| e.has_name(name), k as nat);
}

/// Two rows of slots that are the same up to the end of the directory.
proof fn lemma_search_same(a: Seq<EntryView>, b: Seq<EntryView>, name: Seq<u8>)
    requires
        forall|k: int|
            0 <= k < a.len() && is_before_end(a, k) && (#[trigger] a[k]).has_name(name) ==> k
                < b.len() && is_before_end(b, k) && b[k] == a[k],
        forall|k: int|
            0 <= k < b.len() && is_before_end(b, k) && (#[trigger] b[k]).has_name(name) ==> k
                < a.len() && is_before_end(a, k) && a[k] == b[k],
    ensures
        search(a, name) == search(b, name),
        search(a, name) matches Some(k) ==> b[k as int] == a[k as int],
{
    lemma_search(a, name);
    lemma_search(b, name);
    match search(a, name) {
        Some(k) => {
            assert(b[k as int].has_name(name));
            assert forall|j: int|
                #![trigger b[j]]
                0 <= j < k implies !b[j].has_name(name) && !(b[j].kind() is EndOfDirectory) by {
                if b[j].has_name(name) {
                    assert(is_before_end(b, j)) by {
                        assert(is_before_end(b, k as int));
                    }
                    assert(a[j].has_name(name));
                }
            }
            lemma_search_finds(b, name, k as int);
        },
        None => {
            if let Some(k) = search(b, name) {
                assert(a[k as int].has_name(name));
            }
        },
    }
}

/// A new entry is found under its name, and everything else is found, or not
/// found, as before.
pub proof fn lemma_insert(slots: Seq<EntryView>, k: int, e: EntryView, name: Seq<u8>)
    requires
        is_open(slots, k),
        search(slots, name) is None,
        e.has_name(name),
    ensures
        search(slots.update(k, e), name) == Some(k as nat),
        forall|n: Seq<u8>|
            #![trigger search(slots.update(k, e), n)]
            n != name ==> search(slots.update(k, e), n) == search(slots, n) && (search(slots, n)
                matches Some(j) ==> slots.update(k, e)[j as int] == slots[j as int]),
        names_differ(slots) ==> names_differ(slots.update(k, e)),
{
    let new = slots.update(k, e);
    lemma_search(slots, name);
    assert forall|j: int|
        #![trigger new[j]]
        0 <= j < k implies !new[j].has_name(name) && !(new[j].kind() is EndOfDirectory) by {
        assert(new[j] == slots[j]);
        assert(is_before_end(slots, j));
    }
    lemma_search_finds(new, name, k);
    assert forall|j: int| 0 <= j < new.len() && j != k && is_before_end(new, j) implies
        #[trigger] is_before_end(slots, j) by {
        if j < k {
            assert forall|i: int| 0 <= i <= j implies !((
            #[trigger] slots[i]).kind() is EndOfDirectory) by {
                assert(new[i] == slots[i]);
            }
        } else {
            assert(new[k + 1] == slots[k + 1]);
            assert forall|i: int| 0 <= i <= j implies !((
            #[trigger] slots[i]).kind() is EndOfDirectory) by {
                if i != k {
                    assert(new[i] == slots[i]);
                }
            }
        }
    }
    assert forall|j: int| 0 <= j < slots.len() && is_before_end(slots, j) implies
        #[trigger] is_before_end(new, j) by {
        assert forall|i: int| 0 <= i <= j implies !((#[trigger] new[i]).kind() is EndOfDirectory) by {
            if i != k {
                assert(new[i] == slots[i]);
            }
        }
    }
    assert forall|n: Seq<u8>|
        #![trigger search(new, n)]
        n != name implies search(new, n) == search(slots, n) && (search(slots, n) matches Some(j)
        ==> new[j as int] == slots[j as int]) by {
        assert(!e.has_name(n));
        assert(!slots[k].has_name(n));
        assert forall|j: int|
            0 <= j < slots.len() && is_before_end(slots, j) && (#[trigger] slots[j]).has_name(
                n,
            ) implies j < new.len() && is_before_end(new, j) && new[j] == slots[j] by {
            assert(j != k);
        }
        assert forall|j: int|
            0 <= j < new.len() && is_before_end(new, j) && (#[trigger] new[j]).has_name(
                n,
            ) implies j < slots.len() && is_before_end(slots, j) && slots[j] == new[j] by {
            assert(j != k);
        }
        lemma_search_same(slots, new, n);
    }
    if names_differ(slots) {
        assert forall|i: int, j: int, n: Seq<u8>|
            #![trigger new[i].has_name(n), new[j].has_name(n)]
            0 <= i < j < new.len() && is_before_end(new, j) && new[i].has_name(
                n,
            ) implies !new[j].has_name(n) by {
            assert(is_before_end(new, i)) by {
                assert(is_before_end(new, j));
            }
            if i == k {
                assert(n == name);
                assert(is_before_end(slots, j));
                assert(new[j] == slots[j]);
            } else if j == k {
                assert(is_before_end(slots, i));
                assert(new[i] == slots[i]);
                if new[j].has_name(n) {
                    assert(n == name);
                }
            } else {
                assert(is_before_end(slots, j));
                assert(new[i] == slots[i] && new[j] == slots[j]);
            }
        }
    }
}

/// An entry that is deleted is no longer found, and everything else is found,
/// or not found, as before.
pub proof fn lemma_delete(slots: Seq<EntryView>, k: int, gone: EntryView, name: Seq<u8>)
    requires
        names_differ(slots),
        search(slots, name) == Some(k as nat),
        0 <= k,
        gone.kind() is Deleted,
    ensures
        search(slots.update(k, gone), name) is None,
        forall|n: Seq<u8>|
            #![trigger search(slots.update(k, gone), n)]
            n != name ==> search(slots.update(k, gone), n) == search(slots, n) && (search(slots, n)
                matches Some(j) ==> slots.update(k, gone)[j as int] == slots[j as int]),
        names_differ(slots.update(k, gone)),
{
    let new = slots.update(k, gone);
    lemma_search(slots, name);
    assert forall|j: int| 0 <= j < slots.len() implies #[trigger] is_before_end(new, j)
        == is_before_end(slots, j) by {
        assert(!(slots[k].kind() is EndOfDirectory));
        if is_before_end(slots, j) {
            assert forall|i: int| 0 <= i <= j implies !((
            #[trigger] new[i]).kind() is EndOfDirectory) by {
                if i != k {
                    assert(new[i] == slots[i]);
                }
            }
        }
        if is_before_end(new, j) {
            assert forall|i: int| 0 <= i <= j implies !((
            #[trigger] slots[i]).kind() is EndOfDirectory) by {
                if i != k {
                    assert(new[i] == slots[i]);
                }
            }
        }
    }
    lemma_search(new, name);
    if let Some(j) = search(new, name) {
        assert(j != k);
        assert(new[j as int] == slots[j as int]);
        assert(is_before_end(slots, j as int));
        if j < k {
            assert(!slots[j as int].has_name(name));
        } else {
            assert(slots[k].has_name(name));
            assert(!slots[j as int].has_name(name));
        }
    }
    assert forall|n: Seq<u8>|
        #![trigger search(new, n)]
        n != name implies search(new, n) == search(slots, n) && (search(slots, n) matches Some(j)
        ==> new[j as int] == slots[j as int]) by {
        assert(!gone.has_name(n));
        assert(!slots[k].has_name(n));
        assert forall|j: int|
            0 <= j < slots.len() && is_before_end(slots, j) && (#[trigger] slots[j]).has_name(
                n,
            ) implies j < new.len() && is_before_end(new, j) && new[j] == slots[j] by {
            assert(j != k);
        }
        assert forall|j: int|
            0 <= j < new.len() && is_before_end(new, j) && (#[trigger] new[j]).has_name(
                n,
            ) implies j < slots.len() && is_before_end(slots, j) && slots[j] == new[j] by {
            assert(j != k);
        }
        lemma_search_same(slots, new, n);
    }
    assert forall|i: int, j: int, n: Seq<u8>|
        #![trigger new[i].has_name(n), new[j].has_name(n)]
        0 <= i < j < new.len() && is_before_end(new, j) && new[i].has_name(
            n,
        ) implies !new[j].has_name(n) by {
        assert(is_before_end(slots, j));
        assert(i != k);
        assert(new[i] == slots[i]);
        if j != k {
            assert(new[j] == slots[j]);
        }
    }
}

/// Moving the end marker on by one slot changes nothing that is found.
pub proof fn lemma_move_end(slots: Seq<EntryView>, k: int, e: EntryView, name: Seq<u8>)
    requires
        0 <= k < slots.len() - 1,
        slots[k].kind() is EndOfDirectory,
    ensures
        search(slots.update(k + 1, e), name) == search(slots, name),
        search(slots, name) matches Some(j) ==> slots.update(k + 1, e)[j as int] == slots[j as int],
        names_differ(slots) ==> names_differ(slots.update(k + 1, e)),
{
    let new = slots.update(k + 1, e);
    assert forall|j: int| 0 <= j < slots.len() && (is_before_end(slots, j) || is_before_end(new, j))
        implies j < k && #[trigger] new[j] == slots[j] && is_before_end(slots, j) && is_before_end(
        new,
        j,
    ) by {
        if j >= k {
            assert(new[k] == slots[k]);
        }
        assert forall|i: int| 0 <= i <= j implies new[i] == slots[i] by {}
        if is_before_end(slots, j) {
            assert forall|i: int| 0 <= i <= j implies !((
            #[trigger] new[i]).kind() is EndOfDirectory) by {
                assert(new[i] == slots[i]);
            }
        } else {
            assert forall|i: int| 0 <= i <= j implies !((
            #[trigger] slots[i]).kind() is EndOfDirectory) by {
                assert(new[i] == slots[i]);
            }
        }
    }
    assert forall|j: int|
        0 <= j < slots.len() && is_before_end(slots, j) && (#[trigger] slots[j]).has_name(
            name,
        ) implies j < new.len() && is_before_end(new, j) && new[j] == slots[j] by {
        assert(new[j] == slots[j]);
    }
    lemma_search_same(slots, new, name);
    if names_differ(slots) {
        assert forall|i: int, j: int, n: Seq<u8>|
            #![trigger new[i].has_name(n), new[j].has_name(n)]
            0 <= i < j < new.len() && is_before_end(new, j) && new[i].has_name(
                n,
            ) implies !new[j].has_name(n) by {
            assert(new[j] == slots[j]);
            assert(is_before_end(new, i)) by {
                assert(is_before_end(new, j));
            }
            assert(new[i] == slots[i]);
        }
    }
}

/// More slots, of which the first ends the directory, change nothing that is
/// found.
pub proof fn lemma_append(slots: Seq<EntryView>, more: Seq<EntryView>, name: Seq<u8>)
    requires
        more.len() > 0,
        more[0].kind() is EndOfDirectory,
    ensures
        search(slots + more, name) == search(slots, name),
        search(slots, name) matches Some(j) ==> (slots + more)[j as int] == slots[j as int],
        names_differ(slots) ==> names_differ(slots + more),
{
    let new = slots + more;
    let n = slots.len() as int;
    assert(new[n] == more[0]);
    assert forall|j: int| 0 <= j < new.len() && is_before_end(new, j) implies j < n
        && #[trigger] is_before_end(slots, j) by {
        assert forall|i: int| 0 <= i <= j implies !((
        #[trigger] slots[i]).kind() is EndOfDirectory) by {
            assert(new[i] == slots[i]);
        }
    }
    assert forall|j: int| 0 <= j < n && is_before_end(slots, j) implies #[trigger] is_before_end(
        new,
        j,
    ) by {
        assert forall|i: int| 0 <= i <= j implies !((#[trigger] new[i]).kind() is EndOfDirectory) by {
            assert(new[i] == slots[i]);
        }
    }
    assert forall|j: int|
        0 <= j < slots.len() && is_before_end(slots, j) && (#[trigger] slots[j]).has_name(
            name,
        ) implies j < new.len() && is_before_end(new, j) && new[j] == slots[j] by {}
    assert forall|j: int|
        0 <= j < new.len() && is_before_end(new, j) && (#[trigger] new[j]).has_name(
            name,
        ) implies j < slots.len() && is_before_end(slots, j) && slots[j] == new[j] by {}
    lemma_search_same(slots, new, name);
    if names_differ(slots) {
        assert forall|i: int, j: int, m: Seq<u8>|
            #![trigger new[i].has_name(m), new[j].has_name(m)]
            0 <= i < j < new.len() && is_before_end(new, j) && new[i].has_name(
                m,
            ) implies !new[j].has_name(m) by {
            assert(is_before_end(slots, j));
            assert(new[i] == slots[i] && new[j] == slots[j]);
        }
    }
}

/// An entry that takes the place of another of the same name is what is found
/// under that name, and everything else is found, or not found, as before.
pub proof fn lemma_replace(slots: Seq<EntryView>, k: int, e: EntryView, name: Seq<u8>)
    requires
        0 <= k,
        search(slots, name) == Some(k as nat),
        e.has_name(name),
    ensures
        k < slots.len(),
        search(slots.update(k, e), name) == Some(k as nat),
        forall|n: Seq<u8>|
            #![trigger search(slots.update(k, e), n)]
            #![trigger search(slots, n)]
            n != name ==> search(slots.update(k, e), n) == search(slots, n) && (search(slots, n)
                matches Some(j) ==> j < slots.len() && slots.update(k, e)[j as int]
                == slots[j as int]),
        names_differ(slots) ==> names_differ(slots.update(k, e)),
{
    let new = slots.update(k, e);
    lemma_search(slots, name);
    assert forall|j: int|
        #![trigger new[j]]
        0 <= j < k implies !new[j].has_name(name) && !(new[j].kind() is EndOfDirectory) by {
        assert(new[j] == slots[j]);
    }
    lemma_search_finds(new, name, k);
    assert forall|j: int| 0 <= j < new.len() implies #[trigger] is_before_end(new, j)
        == is_before_end(slots, j) by {
        if is_before_end(slots, j) {
            assert forall|i: int| 0 <= i <= j implies !((#[trigger] new[i]).kind() is EndOfDirectory) by {
                if i != k {
                    assert(new[i] == slots[i]);
                }
            }
        }
        if is_before_end(new, j) {
            assert forall|i: int| 0 <= i <= j implies !((
            #[trigger] slots[i]).kind() is EndOfDirectory) by {
                if i != k {
                    assert(new[i] == slots[i]);
                }
            }
        }
    }
    assert forall|n: Seq<u8>|
        #![trigger search(slots.update(k, e), n)]
        #![trigger search(slots, n)]
        n != name implies search(new, n) == search(slots, n) && (search(slots, n) matches Some(j)
        ==> j < slots.len() && new[j as int] == slots[j as int]) by {
        assert forall|j: int|
            0 <= j < slots.len() && is_before_end(slots, j) && (#[trigger] slots[j]).has_name(
                n,
            ) implies j < new.len() && is_before_end(new, j) && new[j] == slots[j] by {}
        assert forall|j: int|
            0 <= j < new.len() && is_before_end(new, j) && (#[trigger] new[j]).has_name(n) implies j
            < slots.len() && is_before_end(slots, j) && slots[j] == new[j] by {}
        lemma_search_same(slots, new, n);
        lemma_search(slots, n);
    }
    if names_differ(slots) {
        assert forall|i: int, j: int, n: Seq<u8>|
            #![trigger new[i].has_name(n), new[j].has_name(n)]
            0 <= i < j < new.len() && is_before_end(new, j) && new[i].has_name(n) implies !new[j].has_name(
            n,
        ) by {
            assert(is_before_end(slots, j));
            if i == k {
                assert(n == name);
                assert(slots[k].has_name(n));
                assert(new[j] == slots[j]);
                assert(!slots[j].has_name(n));
            } else if j == k {
                assert(new[i] == slots[i]);
                if new[j].has_name(n) {
                    assert(n == name);
                    assert(slots[i].has_name(n) && slots[k].has_name(n));
                }
            } else {
                assert(new[i] == slots[i] && new[j] == slots[j]);
                assert(slots[i].has_name(n));
                assert(!slots[j].has_name(n));
            }
        }
    }
}

} // verus!
