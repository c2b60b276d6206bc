//! The numbers a mounted filesystem knows its paths by.

use std::collections::hash_map::RandomState;

use vstd::prelude::*;
use vstd::string::{StrSliceExecFns, StringExecFns};
#[allow(unused_imports)]
use vstd::utf8::{encode_scalar, encode_utf8};

use crate::bytes::str_eq;
#[allow(unused_imports)]
use crate::fs::named;
#[allow(unused_imports)]
use crate::path::{is_component, law_a_name_leads_one_step_on, normalized};

verus! {

pub type Inode = u64;

/// A map of numbers and paths that can be searched from both sides.
pub type PathMap = bimap::BiHashMap<u64, String, RandomState, RandomState>;

/// `bimap::BiHashMap`, a map between two sets of values in which every value
/// of either side occurs at most once.
#[verifier::external_type_specification]
#[verifier::external_body]
#[verifier::reject_recursive_types(L)]
#[verifier::reject_recursive_types(R)]
#[verifier::reject_recursive_types(LS)]
#[verifier::reject_recursive_types(RS)]
pub struct ExBiHashMap<L, R, LS, RS>(bimap::BiHashMap<L, R, LS, RS>);

/// What a map of numbers and paths holds.
pub uninterp spec fn contents(map: PathMap) -> Map<u64, Seq<char>>;

/// The pairs of a map but for the one with a given path.
pub open spec fn without_path(paths: Map<u64, Seq<char>>, path: Seq<char>) -> Map<u64, Seq<char>> {
    Map::new(|i: u64| paths.contains_key(i) && paths[i] != path, |i: u64| paths[i])
}

/// Calls `bimap::BiHashMap::new`, which makes a map that holds nothing.
#[verifier::external_body]
fn map_new() -> (made: PathMap)
    ensures
        forall|i: u64| !#[trigger] contents(made).contains_key(i),
{
    bimap::BiHashMap::new()
}

/// Calls `bimap::BiHashMap::insert`, which takes out the pairs that have either
/// value, if there are any, and puts in the new pair.
#[verifier::external_body]
fn map_insert(map: &mut PathMap, inode: u64, path: String)
    ensures
        contents(*final(map)) == without_path(contents(*old(map)).remove(inode), path@).insert(
            inode,
            path@,
        ),
{
    map.insert(inode, path);
}

/// Calls `bimap::BiHashMap::get_by_left`, which gives the right value of the
/// pair with a given left value, if there is one.
#[verifier::external_body]
fn map_get_by_left(map: &PathMap, inode: u64) -> (path: Option<String>)
    ensures
        match path {
            Some(path) => contents(*map).contains_key(inode) && contents(*map)[inode] == path@,
            None => !contents(*map).contains_key(inode),
        },
{
    map.get_by_left(&inode).cloned()
}

/// Calls `bimap::BiHashMap::get_by_right`, which gives the left value of the
/// pair with a given right value, if there is one.
#[verifier::external_body]
fn map_get_by_right(map: &PathMap, path: &str) -> (inode: Option<u64>)
    ensures
        match inode {
            Some(inode) => contents(*map).contains_key(inode) && contents(*map)[inode] == path@,
            None => forall|i: u64| contents(*map).contains_key(i) ==> contents(*map)[i] != path@,
        },
{
    map.get_by_right(path).copied()
}

/// Calls `bimap::BiHashMap::remove_by_left`, which takes out the pair with a
/// given left value, if there is one.
#[verifier::external_body]
fn map_remove_by_left(map: &mut PathMap, inode: u64)
    ensures
        contents(*final(map)) == contents(*old(map)).remove(inode),
{
    map.remove_by_left(&inode);
}

/// Calls `bimap::BiHashMap::remove_by_right`, which takes out the pair with a
/// given right value, if there is one.
#[verifier::external_body]
fn map_remove_by_right(map: &mut PathMap, path: &str)
    ensures
        contents(*final(map)) == without_path(contents(*old(map)), path@),
{
    map.remove_by_right(path);
}

/// Calls `bimap::BiHashMap::iter`, which goes through the pairs in no
/// particular order, each of them once.
#[verifier::external_body]
fn map_pairs(map: &PathMap) -> (pairs: Vec<(u64, String)>)
    ensures
        forall|k: int|
            0 <= k < pairs@.len() ==> contents(*map).contains_key((#[trigger] pairs@[k]).0)
                && contents(*map)[pairs@[k].0] == pairs@[k].1@,
        forall|j: int, k: int|
            0 <= j < k < pairs@.len() ==> (#[trigger] pairs@[j]).0 != (#[trigger] pairs@[k]).0,
        forall|i: u64| #[trigger]
            contents(*map).contains_key(i) ==> exists|k: int|
                0 <= k < pairs@.len() && (#[trigger] pairs@[k]).0 == i,
{
    map.iter().map(|(inode, path)| (*inode, path.clone())).collect()
}

/// The path of a name inside a directory. A name that starts at the root
/// stands for itself.
pub open spec fn joined(parent: Seq<char>, name: Seq<char>) -> Seq<char> {
    if name.len() > 0 && name[0] == '/' {
        name
    } else if parent.len() == 0 || parent.last() == '/' {
        parent + name
    } else {
        parent + seq!['/'] + name
    }
}

/// Build the path of a name inside a directory.
pub fn child_path(parent: &str, name: &str) -> (path: String)
    ensures
        path@ == joined(parent@, name@),
{
    if name.unicode_len() > 0 && name.get_char(0) == '/' {
        return name.to_owned();
    }
    let n: usize = parent.unicode_len();
    if n == 0 || parent.get_char(n - 1) == '/' {
        return parent.to_owned().concat(name);
    }
    proof {
        reveal_strlit("/");
        assert("/"@ =~= seq!['/']);
    }
    parent.to_owned().concat("/").concat(name)
}

/// How many of the first characters of a path come before all its components:
/// the slash of the root, or a `.` that the path starts with.
pub open spec fn prefix_len(path: Seq<char>) -> nat {
    if path.len() > 0 && path[0] == '/' {
        1
    } else if path.len() > 0 && path[0] == '.' && (path.len() == 1 || path[1] == '/') {
        1
    } else {
        0
    }
}

/// Where the last component of a path starts, or the slash before it. The first
/// `start` characters are no part of any.
pub open spec fn last_cut(path: Seq<char>, start: nat) -> nat
    decreases path.len(),
{
    if path.len() <= start {
        start
    } else if path.last() == '/' {
        (path.len() - 1) as nat
    } else {
        last_cut(path.drop_last(), start)
    }
}

/// The last component of a path.
pub open spec fn last_component(path: Seq<char>, start: nat) -> Seq<char> {
    let cut = last_cut(path, start) as int;
    if cut < path.len() && path[cut] == '/' {
        path.skip(cut + 1)
    } else {
        path.skip(cut)
    }
}

/// Whether a component of a path names nothing.
pub open spec fn names_nothing(component: Seq<char>) -> bool {
    component.len() == 0 || component == seq!['.']
}

/// A path without the components at its end that name nothing.
pub open spec fn trimmed(path: Seq<char>, start: nat) -> Seq<char>
    decreases path.len(),
{
    let cut = last_cut(path, start);
    if cut < path.len() && names_nothing(last_component(path, start)) {
        trimmed(path.take(cut as int), start)
    } else {
        path
    }
}

/// The path of the directory a path lies in, which is the path without its last
/// component. Empty components and `.` are none. What has no component, as the
/// root, lies in itself.
pub open spec fn parent_of(path: Seq<char>) -> Seq<char> {
    let start = prefix_len(path);
    let named = trimmed(path, start);
    if named.len() > start {
        trimmed(named.take(last_cut(named, start) as int), start)
    } else if start > 0 && path[0] == '.' {
        Seq::empty()
    } else {
        path
    }
}

proof fn lemma_last_cut(path: Seq<char>, start: nat)
    ensures
        path.len() > start ==> start <= last_cut(path, start) < path.len(),
        path.len() <= start ==> last_cut(path, start) == start,
    decreases path.len(),
{
    if path.len() > start && path.last() != '/' {
        lemma_last_cut(path.drop_last(), start);
    }
}

/// Find where the last component of the first `n` characters of a path starts,
/// or the slash before it.
fn find_cut(path: &str, n: usize, start: usize) -> (cut: usize)
    requires
        start <= n <= path@.len(),
    ensures
        cut == last_cut(path@.take(n as int), start as nat),
        cut <= n,
{
    let mut m: usize = n;
    while m > start && path.get_char(m - 1) != '/'
        invariant
            start <= m <= n <= path@.len(),
            last_cut(path@.take(m as int), start as nat) == last_cut(
                path@.take(n as int),
                start as nat,
            ),
        decreases m,
    {
        assert(path@.take(m as int).drop_last() =~= path@.take(m - 1));
        m -= 1;
    }
    if m > start {
        m - 1
    } else {
        start
    }
}

/// How many of the first `n` characters of a path are left without the
/// components at their end that name nothing.
fn trimmed_len(path: &str, n: usize, start: usize) -> (len: usize)
    requires
        start <= n <= path@.len(),
    ensures
        start <= len <= n,
        path@.take(len as int) == trimmed(path@.take(n as int), start as nat),
{
    let mut m: usize = n;
    while m > start
        invariant
            start <= m <= n <= path@.len(),
            trimmed(path@.take(m as int), start as nat) == trimmed(
                path@.take(n as int),
                start as nat,
            ),
        decreases m,
    {
        let ghost p = path@.take(m as int);
        let cut: usize = find_cut(path, m, start);
        proof {
            lemma_last_cut(p, start as nat);
        }
        let from: usize = if path.get_char(cut) == '/' {
            cut + 1
        } else {
            cut
        };
        assert(last_component(p, start as nat) =~= p.skip(from as int));
        if from < m && !(from + 1 == m && path.get_char(from) == '.') {
            assert(!names_nothing(p.skip(from as int))) by {
                if p.skip(from as int) == seq!['.'] {
                    assert(p.skip(from as int)[0] == '.');
                }
            }
            return m;
        }
        assert(names_nothing(p.skip(from as int))) by {
            if from < m {
                assert(p.skip(from as int) =~= seq!['.']);
            }
        }
        assert(p.take(cut as int) =~= path@.take(cut as int));
        m = cut;
    }
    proof {
        lemma_last_cut(path@.take(m as int), start as nat);
    }
    m
}

/// The path of the directory a path lies in.
pub fn parent_path(path: &str) -> (parent: String)
    ensures
        parent@ == parent_of(path@),
{
    let len: usize = path.unicode_len();
    let start: usize = if len > 0 && (path.get_char(0) == '/' || (path.get_char(0) == '.' && (len
        == 1 || path.get_char(1) == '/'))) {
        1
    } else {
        0
    };
    assert(path@.take(len as int) =~= path@);
    let named: usize = trimmed_len(path, len, start);
    if named > start {
        let ghost p = path@.take(named as int);
        let cut: usize = find_cut(path, named, start);
        proof {
            lemma_last_cut(p, start as nat);
        }
        let n: usize = trimmed_len(path, cut, start);
        assert(p.take(cut as int) =~= path@.take(cut as int));
        assert(path@.subrange(0, n as int) =~= path@.take(n as int));
        return path.substring_char(0, n).to_owned();
    }
    if start > 0 && path.get_char(0) == '.' {
        assert(path@.subrange(0, 0) =~= Seq::empty());
        return path.substring_char(0, 0).to_owned();
    }
    path.to_owned()
}

/// What every path beneath a directory starts with.
pub open spec fn dir_prefix(dir: Seq<char>) -> Seq<char> {
    if dir.len() > 0 && dir.last() == '/' {
        dir
    } else {
        dir.push('/')
    }
}

/// Whether a path is a given one, or lies beneath it.
pub open spec fn is_within(path: Seq<char>, dir: Seq<char>) -> bool {
    path == dir || dir_prefix(dir).is_prefix_of(path)
}

/// Where a path goes if a path it is or lies beneath is renamed.
pub open spec fn moved_path(path: Seq<char>, from: Seq<char>, to: Seq<char>) -> Seq<char> {
    to + path.skip(from.len() as int)
}

/// Which paths are known, and by which numbers.
#[verifier::ext_equal]
pub struct TrackerView {
    pub paths: Map<u64, Seq<char>>,
    pub next: u64,
}

impl TrackerView {
    /// No two numbers stand for the same path, and none has been given out that
    /// is not below the next one.
    pub open spec fn wf(self) -> bool {
        &&& forall|i: u64, j: u64|
            self.paths.contains_key(i) && self.paths.contains_key(j) && #[trigger] self.paths[i]
                == #[trigger] self.paths[j] ==> i == j
        &&& forall|i: u64| #[trigger] self.paths.contains_key(i) ==> i < self.next
    }

    /// Whether there are more numbers left than a directory can have entries.
    pub open spec fn has_numbers(self) -> bool {
        self.next <= 0x7fff_ffff_ffff_ffff
    }

    /// Whether some number stands for a path.
    pub open spec fn knows(self, path: Seq<char>) -> bool {
        exists|i: u64| #[trigger] self.paths.contains_key(i) && self.paths[i] == path
    }

    /// The number of a path that is known.
    pub open spec fn number_of(self, path: Seq<char>) -> u64 {
        choose|i: u64| #[trigger] self.paths.contains_key(i) && self.paths[i] == path
    }

    /// The number of a path, which is given the next one if it has none yet.
    pub open spec fn numbered(self, path: Seq<char>) -> (TrackerView, u64) {
        if self.knows(path) {
            (self, self.number_of(path))
        } else {
            (
                TrackerView {
                    paths: self.paths.insert(self.next, path),
                    next: (self.next + 1) as u64,
                },
                self.next,
            )
        }
    }

    /// Follow a path that has moved, along with everything beneath it. What was
    /// known at a place something moves to is forgotten.
    pub open spec fn renamed(self, from: Seq<char>, to: Seq<char>) -> TrackerView {
        TrackerView {
            paths: Map::new(
                |i: u64|
                    self.paths.contains_key(i) && (is_within(self.paths[i], from)
                        || !self.moves_onto(self.paths[i], from, to)),
                |i: u64|
                    if is_within(self.paths[i], from) {
                        moved_path(self.paths[i], from, to)
                    } else {
                        self.paths[i]
                    },
            ),
            ..self
        }
    }

    /// Whether something that moves ends up at a path.
    pub open spec fn moves_onto(self, path: Seq<char>, from: Seq<char>, to: Seq<char>) -> bool {
        exists|j: u64| #[trigger]
            self.paths.contains_key(j) && is_within(self.paths[j], from) && moved_path(
                self.paths[j],
                from,
                to,
            ) == path
    }
}

/// A path keeps the number it has been given, and no other path has it.
pub proof fn law_a_path_keeps_its_number(t: TrackerView, path: Seq<char>, other: Seq<char>)
    requires
        t.wf(),
        t.next < u64::MAX,
    ensures
        ({
            let (u, ino) = t.numbered(path);
            &&& u.wf()
            &&& u.paths.contains_key(ino)
            &&& u.paths[ino] == path
            &&& u.numbered(path) == (u, ino)
            &&& other != path && t.knows(other) ==> u.knows(other) && u.number_of(other)
                == t.number_of(other) && u.number_of(other) != ino
        }),
{
    let (u, ino) = t.numbered(path);
    assert(u.paths.contains_key(ino) && u.paths[ino] == path);
    assert forall|i: u64, j: u64|
        u.paths.contains_key(i) && u.paths.contains_key(j) && #[trigger] u.paths[i]
            == #[trigger] u.paths[j] implies i == j by {
        if !t.knows(path) {
            if i != t.next {
                assert(t.paths.contains_key(i) && t.paths[i] == u.paths[i]);
            }
            if j != t.next {
                assert(t.paths.contains_key(j) && t.paths[j] == u.paths[j]);
            }
        }
    }
    assert(u.number_of(path) == ino) by {
        let k = u.number_of(path);
        assert(u.paths[k] == u.paths[ino]);
    }
    if other != path && t.knows(other) {
        let k = t.number_of(other);
        assert(u.paths.contains_key(k) && u.paths[k] == other);
        let m = u.number_of(other);
        assert(u.paths[m] == u.paths[k]);
    }
}

/// A directory's name can end in a slash, but not in two.
pub open spec fn is_dir_name(path: Seq<char>) -> bool {
    path.len() >= 2 && path.last() == '/' ==> path[path.len() - 2] != '/'
}

proof fn lemma_moved_apart(p: Seq<char>, q: Seq<char>, from: Seq<char>, to: Seq<char>)
    requires
        is_within(p, from),
        is_within(q, from),
        moved_path(p, from, to) == moved_path(q, from, to),
    ensures
        p == q,
{
    assert(from.is_prefix_of(p));
    assert(from.is_prefix_of(q));
    let a = moved_path(p, from, to);
    let b = moved_path(q, from, to);
    assert(a.skip(to.len() as int) =~= p.skip(from.len() as int));
    assert(b.skip(to.len() as int) =~= q.skip(from.len() as int));
    assert(p =~= from + p.skip(from.len() as int));
    assert(q =~= from + q.skip(from.len() as int));
}

/// Keeps track of which number stands for which path.
pub struct InodeTracker {
    bimap: PathMap,
    next_inode: Inode,
}

impl InodeTracker {
    pub closed spec fn view(self) -> TrackerView {
        TrackerView { paths: contents(self.bimap), next: self.next_inode }
    }

    /// A tracker that knows the root.
    pub fn new() -> (tracker: Self)
        ensures
            tracker@ == (TrackerView { paths: map![1u64 => "/"@], next: 2 }),
            tracker@.wf(),
    {
        let mut bimap = map_new();
        map_insert(&mut bimap, 1, "/".to_owned());
        let tracker = Self { bimap, next_inode: 2 };
        assert(tracker@.paths =~= map![1u64 => "/"@]);
        tracker
    }

    /// Whether there are more numbers left than a directory can have entries.
    pub fn has_numbers(&self) -> (b: bool)
        ensures
            b == self@.has_numbers(),
    {
        self.next_inode <= 0x7fff_ffff_ffff_ffff
    }

    /// The number of a path, which is given one if it has none yet.
    pub fn get_or_create_inode(&mut self, path: &str) -> (inode: Inode)
        requires
            old(self)@.wf(),
            old(self)@.next < u64::MAX,
        ensures
            final(self)@.wf(),
            final(self)@.paths.contains_key(inode),
            final(self)@.paths[inode] == path@,
            (final(self)@, inode) == old(self)@.numbered(path@),
    {
        if let Some(inode) = map_get_by_right(&self.bimap, path) {
            assert(self@.paths.contains_key(inode) && self@.paths[inode] == path@);
            return inode;
        }
        let inode: Inode = self.next_inode;
        self.next_inode = inode + 1;
        map_insert(&mut self.bimap, inode, path.to_owned());
        assert(self@.paths =~= old(self)@.paths.insert(inode, path@));
        inode
    }

    /// The path a number stands for.
    pub fn get_path(&self, inode: Inode) -> (path: Option<String>)
        ensures
            match path {
                Some(path) => self@.paths.contains_key(inode) && self@.paths[inode] == path@,
                None => !self@.paths.contains_key(inode),
            },
    {
        map_get_by_left(&self.bimap, inode)
    }

    /// Forget a path that no longer exists.
    pub fn forget_path(&mut self, path: &str)
        requires
            old(self)@.wf(),
        ensures
            final(self)@.wf(),
            final(self)@ == (TrackerView {
                paths: without_path(old(self)@.paths, path@),
                ..old(self)@
            }),
    {
        map_remove_by_right(&mut self.bimap, path);
    }

    /// Follow a path that has moved, along with everything beneath it.
    ///
    /// Renaming a directory moves every path under it, and those paths are what
    /// this map is keyed by, so they all have to be rewritten or the inodes
    /// they belong to would resolve to somewhere that no longer exists.
    pub fn rename_path(&mut self, from: &str, to: &str)
        requires
            old(self)@.wf(),
            is_dir_name(from@),
        ensures
            final(self)@.wf(),
            final(self)@ == old(self)@.renamed(from@, to@),
    {
        let n: usize = from.unicode_len();
        let pairs: Vec<(u64, String)> = map_pairs(&self.bimap);
        let ghost before = self@;
        let ghost all = pairs@;
        let mut k: usize = 0;
        proof {
            assert(self@.paths =~= partly(before, all, 0, from@, to@));
        }
        while k < pairs.len()
            invariant
                k <= pairs@.len(),
                pairs@ == all,
                n == from@.len(),
                is_dir_name(from@),
                before == old(self)@,
                before.wf(),
                listed(before, all),
                self@.next == before.next,
                self@.paths == partly(before, all, k as int, from@, to@),
            decreases pairs@.len() - k,
        {
            let inode: u64 = pairs[k].0;
            let path: &str = pairs[k].1.as_str();
            let ghost p = all[k as int].1@;
            assert(before.paths.contains_key(all[k as int].0));
            if within(path, from) {
                let len: usize = path.unicode_len();
                assert(from@.len() <= p.len()) by {
                    assert(from@.is_prefix_of(p));
                }
                let rest: &str = path.substring_char(n, len);
                assert(rest@ =~= p.skip(n as int));
                let new_path: String = to.to_owned().concat(rest);
                map_remove_by_left(&mut self.bimap, inode);
                map_remove_by_right(&mut self.bimap, new_path.as_str());
                map_insert(&mut self.bimap, inode, new_path);
            }
            proof {
                lemma_partly_step(before, all, k as int, from@, to@);
                assert(self@.paths =~= partly(before, all, k + 1, from@, to@));
            }
            k += 1;
        }
        proof {
            lemma_partly_all(before, all, from@, to@);
        }
    }
}

/// Whether a path is a given one, or lies beneath it.
fn within(path: &str, dir: &str) -> (b: bool)
    requires
        is_dir_name(dir@),
    ensures
        b == is_within(path@, dir@),
{
    if str_eq(path, dir) {
        return true;
    }
    let n: usize = dir.unicode_len();
    let len: usize = path.unicode_len();
    let slash: bool = n > 0 && dir.get_char(n - 1) == '/';
    if len < n {
        return false;
    }
    assert(path@.subrange(0, n as int) == path@.take(n as int));
    if !str_eq(path.substring_char(0, n), dir) {
        proof {
            if dir_prefix(dir@).is_prefix_of(path@) {
                assert(path@.take(n as int) =~= dir@);
            }
        }
        return false;
    }
    if slash {
        assert(dir@.is_prefix_of(path@));
        return true;
    }
    if len == n {
        return false;
    }
    let c: char = path.get_char(n);
    proof {
        let prefix = dir_prefix(dir@);
        if c == '/' {
            assert(prefix =~= path@.subrange(0, prefix.len() as int));
        } else if prefix.is_prefix_of(path@) {
            assert(prefix[n as int] == '/');
        }
    }
    c == '/'
}

/// Whether a list holds every pair of a map, each of them once.
spec fn listed(t: TrackerView, all: Seq<(u64, String)>) -> bool {
    &&& forall|k: int|
        0 <= k < all.len() ==> t.paths.contains_key((#[trigger] all[k]).0) && t.paths[all[k].0]
            == all[k].1@
    &&& forall|j: int, k: int|
        0 <= j < k < all.len() ==> (#[trigger] all[j]).0 != (#[trigger] all[k]).0
    &&& forall|i: u64| #[trigger]
        t.paths.contains_key(i) ==> exists|k: int| 0 <= k < all.len() && (#[trigger] all[k]).0 == i
}

/// Whether a number is among the first `n` of a list and its path moves.
spec fn done(
    t: TrackerView,
    all: Seq<(u64, String)>,
    n: int,
    i: u64,
    from: Seq<char>,
) -> bool {
    exists|k: int| 0 <= k < n && (#[trigger] all[k]).0 == i && is_within(t.paths[i], from)
}

/// Whether something among the first `n` of a list moves onto a path.
spec fn taken(
    t: TrackerView,
    all: Seq<(u64, String)>,
    n: int,
    path: Seq<char>,
    from: Seq<char>,
    to: Seq<char>,
) -> bool {
    exists|k: int|
        0 <= k < n && is_within(t.paths[(#[trigger] all[k]).0], from) && moved_path(
            t.paths[all[k].0],
            from,
            to,
        ) == path
}

/// The paths once the first `n` of a list have moved.
spec fn partly(
    t: TrackerView,
    all: Seq<(u64, String)>,
    n: int,
    from: Seq<char>,
    to: Seq<char>,
) -> Map<u64, Seq<char>> {
    Map::new(
        |i: u64|
            t.paths.contains_key(i) && (done(t, all, n, i, from) || !taken(
                t,
                all,
                n,
                t.paths[i],
                from,
                to,
            )),
        |i: u64|
            if done(t, all, n, i, from) {
                moved_path(t.paths[i], from, to)
            } else {
                t.paths[i]
            },
    )
}

proof fn lemma_partly_step(
    t: TrackerView,
    all: Seq<(u64, String)>,
    k: int,
    from: Seq<char>,
    to: Seq<char>,
)
    requires
        t.wf(),
        listed(t, all),
        0 <= k < all.len(),
    ensures
        ({
            let inode = all[k].0;
            let cur = partly(t, all, k, from, to);
            let next = partly(t, all, k + 1, from, to);
            if is_within(t.paths[inode], from) {
                let path = moved_path(t.paths[inode], from, to);
                next == without_path(
                    without_path(cur.remove(inode), path).remove(inode),
                    path,
                ).insert(inode, path)
            } else {
                next == cur
            }
        }),
{
    let inode = all[k].0;
    let cur = partly(t, all, k, from, to);
    let next = partly(t, all, k + 1, from, to);
    let moves = is_within(t.paths[inode], from);
    let path = moved_path(t.paths[inode], from, to);
    assert forall|i: u64| done(t, all, k + 1, i, from) <==> done(t, all, k, i, from) || (i == inode
        && moves) by {
        if done(t, all, k + 1, i, from) && !(i == inode && moves) {
            let j = choose|j: int|
                0 <= j < k + 1 && (#[trigger] all[j]).0 == i && is_within(t.paths[i], from);
            assert(j < k);
        }
        if done(t, all, k, i, from) {
            let j = choose|j: int|
                0 <= j < k && (#[trigger] all[j]).0 == i && is_within(t.paths[i], from);
            assert(0 <= j < k + 1 && all[j].0 == i);
        }
        if i == inode && moves {
            assert(all[k].0 == i);
        }
    }
    assert forall|p: Seq<char>|
        taken(t, all, k + 1, p, from, to) <==> taken(t, all, k, p, from, to) || (moves && path
            == p) by {
        if taken(t, all, k + 1, p, from, to) && !(moves && path == p) {
            let j = choose|j: int|
                0 <= j < k + 1 && is_within(t.paths[(#[trigger] all[j]).0], from) && moved_path(
                    t.paths[all[j].0],
                    from,
                    to,
                ) == p;
            assert(j < k);
        }
        if taken(t, all, k, p, from, to) {
            let j = choose|j: int|
                0 <= j < k && is_within(t.paths[(#[trigger] all[j]).0], from) && moved_path(
                    t.paths[all[j].0],
                    from,
                    to,
                ) == p;
            assert(is_within(t.paths[all[j].0], from));
        }
        if moves && path == p {
            assert(is_within(t.paths[all[k].0], from));
        }
    }
    if moves {
        let want = without_path(without_path(cur.remove(inode), path).remove(inode), path).insert(
            inode,
            path,
        );
        assert(t.paths.contains_key(inode));
        assert forall|i: u64| #[trigger] next.contains_key(i) <==> want.contains_key(i) by {
            if i != inode && t.paths.contains_key(i) {
                if done(t, all, k, i, from) {
                    if moved_path(t.paths[i], from, to) == path {
                        lemma_moved_apart(t.paths[i], t.paths[inode], from, to);
                    }
                }
            }
        }
        assert(next =~= want);
    } else {
        assert(next =~= cur);
    }
}

proof fn lemma_partly_all(
    t: TrackerView,
    all: Seq<(u64, String)>,
    from: Seq<char>,
    to: Seq<char>,
)
    requires
        t.wf(),
        listed(t, all),
    ensures
        partly(t, all, all.len() as int, from, to) == t.renamed(from, to).paths,
        t.renamed(from, to).wf(),
{
    let n = all.len() as int;
    assert forall|i: u64| t.paths.contains_key(i) implies (done(t, all, n, i, from) <==> is_within(
        t.paths[i],
        from,
    )) by {
        let k = choose|k: int| 0 <= k < all.len() && (#[trigger] all[k]).0 == i;
        assert(all[k].0 == i);
    }
    assert forall|p: Seq<char>| taken(t, all, n, p, from, to) <==> t.moves_onto(p, from, to) by {
        if taken(t, all, n, p, from, to) {
            let k = choose|k: int|
                0 <= k < n && is_within(t.paths[(#[trigger] all[k]).0], from) && moved_path(
                    t.paths[all[k].0],
                    from,
                    to,
                ) == p;
            assert(t.paths.contains_key(all[k].0));
        }
        if t.moves_onto(p, from, to) {
            let j = choose|j: u64| #[trigger]
                t.paths.contains_key(j) && is_within(t.paths[j], from) && moved_path(
                    t.paths[j],
                    from,
                    to,
                ) == p;
            let k = choose|k: int| 0 <= k < all.len() && (#[trigger] all[k]).0 == j;
            assert(is_within(t.paths[all[k].0], from));
        }
    }
    assert(partly(t, all, n, from, to) =~= t.renamed(from, to).paths);
    law_renaming_keeps_numbers(t, from, to);
}

/// Following a rename keeps the number of everything that moves, gives it the
/// path it has moved to, and leaves every path that nothing moves onto alone.
/// Afterwards still no two numbers stand for the same path.
pub proof fn law_renaming_keeps_numbers(t: TrackerView, from: Seq<char>, to: Seq<char>)
    requires
        t.wf(),
    ensures
        t.renamed(from, to).wf(),
        forall|i: u64| #[trigger]
            t.paths.contains_key(i) && is_within(t.paths[i], from) ==> t.renamed(
                from,
                to,
            ).paths.contains_key(i) && t.renamed(from, to).paths[i] == to + t.paths[i].skip(
                from.len() as int,
            ),
        forall|i: u64| #[trigger]
            t.paths.contains_key(i) && !is_within(t.paths[i], from) && !t.moves_onto(
                t.paths[i],
                from,
                to,
            ) ==> t.renamed(from, to).paths.contains_key(i) && t.renamed(from, to).paths[i]
                == t.paths[i],
{
    let new = t.renamed(from, to);
    assert forall|i: u64, j: u64|
        new.paths.contains_key(i) && new.paths.contains_key(j) && #[trigger] new.paths[i]
            == #[trigger] new.paths[j] implies i == j by {
        if is_within(t.paths[i], from) && is_within(t.paths[j], from) {
            lemma_moved_apart(t.paths[i], t.paths[j], from, to);
        } else if is_within(t.paths[i], from) {
            assert(t.moves_onto(t.paths[j], from, to));
        } else if is_within(t.paths[j], from) {
            assert(t.moves_onto(t.paths[i], from, to));
        }
    }
}

proof fn lemma_encode_on(a: Seq<char>, b: Seq<char>)
    ensures
        encode_utf8(a + b) == encode_utf8(a) + encode_utf8(b),
    decreases a.len(),
{
    if a.len() == 0 {
        assert(a + b =~= b);
        assert(encode_utf8(a) + encode_utf8(b) =~= encode_utf8(b));
    } else {
        lemma_encode_on(a.drop_first(), b);
        assert((a + b).drop_first() =~= a.drop_first() + b);
        assert(encode_utf8(a + b) =~= encode_utf8(a) + encode_utf8(b));
    }
}

proof fn lemma_encode_slash()
    ensures
        encode_utf8(seq!['/']) == seq![0x2fu8],
{
    assert(encode_scalar(0x2fu32) =~= seq![0x2fu8]) by {
        assert((0x2fu32 & 0x7f) as u8 == 0x2fu8) by (bit_vector);
        assert(0x2fu32 <= 0x7f);
    }
    assert(seq!['/'].drop_first() =~= Seq::empty());
    assert(encode_utf8(Seq::empty()) =~= Seq::empty());
    assert(encode_utf8(seq!['/']) =~= seq![0x2fu8]);
}

/// The path of a name in a directory leads one step on from the directory, to what has
/// that name.
pub proof fn law_a_name_in_a_directory_is_one_step_on(dir: Seq<char>, name: Seq<char>)
    requires
        is_component(encode_utf8(name)),
    ensures
        ({
            let path = named(joined(dir, name));
            &&& path.comps == named(dir).comps.push(encode_utf8(name))
            &&& path.absolute == named(dir).absolute
        }),
{
    let bytes = encode_utf8(name);
    let slash = seq!['/'];
    lemma_encode_slash();
    if name.len() > 0 && name[0] == '/' {
        assert(name =~= slash + name.drop_first());
        lemma_encode_on(slash, name.drop_first());
        assert(bytes[0] == 0x2f);
        assert(bytes.contains(bytes[0]));
    }
    if dir.len() == 0 {
        assert(dir + name =~= name);
        assert(dir =~= Seq::empty());
        assert(encode_utf8(dir) =~= Seq::empty());
        law_a_name_leads_one_step_on(Seq::empty(), bytes);
        assert(bytes[0] != 0x2f) by {
            assert(bytes.contains(bytes[0]));
        }
        assert(normalized(bytes).comps =~= Seq::<Seq<u8>>::empty().push(bytes));
        assert(named(dir).comps =~= Seq::<Seq<u8>>::empty());
    } else if dir.last() == '/' {
        let d = dir.drop_last();
        assert(dir =~= d + slash);
        lemma_encode_on(d, slash);
        lemma_encode_on(dir, name);
        let e = encode_utf8(d);
        law_a_name_leads_one_step_on(e, bytes);
        law_a_name_leads_one_step_on(e, Seq::empty());
        assert(e + seq![0x2fu8] + Seq::<u8>::empty() =~= e + seq![0x2fu8]);
        assert(encode_utf8(dir) == e + seq![0x2fu8]);
    } else {
        lemma_encode_on(dir, slash);
        lemma_encode_on(dir + slash, name);
        law_a_name_leads_one_step_on(encode_utf8(dir), bytes);
        assert(encode_utf8(dir).len() > 0) by {
            lemma_encode_on(dir.take(1), dir.skip(1));
            assert(dir.take(1) + dir.skip(1) =~= dir);
            assert(encode_utf8(dir).len() >= encode_scalar(dir[0] as u32).len());
        }
    }
}

/// Where the last component of a path starts.
proof fn lemma_cut(path: Seq<char>, start: nat)
    requires
        path.len() > start,
    ensures
        ({
            let cut = last_cut(path, start) as int;
            &&& start <= cut < path.len()
            &&& cut == start || path[cut] == '/'
            &&& forall|i: int| cut < i < path.len() ==> #[trigger] path[i] != '/'
        }),
    decreases path.len(),
{
    lemma_last_cut(path, start);
    if path.last() != '/' {
        let most = path.drop_last();
        if most.len() > start {
            lemma_cut(most, start);
            let cut = last_cut(most, start) as int;
            assert(most[cut] == path[cut]);
            assert forall|i: int| cut < i < path.len() implies #[trigger] path[i] != '/' by {
                if i < most.len() {
                    assert(most[i] == path[i]);
                }
            }
        }
    }
}

/// A path from the root that ends in a plain name is not trimmed.
proof fn lemma_untrimmed(path: Seq<char>)
    requires
        path.len() > 1,
        path[0] == '/',
        path.last() != '/',
        !(path.last() == '.' && path[path.len() - 2] == '/'),
    ensures
        trimmed(path, 1) == path,
{
    lemma_cut(path, 1);
    let cut = last_cut(path, 1) as int;
    let last = last_component(path, 1);
    assert(last.len() > 0);
    assert(last.last() == path.last());
    if last == seq!['.'] {
        assert(last.len() == 1);
    }
}

/// What has a plain name in a directory lies in that directory, and the root lies in
/// itself.
pub proof fn law_a_name_lies_in_its_directory(dir: Seq<char>, name: Seq<char>)
    requires
        dir == seq!['/'] || (dir.len() > 1 && dir[0] == '/' && dir.last() != '/' && !(dir.last()
            == '.' && dir[dir.len() - 2] == '/')),
        name.len() > 0,
        !name.contains('/'),
        name != seq!['.'],
    ensures
        parent_of(joined(dir, name)) == dir,
        parent_of(seq!['/']) == seq!['/'],
{
    let path = joined(dir, name);
    let n = path.len() as int;
    let k = (n - name.len()) as int;
    assert forall|i: int| 0 <= i < name.len() implies #[trigger] name[i] != '/' by {
        assert(name.contains(name[i]));
    }
    assert(name[0] != '/');
    assert forall|i: int| k <= i < n implies #[trigger] path[i] == name[i - k] by {}
    assert(path[k - 1] == '/');
    if path.last() == '.' && path[n - 2] == '/' {
        if name.len() > 1 {
            assert(path[n - 2] == name[name.len() - 2]);
        }
        assert(name =~= seq!['.']);
    }
    lemma_untrimmed(path);
    lemma_cut(path, 1);
    let cut = last_cut(path, 1) as int;
    if dir == seq!['/'] {
        assert(cut == 1) by {
            if cut > 1 {
                assert(path[cut] == name[cut - k]);
            }
        }
        assert(path.take(1) =~= dir);
        assert(trimmed(dir, 1) == dir);
    } else {
        assert(cut == k - 1) by {
            if cut > k - 1 {
                assert(path[cut] == name[cut - k]);
            }
            if cut < k - 1 {
                assert(path[k - 1] != '/');
            }
        }
        assert(path.take(k - 1) =~= dir);
        lemma_untrimmed(dir);
    }
}

/// A number stands for the path that was removed no longer, and for nothing else: every
/// other number stands for what it stood for.
pub proof fn law_a_removed_path_has_no_number(
    paths: Map<u64, Seq<char>>,
    path: Seq<char>,
    i: u64,
)
    ensures
        ({
            let left = without_path(paths, path);
            &&& left.contains_key(i) ==> left[i] != path
            &&& left.contains_key(i) <==> paths.contains_key(i) && paths[i] != path
            &&& left.contains_key(i) ==> left[i] == paths[i]
        }),
{
}

/// What lies beneath a path is what that path and a slash are the start of.
pub proof fn law_what_lies_beneath_starts_with_it(path: Seq<char>, dir: Seq<char>)
    requires
        dir.len() > 0,
    ensures
        is_within(path, dir) <==> path == dir || (path.len() >= dir.len() && path.take(
            dir.len() as int,
        ) == dir && (dir.last() == '/' || (path.len() > dir.len() && path[dir.len() as int]
            == '/'))),
{
    let prefix = dir_prefix(dir);
    if dir.last() != '/' {
        assert(prefix.drop_last() =~= dir);
    }
    if prefix.is_prefix_of(path) {
        assert(path.take(dir.len() as int) =~= dir) by {
            assert forall|i: int| 0 <= i < dir.len() implies path[i] == dir[i] by {
                assert(path.subrange(0, prefix.len() as int)[i] == prefix[i]);
            }
        }
        if dir.last() != '/' {
            assert(path.subrange(0, prefix.len() as int)[dir.len() as int] == '/');
        }
    }
    if path.len() >= dir.len() && path.take(dir.len() as int) == dir && (dir.last() == '/' || (
    path.len() > dir.len() && path[dir.len() as int] == '/')) {
        assert(path.subrange(0, prefix.len() as int) =~= prefix) by {
            assert forall|i: int| 0 <= i < prefix.len() implies path[i] == prefix[i] by {
                if i < dir.len() {
                    assert(path.take(dir.len() as int)[i] == dir[i]);
                }
            }
        }
    }
}

/// Following a rename makes up no number, and gives none to a path that is neither known
/// nor moved to: a number that stands for something afterwards stood for the same, or for
/// what has moved there. Nothing that was known at a place something has moved to is
/// known by its old number.
pub proof fn law_a_rename_makes_up_no_number(
    t: TrackerView,
    from: Seq<char>,
    to: Seq<char>,
    i: u64,
    j: u64,
)
    requires
        t.wf(),
    ensures
        t.renamed(from, to).paths.contains_key(i) ==> {
            &&& t.paths.contains_key(i)
            &&& t.renamed(from, to).paths[i] == t.paths[i] || (is_within(t.paths[i], from)
                && t.renamed(from, to).paths[i] == to + t.paths[i].skip(from.len() as int))
        },
        t.renamed(from, to).next == t.next,
        t.paths.contains_key(i) && t.paths.contains_key(j) && !is_within(t.paths[i], from)
            && is_within(t.paths[j], from) && t.paths[i] == to + t.paths[j].skip(from.len() as int)
            ==> !t.renamed(from, to).paths.contains_key(i),
{
}

} // verus!
