//! Paths within a filesystem.
//!
//! These are not paths of the machine the library runs on: components are
//! separated by a slash whatever the platform, and nothing else is special.

use vstd::prelude::*;
#[allow(unused_imports)]
use vstd::utf8::encode_utf8;

use crate::bytes::bytes_eq;

verus! {

/// A path taken apart: whether it starts at the root, and its components.
#[verifier::ext_equal]
pub struct PathView {
    pub absolute: bool,
    pub comps: Seq<Seq<u8>>,
}

pub const SLASH: u8 = 0x2f;

pub const DOT: u8 = 0x2e;

/// The components once one more has been reached: an empty one and `.` change
/// nothing, and `..` takes back the one before.
pub open spec fn with_component(comps: Seq<Seq<u8>>, c: Seq<u8>) -> Seq<Seq<u8>> {
    if c.len() == 0 || c == seq![DOT] {
        comps
    } else if c == seq![DOT, DOT] {
        if comps.len() > 0 {
            comps.drop_last()
        } else {
            comps
        }
    } else {
        comps.push(c)
    }
}

/// The components before the last slash of a path, and what follows it.
pub open spec fn split_path(path: Seq<u8>) -> (Seq<Seq<u8>>, Seq<u8>)
    decreases path.len(),
{
    if path.len() == 0 {
        (Seq::empty(), Seq::empty())
    } else {
        let (comps, tail) = split_path(path.drop_last());
        if path.last() == SLASH {
            (with_component(comps, tail), Seq::empty())
        } else {
            (comps, tail.push(path.last()))
        }
    }
}

/// What a path names.
pub open spec fn normalized(path: Seq<u8>) -> PathView {
    let (comps, tail) = split_path(path);
    PathView {
        absolute: path.len() > 0 && path[0] == SLASH,
        comps: with_component(comps, tail),
    }
}

/// A name that can be one component of a path.
pub open spec fn is_component(c: Seq<u8>) -> bool {
    &&& c.len() > 0
    &&& !c.contains(SLASH)
    &&& c != seq![DOT]
    &&& c != seq![DOT, DOT]
}

impl PathView {
    pub open spec fn parent(self) -> PathView {
        PathView { absolute: self.absolute, comps: self.comps.drop_last() }
    }

    /// Whether this path is `other`, or lies somewhere beneath it.
    pub open spec fn starts_with(self, other: PathView) -> bool {
        &&& self.absolute == other.absolute
        &&& other.comps.len() <= self.comps.len()
        &&& self.comps.take(other.comps.len() as int) == other.comps
    }
}

proof fn lemma_split_path(path: Seq<u8>)
    ensures
        forall|k: int|
            0 <= k < split_path(path).0.len() ==> is_component(#[trigger] split_path(path).0[k]),
        !split_path(path).1.contains(SLASH),
    decreases path.len(),
{
    if path.len() > 0 {
        lemma_split_path(path.drop_last());
    }
}

/// Every component of a path that has been taken apart is a plain name: not
/// empty, without a slash, and neither `.` nor `..`.
pub proof fn law_components_are_plain_names(path: Seq<u8>, k: int)
    requires
        0 <= k < normalized(path).comps.len(),
    ensures
        is_component(normalized(path).comps[k]),
{
    lemma_split_path(path);
}

/// A name without a slash is added to what follows the last slash of a path.
pub proof fn lemma_split_on(path: Seq<u8>, name: Seq<u8>)
    requires
        !name.contains(SLASH),
    ensures
        split_path(path + name) == (split_path(path).0, split_path(path).1 + name),
    decreases name.len(),
{
    let (comps, tail) = split_path(path);
    if name.len() == 0 {
        assert(path + name =~= path);
        assert(tail + name =~= tail);
    } else {
        let most = name.drop_last();
        assert(name[name.len() - 1] != SLASH) by {
            assert(name.contains(name[name.len() - 1]));
        }
        assert(!most.contains(SLASH)) by {
            if most.contains(SLASH) {
                let i = choose|i: int| 0 <= i < most.len() && most[i] == SLASH;
                assert(name[i] == SLASH);
            }
        }
        lemma_split_on(path, most);
        assert((path + name).drop_last() =~= path + most);
        assert((tail + most).push(name.last()) =~= tail + name);
    }
}

/// A slash and a name at the end of a path lead one step on: a plain name leads to what
/// has that name, an empty one or a dot leads nowhere, and two dots lead back. A path
/// starts at the root just if its first byte is a slash.
pub proof fn law_a_name_leads_one_step_on(path: Seq<u8>, name: Seq<u8>)
    requires
        !name.contains(0x2f),
    ensures
        ({
            let before = normalized(path).comps;
            let after = normalized(path + seq![0x2fu8] + name);
            &&& name.len() == 0 || name == seq![0x2eu8] ==> after.comps == before
            &&& name == seq![0x2eu8, 0x2eu8] && before.len() > 0 ==> after.comps == before.drop_last()
            &&& name == seq![0x2eu8, 0x2eu8] && before.len() == 0 ==> after.comps == before
            &&& name.len() > 0 && name != seq![0x2eu8] && name != seq![0x2eu8, 0x2eu8]
                ==> after.comps == before.push(name)
            &&& after.absolute == (path.len() == 0 || normalized(path).absolute)
        }),
        normalized(path).absolute <==> path.len() > 0 && path[0] == 0x2f,
        normalized(Seq::empty()).comps.len() == 0,
        normalized(name).comps == with_component(Seq::empty(), name),
{
    let longer = path + seq![0x2fu8];
    assert(longer.drop_last() =~= path);
    assert(longer.last() == SLASH);
    lemma_split_on(longer, name);
    assert(Seq::<u8>::empty() + name =~= name);
    lemma_split_on(Seq::empty(), name);
}

/// A path, taken apart.
pub struct VirtualPath {
    absolute: bool,
    comps: Vec<Vec<u8>>,
}

pub open spec fn deep(v: Seq<Vec<u8>>) -> Seq<Seq<u8>> {
    v.map_values(|c: Vec<u8>| c@)
}

fn push_component(comps: &mut Vec<Vec<u8>>, c: Vec<u8>)
    ensures
        deep(final(comps)@) == with_component(deep(old(comps)@), c@),
{
    if c.len() == 0 || (c.len() == 1 && c[0] == DOT) {
        assert(c@.len() == 1 ==> c@ =~= seq![DOT]);
        return;
    }
    if c.len() == 2 && c[0] == DOT && c[1] == DOT {
        assert(c@ =~= seq![DOT, DOT]);
        assert(deep(comps@).len() == comps@.len());
        if comps.len() > 0 {
            let _ = comps.pop();
            assert(deep(comps@) =~= deep(old(comps)@).drop_last());
        }
        return;
    }
    assert(c@ != seq![DOT]) by {
        assert(seq![DOT].len() == 1);
        assert(seq![DOT][0] == DOT);
    }
    assert(c@ != seq![DOT, DOT]) by {
        assert(seq![DOT, DOT].len() == 2);
        assert(seq![DOT, DOT][0] == DOT && seq![DOT, DOT][1] == DOT);
    }
    comps.push(c);
    assert(deep(comps@) =~= deep(old(comps)@).push(c@));
}

impl VirtualPath {
    pub closed spec fn view(self) -> PathView {
        PathView { absolute: self.absolute, comps: deep(self.comps@) }
    }

    /// Take a path apart, resolving `.` and `..` on the way.
    pub fn new(path: &str) -> (p: Self)
        ensures
            p@ == normalized(encode_utf8(path@)),
    {
        let bytes = path.as_bytes();
        let mut comps: Vec<Vec<u8>> = Vec::new();
        let mut tail: Vec<u8> = Vec::new();
        let mut i: usize = 0;
        assert(deep(comps@) =~= Seq::empty());
        assert(bytes@.take(0) =~= Seq::empty());
        while i < bytes.len()
            invariant
                i <= bytes@.len(),
                (deep(comps@), tail@) == split_path(bytes@.take(i as int)),
            decreases bytes@.len() - i,
        {
            assert(bytes@.take(i + 1).drop_last() =~= bytes@.take(i as int));
            assert(bytes@.take(i + 1).last() == bytes@[i as int]);
            if bytes[i] == SLASH {
                push_component(&mut comps, tail);
                tail = Vec::new();
            } else {
                tail.push(bytes[i]);
            }
            i += 1;
        }
        assert(bytes@.take(i as int) =~= bytes@);
        push_component(&mut comps, tail);
        let absolute: bool = bytes.len() > 0 && bytes[0] == SLASH;
        VirtualPath { absolute, comps }
    }

    pub fn is_absolute(&self) -> (b: bool)
        ensures
            b == self@.absolute,
    {
        self.absolute
    }

    /// How many components the path has, the root not counted.
    pub fn len(&self) -> (n: usize)
        ensures
            n == self@.comps.len(),
    {
        self.comps.len()
    }

    pub fn component(&self, i: usize) -> (c: &Vec<u8>)
        requires
            i < self@.comps.len(),
        ensures
            c@ == self@.comps[i as int],
    {
        &self.comps[i]
    }

    /// The path of the directory this path lies in.
    pub fn parent(&self) -> (p: Self)
        requires
            self@.comps.len() > 0,
        ensures
            p@ == self@.parent(),
    {
        let mut comps: Vec<Vec<u8>> = Vec::new();
        let mut i: usize = 0;
        let n: usize = self.comps.len() - 1;
        while i < n
            invariant
                i <= n,
                n < self.comps@.len(),
                comps@.len() == i,
                deep(comps@) == deep(self.comps@).take(i as int),
            decreases n - i,
        {
            let c = crate::bytes::to_vec(&self.comps[i]);
            let ghost before = comps@;
            comps.push(c);
            assert forall|k: int| 0 <= k < i + 1 implies #[trigger] deep(comps@)[k] == deep(
                self.comps@,
            ).take(i + 1)[k] by {
                if k < i {
                    assert(deep(comps@)[k] == deep(before)[k]);
                    assert(deep(before)[k] == deep(self.comps@).take(i as int)[k]);
                }
            }
            assert(deep(comps@) =~= deep(self.comps@).take(i + 1));
            i += 1;
        }
        let p = VirtualPath { absolute: self.absolute, comps };
        assert(p@ =~= self@.parent());
        p
    }

    /// Whether this path is `other`, or lies somewhere beneath it.
    pub fn starts_with(&self, other: &VirtualPath) -> (b: bool)
        ensures
            b == self@.starts_with(other@),
    {
        if self.absolute != other.absolute || other.comps.len() > self.comps.len() {
            return false;
        }
        let mut i: usize = 0;
        let ghost head = self@.comps.take(other@.comps.len() as int);
        while i < other.comps.len()
            invariant
                i <= other.comps@.len(),
                other.comps@.len() <= self.comps@.len(),
                head == self@.comps.take(other@.comps.len() as int),
                forall|k: int| 0 <= k < i ==> self@.comps[k] == other@.comps[k],
            decreases other.comps@.len() - i,
        {
            if !bytes_eq(&self.comps[i], &other.comps[i]) {
                assert(self@.comps[i as int] != other@.comps[i as int]);
                assert(head[i as int] != other@.comps[i as int]);
                return false;
            }
            assert(self@.comps[i as int] == other@.comps[i as int]);
            i += 1;
        }
        assert(head =~= other@.comps);
        true
    }

    /// Whether two paths name the same place.
    pub fn same(&self, other: &VirtualPath) -> (b: bool)
        ensures
            b == (self@ == other@),
    {
        let b: bool = self.comps.len() == other.comps.len() && self.starts_with(other);
        proof {
            assert(self@.comps.len() == self.comps@.len());
            assert(other@.comps.len() == other.comps@.len());
            if self.comps@.len() == other.comps@.len() {
                assert(self@.comps.take(other@.comps.len() as int) =~= self@.comps);
            }
            if b {
                assert(self@ =~= other@);
            }
        }
        b
    }
}

/// A path lies in the one with all its components but the last, and starts with another
/// if the components of that are the first of its own.
pub proof fn law_a_path_starts_with_those_it_lies_beneath(path: PathView, other: PathView)
    ensures
        path.comps.len() > 0 ==> path.parent().comps + seq![path.comps.last()] == path.comps,
        path.parent().absolute == path.absolute,
        path.starts_with(other) <==> path.absolute == other.absolute && exists|rest: Seq<Seq<u8>>|
            path.comps == #[trigger] (other.comps + rest),
        path.starts_with(path),
        path.comps.len() > 0 ==> path.starts_with(path.parent()),
{
    if path.comps.len() > 0 {
        assert(path.parent().comps + seq![path.comps.last()] =~= path.comps);
    }
    assert(path.comps.take(path.comps.len() as int) =~= path.comps);
    let n = other.comps.len() as int;
    if path.starts_with(other) {
        assert(path.comps =~= other.comps + path.comps.skip(n));
    }
    if exists|rest: Seq<Seq<u8>>| path.comps == #[trigger] (other.comps + rest) {
        assert(path.comps.take(n) =~= other.comps);
    }
    if path.comps.len() > 0 {
        assert(path.comps.take(path.comps.len() - 1) =~= path.parent().comps);
    }
}

} // verus!
