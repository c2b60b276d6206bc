//! What a mounted filesystem tells about its nodes and itself.

use vstd::prelude::*;
#[allow(unused_imports)]
use vstd::utf8::{decode_utf8, valid_utf8};

use crate::datetime::DateTime;
use crate::dir::DirectoryEntry;
#[allow(unused_imports)]
use crate::dir::EntryView;
use crate::inode::{child_path, parent_path, Inode, InodeTracker};
#[allow(unused_imports)]
use crate::inode::{joined, law_a_path_keeps_its_number, parent_of, TrackerView};
use crate::ops::Space;
use crate::variant::Variant;
#[allow(unused_imports)]
use crate::walk::entry_views;

verus! {

/// What kind of node an entry stands for.
#[derive(Debug, Clone, Copy, PartialEq, Eq, Structural)]
pub enum NodeKind {
    Directory,
    RegularFile,
}

/// The attributes of a node.
#[derive(Debug, Clone, Copy)]
pub struct Attributes {
    pub ino: Inode,
    pub size: u64,
    pub blocks: u64,
    pub accessed: DateTime,
    pub modified: DateTime,
    /// When the node itself was last changed, which is taken to be when its
    /// contents were.
    pub changed: DateTime,
    pub created: DateTime,
    pub kind: NodeKind,
    pub perm: u16,
    pub nlink: u32,
    pub uid: u32,
    pub gid: u32,
    pub rdev: u32,
    pub flags: u32,
    pub blksize: u32,
}

impl EntryView {
    /// The kind of node, or None for a volume label.
    pub open spec fn node_kind(self) -> Option<NodeKind> {
        if self.is_directory() {
            Some(NodeKind::Directory)
        } else if self.is_file() {
            Some(NodeKind::RegularFile)
        } else {
            None
        }
    }
}

impl Attributes {
    /// Whether these are the attributes of a node with a given entry.
    pub open spec fn describes(self, ino: Inode, entry: EntryView, variant: Variant) -> bool {
        let directory = entry.is_directory();
        &&& entry.node_kind() == Some(self.kind)
        &&& self.ino == ino
        &&& self.size == (if directory {
            0
        } else {
            entry.file_size as int
        })
        &&& self.blocks == (if directory {
            0
        } else {
            entry.file_size as int / 512
        })
        &&& self.accessed.unpacks_from(entry.accessed_date, entry.accessed_time, variant)
        &&& self.modified.unpacks_from(entry.modified_date, entry.modified_time, variant)
        &&& self.changed.unpacks_from(entry.modified_date, entry.modified_time, variant)
        &&& self.created.unpacks_from(entry.created_date, entry.created_time, variant)
        &&& self.perm == (if directory {
            493
        } else {
            420int
        })
        &&& self.nlink == (if directory {
            2
        } else {
            1int
        })
        &&& self.uid == 501
        &&& self.gid == 20
        &&& self.rdev == 0
        &&& self.flags == 0
        &&& self.blksize == (if directory {
            1
        } else {
            512int
        })
    }
}

/// The attributes of a node, or None for an entry that stands for neither a
/// file nor a directory.
pub fn dirent_to_attr(ino: Inode, dirent: &DirectoryEntry, variant: Variant) -> (r: Option<
    Attributes,
>)
    ensures
        match r {
            Some(attr) => attr.describes(ino, dirent@, variant),
            None => dirent@.node_kind() is None,
        },
{
    let accessed = dirent.accessed(variant);
    let modified = dirent.modified(variant);
    let created = dirent.created(variant);
    if dirent.is_directory() {
        return Some(
            Attributes {
                ino,
                size: 0,
                blocks: 0,
                accessed,
                modified,
                changed: modified,
                created,
                kind: NodeKind::Directory,
                perm: 0o755,
                nlink: 2,
                uid: 501,
                gid: 20,
                rdev: 0,
                flags: 0,
                blksize: 1,
            },
        );
    }
    if dirent.is_file() {
        return Some(
            Attributes {
                ino,
                size: dirent.file_size() as u64,
                blocks: (dirent.file_size() / 512) as u64,
                accessed,
                modified,
                changed: modified,
                created,
                kind: NodeKind::RegularFile,
                perm: 0o644,
                nlink: 1,
                uid: 501,
                gid: 20,
                rdev: 0,
                flags: 0,
                blksize: 512,
            },
        );
    }
    None
}

/// One line of a directory listing.
#[derive(Debug)]
pub struct Listed {
    pub ino: Inode,
    pub kind: NodeKind,
    pub name: String,
}

/// One line of a directory listing.
#[verifier::ext_equal]
pub struct ListedView {
    pub ino: Inode,
    pub kind: NodeKind,
    pub name: Seq<char>,
}

impl Listed {
    pub open spec fn view(self) -> ListedView {
        ListedView { ino: self.ino, kind: self.kind, name: self.name@ }
    }
}

/// The lines of a listing.
pub open spec fn lines(v: Seq<Listed>) -> Seq<ListedView> {
    v.map_values(|l: Listed| l.view())
}

impl TrackerView {
    /// The lines for the entries of a directory, the first `n` of them. Volume
    /// labels and entries whose name cannot be read are passed over.
    pub open spec fn list_children(self, dir: Seq<char>, entries: Seq<EntryView>, n: nat) -> (
        TrackerView,
        Seq<ListedView>,
    )
        decreases n,
    {
        if n == 0 {
            (self, Seq::empty())
        } else {
            let (t, before) = self.list_children(dir, entries, (n - 1) as nat);
            let e = entries[n - 1];
            match e.node_kind() {
                Some(kind) => if e.is_named() {
                    let (u, ino) = t.numbered(joined(dir, e.name()));
                    (u, before.push(ListedView { ino, kind, name: e.name() }))
                } else {
                    (t, before)
                },
                None => (t, before),
            }
        }
    }

    /// The number of the directory a directory lies in. The root lies in
    /// itself.
    pub open spec fn number_of_parent(self, ino: Inode, dir: Seq<char>) -> (TrackerView, Inode) {
        if ino == 1 {
            (self, 1)
        } else {
            self.numbered(parent_of(dir))
        }
    }

    /// The whole listing of a directory: itself, the directory it lies in, and
    /// its entries.
    pub open spec fn list(self, ino: Inode, dir: Seq<char>, entries: Seq<EntryView>) -> (
        TrackerView,
        Seq<ListedView>,
    ) {
        let (t, parent) = self.number_of_parent(ino, dir);
        let (u, rest) = t.list_children(dir, entries, entries.len());
        (
            u,
            seq![
                ListedView { ino, kind: NodeKind::Directory, name: "."@ },
                ListedView { ino: parent, kind: NodeKind::Directory, name: ".."@ },
            ] + rest,
        )
    }
}

/// The listing of a directory.
pub fn list_directory(
    tracker: &mut InodeTracker,
    ino: Inode,
    dir: &str,
    entries: &Vec<DirectoryEntry>,
) -> (listing: Vec<Listed>)
    requires
        old(tracker)@.wf(),
        old(tracker)@.next + entries@.len() + 1 < u64::MAX,
    ensures
        final(tracker)@.wf(),
        (final(tracker)@, lines(listing@)) == old(tracker)@.list(
            ino,
            dir@,
            entry_views(entries@),
        ),
{
    let mut listing: Vec<Listed> = Vec::new();
    listing.push(Listed { ino, kind: NodeKind::Directory, name: ".".to_owned() });
    let parent: Inode = if ino == 1 {
        1
    } else {
        tracker.get_or_create_inode(parent_path(dir).as_str())
    };
    listing.push(Listed { ino: parent, kind: NodeKind::Directory, name: "..".to_owned() });
    let ghost t0 = tracker@;
    let ghost all = entry_views(entries@);
    let ghost head = lines(listing@);
    proof {
        assert(head =~= seq![
            ListedView { ino, kind: NodeKind::Directory, name: "."@ },
            ListedView { ino: parent, kind: NodeKind::Directory, name: ".."@ },
        ]);
        assert(head + t0.list_children(dir@, all, 0).1 =~= head);
    }
    let mut k: usize = 0;
    while k < entries.len()
        invariant
            k <= entries@.len(),
            all == entry_views(entries@),
            tracker@.wf(),
            tracker@.next + (entries@.len() - k) < u64::MAX,
            tracker@ == t0.list_children(dir@, all, k as nat).0,
            lines(listing@) == head + t0.list_children(dir@, all, k as nat).1,
        decreases entries@.len() - k,
    {
        let e = &entries[k];
        let ghost before = listing@;
        let kind: Option<NodeKind> = if e.is_directory() {
            Some(NodeKind::Directory)
        } else if e.is_file() {
            Some(NodeKind::RegularFile)
        } else {
            None
        };
        if let Some(kind) = kind {
            if let Some(name) = e.checked_file_name() {
                let path: String = child_path(dir, name.as_str());
                let child: Inode = tracker.get_or_create_inode(path.as_str());
                listing.push(Listed { ino: child, kind, name });
                assert(lines(listing@) =~= lines(before).push(
                    ListedView { ino: child, kind, name: e@.name() },
                ));
            }
        }
        k += 1;
        proof {
            assert(lines(listing@) =~= head + t0.list_children(dir@, all, k as nat).1);
        }
    }
    listing
}

/// Whether some lines are those of a listing from an offset on, each with the
/// offset of the line that follows it.
pub open spec fn is_page(page: Seq<(Listed, u64)>, all: Seq<ListedView>, offset: u64) -> bool {
    &&& page.len() == (if offset >= all.len() {
        0
    } else {
        all.len() - offset
    })
    &&& forall|k: int|
        #![trigger page[k]]
        0 <= k < page.len() ==> page[k].0.view() == all[offset + k] && page[k].1 == offset + k + 1
}

/// The lines of a listing from an offset on.
pub fn page_from(listing: &Vec<Listed>, offset: u64) -> (page: Vec<(Listed, u64)>)
    ensures
        is_page(page@, lines(listing@), offset),
{
    let mut page: Vec<(Listed, u64)> = Vec::new();
    let len: usize = listing.len();
    if offset >= len as u64 {
        return page;
    }
    let start: usize = offset as usize;
    let mut i: usize = start;
    while i < len
        invariant
            start == offset,
            start <= i <= len,
            len == listing@.len(),
            page@.len() == i - start,
            forall|k: int|
                #![trigger page@[k]]
                0 <= k < page@.len() ==> page@[k].0.view() == lines(listing@)[offset + k]
                    && page@[k].1 == offset + k + 1,
        decreases len - i,
    {
        let line = &listing[i];
        let copy = Listed { ino: line.ino, kind: line.kind, name: line.name.as_str().to_owned() };
        assert(copy.view() == lines(listing@)[i as int]);
        page.push((copy, i as u64 + 1));
        i += 1;
    }
    page
}

/// Going on with a listing at the offset that came with one of its lines gives
/// the lines after that one, in the same order and with the same offsets: none is
/// repeated and none left out.
pub proof fn law_a_listing_goes_on_where_it_stopped(
    all: Seq<ListedView>,
    offset: u64,
    page: Seq<(Listed, u64)>,
    n: int,
    next: Seq<(Listed, u64)>,
)
    requires
        is_page(page, all, offset),
        0 < n <= page.len(),
        is_page(next, all, page[n - 1].1),
    ensures
        next.len() == page.len() - n,
        forall|k: int|
            #![trigger next[k]]
            0 <= k < next.len() ==> next[k].0.view() == page[n + k].0.view() && next[k].1 == page[n
                + k].1,
{
    assert(page[n - 1].1 == offset + n);
    assert forall|k: int|
        #![trigger next[k]]
        0 <= k < next.len() implies next[k].0.view() == page[n + k].0.view() && next[k].1 == page[n
        + k].1 by {
        assert(page[n + k].1 == offset + (n + k) + 1);
    }
}

/// Whether all that one tracker knows another knows too, by the same numbers.
spec fn knows_as_much(t: TrackerView, u: TrackerView) -> bool {
    &&& u.wf()
    &&& forall|i: u64| #[trigger]
        t.paths.contains_key(i) ==> u.paths.contains_key(i) && u.paths[i] == t.paths[i]
}

proof fn lemma_numbered(t: TrackerView, path: Seq<char>)
    requires
        t.wf(),
        t.next < u64::MAX,
    ensures
        t.numbered(path).0.wf(),
        knows_as_much(t, t.numbered(path).0),
        t.numbered(path).0.next <= t.next + 1,
        t.numbered(path).0.paths.contains_key(t.numbered(path).1),
        t.numbered(path).0.paths[t.numbered(path).1] == path,
{
    law_a_path_keeps_its_number(t, path, path);
}

proof fn lemma_known(u: TrackerView, i: u64, path: Seq<char>)
    requires
        u.wf(),
        u.paths.contains_key(i),
        u.paths[i] == path,
    ensures
        u.numbered(path) == (u, i),
{
    assert(u.knows(path));
    let k = u.number_of(path);
    assert(u.paths[k] == u.paths[i]);
}

proof fn lemma_list_children(t: TrackerView, dir: Seq<char>, entries: Seq<EntryView>, n: nat)
    requires
        t.wf(),
        t.next + n < u64::MAX,
    ensures
        ({
            let (u, _) = t.list_children(dir, entries, n);
            &&& knows_as_much(t, u)
            &&& u.next <= t.next + n
        }),
    decreases n,
{
    if n > 0 {
        lemma_list_children(t, dir, entries, (n - 1) as nat);
        let (u, _) = t.list_children(dir, entries, (n - 1) as nat);
        lemma_numbered(u, joined(dir, entries[n - 1].name()));
    }
}

/// Entries that have been listed have their numbers.
proof fn lemma_listed_again(
    t: TrackerView,
    u: TrackerView,
    dir: Seq<char>,
    entries: Seq<EntryView>,
    n: nat,
)
    requires
        t.wf(),
        t.next + n < u64::MAX,
        knows_as_much(t.list_children(dir, entries, n).0, u),
    ensures
        u.list_children(dir, entries, n) == (u, t.list_children(dir, entries, n).1),
    decreases n,
{
    if n > 0 {
        let m = (n - 1) as nat;
        let (s, _) = t.list_children(dir, entries, m);
        let path = joined(dir, entries[n - 1].name());
        lemma_list_children(t, dir, entries, m);
        lemma_numbered(s, path);
        lemma_listed_again(t, u, dir, entries, m);
        if entries[n - 1].node_kind() is Some && entries[n - 1].is_named() {
            lemma_known(u, s.numbered(path).1, path);
        }
    }
}

/// Listing a directory that has not changed gives the same lines again.
pub proof fn law_a_listing_can_be_repeated(
    t: TrackerView,
    ino: Inode,
    dir: Seq<char>,
    entries: Seq<EntryView>,
)
    requires
        t.wf(),
        t.next + entries.len() + 1 < u64::MAX,
    ensures
        ({
            let (u, all) = t.list(ino, dir, entries);
            u.list(ino, dir, entries) == (u, all)
        }),
{
    lemma_numbered(t, parent_of(dir));
    let (s, parent) = t.number_of_parent(ino, dir);
    let (u, all) = t.list(ino, dir, entries);
    lemma_list_children(s, dir, entries, entries.len());
    if ino != 1 {
        lemma_known(u, parent, parent_of(dir));
    }
    lemma_listed_again(s, u, dir, entries, entries.len());
}

/// Whether an entry has a line in a listing: it is neither deleted nor the end of
/// its directory nor a volume label, and its name fits its field and is text.
pub open spec fn is_shown(e: EntryView) -> bool {
    &&& e.filename_len != 0xe5 && e.filename_len != 0xff && e.filename_len != 0
    &&& e.attributes & 0x08 != 0x08
    &&& e.filename_len <= 42
    &&& valid_utf8(e.filename_bytes.take(e.filename_len as int))
}

/// Whether a line of a listing is that of an entry: it has its name, it tells a
/// directory from a file, and its number stands for the path of that name.
pub open spec fn is_line_of(l: ListedView, e: EntryView, dir: Seq<char>, u: TrackerView) -> bool {
    &&& l.name == decode_utf8(e.filename_bytes.take(e.filename_len as int))
    &&& (l.kind is Directory) == (e.attributes & 0x10 == 0x10)
    &&& u.paths.contains_key(l.ino)
    &&& u.paths[l.ino] == joined(dir, l.name)
}

proof fn lemma_lines(t: TrackerView, dir: Seq<char>, entries: Seq<EntryView>, n: nat)
    requires
        t.wf(),
        t.next + n < u64::MAX,
        n <= entries.len(),
    ensures
        ({
            let (u, rest) = t.list_children(dir, entries, n);
            let shown = entries.take(n as int).filter(|e: EntryView| is_shown(e));
            &&& rest.len() == shown.len()
            &&& forall|k: int|
                #![trigger rest[k]]
                0 <= k < rest.len() ==> is_line_of(rest[k], shown[k], dir, u)
        }),
    decreases n,
{
    let shows = |e: EntryView| is_shown(e);
    reveal(Seq::filter);
    if n > 0 {
        let m = (n - 1) as nat;
        lemma_lines(t, dir, entries, m);
        lemma_list_children(t, dir, entries, m);
        assert(entries.take(n as int).drop_last() =~= entries.take(m as int));
        let (s, before) = t.list_children(dir, entries, m);
        let (u, rest) = t.list_children(dir, entries, n);
        let shown = entries.take(n as int).filter(shows);
        let earlier = entries.take(m as int).filter(shows);
        let e = entries[m as int];
        assert(entries.take(n as int).last() == e);
        lemma_numbered(s, joined(dir, e.name()));
        assert(is_shown(e) == (e.node_kind() is Some && e.is_named()));
        assert forall|k: int| #![trigger rest[k]] 0 <= k < rest.len() implies is_line_of(
            rest[k],
            shown[k],
            dir,
            u,
        ) by {
            if k < before.len() {
                assert(is_line_of(before[k], earlier[k], dir, s));
            }
        }
    }
}

/// A listing has a line for the directory itself and one for the directory it lies
/// in, and then, in order, one for each entry that is that of a file or of a
/// directory and has a name that can be read, and no others, whichever directory is
/// listed. Each number in it stands for the path of its line, and every path that
/// had a number keeps it.
pub proof fn law_a_listing_has_a_line_for_every_node(
    t: TrackerView,
    ino: Inode,
    dir: Seq<char>,
    entries: Seq<EntryView>,
)
    requires
        t.wf(),
        t.next + entries.len() + 1 < u64::MAX,
    ensures
        ({
            let (u, all) = t.list(ino, dir, entries);
            let shown = entries.filter(|e: EntryView| is_shown(e));
            &&& all.len() == 2 + shown.len()
            &&& all[0] == (ListedView { ino, kind: NodeKind::Directory, name: "."@ })
            &&& all[1].kind is Directory
            &&& all[1].name == ".."@
            &&& ino == 1 ==> all[1].ino == 1
            &&& ino != 1 ==> u.paths.contains_key(all[1].ino) && u.paths[all[1].ino] == parent_of(
                dir,
            )
            &&& forall|k: int|
                #![trigger shown[k]]
                0 <= k < shown.len() ==> is_line_of(all[2 + k], shown[k], dir, u)
            &&& u.wf()
            &&& forall|i: u64| #[trigger]
                t.paths.contains_key(i) ==> u.paths.contains_key(i) && u.paths[i] == t.paths[i]
        }),
{
    lemma_numbered(t, parent_of(dir));
    let (s, parent) = t.number_of_parent(ino, dir);
    let (u, all) = t.list(ino, dir, entries);
    lemma_list_children(s, dir, entries, entries.len());
    lemma_lines(s, dir, entries, entries.len());
    assert(entries.take(entries.len() as int) =~= entries);
    let shown = entries.filter(|e: EntryView| is_shown(e));
    let rest = s.list_children(dir, entries, entries.len()).1;
    assert forall|k: int| #![trigger shown[k]] 0 <= k < shown.len() implies is_line_of(
        all[2 + k],
        shown[k],
        dir,
        u,
    ) by {
        assert(all[2 + k] == rest[k]);
    }
}

/// The figures a mounted filesystem gives about itself.
#[derive(Debug, Clone, Copy, PartialEq, Eq, Structural)]
pub struct StatFs {
    pub blocks: u64,
    pub bfree: u64,
    pub bavail: u64,
    pub files: u64,
    pub ffree: u64,
    pub bsize: u32,
    pub namelen: u32,
    pub frsize: u32,
}

impl StatFs {
    /// The figures for a given amount of room.
    pub open spec fn of(space: Space) -> StatFs {
        StatFs {
            blocks: space.total_bytes / space.bytes_per_cluster,
            bfree: space.free_bytes / space.bytes_per_cluster,
            bavail: space.free_bytes / space.bytes_per_cluster,
            files: 0,
            ffree: 0,
            bsize: space.bytes_per_cluster as u32,
            namelen: 42,
            frsize: space.bytes_per_cluster as u32,
        }
    }
}

/// How much of the filesystem is in use, in clusters.
///
/// FATX has no inode table, and no bound on how many entries the free space
/// could hold, so the file counts are left at zero, which is how a filesystem
/// says it does not know.
pub fn statfs(space: &Space) -> (r: StatFs)
    requires
        0 < space.bytes_per_cluster <= u32::MAX,
    ensures
        r == StatFs::of(*space),
{
    let clusters: u64 = space.total_bytes / space.bytes_per_cluster;
    let free: u64 = space.free_bytes / space.bytes_per_cluster;
    StatFs {
        blocks: clusters,
        bfree: free,
        bavail: free,
        files: 0,
        ffree: 0,
        bsize: space.bytes_per_cluster as u32,
        namelen: 42,
        frsize: space.bytes_per_cluster as u32,
    }
}

/// The attributes of a node tell what its entry says. Those of a file have its size,
/// the whole blocks of 512 bytes in it, and the rights 0o644, those of a directory have
/// neither size nor blocks, and the rights 0o755. Its times are those of the entry, and
/// it counts as changed when its contents were.
pub proof fn law_attributes_tell_what_the_entry_says(
    attr: Attributes,
    ino: Inode,
    e: EntryView,
    variant: Variant,
)
    requires
        attr.describes(ino, e, variant),
    ensures
        attr.ino == ino,
        e.attributes & 0x08 != 0x08,
        (attr.kind is Directory) == (e.attributes & 0x10 == 0x10),
        attr.kind is RegularFile ==> {
            &&& attr.size == e.file_size
            &&& attr.blocks * 512 <= e.file_size < attr.blocks * 512 + 512
            &&& attr.perm == 6 * 64 + 4 * 8 + 4
            &&& attr.nlink == 1
            &&& attr.blksize == 512
        },
        attr.kind is Directory ==> {
            &&& attr.size == 0
            &&& attr.blocks == 0
            &&& attr.perm == 7 * 64 + 5 * 8 + 5
            &&& attr.nlink == 2
            &&& attr.blksize == 1
        },
        attr.uid == 501,
        attr.gid == 20,
        attr.rdev == 0,
        attr.flags == 0,
        attr.accessed.unpacks_from(e.accessed_date, e.accessed_time, variant),
        attr.modified.unpacks_from(e.modified_date, e.modified_time, variant),
        attr.created.unpacks_from(e.created_date, e.created_time, variant),
        attr.changed.fields() == attr.modified.fields(),
{
}

/// A page of a listing from an offset on is all the lines there are from that one on,
/// in order, each with the offset of the next.
pub proof fn law_a_page_is_the_rest_of_a_listing(
    page: Seq<(Listed, u64)>,
    all: Seq<ListedView>,
    offset: u64,
)
    requires
        is_page(page, all, offset),
    ensures
        offset <= all.len() ==> all.take(offset as int) + page.map_values(
            |l: (Listed, u64)| l.0.view(),
        ) == all,
        offset > all.len() ==> page.len() == 0,
        forall|k: int| 0 <= k < page.len() ==> (#[trigger] page[k]).1 == offset + k + 1,
{
    if offset <= all.len() {
        let shown = page.map_values(|l: (Listed, u64)| l.0.view());
        assert forall|k: int| 0 <= k < shown.len() implies #[trigger] shown[k] == all[offset + k] by {
            assert(page[k].0.view() == all[offset + k]);
        }
        assert(all.take(offset as int) + shown =~= all);
    }
}

} // verus!
