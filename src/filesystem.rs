//! The virtual filesystem: stored files and directories under `/`, and the
//! synthetic mounts `/proc`, `/dev` and `/network`, which are looked at
//! before the stored tree.
use vstd::prelude::*;
use crate::bytes::copy_bytes;
use crate::node::{
    dev_lookup, proc_lookup, DevDirectory, Directory, File, NetworkDirectory, Node, NodeType,
    ProcDirectory,
};
use crate::path::{
    absolute, join_absolute, lemma_split_absolute, lemma_split_valid, seg_prefix, segs, segs_equal,
    split_path, split_spec, valid_seg, valid_segs,
    starts_with_segs, str_equal, strip_prefix,
};
use crate::text::{process_text, route_text};

verus! {

/// What goes wrong with a filesystem operation.
#[derive(Clone, Copy, Debug, PartialEq, Eq, Structural)]
pub enum FsError {
    /// The path has no segment to name a node by.
    InvalidPath,
    PathNotFound,
    ParentNotFound,
    ParentNotDirectory,
    NotADirectory,
    NotAFile,
}

impl FsError {
    /// A short description for users.
    pub fn message(&self) -> (r: String) {
        match self {
            FsError::InvalidPath => "Invalid path".to_string(),
            FsError::PathNotFound => "Path not found".to_string(),
            FsError::ParentNotFound => "Parent not found".to_string(),
            FsError::ParentNotDirectory => "Parent is not directory".to_string(),
            FsError::NotADirectory => "Not a directory".to_string(),
            FsError::NotAFile => "Not a file".to_string(),
        }
    }
}

/// A stored node: its full path and, for a file, its contents.
struct Entry {
    path: Vec<String>,
    content: Option<Vec<u8>>,
}

/// A stored node as plain values: its path, and `Some(contents)` for a file
/// or `None` for a directory.
pub type EntryView = (Seq<Seq<char>>, Option<Seq<u8>>);

spec fn entry_view(e: Entry) -> EntryView {
    (
        segs(e.path@),
        match e.content {
            Some(c) => Some(c@),
            None => None,
        },
    )
}

/// What the last entry stored at path `p` holds.
pub open spec fn find_entry(s: Seq<EntryView>, p: Seq<Seq<char>>) -> Option<Option<Seq<u8>>>
    decreases s.len(),
{
    if s.len() == 0 {
        None
    } else if s.last().0 == p {
        Some(s.last().1)
    } else {
        find_entry(s.drop_last(), p)
    }
}

/// The entries that remain after removing the node at `p` and all below it.
pub open spec fn without_subtree(s: Seq<EntryView>, p: Seq<Seq<char>>) -> Seq<EntryView>
    decreases s.len(),
{
    if s.len() == 0 {
        s
    } else if seg_prefix(p, s.last().0) {
        without_subtree(s.drop_last(), p)
    } else {
        without_subtree(s.drop_last(), p).push(s.last())
    }
}

/// Whether the names of a directory's children are exactly those stored
/// right below `p`.
pub open spec fn lists_children(d: Directory, s: Seq<EntryView>, p: Seq<Seq<char>>) -> bool {
    forall|x: Seq<char>| #[trigger] d.child_names().contains(x) <==> find_entry(s, p.push(x)) is Some
}

proof fn lemma_find_entry_some(s: Seq<EntryView>, p: Seq<Seq<char>>)
    ensures
        find_entry(s, p) is Some <==> exists|k: int| 0 <= k < s.len() && s[k].0 == p,
    decreases s.len(),
{
    if s.len() > 0 {
        lemma_find_entry_some(s.drop_last(), p);
        if exists|k: int| 0 <= k < s.len() && s[k].0 == p {
            let k = choose|k: int| 0 <= k < s.len() && s[k].0 == p;
            if k < s.len() - 1 {
                assert(s.drop_last()[k] == s[k]);
            }
        }
        if exists|k: int| 0 <= k < s.len() - 1 && s.drop_last()[k].0 == p {
            let k = choose|k: int| 0 <= k < s.len() - 1 && s.drop_last()[k].0 == p;
            assert(s[k] == s.drop_last()[k]);
        }
    }
}

/// Removing a subtree removes exactly the paths at or below its root.
pub proof fn lemma_without_subtree(s: Seq<EntryView>, p: Seq<Seq<char>>, q: Seq<Seq<char>>)
    ensures
        find_entry(without_subtree(s, p), q) == if seg_prefix(p, q) {
            None
        } else {
            find_entry(s, q)
        },
    decreases s.len(),
{
    if s.len() > 0 {
        lemma_without_subtree(s.drop_last(), p, q);
        if !seg_prefix(p, s.last().0) {
            assert(without_subtree(s, p).drop_last() == without_subtree(s.drop_last(), p));
        }
    }
}

proof fn lemma_find_entry_update(s: Seq<EntryView>, k: int, v: Option<Seq<u8>>, q: Seq<Seq<char>>)
    requires
        0 <= k < s.len(),
        forall|j: int| k < j < s.len() ==> s[j].0 != s[k].0,
    ensures
        find_entry(s.update(k, (s[k].0, v)), q) == if q == s[k].0 {
            Some(v)
        } else {
            find_entry(s, q)
        },
    decreases s.len(),
{
    let t = s.update(k, (s[k].0, v));
    if k < s.len() - 1 {
        assert(t.drop_last() =~= s.drop_last().update(k, (s[k].0, v)));
        assert(s.drop_last()[k] == s[k]);
        assert forall|j: int| k < j < s.drop_last().len() implies s.drop_last()[j].0 != s.drop_last()[k].0 by {
            assert(s.drop_last()[j] == s[j]);
        }
        lemma_find_entry_update(s.drop_last(), k, v, q);
        assert(t.last() == s.last());
        assert(s[s.len() - 1].0 != s[k].0);
    } else {
        assert(t.drop_last() =~= s.drop_last());
    }
}

/// Number of stored directories.
pub open spec fn count_dirs(s: Seq<EntryView>) -> nat
    decreases s.len(),
{
    if s.len() == 0 {
        0
    } else {
        count_dirs(s.drop_last()) + if s.last().1 is None {
            1nat
        } else {
            0nat
        }
    }
}

/// Total length of the contents of stored files.
pub open spec fn file_bytes(s: Seq<EntryView>) -> nat
    decreases s.len(),
{
    if s.len() == 0 {
        0
    } else {
        file_bytes(s.drop_last()) + match s.last().1 {
            Some(c) => c.len(),
            None => 0,
        }
    }
}

/// `n`, or `usize::MAX` where it does not fit.
pub open spec fn capped(n: nat) -> nat {
    if n <= usize::MAX {
        n
    } else {
        usize::MAX as nat
    }
}

/// Counts over the stored tree.
#[derive(Clone, Copy, Debug, PartialEq, Eq, Structural)]
pub struct FsStats {
    /// Stored directories, the root not included.
    pub directories: usize,
    pub files: usize,
    /// Total bytes held by stored files, saturating at `usize::MAX`.
    pub file_bytes: usize,
}

/// Whether a stored path is well placed: made of segments that splitting
/// produces, and either right below the root or right below a stored
/// directory.
pub open spec fn placed(t: Seq<EntryView>, q: Seq<Seq<char>>) -> bool {
    &&& q.len() >= 1
    &&& valid_segs(q)
    &&& (q.len() == 1 || find_entry(t, q.drop_last()) == Some(None::<Seq<u8>>))
}

/// Every stored node is well placed, so the stored nodes form a tree under
/// the root: looking a path up is walking it from the root.
pub open spec fn tree_wf(t: Seq<EntryView>) -> bool {
    forall|k: int| 0 <= k < t.len() ==> #[trigger] placed(t, t[k].0)
}

proof fn lemma_without_subtree_members(t: Seq<EntryView>, p: Seq<Seq<char>>)
    ensures
        forall|k: int|
            0 <= k < without_subtree(t, p).len() ==> !seg_prefix(
                p,
                #[trigger] without_subtree(t, p)[k].0,
            ) && exists|j: int| 0 <= j < t.len() && t[j] == without_subtree(t, p)[k],
    decreases t.len(),
{
    if t.len() > 0 {
        lemma_without_subtree_members(t.drop_last(), p);
        let u = without_subtree(t, p);
        let u0 = without_subtree(t.drop_last(), p);
        assert forall|k: int| 0 <= k < u.len() implies !seg_prefix(p, #[trigger] u[k].0) && exists|
            j: int,
        | 0 <= j < t.len() && t[j] == u[k] by {
            if k < u0.len() {
                assert(u[k] == u0[k]);
                assert(!seg_prefix(p, u0[k].0));
                let j = choose|j: int| 0 <= j < t.drop_last().len() && t.drop_last()[j] == u0[k];
                assert(t[j] == t.drop_last()[j]);
            } else {
                assert(u[k] == t.last());
                assert(t[t.len() - 1] == u[k]);
            }
        }
    }
}

/// Storing a node under a parent that is the root or a stored directory
/// keeps every stored node well placed.
proof fn lemma_store_keeps_placed(t: Seq<EntryView>, p: Seq<Seq<char>>, c: Option<Seq<u8>>)
    requires
        tree_wf(t),
        p.len() >= 1,
        valid_segs(p),
        p.len() == 1 || find_entry(t, p.drop_last()) == Some(None::<Seq<u8>>),
    ensures
        tree_wf(without_subtree(t, p).push((p, c))),
{
    let u = without_subtree(t, p);
    let v = u.push((p, c));
    lemma_without_subtree_members(t, p);
    assert(v.drop_last() =~= u);
    assert forall|k: int| 0 <= k < v.len() implies #[trigger] placed(v, v[k].0) by {
        let q = v[k].0;
        if k < u.len() {
            assert(v[k] == u[k]);
            let j = choose|j: int| 0 <= j < t.len() && t[j] == u[k];
            assert(placed(t, t[j].0));
            if q.len() > 1 {
                let par = q.drop_last();
                if par == p {
                    assert(q.subrange(0, p.len() as int) =~= par);
                }
                if seg_prefix(p, par) {
                    assert(q.subrange(0, p.len() as int) =~= par.subrange(0, p.len() as int));
                }
                lemma_without_subtree(t, p, par);
            }
        } else {
            if p.len() > 1 {
                lemma_without_subtree(t, p, p.drop_last());
            }
        }
    }
}

/// Changing the contents of the last stored file at a path keeps every
/// stored node well placed.
proof fn lemma_write_keeps_placed(t: Seq<EntryView>, k: int, v: Option<Seq<u8>>)
    requires
        tree_wf(t),
        0 <= k < t.len(),
        t[k].1 is Some,
        v is Some,
        forall|j: int| k < j < t.len() ==> t[j].0 != t[k].0,
    ensures
        tree_wf(t.update(k, (t[k].0, v))),
{
    let t2 = t.update(k, (t[k].0, v));
    assert(find_entry(t, t[k].0) == Some(t[k].1)) by {
        lemma_find_entry_update(t, k, t[k].1, t[k].0);
        assert(t.update(k, (t[k].0, t[k].1)) =~= t);
    }
    assert forall|i: int| 0 <= i < t2.len() implies #[trigger] placed(t2, t2[i].0) by {
        assert(t2[i].0 == t[i].0);
        assert(placed(t, t[i].0));
        let q = t[i].0;
        if q.len() > 1 {
            lemma_find_entry_update(t, k, v, q.drop_last());
        }
    }
}

/// Where a path leads, before anything is looked up.
pub enum PathClass {
    Root,
    ProcDir,
    ProcEntry(Seq<char>),
    DevDir,
    DevEntry(Seq<char>),
    NetDir,
    NetEntry(Seq<char>),
    Stored(Seq<Seq<char>>),
}

pub open spec fn has_prefix(p: Seq<char>, pre: Seq<char>) -> bool {
    p.len() >= pre.len() && p.subrange(0, pre.len() as int) == pre
}

pub open spec fn after(p: Seq<char>, pre: Seq<char>) -> Seq<char> {
    p.subrange(pre.len() as int, p.len() as int)
}

/// A tree of named nodes rooted at `/`, with optional synthetic mounts.
pub struct FileSystem {
    entries: Vec<Entry>,
    proc_dir: Option<ProcDirectory>,
    dev_dir: Option<DevDirectory>,
    network_dir: Option<NetworkDirectory>,
}

impl FileSystem {
    /// The stored nodes form a tree under the root.
    pub open spec fn wf(&self) -> bool {
        tree_wf(self.tree())
    }

    /// The stored nodes, in storage order.
    pub closed spec fn tree(&self) -> Seq<EntryView> {
        self.entries@.map_values(|e: Entry| entry_view(e))
    }

    pub closed spec fn proc_mount(&self) -> Option<ProcDirectory> {
        self.proc_dir
    }

    pub closed spec fn dev_mounted(&self) -> bool {
        self.dev_dir is Some
    }

    pub closed spec fn network_mount(&self) -> Option<NetworkDirectory> {
        self.network_dir
    }

    /// Where `p` leads: the mounts are checked first, then the stored tree.
    pub open spec fn path_class(&self, p: Seq<char>) -> PathClass {
        if p == "/"@ {
            PathClass::Root
        } else if self.proc_mount() is Some && p == "/proc"@ {
            PathClass::ProcDir
        } else if self.proc_mount() is Some && has_prefix(p, "/proc/"@) {
            PathClass::ProcEntry(after(p, "/proc/"@))
        } else if self.dev_mounted() && p == "/dev"@ {
            PathClass::DevDir
        } else if self.dev_mounted() && has_prefix(p, "/dev/"@) {
            PathClass::DevEntry(after(p, "/dev/"@))
        } else if self.network_mount() is Some && p == "/network"@ {
            PathClass::NetDir
        } else if self.network_mount() is Some && has_prefix(p, "/network/"@) {
            PathClass::NetEntry(after(p, "/network/"@))
        } else if split_spec(p).len() == 0 {
            PathClass::Root
        } else {
            PathClass::Stored(split_spec(p))
        }
    }

    /// Whether `p` leads to a file, a directory, or nothing.
    pub open spec fn kind_at(&self, p: Seq<char>) -> Option<NodeType> {
        match self.path_class(p) {
            PathClass::Root | PathClass::ProcDir | PathClass::DevDir | PathClass::NetDir => Some(
                NodeType::Directory,
            ),
            PathClass::ProcEntry(n) => if proc_lookup(self.proc_mount()->0.records(), n) is Some {
                Some(NodeType::File)
            } else {
                None
            },
            PathClass::DevEntry(n) => if dev_lookup(n) is Some {
                Some(NodeType::File)
            } else {
                None
            },
            PathClass::NetEntry(n) => if self.network_mount()->0.gateway(n) is Some {
                Some(NodeType::File)
            } else {
                None
            },
            PathClass::Stored(parts) => match find_entry(self.tree(), parts) {
                Some(Some(_)) => Some(NodeType::File),
                Some(None) => Some(NodeType::Directory),
                None => None,
            },
        }
    }

    /// Whether `r` is what a lookup of `p` gives.
    pub open spec fn found(&self, p: Seq<char>, r: Option<Node>) -> bool {
        match self.path_class(p) {
            PathClass::Root => r matches Some(Node::Directory(d)) && d.name@ == "/"@
                && lists_children(d, self.tree(), seq![]),
            PathClass::ProcDir => r matches Some(Node::Proc(pd)) && pd.records()
                == self.proc_mount()->0.records(),
            PathClass::ProcEntry(n) => match proc_lookup(self.proc_mount()->0.records(), n) {
                Some(info) => r matches Some(Node::Text(f)) && f.name@ == "task"@ && f.content@
                    == process_text(info),
                None => r is None,
            },
            PathClass::DevDir => r matches Some(Node::Dev(_)),
            PathClass::DevEntry(n) => r == dev_lookup(n),
            PathClass::NetDir => r matches Some(Node::Network(nd)) && nd.route_table()
                == self.network_mount()->0.route_table(),
            PathClass::NetEntry(n) => match self.network_mount()->0.gateway(n) {
                Some(g) => r matches Some(Node::Text(f)) && f.name@ == n && f.content@
                    == route_text(n, g),
                None => r is None,
            },
            PathClass::Stored(parts) => match find_entry(self.tree(), parts) {
                Some(Some(c)) => r matches Some(Node::File(f)) && f.name@ == parts.last()
                    && f.content@ == c,
                Some(None) => r matches Some(Node::Directory(d)) && d.name@ == parts.last()
                    && lists_children(d, self.tree(), parts),
                None => r is None,
            },
        }
    }

    /// An empty tree with nothing mounted.
    pub fn new() -> (r: FileSystem)
        ensures
            r.wf(),
            r.tree().len() == 0,
            r.proc_mount() is None,
            !r.dev_mounted(),
            r.network_mount() is None,
    {
        FileSystem { entries: Vec::new(), proc_dir: None, dev_dir: None, network_dir: None }
    }

    /// How many directories and files are stored, and how many bytes the
    /// files hold.
    pub fn stats(&self) -> (r: FsStats)
        ensures
            r.directories == count_dirs(self.tree()),
            r.files + r.directories == self.tree().len(),
            r.file_bytes == capped(file_bytes(self.tree())),
    {
        let mut dirs: usize = 0;
        let mut files: usize = 0;
        let mut bytes: usize = 0;
        let mut i: usize = 0;
        while i < self.entries.len()
            invariant
                i <= self.entries@.len(),
                dirs == count_dirs(self.tree().subrange(0, i as int)),
                dirs + files == i,
                bytes == capped(file_bytes(self.tree().subrange(0, i as int))),
            decreases self.entries@.len() - i,
        {
            let ghost t = self.tree().subrange(0, i as int + 1);
            assert(t.drop_last() =~= self.tree().subrange(0, i as int));
            assert(t.last() == entry_view(self.entries@[i as int]));
            match &self.entries[i].content {
                Some(c) => {
                    files = files + 1;
                    bytes = bytes.saturating_add(c.len());
                },
                None => {
                    dirs = dirs + 1;
                },
            }
            i = i + 1;
        }
        assert(self.tree().subrange(0, i as int) =~= self.tree());
        FsStats { directories: dirs, files, file_bytes: bytes }
    }

    /// The non-empty segments of a path.
    pub fn split_path(path: &str) -> (r: Vec<String>)
        ensures
            segs(r@) == split_spec(path@),
    {
        split_path(path)
    }

    /// Mounts (or remounts) `/proc`.
    pub fn set_proc(&mut self, proc: ProcDirectory)
        ensures
            final(self).tree() == old(self).tree(),
            final(self).proc_mount() == Some(proc),
            final(self).dev_mounted() == old(self).dev_mounted(),
            final(self).network_mount() == old(self).network_mount(),
    {
        self.proc_dir = Some(proc);
    }

    /// Mounts `/dev`.
    pub fn set_dev(&mut self, dev: DevDirectory)
        ensures
            final(self).tree() == old(self).tree(),
            final(self).proc_mount() == old(self).proc_mount(),
            final(self).dev_mounted(),
            final(self).network_mount() == old(self).network_mount(),
    {
        self.dev_dir = Some(dev);
    }

    /// Mounts `/network`.
    pub fn set_network(&mut self, network: NetworkDirectory)
        ensures
            final(self).tree() == old(self).tree(),
            final(self).proc_mount() == old(self).proc_mount(),
            final(self).dev_mounted() == old(self).dev_mounted(),
            final(self).network_mount() == Some(network),
    {
        self.network_dir = Some(network);
    }

    /// Sets a route in the mounted `/network`; without that mount, does
    /// nothing and says so.
    pub fn add_route(&mut self, destination: &str, gateway: &str) -> (r: bool)
        ensures
            r == old(self).network_mount() is Some,
            final(self).tree() == old(self).tree(),
            final(self).proc_mount() == old(self).proc_mount(),
            final(self).dev_mounted() == old(self).dev_mounted(),
            final(self).network_mount() is Some == r,
            r ==> forall|x: Seq<char>| #[trigger] final(self).network_mount()->0.gateway(x) == if x
                == destination@ {
                Some(gateway@)
            } else {
                old(self).network_mount()->0.gateway(x)
            },
    {
        match &mut self.network_dir {
            Some(n) => {
                n.add_route(destination, gateway);
                true
            },
            None => false,
        }
    }

    /// Index of the last entry stored at `parts`.
    fn find(&self, parts: &Vec<String>) -> (r: Option<usize>)
        ensures
            match r {
                Some(k) => k < self.tree().len() && self.tree()[k as int].0 == segs(parts@)
                    && find_entry(self.tree(), segs(parts@)) == Some(self.tree()[k as int].1)
                    && forall|j: int|
                    k < j < self.tree().len() ==> self.tree()[j].0 != segs(parts@),
                None => find_entry(self.tree(), segs(parts@)) is None,
            },
    {
        let mut i: usize = self.entries.len();
        assert(self.tree().subrange(0, i as int) =~= self.tree());
        while i > 0
            invariant
                i <= self.entries@.len(),
                find_entry(self.tree(), segs(parts@)) == find_entry(
                    self.tree().subrange(0, i as int),
                    segs(parts@),
                ),
                forall|j: int| i <= j < self.tree().len() ==> self.tree()[j].0 != segs(parts@),
            decreases i,
        {
            let ghost t = self.tree().subrange(0, i as int);
            assert(t.drop_last() =~= self.tree().subrange(0, i - 1));
            assert(t.last() == self.tree()[i - 1]);
            if segs_equal(&self.entries[i - 1].path, parts) {
                return Some(i - 1);
            }
            i = i - 1;
        }
        None
    }

    /// A directory named `name` listing what is stored right below `parts`.
    fn listing(&self, parts: &Vec<String>, name: String) -> (r: Directory)
        ensures
            r.name == name,
            lists_children(r, self.tree(), segs(parts@)),
    {
        let mut d = Directory { name, children: Vec::new() };
        let ghost p = segs(parts@);
        let mut i: usize = 0;
        while i < self.entries.len()
            invariant
                i <= self.entries@.len(),
                d.name == name,
                p == segs(parts@),
                forall|x: Seq<char>| #[trigger] d.child_names().contains(x) <==> exists|k: int|
                    0 <= k < i && self.tree()[k].0 == p.push(x),
            decreases self.entries@.len() - i,
        {
            let e = &self.entries[i];
            assert(self.tree()[i as int] == entry_view(*e));
            if e.path.len() > 0 && e.path.len() - 1 == parts.len() && starts_with_segs(&e.path, parts) {
                let last = e.path[parts.len()].clone();
                let child = match &e.content {
                    Some(c) => Node::File(File { name: last, content: copy_bytes(c.as_slice()) }),
                    None => Node::Directory(Directory { name: last, children: Vec::new() }),
                };
                let ghost before = d.child_names();
                let ghost x0 = child.name_view();
                assert(x0 == segs(e.path@)[parts@.len() as int]);
                assert(segs(e.path@) =~= p.push(x0));
                d.children.push(child);
                proof {
                    assert(d.child_names() =~= before.push(x0));
                    assert forall|x: Seq<char>| #[trigger] d.child_names().contains(x) <==> exists|k: int|
                        0 <= k < i + 1 && self.tree()[k].0 == p.push(x) by {
                        if x == x0 {
                            assert(d.child_names()[before.len() as int] == x);
                            assert(self.tree()[i as int].0 == p.push(x));
                        } else {
                            if d.child_names().contains(x) {
                                let j = choose|j: int| 0 <= j < d.child_names().len() && d.child_names()[j] == x;
                                assert(before[j] == x);
                                assert(before.contains(x));
                            }
                            if exists|k: int| 0 <= k < i + 1 && self.tree()[k].0 == p.push(x) {
                                let k = choose|k: int| 0 <= k < i + 1 && self.tree()[k].0 == p.push(x);
                                if k == i {
                                    assert(p.push(x)[p.len() as int] == x);
                                    assert(p.push(x0)[p.len() as int] == x0);
                                }
                                assert(before.contains(x));
                                let j = choose|j: int| 0 <= j < before.len() && before[j] == x;
                                assert(d.child_names()[j] == x);
                            }
                        }
                    }
                }
            } else {
                proof {
                    assert forall|x: Seq<char>| #[trigger] d.child_names().contains(x) <==> exists|k: int|
                        0 <= k < i + 1 && self.tree()[k].0 == p.push(x) by {
                        if exists|k: int| 0 <= k < i + 1 && self.tree()[k].0 == p.push(x) {
                            let k = choose|k: int| 0 <= k < i + 1 && self.tree()[k].0 == p.push(x);
                            if k == i {
                                assert(segs(e.path@).len() == e.path@.len());
                                assert(segs(e.path@).subrange(0, p.len() as int) =~= p);
                            }
                        }
                    }
                }
            }
            i = i + 1;
        }
        proof {
            assert forall|x: Seq<char>| #[trigger] d.child_names().contains(x) <==> find_entry(self.tree(), p.push(x)) is Some by {
                lemma_find_entry_some(self.tree(), p.push(x));
            }
        }
        d
    }

    /// The node that `path` leads to, if any.
    pub fn get(&self, path: &str) -> (r: Option<Node>)
        ensures
            self.found(path@, r),
    {
        proof {
            reveal_strlit("/");
            reveal_strlit("/proc");
            reveal_strlit("/dev");
            reveal_strlit("/network");
        }
        if str_equal(path, "/") {
            let root = Vec::new();
            assert(segs(root@) =~= seq![]);
            return Some(Node::Directory(self.listing(&root, "/".to_string())));
        }
        match &self.proc_dir {
            Some(pd) => {
                if str_equal(path, "/proc") {
                    return Some(Node::Proc(pd.copy()));
                }
                match strip_prefix(path, "/proc/") {
                    Some(rest) => {
                        return pd.get(rest.as_str());
                    },
                    None => {},
                }
            },
            None => {},
        }
        match &self.dev_dir {
            Some(dd) => {
                if str_equal(path, "/dev") {
                    return Some(Node::Dev(DevDirectory));
                }
                match strip_prefix(path, "/dev/") {
                    Some(rest) => {
                        return dd.get(rest.as_str());
                    },
                    None => {},
                }
            },
            None => {},
        }
        match &self.network_dir {
            Some(nd) => {
                if str_equal(path, "/network") {
                    return Some(Node::Network(nd.copy()));
                }
                match strip_prefix(path, "/network/") {
                    Some(rest) => {
                        return nd.get(rest.as_str());
                    },
                    None => {},
                }
            },
            None => {},
        }
        let parts = split_path(path);
        if parts.len() == 0 {
            let root = Vec::new();
            assert(segs(root@) =~= seq![]);
            return Some(Node::Directory(self.listing(&root, "/".to_string())));
        }
        match self.find(&parts) {
            Some(k) => {
                let name = parts[parts.len() - 1].clone();
                assert(name@ == segs(parts@).last());
                match &self.entries[k].content {
                    Some(c) => {
                        assert(self.tree()[k as int] == entry_view(self.entries@[k as int]));
                        Some(Node::File(File { name, content: copy_bytes(c.as_slice()) }))
                    },
                    None => {
                        assert(self.tree()[k as int] == entry_view(self.entries@[k as int]));
                        Some(Node::Directory(self.listing(&parts, name)))
                    },
                }
            },
            None => None,
        }
    }
    /// The names in the directory that `path` leads to.
    pub fn list(&self, path: &str) -> (r: Result<Vec<String>, FsError>)
        ensures
            match self.kind_at(path@) {
                None => r == Err::<Vec<String>, FsError>(FsError::PathNotFound),
                Some(NodeType::File) => r == Err::<Vec<String>, FsError>(FsError::NotADirectory),
                Some(NodeType::Directory) => r is Ok,
            },
            r matches Ok(names) ==> match self.path_class(path@) {
                PathClass::Root => forall|x: Seq<char>|
                    #[trigger] segs(names@).contains(x) <==> find_entry(
                        self.tree(),
                        seq![x],
                    ) is Some,
                PathClass::Stored(parts) => forall|x: Seq<char>|
                    #[trigger] segs(names@).contains(x) <==> find_entry(
                        self.tree(),
                        parts.push(x),
                    ) is Some,
                _ => true,
            },
    {
        match self.get(path) {
            None => Err(FsError::PathNotFound),
            Some(Node::Directory(d)) => {
                let names = d.list();
                proof {
                    assert forall|x: Seq<char>| #![auto] Seq::<Seq<char>>::empty().push(x) == seq![x] by {
                        assert(Seq::<Seq<char>>::empty().push(x) =~= seq![x]);
                    }
                }
                Ok(names)
            },
            Some(Node::Proc(p)) => Ok(p.list()),
            Some(Node::Dev(dd)) => Ok(dd.list()),
            Some(Node::Network(n)) => Ok(n.list()),
            Some(_) => Err(FsError::NotADirectory),
        }
    }

    /// Creating a node whose parent path leads to a directory keeps the
    /// stored nodes a tree.
    proof fn lemma_create_keeps_wf(&self, path: Seq<char>, content: Option<Seq<u8>>)
        requires
            self.wf(),
            split_spec(path).len() > 0,
            self.kind_at(absolute(split_spec(path).drop_last())) == Some(NodeType::Directory),
        ensures
            tree_wf(self.tree_after_create(path, content)),
    {
        let parts = split_spec(path);
        let pd = parts.drop_last();
        let pp = absolute(pd);
        lemma_split_valid(path);
        assert forall|i: int| 0 <= i < pd.len() implies valid_seg(#[trigger] pd[i]) by {
            assert(pd[i] == parts[i]);
        }
        lemma_split_absolute(pd);
        if self.stores_under(pp) {
            if pd.len() > 0 {
                assert(pp != "/"@) by {
                    reveal_strlit("/");
                    lemma_split_absolute(Seq::<Seq<char>>::empty());
                    assert(absolute(Seq::<Seq<char>>::empty()) =~= "/"@);
                }
                assert(self.path_class(pp) == PathClass::Stored(pd));
            }
            lemma_store_keeps_placed(self.tree(), parts, content);
        }
    }

    /// Whether a node created under parent path `p` is stored: the parent is
    /// the root or a stored directory, not a synthetic mount.
    pub open spec fn stores_under(&self, p: Seq<char>) -> bool {
        self.path_class(p) is Root || self.path_class(p) is Stored
    }

    /// Whether `r` is what creating a node at `path` reports.
    pub open spec fn create_outcome<T>(&self, path: Seq<char>, r: Result<T, FsError>) -> bool {
        let parts = split_spec(path);
        if parts.len() == 0 {
            r == Err::<T, FsError>(FsError::InvalidPath)
        } else {
            match self.kind_at(absolute(parts.drop_last())) {
                None => r == Err::<T, FsError>(FsError::ParentNotFound),
                Some(NodeType::File) => r == Err::<T, FsError>(FsError::ParentNotDirectory),
                Some(NodeType::Directory) => r is Ok,
            }
        }
    }

    /// The stored nodes after creating one at `path` holding `content`.
    pub open spec fn tree_after_create(
        &self,
        path: Seq<char>,
        content: Option<Seq<u8>>,
    ) -> Seq<EntryView> {
        let parts = split_spec(path);
        if self.stores_under(absolute(parts.drop_last())) {
            without_subtree(self.tree(), parts).push((parts, content))
        } else {
            self.tree()
        }
    }

    /// Splits `path` and checks that its parent is a directory. Gives the
    /// segments and whether the parent is stored rather than synthetic.
    fn resolve_parent(&self, path: &str) -> (r: Result<(Vec<String>, bool), FsError>)
        ensures
            self.create_outcome(path@, r),
            r matches Ok((parts, stored)) ==> segs(parts@) == split_spec(path@) && parts@.len() > 0
                && stored == self.stores_under(absolute(segs(parts@).drop_last())),
    {
        let parts = split_path(path);
        if parts.len() == 0 {
            return Err(FsError::InvalidPath);
        }
        let mut parent: Vec<String> = Vec::new();
        let mut i: usize = 0;
        while i < parts.len() - 1
            invariant
                parts@.len() > 0,
                i <= parts@.len() - 1,
                segs(parent@) == segs(parts@).subrange(0, i as int),
            decreases parts@.len() - 1 - i,
        {
            let ghost prev = parent@;
            parent.push(parts[i].clone());
            i = i + 1;
            assert(segs(parent@) =~= segs(parts@).subrange(0, i as int)) by {
                assert(segs(parent@) =~= segs(prev).push(parts@[i - 1]@));
            }
        }
        assert(segs(parent@) =~= segs(parts@).drop_last());
        let parent_path = join_absolute(&parent);
        let found = self.get(parent_path.as_str());
        match found {
            None => Err(FsError::ParentNotFound),
            Some(node) => {
                if node.node_type() != NodeType::Directory {
                    Err(FsError::ParentNotDirectory)
                } else {
                    let stored = match node {
                        Node::Directory(_) => true,
                        _ => false,
                    };
                    Ok((parts, stored))
                }
            },
        }
    }

    /// Stores a node at `parts`, replacing whatever was stored at or below
    /// that path.
    fn store(&mut self, parts: Vec<String>, content: Option<Vec<u8>>)
        ensures
            final(self).tree() == without_subtree(old(self).tree(), segs(parts@)).push(
                entry_view(Entry { path: parts, content }),
            ),
            final(self).proc_mount() == old(self).proc_mount(),
            final(self).dev_mounted() == old(self).dev_mounted(),
            final(self).network_mount() == old(self).network_mount(),
    {
        let ghost p = segs(parts@);
        let mut rest: Vec<Entry> = Vec::new();
        std::mem::swap(&mut rest, &mut self.entries);
        let ghost o = rest@.map_values(|e: Entry| entry_view(e));
        assert(o == old(self).tree());
        let mut kept: Vec<Entry> = Vec::new();
        let ghost n = rest@.len() as int;
        while rest.len() > 0
            invariant
                n == o.len(),
                p == segs(parts@),
                rest@.len() <= n,
                forall|j: int|
                    0 <= j < rest@.len() ==> #[trigger] entry_view(rest@[j]) == o[n - rest@.len() + j],
                kept@.map_values(|e: Entry| entry_view(e)) == without_subtree(
                    o.subrange(0, n - rest@.len()),
                    p,
                ),
            decreases rest@.len(),
        {
            let ghost before = kept@.map_values(|e: Entry| entry_view(e));
            let ghost m = n - rest@.len();
            let ghost r0 = rest@;
            let e = rest.remove(0);
            assert(entry_view(e) == o[m]);
            assert forall|j: int| 0 <= j < rest@.len() implies #[trigger] entry_view(rest@[j])
                == o[n - rest@.len() + j] by {
                assert(rest@[j] == r0[j + 1]);
            }
            let ghost t = o.subrange(0, m + 1);
            assert(t.drop_last() =~= o.subrange(0, m));
            assert(t.last() == o[m]);
            assert(entry_view(e).0 == segs(e.path@));
            assert(n - rest@.len() == m + 1);
            assert(o.subrange(0, n - rest@.len()) == t);
            let under = starts_with_segs(&e.path, &parts);
            assert(under == seg_prefix(p, t.last().0));
            if !under {
                kept.push(e);
                assert(kept@.map_values(|e: Entry| entry_view(e)) =~= before.push(entry_view(e)));
            } else {
                assert(t.len() > 0);
                assert(without_subtree(t, p) == without_subtree(t.drop_last(), p));
            }
        }
        assert(o.subrange(0, n as int) =~= o);
        let ghost before = kept@.map_values(|e: Entry| entry_view(e));
        let entry = Entry { path: parts, content };
        let ghost ev = entry_view(entry);
        kept.push(entry);
        assert(kept@.map_values(|e: Entry| entry_view(e)) =~= before.push(ev));
        self.entries = kept;
    }

    /// Creates an empty file at `path`, replacing any node of that name.
    pub fn create_file(&mut self, path: &str) -> (r: Result<File, FsError>)
        ensures
            old(self).create_outcome(path@, r),
            r matches Ok(f) ==> f.name@ == split_spec(path@).last() && f.content@.len() == 0,
            r is Ok ==> final(self).tree() == old(self).tree_after_create(path@, Some(seq![])),
            r is Err ==> final(self).tree() == old(self).tree(),
            final(self).proc_mount() == old(self).proc_mount(),
            final(self).dev_mounted() == old(self).dev_mounted(),
            final(self).network_mount() == old(self).network_mount(),
            old(self).wf() ==> final(self).wf(),
    {
        match self.resolve_parent(path) {
            Ok((parts, stored)) => {
                let name = parts[parts.len() - 1].clone();
                assert(name@ == segs(parts@).last());
                proof {
                    if old(self).wf() {
                        old(self).lemma_create_keeps_wf(path@, Some(seq![]));
                    }
                }
                if stored {
                    let empty: Vec<u8> = Vec::new();
                    assert(empty@ =~= seq![]);
                    self.store(parts, Some(empty));
                }
                Ok(File { name, content: Vec::new() })
            },
            Err(e) => Err(e),
        }
    }

    /// Creates an empty directory at `path`, replacing any node of that name
    /// and everything below it.
    pub fn create_dir(&mut self, path: &str) -> (r: Result<Directory, FsError>)
        ensures
            old(self).create_outcome(path@, r),
            r matches Ok(d) ==> d.name@ == split_spec(path@).last() && d.children@.len() == 0,
            r is Ok ==> final(self).tree() == old(self).tree_after_create(path@, None),
            r is Err ==> final(self).tree() == old(self).tree(),
            final(self).proc_mount() == old(self).proc_mount(),
            final(self).dev_mounted() == old(self).dev_mounted(),
            final(self).network_mount() == old(self).network_mount(),
            old(self).wf() ==> final(self).wf(),
    {
        match self.resolve_parent(path) {
            Ok((parts, stored)) => {
                let name = parts[parts.len() - 1].clone();
                assert(name@ == segs(parts@).last());
                proof {
                    if old(self).wf() {
                        old(self).lemma_create_keeps_wf(path@, None);
                    }
                }
                if stored {
                    self.store(parts, None);
                }
                Ok(Directory { name, children: Vec::new() })
            },
            Err(e) => Err(e),
        }
    }

    /// Appends `data` to the file at `path`. Stored files keep what is
    /// written; synthetic files drop it.
    pub fn write_file(&mut self, path: &str, data: &[u8]) -> (r: Result<(), FsError>)
        ensures
            match old(self).kind_at(path@) {
                None => r == Err::<(), FsError>(FsError::PathNotFound),
                Some(NodeType::Directory) => r == Err::<(), FsError>(FsError::NotAFile),
                Some(NodeType::File) => r is Ok,
            },
            match old(self).path_class(path@) {
                PathClass::Stored(parts) => match find_entry(old(self).tree(), parts) {
                    Some(Some(c)) => forall|q: Seq<Seq<char>>|
                        #[trigger] find_entry(final(self).tree(), q) == if q == parts {
                            Some(Some(c + data@))
                        } else {
                            find_entry(old(self).tree(), q)
                        },
                    _ => final(self).tree() == old(self).tree(),
                },
                _ => final(self).tree() == old(self).tree(),
            },
            final(self).proc_mount() == old(self).proc_mount(),
            final(self).dev_mounted() == old(self).dev_mounted(),
            final(self).network_mount() == old(self).network_mount(),
            old(self).wf() ==> final(self).wf(),
    {
        let found = self.get(path);
        match found {
            None => Err(FsError::PathNotFound),
            Some(Node::File(_)) => {
                let parts = split_path(path);
                match self.find(&parts) {
                    Some(k) => {
                        let ghost o = self.tree();
                        let ghost p = segs(parts@);
                        let mut e = self.entries.remove(k);
                        let ghost ev0 = entry_view(e);
                        assert(ev0 == o[k as int]);
                        match e.content {
                            Some(ref mut c) => {
                                let mut i: usize = 0;
                                let ghost c0 = c@;
                                while i < data.len()
                                    invariant
                                        i <= data@.len(),
                                        c@ == c0 + data@.subrange(0, i as int),
                                    decreases data@.len() - i,
                                {
                                    c.push(data[i]);
                                    i = i + 1;
                                    assert(c@ =~= c0 + data@.subrange(0, i as int));
                                }
                                assert(data@.subrange(0, i as int) =~= data@);
                            },
                            None => {},
                        }
                        let ghost ev1 = entry_view(e);
                        self.entries.insert(k, e);
                        proof {
                            assert(self.tree() =~= o.update(k as int, (o[k as int].0, ev1.1)));
                            assert forall|q: Seq<Seq<char>>|
                                #[trigger] find_entry(self.tree(), q) == if q == p {
                                    Some(ev1.1)
                                } else {
                                    find_entry(o, q)
                                } by {
                                lemma_find_entry_update(o, k as int, ev1.1, q);
                            }
                            if old(self).wf() {
                                if ev1.1 is Some {
                                    lemma_write_keeps_placed(o, k as int, ev1.1);
                                } else {
                                    assert(ev1 == ev0);
                                    assert(o.update(k as int, (o[k as int].0, ev1.1)) =~= o);
                                }
                            }
                        }
                        Ok(())
                    },
                    None => Ok(()),
                }
            },
            Some(node) => {
                if node.node_type() == NodeType::Directory {
                    Err(FsError::NotAFile)
                } else {
                    Ok(())
                }
            },
        }
    }
}

/// After a node is created at a path that leads into the stored tree, under
/// a parent in that tree, a lookup of that path finds it: a directory named by the last segment with
/// no children, or a file named so whose contents are those it was created
/// with.
pub proof fn lemma_created_node_found(
    before: FileSystem,
    after: FileSystem,
    path: Seq<char>,
    content: Option<Seq<u8>>,
    r: Option<Node>,
)
    requires
        before.path_class(path) is Stored,
        before.stores_under(absolute(split_spec(path).drop_last())),
        after.tree() == before.tree_after_create(path, content),
        after.proc_mount() == before.proc_mount(),
        after.dev_mounted() == before.dev_mounted(),
        after.network_mount() == before.network_mount(),
        after.found(path, r),
    ensures
        content is None ==> (r matches Some(Node::Directory(d)) && d.name@ == split_spec(path).last()
            && forall|x: Seq<char>| !(#[trigger] d.child_names().contains(x))),
        content matches Some(c) ==> (r matches Some(Node::File(f)) && f.name@ == split_spec(
            path,
        ).last() && f.content@ == c),
{
    let parts = split_spec(path);
    assert(after.path_class(path) == before.path_class(path));
    let t = after.tree();
    assert(t.last() == (parts, content));
    assert(find_entry(t, parts) == Some(content));
    if content is None {
        assert forall|x: Seq<char>| find_entry(t, parts.push(x)) is None by {
            assert(parts.push(x) != parts);
            assert(t.drop_last() == without_subtree(before.tree(), parts));
            lemma_without_subtree(before.tree(), parts, parts.push(x));
            assert(parts.push(x).subrange(0, parts.len() as int) =~= parts);
        }
    }
}

} // verus!
